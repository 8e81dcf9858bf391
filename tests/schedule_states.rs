use schedule_states::{
    driver, driver_run_enter, driver_run_exit, Action, NextState, Phase, ScheduleStates,
    StateHost, StatePlugin, Step, MAX_SETTLE_ROUNDS,
};

#[derive(PartialEq, Eq, Hash, Clone, Copy, Debug)]
enum States {
    StateA,
    StateB,
}

#[derive(Default, Eq, PartialEq, Debug)]
struct Counts {
    pub enters: u32,
    pub updates: u32,
    pub exits: u32,
}

enum CountSystem {
    Enter(States),
    Update(States),
    Exit(States),
    Request(States),
}

#[derive(Default)]
struct CountWorld {
    a: Counts,
    b: Counts,
}

impl CountWorld {
    fn counts(&mut self, state: States) -> &mut Counts {
        match state {
            States::StateA => &mut self.a,
            States::StateB => &mut self.b,
        }
    }
}

impl StateHost<States, CountSystem, ()> for CountWorld {
    fn run_system(&mut self, system: &CountSystem, _state: States, next: &mut NextState<States>) {
        match system {
            CountSystem::Enter(s) => self.counts(*s).enters += 1,
            CountSystem::Update(s) => self.counts(*s).updates += 1,
            CountSystem::Exit(s) => self.counts(*s).exits += 1,
            CountSystem::Request(s) => next.set(*s),
        }
    }

    fn run_nested_enter(&mut self, _child: &()) {
        unreachable!()
    }

    fn run_nested_drive(&mut self, _child: &()) {
        unreachable!()
    }

    fn run_nested_exit(&mut self, _child: &()) {
        unreachable!()
    }
}

#[test]
fn simple_states() {
    let mut world = CountWorld::default();

    let mut states = ScheduleStates::new(States::StateA);
    states.with_state_enter(States::StateA, CountSystem::Enter(States::StateA));
    states.with_state_update(States::StateA, CountSystem::Update(States::StateA));
    states.with_state_exit(States::StateA, CountSystem::Exit(States::StateA));
    // configure systems to count state B
    states.with_state_enter(States::StateB, CountSystem::Enter(States::StateB));
    states.with_state_update(States::StateB, CountSystem::Update(States::StateB));
    states.with_state_exit(States::StateB, CountSystem::Exit(States::StateB));

    let mut next_state = NextState::<States>::default();

    driver(&mut states, &mut next_state, &mut world);

    assert_eq!(
        world.a,
        Counts {
            enters: 1,
            updates: 1,
            exits: 0
        }
    );

    states.with_state_update(States::StateA, CountSystem::Request(States::StateB));

    driver(&mut states, &mut next_state, &mut world);

    assert_eq!(
        world.a,
        Counts {
            enters: 1,
            updates: 2,
            exits: 1
        }
    );
    assert_eq!(
        world.b,
        Counts {
            enters: 1,
            updates: 1,
            exits: 0
        }
    );
}

// A host that records every system it runs, by label.

#[derive(PartialEq, Eq, Hash, Clone, Copy, Debug)]
enum Key {
    A,
    B,
    C,
    X,
    Y,
}

enum Sys {
    Log(&'static str),
    /// Logs, and requests `target` on its `nth` invocation.
    LogRequestOn(&'static str, u32, Key),
    /// Requests a state other than the one it runs in, every time.
    Flip,
}

#[derive(Default)]
struct Recorder {
    log: Vec<String>,
    calls: u32,
}

impl StateHost<Key, Sys, ()> for Recorder {
    fn run_system(&mut self, system: &Sys, state: Key, next: &mut NextState<Key>) {
        match system {
            Sys::Log(label) => self.log.push(label.to_string()),
            Sys::LogRequestOn(label, nth, target) => {
                self.log.push(label.to_string());
                self.calls += 1;
                if self.calls == *nth {
                    next.set(*target);
                }
            }
            Sys::Flip => next.set(if state == Key::A { Key::B } else { Key::A }),
        }
    }

    fn run_nested_enter(&mut self, _child: &()) {
        self.log.push("nested enter".to_string());
    }

    fn run_nested_drive(&mut self, _child: &()) {
        self.log.push("nested drive".to_string());
    }

    fn run_nested_exit(&mut self, _child: &()) {
        self.log.push("nested exit".to_string());
    }
}

fn logged(states: &mut ScheduleStates<Key, Sys, ()>, key: Key, name: &'static str) {
    let labels: [&'static str; 3] = match name {
        "A" => ["enter(A)", "update(A)", "exit(A)"],
        "B" => ["enter(B)", "update(B)", "exit(B)"],
        "X" => ["enter(X)", "update(X)", "exit(X)"],
        _ => ["enter(Y)", "update(Y)", "exit(Y)"],
    };
    states.with_state_enter(key, Sys::Log(labels[0]));
    states.with_state_update(key, Sys::Log(labels[1]));
    states.with_state_exit(key, Sys::Log(labels[2]));
}

fn step(phase: Phase, state: Key) -> Step<Key> {
    Step { phase, state }
}

fn drain(host: &mut Recorder) -> Vec<String> {
    std::mem::take(&mut host.log)
}

#[test]
fn first_drive_enters_then_updates() {
    let mut states = ScheduleStates::new(Key::A);
    logged(&mut states, Key::A, "A");
    let mut next = NextState::new();
    let mut host = Recorder::default();

    let steps = driver(&mut states, &mut next, &mut host);

    assert_eq!(steps, vec![step(Phase::Enter, Key::A), step(Phase::Update, Key::A)]);
    assert_eq!(drain(&mut host), vec!["enter(A)", "update(A)"]);
    assert_eq!(states.current_state(), Key::A);
    assert_eq!(next.pending(), None);
}

#[test]
fn later_drive_only_updates() {
    let mut states = ScheduleStates::new(Key::A);
    logged(&mut states, Key::A, "A");
    let mut next = NextState::new();
    let mut host = Recorder::default();

    driver(&mut states, &mut next, &mut host);
    drain(&mut host);
    let steps = driver(&mut states, &mut next, &mut host);

    assert_eq!(steps, vec![step(Phase::Update, Key::A)]);
    assert_eq!(drain(&mut host), vec!["update(A)"]);
}

#[test]
fn same_state_request_only_updates() {
    let mut states = ScheduleStates::new(Key::A);
    logged(&mut states, Key::A, "A");
    let mut next = NextState::new();
    let mut host = Recorder::default();

    driver(&mut states, &mut next, &mut host);
    drain(&mut host);
    next.set(Key::A);
    let steps = driver(&mut states, &mut next, &mut host);

    assert_eq!(steps, vec![step(Phase::Update, Key::A)]);
    assert_eq!(drain(&mut host), vec!["update(A)"]);
    assert_eq!(states.current_state(), Key::A);
    assert_eq!(next.pending(), None);
}

#[test]
fn request_before_first_drive_suppresses_exit() {
    let mut states = ScheduleStates::new(Key::A);
    logged(&mut states, Key::A, "A");
    logged(&mut states, Key::B, "B");
    let mut next = NextState::new();
    let mut host = Recorder::default();

    next.set(Key::B);
    let steps = driver(&mut states, &mut next, &mut host);

    assert_eq!(steps, vec![step(Phase::Enter, Key::B), step(Phase::Update, Key::B)]);
    assert_eq!(drain(&mut host), vec!["enter(B)", "update(B)"]);
    assert_eq!(states.current_state(), Key::B);
}

#[test]
fn cascade_on_third_update() {
    let mut states = ScheduleStates::new(Key::A);
    states.with_state_enter(Key::A, Sys::Log("enter(A)"));
    states.with_state_update(Key::A, Sys::LogRequestOn("update(A)", 3, Key::B));
    states.with_state_exit(Key::A, Sys::Log("exit(A)"));
    logged(&mut states, Key::B, "B");
    let mut next = NextState::new();
    let mut host = Recorder::default();

    driver(&mut states, &mut next, &mut host);
    assert_eq!(drain(&mut host), vec!["enter(A)", "update(A)"]);
    driver(&mut states, &mut next, &mut host);
    assert_eq!(drain(&mut host), vec!["update(A)"]);
    let steps = driver(&mut states, &mut next, &mut host);
    assert_eq!(
        drain(&mut host),
        vec!["update(A)", "exit(A)", "enter(B)", "update(B)"]
    );
    assert_eq!(
        steps,
        vec![
            step(Phase::Update, Key::A),
            step(Phase::Exit, Key::A),
            step(Phase::Enter, Key::B),
            step(Phase::Update, Key::B),
        ]
    );
    assert_eq!(states.current_state(), Key::B);
}

#[test]
fn overwritten_request_is_never_entered() {
    let mut states = ScheduleStates::new(Key::A);
    logged(&mut states, Key::A, "A");
    logged(&mut states, Key::X, "X");
    logged(&mut states, Key::Y, "Y");
    let mut next = NextState::new();
    let mut host = Recorder::default();

    driver(&mut states, &mut next, &mut host);
    drain(&mut host);
    next.set(Key::X);
    next.set(Key::Y);
    assert_eq!(next.pending(), Some(Key::Y));
    let steps = driver(&mut states, &mut next, &mut host);

    assert_eq!(drain(&mut host), vec!["exit(A)", "enter(Y)", "update(Y)"]);
    assert!(!steps.contains(&step(Phase::Enter, Key::X)));
    assert_eq!(states.current_state(), Key::Y);
}

#[test]
fn overwritten_request_before_first_drive() {
    let mut states = ScheduleStates::new(Key::A);
    logged(&mut states, Key::A, "A");
    logged(&mut states, Key::X, "X");
    logged(&mut states, Key::Y, "Y");
    let mut next = NextState::new();
    let mut host = Recorder::default();

    next.set(Key::X);
    next.set(Key::Y);
    driver(&mut states, &mut next, &mut host);

    assert_eq!(drain(&mut host), vec!["enter(Y)", "update(Y)"]);
    assert_eq!(states.current_state(), Key::Y);
}

#[test]
fn unregistered_state_runs_nothing() {
    let mut states: ScheduleStates<Key, Sys, ()> = ScheduleStates::new(Key::C);
    let mut next = NextState::new();
    let mut host = Recorder::default();

    let steps = driver(&mut states, &mut next, &mut host);
    assert_eq!(steps, vec![step(Phase::Enter, Key::C), step(Phase::Update, Key::C)]);
    assert!(host.log.is_empty());

    states.run_exit(&mut host, &mut next, Key::B);
    states.run_phase(&mut host, &mut next, Phase::Update, Key::Y);
    assert!(host.log.is_empty());
}

#[test]
fn registration_keeps_order_and_other_phases() {
    let mut states = ScheduleStates::new(Key::A);
    states.with_state_update(Key::A, Sys::Log("first"));
    states.with_state_enter(Key::A, Sys::Log("enter"));
    states.register(Key::A, Phase::Update, Action::System(Sys::Log("second")));
    states.with_state_update(Key::A, Sys::Log("third"));
    let mut next = NextState::new();
    let mut host = Recorder::default();

    states.run_update(&mut host, &mut next, Key::A);
    assert_eq!(drain(&mut host), vec!["first", "second", "third"]);
    states.run_enter(&mut host, &mut next, Key::A);
    assert_eq!(drain(&mut host), vec!["enter"]);
}

#[test]
fn endless_requests_stop_at_round_limit() {
    let mut states = ScheduleStates::new(Key::A);
    states.with_state_update(Key::A, Sys::Flip);
    states.with_state_update(Key::B, Sys::Flip);
    let mut next = NextState::new();
    let mut host = Recorder::default();

    let steps = driver(&mut states, &mut next, &mut host);

    // the first round enters and updates, every later one exits, enters and updates
    assert_eq!(steps.len(), 2 + 3 * (MAX_SETTLE_ROUNDS - 1));
    // the request made in the last round stays pending
    assert!(next.pending().is_some());
    let last = steps[steps.len() - 1];
    assert_eq!(last.phase, Phase::Update);
    assert_eq!(last.state, states.current_state());
}

#[test]
fn mailbox_overwrites_and_take_clears() {
    let mut next: NextState<Key> = NextState::default();
    assert_eq!(next.pending(), None);
    next.set(Key::X);
    next.set(Key::Y);
    assert_eq!(next.pending(), Some(Key::Y));
    assert_eq!(next.take(), Some(Key::Y));
    assert_eq!(next.take(), None);
    assert_eq!(next.pending(), None);
}

#[test]
fn plugin_builds_fresh_machine() {
    let plugin = StatePlugin::new(Key::B);
    assert_eq!(plugin.initial_state(), Key::B);
    let (mut states, mut next): (ScheduleStates<Key, Sys, ()>, NextState<Key>) = plugin.build();
    assert_eq!(states.current_state(), Key::B);
    assert_eq!(next.pending(), None);
    let mut host = Recorder::default();
    let steps = driver(&mut states, &mut next, &mut host);
    assert_eq!(steps, vec![step(Phase::Enter, Key::B), step(Phase::Update, Key::B)]);
}

// Nested machines: a parent keyed by `Outer`, a child keyed by `Inner`, both
// run by one host that owns the child and lends it out while it runs.

#[derive(PartialEq, Eq, Hash, Clone, Copy, Debug)]
enum Outer {
    Menu,
    Playing,
}

#[derive(PartialEq, Eq, Hash, Clone, Copy, Debug)]
enum Inner {
    Running,
    Paused,
}

#[derive(Clone, Copy, PartialEq, Eq, Debug)]
struct ChildId;

enum Label {
    Log(&'static str),
    Request(Inner),
}

struct Game {
    log: Vec<String>,
    child: Option<ScheduleStates<Inner, Label, ChildId>>,
    child_next: NextState<Inner>,
}

impl StateHost<Outer, Label, ChildId> for Game {
    fn run_system(&mut self, system: &Label, _state: Outer, _next: &mut NextState<Outer>) {
        if let Label::Log(label) = system {
            self.log.push(label.to_string());
        }
    }

    fn run_nested_enter(&mut self, _child: &ChildId) {
        let mut child = self.child.take().unwrap();
        let mut next = std::mem::take(&mut self.child_next);
        driver_run_enter::<Inner, Label, ChildId, Game>(&mut child, &mut next, self);
        self.child_next = next;
        self.child = Some(child);
    }

    fn run_nested_drive(&mut self, _child: &ChildId) {
        let mut child = self.child.take().unwrap();
        let mut next = std::mem::take(&mut self.child_next);
        driver::<Inner, Label, ChildId, Game>(&mut child, &mut next, self);
        self.child_next = next;
        self.child = Some(child);
    }

    fn run_nested_exit(&mut self, _child: &ChildId) {
        let mut child = self.child.take().unwrap();
        let mut next = std::mem::take(&mut self.child_next);
        driver_run_exit::<Inner, Label, ChildId, Game>(&mut child, &mut next, self);
        self.child_next = next;
        self.child = Some(child);
    }
}

impl StateHost<Inner, Label, ChildId> for Game {
    fn run_system(&mut self, system: &Label, _state: Inner, next: &mut NextState<Inner>) {
        match system {
            Label::Log(label) => self.log.push(label.to_string()),
            Label::Request(target) => next.set(*target),
        }
    }

    fn run_nested_enter(&mut self, _child: &ChildId) {
        unreachable!()
    }

    fn run_nested_drive(&mut self, _child: &ChildId) {
        unreachable!()
    }

    fn run_nested_exit(&mut self, _child: &ChildId) {
        unreachable!()
    }
}

fn game() -> (ScheduleStates<Outer, Label, ChildId>, NextState<Outer>, Game) {
    let mut parent = ScheduleStates::new(Outer::Menu);
    parent.with_state_update(Outer::Menu, Label::Log("update(Menu)"));
    parent.with_state_enter(Outer::Playing, Label::Log("enter(Playing)"));
    parent.with_state_update(Outer::Playing, Label::Log("update(Playing)"));
    parent.with_state_exit(Outer::Playing, Label::Log("exit(Playing)"));
    parent.add_nested_driver_to_state(Outer::Playing, ChildId);

    let mut child = ScheduleStates::new(Inner::Running);
    child.with_state_enter(Inner::Running, Label::Log("enter(Running)"));
    child.with_state_update(Inner::Running, Label::Log("update(Running)"));
    child.with_state_exit(Inner::Running, Label::Log("exit(Running)"));
    child.with_state_enter(Inner::Paused, Label::Log("enter(Paused)"));
    child.with_state_update(Inner::Paused, Label::Log("update(Paused)"));
    child.with_state_exit(Inner::Paused, Label::Log("exit(Paused)"));

    let host = Game {
        log: Vec::new(),
        child: Some(child),
        child_next: NextState::new(),
    };
    (parent, NextState::new(), host)
}

#[test]
fn nested_enter_replays_child_state() {
    let (mut parent, mut next, mut host) = game();
    driver(&mut parent, &mut next, &mut host);
    host.log.clear();

    next.set(Outer::Playing);
    driver(&mut parent, &mut next, &mut host);

    assert_eq!(
        host.log,
        vec![
            "enter(Playing)",
            "enter(Running)",
            "update(Playing)",
            "enter(Running)",
            "update(Running)",
        ]
    );
    // the child's first drive entered its initial state; no exit happened
    assert!(!host.log.iter().any(|l| l.starts_with("exit")));
    assert_eq!(host.child.as_ref().unwrap().current_state(), Inner::Running);
}

#[test]
fn nested_exit_suspends_child_state() {
    let (mut parent, mut next, mut host) = game();
    next.set(Outer::Playing);
    driver(&mut parent, &mut next, &mut host);
    host.child_next.set(Inner::Paused);
    driver(&mut parent, &mut next, &mut host);
    assert_eq!(host.child.as_ref().unwrap().current_state(), Inner::Paused);
    host.log.clear();

    next.set(Outer::Menu);
    driver(&mut parent, &mut next, &mut host);

    assert_eq!(host.log, vec!["exit(Paused)", "exit(Playing)", "update(Menu)"]);
    assert_eq!(host.child.as_ref().unwrap().current_state(), Inner::Paused);
    assert_eq!(host.child_next.pending(), None);
}

#[test]
fn nested_resume_does_not_transition_child() {
    let (mut parent, mut next, mut host) = game();
    next.set(Outer::Playing);
    driver(&mut parent, &mut next, &mut host);
    host.child_next.set(Inner::Paused);
    driver(&mut parent, &mut next, &mut host);
    next.set(Outer::Menu);
    driver(&mut parent, &mut next, &mut host);
    host.log.clear();

    next.set(Outer::Playing);
    driver(&mut parent, &mut next, &mut host);

    assert_eq!(
        host.log,
        vec![
            "enter(Playing)",
            "enter(Paused)",
            "update(Playing)",
            "update(Paused)",
        ]
    );
}

#[test]
fn run_enter_and_exit_leave_machine_alone() {
    let (_, _, mut host) = game();
    let mut child = host.child.take().unwrap();
    let mut next = NextState::new();
    let entered = driver_run_enter::<Inner, Label, ChildId, Game>(&mut child, &mut next, &mut host);
    let exited = driver_run_exit::<Inner, Label, ChildId, Game>(&mut child, &mut next, &mut host);
    assert_eq!(entered, Step { phase: Phase::Enter, state: Inner::Running });
    assert_eq!(exited, Step { phase: Phase::Exit, state: Inner::Running });
    assert_eq!(host.log, vec!["enter(Running)", "exit(Running)"]);
    assert_eq!(child.current_state(), Inner::Running);
    assert_eq!(next.pending(), None);
}

#[test]
fn transition_to_unregistered_state() {
    let mut states = ScheduleStates::new(Key::A);
    logged(&mut states, Key::A, "A");
    let mut next = NextState::new();
    let mut host = Recorder::default();

    driver(&mut states, &mut next, &mut host);
    drain(&mut host);
    next.set(Key::C);
    let steps = driver(&mut states, &mut next, &mut host);

    assert_eq!(
        steps,
        vec![
            step(Phase::Exit, Key::A),
            step(Phase::Enter, Key::C),
            step(Phase::Update, Key::C),
        ]
    );
    assert_eq!(drain(&mut host), vec!["exit(A)"]);
    assert_eq!(states.current_state(), Key::C);
}

#[test]
fn nested_binding_orders_hooks_around_own_actions() {
    let mut states: ScheduleStates<Key, Sys, ()> = ScheduleStates::new(Key::A);
    logged(&mut states, Key::A, "A");
    states.add_nested_driver_to_state(Key::A, ());
    let mut next = NextState::new();
    let mut host = Recorder::default();

    states.with_state_enter(Key::A, Sys::Log("late enter(A)"));
    states.with_state_exit(Key::A, Sys::Log("late exit(A)"));

    states.run_enter(&mut host, &mut next, Key::A);
    assert_eq!(drain(&mut host), vec!["enter(A)", "nested enter", "late enter(A)"]);
    states.run_update(&mut host, &mut next, Key::A);
    assert_eq!(drain(&mut host), vec!["update(A)", "nested drive"]);
    states.run_exit(&mut host, &mut next, Key::A);
    assert_eq!(drain(&mut host), vec!["nested exit", "exit(A)", "late exit(A)"]);
    assert_eq!(states.current_state(), Key::A);
}
