use vstd::prelude::*;
use vstd::laws_eq::obeys_concrete_eq;

use crate::next_state::NextState;

verus! {

/// Largest number of settling rounds that one call of [`driver`] performs.
/// A request that is still pending after the last round stays in the
/// mailbox and is taken by the next call.
pub const MAX_SETTLE_ROUNDS: usize = 1024;

/// One of the three ordered stages of a state's lifecycle.
#[derive(Clone, Copy, PartialEq, Eq, Debug)]
pub enum Phase {
    Enter,
    Update,
    Exit,
}

/// One phase that was run for one state.
#[derive(Clone, Copy, PartialEq, Eq, Debug)]
pub struct Step<S> {
    pub phase: Phase,
    pub state: S,
}

/// An action registered in a phase schedule: either a system of the host,
/// or one of the three hooks that run a nested machine bound to the state.
#[derive(Clone, PartialEq, Eq, Debug)]
pub enum Action<U, H> {
    System(U),
    NestedEnter(H),
    NestedDrive(H),
    NestedExit(H),
}

/// One call that a machine made to its host: a system run for a state,
/// with the request the mailbox held when the system returned, or a nested
/// hook.
pub enum HostCall<S, U, H> {
    System(U, S, Option<S>),
    NestedEnter(H),
    NestedDrive(H),
    NestedExit(H),
}

/// The execution context that runs the actions of a phase.
///
/// `run_system` executes one system registered for `state`; the system may
/// request a transition through `next_state`. The nested hooks receive the
/// handle given to `add_nested_driver_to_state`; the host resolves it to the
/// child machine and calls `driver_run_enter`, `driver` or `driver_run_exit`
/// on that machine.
pub trait StateHost<S, U, H> {
    fn run_system(&mut self, system: &U, state: S, next_state: &mut NextState<S>);

    fn run_nested_enter(&mut self, child: &H);

    fn run_nested_drive(&mut self, child: &H);

    fn run_nested_exit(&mut self, child: &H);
}

/// The host call that runs `action` for `state`; `left` is the request the
/// mailbox holds after a system.
pub open spec fn host_call<S, U, H>(action: Action<U, H>, state: S, left: Option<S>) -> HostCall<S, U, H> {
    match action {
        Action::System(system) => HostCall::System(system, state, left),
        Action::NestedEnter(child) => HostCall::NestedEnter(child),
        Action::NestedDrive(child) => HostCall::NestedDrive(child),
        Action::NestedExit(child) => HostCall::NestedExit(child),
    }
}

/// The request that a system call left in the mailbox.
pub open spec fn request_left<S, U, H>(call: HostCall<S, U, H>) -> Option<S> {
    match call {
        HostCall::System(_, _, left) => left,
        _ => None,
    }
}

/// Each action, paired with the state it runs for.
pub open spec fn tagged<S, U, H>(actions: Seq<Action<U, H>>, state: S) -> Seq<(Action<U, H>, S)> {
    actions.map_values(|a: Action<U, H>| (a, state))
}

/// `calls` run the planned actions one for one, in order.
pub open spec fn runs<S, U, H>(calls: Seq<HostCall<S, U, H>>, planned: Seq<(Action<U, H>, S)>) -> bool {
    &&& calls.len() == planned.len()
    &&& forall|i: int|
        0 <= i < calls.len() ==> #[trigger] calls[i] == host_call(
            planned[i].0,
            planned[i].1,
            request_left(calls[i]),
        )
}

/// The mailbox after `calls`, starting from `start`: a system call leaves
/// what it recorded, a nested hook leaves the mailbox alone.
pub open spec fn mailbox_after<S, U, H>(calls: Seq<HostCall<S, U, H>>, start: Option<S>) -> Option<S>
    decreases calls.len(),
{
    if calls.len() == 0 {
        start
    } else {
        match calls.last() {
            HostCall::System(_, _, left) => left,
            _ => mailbox_after(calls.drop_last(), start),
        }
    }
}

/// `after` is `before` followed by calls that run `actions` for `state`,
/// which took the mailbox from `start` to `end`.
pub open spec fn ran_phase<S, U, H>(
    before: Seq<HostCall<S, U, H>>,
    after: Seq<HostCall<S, U, H>>,
    actions: Seq<Action<U, H>>,
    state: S,
    start: Option<S>,
    end: Option<S>,
) -> bool {
    &&& after == before + after.skip(before.len() as int)
    &&& runs(after.skip(before.len() as int), tagged(actions, state))
    &&& end == mailbox_after(after.skip(before.len() as int), start)
}

/// Concatenation of per-round call logs, in order.
pub open spec fn joined<T>(logs: Seq<Seq<T>>) -> Seq<T>
    decreases logs.len(),
{
    if logs.len() == 0 {
        Seq::empty()
    } else {
        joined(logs.drop_last()) + logs.last()
    }
}

pub open spec fn enter_step<S>(state: S) -> Step<S> {
    Step { phase: Phase::Enter, state }
}

pub open spec fn update_step<S>(state: S) -> Step<S> {
    Step { phase: Phase::Update, state }
}

pub open spec fn exit_step<S>(state: S) -> Step<S> {
    Step { phase: Phase::Exit, state }
}

/// The phases run by one settling round of a machine at `current`, given
/// the request taken from the mailbox. The exit of the old state is skipped
/// while the machine has never been entered, and a request for the state
/// that is already active re-runs its update only.
pub open spec fn round_steps<S>(current: S, first_run: bool, pending: Option<S>) -> Seq<Step<S>> {
    match pending {
        None => if first_run {
            seq![enter_step(current), update_step(current)]
        } else {
            seq![update_step(current)]
        },
        Some(target) => if first_run {
            seq![enter_step(target), update_step(target)]
        } else if target == current {
            seq![update_step(current)]
        } else {
            seq![exit_step(current), enter_step(target), update_step(target)]
        },
    }
}

/// The state a machine is in after a settling round.
pub open spec fn round_target<S>(current: S, pending: Option<S>) -> S {
    match pending {
        Some(target) => target,
        None => current,
    }
}

/// The state after settling rounds for the requests `reqs`, in order.
pub open spec fn settle_current<S>(current: S, reqs: Seq<Option<S>>) -> S
    decreases reqs.len(),
{
    if reqs.len() == 0 {
        current
    } else {
        round_target(settle_current(current, reqs.drop_last()), reqs.last())
    }
}

/// The phases run by settling rounds for the requests `reqs`, in order,
/// starting from `current` and `first_run`.
pub open spec fn settle_trace<S>(current: S, first_run: bool, reqs: Seq<Option<S>>) -> Seq<Step<S>>
    decreases reqs.len(),
{
    if reqs.len() == 0 {
        Seq::empty()
    } else {
        let prev = reqs.drop_last();
        settle_trace(current, first_run, prev) + round_steps(
            settle_current(current, prev),
            first_run && prev.len() == 0,
            reqs.last(),
        )
    }
}

/// The requests that one call of [`driver`] consumed: the one pending when
/// it was called, then one for each further round, each a real request;
/// the call stops when the mailbox is empty or the round limit is reached.
pub open spec fn settle_requests<S>(reqs: Seq<Option<S>>, first: Option<S>, left: Option<S>) -> bool {
    &&& 1 <= reqs.len() <= MAX_SETTLE_ROUNDS
    &&& reqs[0] == first
    &&& forall|i: int| 0 < i < reqs.len() ==> (#[trigger] reqs[i]).is_some()
    &&& (left.is_none() || reqs.len() == MAX_SETTLE_ROUNDS)
}

/// The schedules of one state.
struct StateSchedules<S, U, H> {
    state: S,
    enter: Vec<Action<U, H>>,
    update: Vec<Action<U, H>>,
    exit: Vec<Action<U, H>>,
}

impl<S, U, H> StateSchedules<S, U, H> {
    spec fn actions(&self, phase: Phase) -> Seq<Action<U, H>> {
        match phase {
            Phase::Enter => self.enter@,
            Phase::Update => self.update@,
            Phase::Exit => self.exit@,
        }
    }

    fn actions_of(&self, phase: Phase) -> (r: &Vec<Action<U, H>>)
        ensures
            r@ == self.actions(phase),
    {
        match phase {
            Phase::Enter => &self.enter,
            Phase::Update => &self.update,
            Phase::Exit => &self.exit,
        }
    }
}

/// The phase schedules of a state machine, with its current state.
pub struct ScheduleStates<S, U, H> {
    current_state: S,
    first_run: bool,
    states: Vec<StateSchedules<S, U, H>>,
    calls_made: Ghost<Seq<HostCall<S, U, H>>>,
}

impl<S: Copy + PartialEq, U, H> ScheduleStates<S, U, H> {
    /// Each state has at most one set of schedules.
    pub closed spec fn wf(&self) -> bool {
        forall|i: int, j: int|
            0 <= i < j < self.states@.len() ==> #[trigger] self.states@[i].state
                != #[trigger] self.states@[j].state
    }

    /// The state whose phases the driver runs.
    pub closed spec fn current(&self) -> S {
        self.current_state
    }

    /// True until the machine has entered a state for the first time.
    pub closed spec fn is_first_run(&self) -> bool {
        self.first_run
    }

    /// True once `state` has schedules, by registration or lookup.
    pub closed spec fn has_state(&self, state: S) -> bool {
        exists|i: int| 0 <= i < self.states@.len() && #[trigger] self.states@[i].state == state
    }

    spec fn slot(&self, state: S) -> int {
        choose|i: int| 0 <= i < self.states@.len() && #[trigger] self.states@[i].state == state
    }

    /// The actions registered for `phase` of `state`, in registration order;
    /// empty for a state that has none.
    pub closed spec fn schedule(&self, phase: Phase, state: S) -> Seq<Action<U, H>> {
        if self.has_state(state) {
            self.states@[self.slot(state)].actions(phase)
        } else {
            Seq::empty()
        }
    }

    /// Every call this machine has made to a host, in order.
    pub closed spec fn calls(&self) -> Seq<HostCall<S, U, H>> {
        self.calls_made@
    }

    /// The actions that running `steps` hands to the host, each with the
    /// state it runs for.
    pub open spec fn planned(&self, steps: Seq<Step<S>>) -> Seq<(Action<U, H>, S)>
        decreases steps.len(),
    {
        if steps.len() == 0 {
            Seq::empty()
        } else {
            self.planned(steps.drop_last()) + tagged(
                self.schedule(steps.last().phase, steps.last().state),
                steps.last().state,
            )
        }
    }

    /// A state without schedules has empty ones.
    pub proof fn lemma_schedule_without_state(&self, phase: Phase, state: S)
        requires
            !self.has_state(state),
        ensures
            self.schedule(phase, state) == Seq::<Action<U, H>>::empty(),
    {
    }

    proof fn lemma_slot(&self, i: int)
        requires
            self.wf(),
            0 <= i < self.states@.len(),
        ensures
            self.has_state(self.states@[i].state),
            self.slot(self.states@[i].state) == i,
    {
        let s = self.states@[i].state;
        assert(self.has_state(s));
        let j = self.slot(s);
        if j != i {
            if j < i {
                assert(self.states@[j].state != self.states@[i].state);
            } else {
                assert(self.states@[i].state != self.states@[j].state);
            }
        }
    }

    /// A machine at `initial_state` that has not entered it yet, with no
    /// schedules.
    pub fn new(initial_state: S) -> (r: Self)
        ensures
            r.wf(),
            r.current() == initial_state,
            r.is_first_run(),
            r.calls() == Seq::<HostCall<S, U, H>>::empty(),
            forall|s: S| !r.has_state(s),
            forall|p: Phase, s: S| #[trigger] r.schedule(p, s) == Seq::<Action<U, H>>::empty(),
    {
        ScheduleStates {
            current_state: initial_state,
            first_run: true,
            states: Vec::new(),
            calls_made: Ghost(Seq::empty()),
        }
    }

    /// The state the machine is in.
    pub fn current_state(&self) -> (r: S)
        ensures
            r == self.current(),
    {
        self.current_state
    }

    fn find(&self, state: S) -> (r: Option<usize>)
        requires
            self.wf(),
            obeys_concrete_eq::<S>(),
        ensures
            match r {
                Some(i) => i < self.states@.len() && self.states@[i as int].state == state,
                None => !self.has_state(state),
            },
    {
        proof {
            reveal(obeys_concrete_eq);
        }
        let mut i: usize = 0;
        while i < self.states.len()
            invariant
                i <= self.states@.len(),
                obeys_concrete_eq::<S>(),
                forall|k: int| 0 <= k < i ==> self.states@[k].state != state,
            decreases self.states@.len() - i,
        {
            proof {
                reveal(obeys_concrete_eq);
            }
            if self.states[i].state == state {
                return Some(i);
            }
            i = i + 1;
        }
        None
    }

    /// The slot of `state`, created with empty schedules if it has none.
    fn slot_of(&mut self, state: S) -> (r: usize)
        requires
            old(self).wf(),
            obeys_concrete_eq::<S>(),
        ensures
            final(self).wf(),
            r < final(self).states@.len(),
            final(self).states@[r as int].state == state,
            final(self).current_state == old(self).current_state,
            final(self).first_run == old(self).first_run,
            final(self).calls_made == old(self).calls_made,
            forall|s: S| #[trigger] final(self).has_state(s) == (old(self).has_state(s) || s == state),
            forall|p: Phase, s: S| #[trigger] final(self).schedule(p, s) == old(self).schedule(p, s),
    {
        match self.find(state) {
            Some(i) => i,
            None => {
                self.add_state(state);
                (self.states.len() - 1) as usize
            },
        }
    }

    /// Adds empty schedules for a state that has none.
    fn add_state(&mut self, new_state: S)
        requires
            old(self).wf(),
            !old(self).has_state(new_state),
        ensures
            final(self).wf(),
            final(self).states@.len() == old(self).states@.len() + 1,
            forall|i: int| 0 <= i < old(self).states@.len() ==> final(self).states@[i] == old(self).states@[i],
            final(self).states@.last().state == new_state,
            final(self).states@.last().enter@.len() == 0,
            final(self).states@.last().update@.len() == 0,
            final(self).states@.last().exit@.len() == 0,
            final(self).current_state == old(self).current_state,
            final(self).first_run == old(self).first_run,
            final(self).calls_made == old(self).calls_made,
            forall|s: S| #[trigger] final(self).has_state(s) == (old(self).has_state(s) || s == new_state),
            forall|p: Phase, s: S| #[trigger] final(self).schedule(p, s) == old(self).schedule(p, s),
    {
        let entry = StateSchedules {
            state: new_state,
            enter: Vec::new(),
            update: Vec::new(),
            exit: Vec::new(),
        };
        self.states.push(entry);
        proof {
            let o = old(self);
            let n = *self;
            let len = o.states@.len() as int;
            assert forall|i: int, j: int|
                0 <= i < j < n.states@.len() implies #[trigger] n.states@[i].state
                != #[trigger] n.states@[j].state by {
                if j == len {
                    assert(o.states@[i].state == n.states@[i].state);
                }
            }
            assert forall|s: S| #[trigger] n.has_state(s) == (o.has_state(s) || s == new_state) by {
                if o.has_state(s) {
                    let i = o.slot(s);
                    assert(n.states@[i].state == s);
                }
                if n.has_state(s) && s != new_state {
                    let i = n.slot(s);
                    assert(o.states@[i].state == s);
                }
                if s == new_state {
                    assert(n.states@[len].state == s);
                }
            }
            assert forall|p: Phase, s: S| #[trigger] n.schedule(p, s) == o.schedule(p, s) by {
                if n.has_state(s) {
                    let i = n.slot(s);
                    n.lemma_slot(i);
                    if i == len {
                        assert(n.schedule(p, s) =~= Seq::empty());
                    } else {
                        o.lemma_slot(i);
                    }
                }
            }
        }
    }

    /// Appends `action` to the `phase` schedule of `state`, creating empty
    /// schedules for `state` if it has none.
    pub fn register(&mut self, state: S, phase: Phase, action: Action<U, H>)
        requires
            old(self).wf(),
            obeys_concrete_eq::<S>(),
        ensures
            final(self).wf(),
            final(self).current() == old(self).current(),
            final(self).is_first_run() == old(self).is_first_run(),
            final(self).calls() == old(self).calls(),
            forall|s: S| #[trigger] final(self).has_state(s) == (old(self).has_state(s) || s == state),
            final(self).schedule(phase, state) == old(self).schedule(phase, state).push(action),
            forall|p: Phase, s: S|
                (p != phase || s != state) ==> #[trigger] final(self).schedule(p, s) == old(
                    self,
                ).schedule(p, s),
    {
        let i = self.slot_of(state);
        let ghost mid = *self;
        match phase {
            Phase::Enter => self.states[i].enter.push(action),
            Phase::Update => self.states[i].update.push(action),
            Phase::Exit => self.states[i].exit.push(action),
        }
        proof {
            self.lemma_edit_slot(mid, i as int, phase);
        }
    }

    /// Puts `action` first in the `phase` schedule of `state`, creating empty
    /// schedules for `state` if it has none.
    fn register_first(&mut self, state: S, phase: Phase, action: Action<U, H>)
        requires
            old(self).wf(),
            obeys_concrete_eq::<S>(),
        ensures
            final(self).wf(),
            final(self).current() == old(self).current(),
            final(self).is_first_run() == old(self).is_first_run(),
            final(self).calls() == old(self).calls(),
            forall|s: S| #[trigger] final(self).has_state(s) == (old(self).has_state(s) || s == state),
            final(self).schedule(phase, state) == seq![action] + old(self).schedule(phase, state),
            forall|p: Phase, s: S|
                (p != phase || s != state) ==> #[trigger] final(self).schedule(p, s) == old(
                    self,
                ).schedule(p, s),
    {
        let i = self.slot_of(state);
        let ghost mid = *self;
        match phase {
            Phase::Enter => self.states[i].enter.insert(0, action),
            Phase::Update => self.states[i].update.insert(0, action),
            Phase::Exit => self.states[i].exit.insert(0, action),
        }
        proof {
            assert(seq![action] + mid.states@[i as int].actions(phase) =~= mid.states@[i as int].actions(
                phase,
            ).insert(0, action));
            self.lemma_edit_slot(mid, i as int, phase);
        }
    }

    /// `self` is `before` with only the `phase` actions of slot `i` changed.
    proof fn lemma_edit_slot(&self, before: Self, i: int, phase: Phase)
        requires
            before.wf(),
            0 <= i < before.states@.len(),
            self.states@.len() == before.states@.len(),
            self.current_state == before.current_state,
            self.first_run == before.first_run,
            self.calls_made == before.calls_made,
            forall|j: int|
                0 <= j < self.states@.len() && j != i ==> self.states@[j] == before.states@[j],
            self.states@[i].state == before.states@[i].state,
            forall|p: Phase|
                p != phase ==> #[trigger] self.states@[i].actions(p) == before.states@[i].actions(p),
        ensures
            self.wf(),
            forall|s: S| #[trigger] self.has_state(s) == before.has_state(s),
            self.schedule(phase, before.states@[i].state) == self.states@[i].actions(phase),
            before.schedule(phase, before.states@[i].state) == before.states@[i].actions(phase),
            forall|p: Phase, s: S|
                (p != phase || s != before.states@[i].state) ==> #[trigger] self.schedule(p, s)
                    == before.schedule(p, s),
    {
        assert forall|a: int, b: int|
            0 <= a < b < self.states@.len() implies #[trigger] self.states@[a].state
            != #[trigger] self.states@[b].state by {
            assert(before.states@[a].state != before.states@[b].state);
        }
        assert forall|s: S| #[trigger] self.has_state(s) == before.has_state(s) by {
            if self.has_state(s) {
                let j = self.slot(s);
                assert(before.states@[j].state == s);
            }
            if before.has_state(s) {
                let j = before.slot(s);
                assert(self.states@[j].state == s);
            }
        }
        self.lemma_slot(i);
        before.lemma_slot(i);
        assert forall|p: Phase, s: S|
            (p != phase || s != before.states@[i].state) implies #[trigger] self.schedule(p, s)
            == before.schedule(p, s) by {
            if self.has_state(s) {
                let j = self.slot(s);
                self.lemma_slot(j);
                before.lemma_slot(j);
            }
        }
    }

    /// Registers `system` in the enter schedule of `state`.
    pub fn with_state_enter(&mut self, state: S, system: U)
        requires
            old(self).wf(),
            obeys_concrete_eq::<S>(),
        ensures
            final(self).wf(),
            final(self).current() == old(self).current(),
            final(self).is_first_run() == old(self).is_first_run(),
            final(self).calls() == old(self).calls(),
            forall|s: S| #[trigger] final(self).has_state(s) == (old(self).has_state(s) || s == state),
            final(self).schedule(Phase::Enter, state) == old(self).schedule(Phase::Enter, state).push(
                Action::System(system),
            ),
            forall|p: Phase, s: S|
                (p != Phase::Enter || s != state) ==> #[trigger] final(self).schedule(p, s) == old(
                    self,
                ).schedule(p, s),
    {
        self.register(state, Phase::Enter, Action::System(system));
    }

    /// Registers `system` in the update schedule of `state`.
    pub fn with_state_update(&mut self, state: S, system: U)
        requires
            old(self).wf(),
            obeys_concrete_eq::<S>(),
        ensures
            final(self).wf(),
            final(self).current() == old(self).current(),
            final(self).is_first_run() == old(self).is_first_run(),
            final(self).calls() == old(self).calls(),
            forall|s: S| #[trigger] final(self).has_state(s) == (old(self).has_state(s) || s == state),
            final(self).schedule(Phase::Update, state) == old(self).schedule(
                Phase::Update,
                state,
            ).push(Action::System(system)),
            forall|p: Phase, s: S|
                (p != Phase::Update || s != state) ==> #[trigger] final(self).schedule(p, s) == old(
                    self,
                ).schedule(p, s),
    {
        self.register(state, Phase::Update, Action::System(system));
    }

    /// Registers `system` in the exit schedule of `state`.
    pub fn with_state_exit(&mut self, state: S, system: U)
        requires
            old(self).wf(),
            obeys_concrete_eq::<S>(),
        ensures
            final(self).wf(),
            final(self).current() == old(self).current(),
            final(self).is_first_run() == old(self).is_first_run(),
            final(self).calls() == old(self).calls(),
            forall|s: S| #[trigger] final(self).has_state(s) == (old(self).has_state(s) || s == state),
            final(self).schedule(Phase::Exit, state) == old(self).schedule(Phase::Exit, state).push(
                Action::System(system),
            ),
            forall|p: Phase, s: S|
                (p != Phase::Exit || s != state) ==> #[trigger] final(self).schedule(p, s) == old(
                    self,
                ).schedule(p, s),
    {
        self.register(state, Phase::Exit, Action::System(system));
    }

    /// Binds the nested machine behind `child` to `state`: entering `state`
    /// replays the child's enter phase after the state's own enter actions,
    /// each update of `state` drives the child once, and exiting `state`
    /// runs the child's exit phase before the state's own exit actions.
    pub fn add_nested_driver_to_state(&mut self, state: S, child: H)
        where
            H: Copy,
        requires
            old(self).wf(),
            obeys_concrete_eq::<S>(),
        ensures
            final(self).wf(),
            final(self).current() == old(self).current(),
            final(self).is_first_run() == old(self).is_first_run(),
            final(self).calls() == old(self).calls(),
            forall|s: S| #[trigger] final(self).has_state(s) == (old(self).has_state(s) || s == state),
            final(self).schedule(Phase::Enter, state) == old(self).schedule(Phase::Enter, state).push(
                Action::NestedEnter(child),
            ),
            final(self).schedule(Phase::Update, state) == old(self).schedule(
                Phase::Update,
                state,
            ).push(Action::NestedDrive(child)),
            final(self).schedule(Phase::Exit, state) == seq![Action::<U, H>::NestedExit(child)]
                + old(self).schedule(Phase::Exit, state),
            forall|p: Phase, s: S|
                s != state ==> #[trigger] final(self).schedule(p, s) == old(self).schedule(p, s),
    {
        self.register(state, Phase::Enter, Action::NestedEnter(child));
        self.register(state, Phase::Update, Action::NestedDrive(child));
        self.register_first(state, Phase::Exit, Action::NestedExit(child));
    }

    /// Same current state, first-run flag and schedules as `other`.
    pub open spec fn keeps_machine(&self, other: Self) -> bool {
        &&& self.wf()
        &&& self.current() == other.current()
        &&& self.is_first_run() == other.is_first_run()
        &&& forall|s: S| #[trigger] self.has_state(s) == other.has_state(s)
        &&& forall|p: Phase, s: S| #[trigger] self.schedule(p, s) == other.schedule(p, s)
    }

    /// Runs the actions of the `phase` schedule of `state` against `host`,
    /// each once, in registration order, and records the calls. A state
    /// without schedules runs nothing.
    pub fn run_phase<C: StateHost<S, U, H>>(
        &mut self,
        host: &mut C,
        next_state: &mut NextState<S>,
        phase: Phase,
        state: S,
    )
        requires
            old(self).wf(),
            obeys_concrete_eq::<S>(),
        ensures
            final(self).keeps_machine(*old(self)),
            ran_phase(
                old(self).calls(),
                final(self).calls(),
                old(self).schedule(phase, state),
                state,
                old(next_state)@,
                final(next_state)@,
            ),
    {
        self.run_schedule(host, next_state, phase, state);
    }

    fn run_schedule<C: StateHost<S, U, H>>(
        &mut self,
        host: &mut C,
        next_state: &mut NextState<S>,
        phase: Phase,
        state: S,
    )
        requires
            old(self).wf(),
            obeys_concrete_eq::<S>(),
        ensures
            final(self).keeps_machine(*old(self)),
            final(self).states == old(self).states,
            final(self).current_state == old(self).current_state,
            final(self).first_run == old(self).first_run,
            ran_phase(
                old(self).calls(),
                final(self).calls(),
                old(self).schedule(phase, state),
                state,
                old(next_state)@,
                final(next_state)@,
            ),
    {
        let ghost before = self.calls();
        let ghost start = next_state@;
        let ghost old_states = self.states;
        let ghost mut seg: Seq<HostCall<S, U, H>> = Seq::empty();
        match self.find(state) {
            None => {
                proof {
                    assert(self.calls().skip(before.len() as int) =~= seg);
                    assert(tagged(self.schedule(phase, state), state) =~= Seq::empty());
                }
            },
            Some(i) => {
                proof {
                    self.lemma_slot(i as int);
                }
                let ghost sched = self.schedule(phase, state);
                let actions = self.states[i].actions_of(phase);
                let mut k: usize = 0;
                while k < actions.len()
                    invariant
                        k <= actions@.len(),
                        actions@ == sched,
                        self.states == old_states,
                        self.current_state == old(self).current_state,
                        self.first_run == old(self).first_run,
                        self.calls() == before + seg,
                        runs(seg, tagged(actions@.take(k as int), state)),
                        next_state@ == mailbox_after(seg, start),
                    decreases actions@.len() - k,
                {
                    let ghost seg0 = seg;
                    let ghost mb0 = next_state@;
                    match &actions[k] {
                        Action::System(system) => {
                            host.run_system(system, state, next_state);
                            self.calls_made = Ghost(
                                self.calls_made@.push(HostCall::System(*system, state, next_state@)),
                            );
                        },
                        Action::NestedEnter(child) => {
                            host.run_nested_enter(child);
                            self.calls_made = Ghost(self.calls_made@.push(HostCall::NestedEnter(*child)));
                        },
                        Action::NestedDrive(child) => {
                            host.run_nested_drive(child);
                            self.calls_made = Ghost(self.calls_made@.push(HostCall::NestedDrive(*child)));
                        },
                        Action::NestedExit(child) => {
                            host.run_nested_exit(child);
                            self.calls_made = Ghost(self.calls_made@.push(HostCall::NestedExit(*child)));
                        },
                    }
                    proof {
                        let call = self.calls_made@.last();
                        seg = seg0.push(call);
                        assert(self.calls() =~= before + seg);
                        assert(actions@.take(k + 1) =~= actions@.take(k as int).push(actions@[k as int]));
                        let t0 = tagged(actions@.take(k as int), state);
                        let t1 = tagged(actions@.take(k + 1), state);
                        assert(t1 =~= t0.push((actions@[k as int], state)));
                        assert(call == host_call(actions@[k as int], state, request_left(call)));
                        assert forall|j: int| 0 <= j < seg.len() implies #[trigger] seg[j] == host_call(
                            t1[j].0,
                            t1[j].1,
                            request_left(seg[j]),
                        ) by {
                            if j < seg0.len() {
                                assert(seg[j] == seg0[j]);
                                assert(t1[j] == t0[j]);
                            }
                        }
                        assert(seg.drop_last() =~= seg0);
                        match call {
                            HostCall::System(_, _, left) => {},
                            _ => {
                                assert(next_state@ == mb0);
                            },
                        }
                    }
                    k = k + 1;
                }
                proof {
                    assert(actions@.take(k as int) =~= actions@);
                    assert(self.calls().skip(before.len() as int) =~= seg);
                    assert forall|p: Phase, s: S| #[trigger] self.schedule(p, s) == old(self).schedule(p, s) by {}
                    assert forall|s: S| #[trigger] self.has_state(s) == old(self).has_state(s) by {}
                }
            },
        }
    }

    /// Runs the update schedule of `state`.
    pub fn run_update<C: StateHost<S, U, H>>(
        &mut self,
        host: &mut C,
        next_state: &mut NextState<S>,
        state: S,
    )
        requires
            old(self).wf(),
            obeys_concrete_eq::<S>(),
        ensures
            final(self).keeps_machine(*old(self)),
            ran_phase(
                old(self).calls(),
                final(self).calls(),
                old(self).schedule(Phase::Update, state),
                state,
                old(next_state)@,
                final(next_state)@,
            ),
    {
        self.run_phase(host, next_state, Phase::Update, state);
    }

    /// Runs the enter schedule of `state`.
    pub fn run_enter<C: StateHost<S, U, H>>(
        &mut self,
        host: &mut C,
        next_state: &mut NextState<S>,
        state: S,
    )
        requires
            old(self).wf(),
            obeys_concrete_eq::<S>(),
        ensures
            final(self).keeps_machine(*old(self)),
            ran_phase(
                old(self).calls(),
                final(self).calls(),
                old(self).schedule(Phase::Enter, state),
                state,
                old(next_state)@,
                final(next_state)@,
            ),
    {
        self.run_phase(host, next_state, Phase::Enter, state);
    }

    /// Runs the exit schedule of `state`.
    pub fn run_exit<C: StateHost<S, U, H>>(
        &mut self,
        host: &mut C,
        next_state: &mut NextState<S>,
        state: S,
    )
        requires
            old(self).wf(),
            obeys_concrete_eq::<S>(),
        ensures
            final(self).keeps_machine(*old(self)),
            ran_phase(
                old(self).calls(),
                final(self).calls(),
                old(self).schedule(Phase::Exit, state),
                state,
                old(next_state)@,
                final(next_state)@,
            ),
    {
        self.run_phase(host, next_state, Phase::Exit, state);
    }

    /// Moves the machine through one settling round for the request
    /// `pending` and returns the phases that the round runs, in order.
    fn settle_round(&mut self, pending: Option<S>) -> (r: Vec<Step<S>>)
        requires
            obeys_concrete_eq::<S>(),
        ensures
            r@ == round_steps(old(self).current(), old(self).is_first_run(), pending),
            final(self).current() == round_target(old(self).current(), pending),
            !final(self).is_first_run(),
            final(self).states == old(self).states,
            final(self).calls_made == old(self).calls_made,
    {
        proof {
            reveal(obeys_concrete_eq);
        }
        let current = self.current_state;
        let mut steps: Vec<Step<S>> = Vec::new();
        match pending {
            Some(target) => {
                if self.first_run {
                    steps.push(Step { phase: Phase::Enter, state: target });
                } else if target != current {
                    steps.push(Step { phase: Phase::Exit, state: current });
                    steps.push(Step { phase: Phase::Enter, state: target });
                }
                self.current_state = target;
            },
            None => {
                if self.first_run {
                    steps.push(Step { phase: Phase::Enter, state: current });
                }
            },
        }
        self.first_run = false;
        steps.push(Step { phase: Phase::Update, state: self.current_state });
        proof {
            assert(steps@ =~= round_steps(old(self).current(), old(self).is_first_run(), pending));
        }
        steps
    }
}

/// The phases of round `k` of a drive that started at `current` and
/// `first_run` and took the requests `reqs`.
pub open spec fn round_at<S>(current: S, first_run: bool, reqs: Seq<Option<S>>, k: int) -> Seq<Step<S>> {
    round_steps(settle_current(current, reqs.take(k)), first_run && k == 0, reqs[k])
}

/// One call of [`driver`] took the machine from `before` to `after` and the
/// mailbox from `first` to `left`, returning `steps`: `reqs` are the
/// requests it took, one per round, and `logs` the host calls of each
/// round. Every round runs the schedules of its phases on the host, and each
/// later request is the one the previous round's actions left.
pub open spec fn drove<S: Copy + PartialEq, U, H>(
    before: ScheduleStates<S, U, H>,
    after: ScheduleStates<S, U, H>,
    first: Option<S>,
    left: Option<S>,
    steps: Seq<Step<S>>,
    reqs: Seq<Option<S>>,
    logs: Seq<Seq<HostCall<S, U, H>>>,
) -> bool {
    let current = before.current();
    let first_run = before.is_first_run();
    &&& settle_requests(reqs, first, left)
    &&& logs.len() == reqs.len()
    &&& forall|k: int|
        0 <= k < reqs.len() ==> runs(
            #[trigger] logs[k],
            before.planned(round_at(current, first_run, reqs, k)),
        )
    &&& forall|k: int|
        0 <= k < reqs.len() - 1 ==> reqs[k + 1] == mailbox_after(#[trigger] logs[k], None)
    &&& left == mailbox_after(logs.last(), None)
    &&& after.calls() == before.calls() + joined(logs)
    &&& steps == settle_trace(current, first_run, reqs)
    &&& after.current() == settle_current(current, reqs)
}

proof fn lemma_runs_append<S, U, H>(
    a: Seq<HostCall<S, U, H>>,
    p: Seq<(Action<U, H>, S)>,
    b: Seq<HostCall<S, U, H>>,
    q: Seq<(Action<U, H>, S)>,
)
    requires
        runs(a, p),
        runs(b, q),
    ensures
        runs(a + b, p + q),
{
    assert forall|i: int| 0 <= i < (a + b).len() implies #[trigger] (a + b)[i] == host_call(
        (p + q)[i].0,
        (p + q)[i].1,
        request_left((a + b)[i]),
    ) by {
        if i < a.len() {
            assert((a + b)[i] == a[i]);
            assert((p + q)[i] == p[i]);
        } else {
            assert((a + b)[i] == b[i - a.len()]);
            assert((p + q)[i] == q[i - a.len()]);
        }
    }
}

proof fn lemma_mailbox_append<S, U, H>(a: Seq<HostCall<S, U, H>>, b: Seq<HostCall<S, U, H>>, start: Option<S>)
    ensures
        mailbox_after(a + b, start) == mailbox_after(b, mailbox_after(a, start)),
    decreases b.len(),
{
    if b.len() == 0 {
        assert(a + b =~= a);
    } else {
        assert((a + b).drop_last() =~= a + b.drop_last());
        assert((a + b).last() == b.last());
        lemma_mailbox_append(a, b.drop_last(), start);
    }
}

/// Runs the settling loop of a machine: takes the pending request, moves
/// the machine through a round for it (exit of the old state, enter of the
/// new one, update of the current one), and repeats while the actions of a
/// round have requested another transition, up to `MAX_SETTLE_ROUNDS`
/// rounds. Returns the phases run, in order.
///
/// While the machine has never been entered, the first round enters either
/// the requested state or, with nothing requested, the initial one; no exit
/// runs in that round. A state without schedules runs no actions.
pub fn driver<S: Copy + PartialEq, U, H, C: StateHost<S, U, H>>(
    states: &mut ScheduleStates<S, U, H>,
    next_state: &mut NextState<S>,
    host: &mut C,
) -> (steps: Vec<Step<S>>)
    requires
        old(states).wf(),
        obeys_concrete_eq::<S>(),
    ensures
        final(states).wf(),
        !final(states).is_first_run(),
        forall|s: S| #[trigger] final(states).has_state(s) == old(states).has_state(s),
        forall|p: Phase, s: S| #[trigger] final(states).schedule(p, s) == old(states).schedule(p, s),
        exists|reqs: Seq<Option<S>>, logs: Seq<Seq<HostCall<S, U, H>>>|
            #[trigger] drove(
                *old(states),
                *final(states),
                old(next_state)@,
                final(next_state)@,
                steps@,
                reqs,
                logs,
            ),
{
    let ghost start = *states;
    let ghost c0 = start.current();
    let ghost f0 = start.is_first_run();
    let ghost first = next_state@;
    let ghost mut reqs: Seq<Option<S>> = Seq::empty();
    let ghost mut logs: Seq<Seq<HostCall<S, U, H>>> = Seq::empty();
    let mut steps: Vec<Step<S>> = Vec::new();
    let mut rounds: usize = 0;
    let mut pending = next_state.take();
    loop
        invariant_except_break
            rounds < MAX_SETTLE_ROUNDS,
            rounds == 0 ==> pending == first,
            rounds > 0 ==> pending.is_some(),
            rounds > 0 ==> pending == mailbox_after(logs.last(), None),
            next_state@.is_none(),
        invariant
            obeys_concrete_eq::<S>(),
            start.wf(),
            reqs.len() == rounds,
            logs.len() == rounds,
            rounds <= MAX_SETTLE_ROUNDS,
            states.states == start.states,
            states.first_run == (f0 && rounds == 0),
            states.current_state == settle_current(c0, reqs),
            steps@ == settle_trace(c0, f0, reqs),
            states.calls() == start.calls() + joined(logs),
            rounds > 0 ==> reqs[0] == first,
            forall|i: int| 0 < i < reqs.len() ==> (#[trigger] reqs[i]).is_some(),
            forall|k: int|
                0 <= k < reqs.len() ==> runs(#[trigger] logs[k], start.planned(round_at(c0, f0, reqs, k))),
            forall|k: int|
                0 <= k < reqs.len() - 1 ==> reqs[k + 1] == mailbox_after(#[trigger] logs[k], None),
        ensures
            rounds >= 1,
            next_state@ == mailbox_after(logs.last(), None),
            next_state@.is_none() || rounds == MAX_SETTLE_ROUNDS,
        decreases MAX_SETTLE_ROUNDS - rounds,
    {
        let ghost reqs0 = reqs;
        let round = states.settle_round(pending);
        proof {
            reqs = reqs0.push(pending);
            assert(reqs.drop_last() =~= reqs0);
            assert(reqs.take(rounds as int) =~= reqs0);
            assert(round@ == round_at(c0, f0, reqs, rounds as int));
            assert forall|k: int| 0 <= k < reqs0.len() implies #[trigger] round_at(c0, f0, reqs, k)
                == round_at(c0, f0, reqs0, k) by {
                assert(reqs.take(k) =~= reqs0.take(k));
            }
        }
        let ghost before = steps@;
        let ghost base = states.calls();
        let ghost mut seg: Seq<HostCall<S, U, H>> = Seq::empty();
        let mut k: usize = 0;
        while k < round.len()
            invariant
                obeys_concrete_eq::<S>(),
                k <= round@.len(),
                states.wf(),
                states.states == start.states,
                states.current_state == settle_current(c0, reqs),
                !states.first_run,
                steps@ == before + round@.take(k as int),
                states.calls() == base + seg,
                runs(seg, start.planned(round@.take(k as int))),
                next_state@ == mailbox_after(seg, None),
            decreases round@.len() - k,
        {
            let step = round[k];
            let ghost calls0 = states.calls();
            let ghost mb0 = next_state@;
            states.run_schedule(host, next_state, step.phase, step.state);
            steps.push(step);
            proof {
                let add = states.calls().skip(calls0.len() as int);
                let seg0 = seg;
                seg = seg0 + add;
                assert(states.calls() =~= base + seg);
                assert(round@.take(k + 1) =~= round@.take(k as int).push(step));
                assert(round@.take(k + 1).drop_last() =~= round@.take(k as int));
                assert(start.planned(round@.take(k + 1)) == start.planned(round@.take(k as int))
                    + tagged(start.schedule(step.phase, step.state), step.state));
                lemma_runs_append(
                    seg0,
                    start.planned(round@.take(k as int)),
                    add,
                    tagged(start.schedule(step.phase, step.state), step.state),
                );
                lemma_mailbox_append(seg0, add, None);
            }
            k = k + 1;
        }
        proof {
            assert(round@.take(k as int) =~= round@);
            let logs0 = logs;
            logs = logs0.push(seg);
            assert(logs.drop_last() =~= logs0);
            assert(joined(logs) == joined(logs0) + seg);
            assert(states.calls() =~= start.calls() + joined(logs));
            assert(settle_trace(c0, f0, reqs) == settle_trace(c0, f0, reqs0) + round@);
            assert(steps@ =~= settle_trace(c0, f0, reqs));
            assert forall|j: int| 0 <= j < reqs.len() implies runs(
                #[trigger] logs[j],
                start.planned(round_at(c0, f0, reqs, j)),
            ) by {
                if j < reqs0.len() {
                    assert(logs[j] == logs0[j]);
                }
            }
            assert forall|j: int| 0 <= j < reqs.len() - 1 implies reqs[j + 1] == mailbox_after(
                #[trigger] logs[j],
                None,
            ) by {
                assert(logs[j] == logs0[j]);
                if j == reqs0.len() - 1 {
                    assert(logs0.last() == logs0[j]);
                }
            }
        }
        rounds = rounds + 1;
        if rounds == MAX_SETTLE_ROUNDS {
            break;
        }
        pending = next_state.take();
        if pending.is_none() {
            break;
        }
    }
    proof {
        assert(drove(start, *states, first, next_state@, steps@, reqs, logs));
    }
    steps
}

/// Runs the enter schedule of the state the machine is in, without a
/// transition: the current state is left alone and the mailbox is only
/// handed to the actions. Used to resume a nested machine when its parent
/// state is entered. Returns the phase that was run.
pub fn driver_run_enter<S: Copy + PartialEq, U, H, C: StateHost<S, U, H>>(
    states: &mut ScheduleStates<S, U, H>,
    next_state: &mut NextState<S>,
    host: &mut C,
) -> (step: Step<S>)
    requires
        old(states).wf(),
        obeys_concrete_eq::<S>(),
    ensures
        step == enter_step(old(states).current()),
        final(states).keeps_machine(*old(states)),
        ran_phase(
            old(states).calls(),
            final(states).calls(),
            old(states).schedule(Phase::Enter, old(states).current()),
            old(states).current(),
            old(next_state)@,
            final(next_state)@,
        ),
{
    let current = states.current_state();
    states.run_enter(host, next_state, current);
    Step { phase: Phase::Enter, state: current }
}

/// Runs the exit schedule of the state the machine is in, without a
/// transition: the current state is left alone and the mailbox is only
/// handed to the actions. Used to suspend a nested machine when its parent
/// state is exited. Returns the phase that was run.
pub fn driver_run_exit<S: Copy + PartialEq, U, H, C: StateHost<S, U, H>>(
    states: &mut ScheduleStates<S, U, H>,
    next_state: &mut NextState<S>,
    host: &mut C,
) -> (step: Step<S>)
    requires
        old(states).wf(),
        obeys_concrete_eq::<S>(),
    ensures
        step == exit_step(old(states).current()),
        final(states).keeps_machine(*old(states)),
        ran_phase(
            old(states).calls(),
            final(states).calls(),
            old(states).schedule(Phase::Exit, old(states).current()),
            old(states).current(),
            old(next_state)@,
            final(next_state)@,
        ),
{
    let current = states.current_state();
    states.run_exit(host, next_state, current);
    Step { phase: Phase::Exit, state: current }
}

} // verus!
