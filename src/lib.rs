//! A hierarchical finite-state scheduling engine: per state, three ordered
//! phase schedules (enter, update, exit), a single-slot mailbox for the next
//! requested state, a settling driver that cascades transitions within one
//! call, and the binding that nests one machine inside a state of another.

use vstd::prelude::*;

mod laws;
mod next_state;
mod state_schedule;

pub use laws::{
    lemma_first_drive_enters_then_updates, lemma_overwritten_request_never_entered,
    lemma_nested_binding_order, lemma_same_state_request_only_updates,
};
pub use next_state::NextState;
pub use state_schedule::{
    driver, driver_run_enter, driver_run_exit, enter_step, exit_step, round_steps, round_target,
    settle_current, settle_requests, settle_trace, update_step, drove, host_call, joined,
    mailbox_after, ran_phase, request_left, round_at, runs, tagged, Action, HostCall, Phase,
    ScheduleStates, StateHost, Step, MAX_SETTLE_ROUNDS,
};

verus! {

/// Creates a machine and its mailbox for the state type `S`. Drivers are
/// set up separately, since when a machine changes state and runs is up to
/// its host.
pub struct StatePlugin<S> {
    initial_state: S,
}

impl<S: Copy + PartialEq> StatePlugin<S> {
    pub closed spec fn initial(&self) -> S {
        self.initial_state
    }

    pub fn new(initial_state: S) -> (r: Self)
        ensures
            r.initial() == initial_state,
    {
        Self { initial_state }
    }

    /// The state that machines made by this plugin start in.
    pub fn initial_state(&self) -> (r: S)
        ensures
            r == self.initial(),
    {
        self.initial_state
    }

    /// A fresh machine at the initial state, with no schedules, and an
    /// empty mailbox.
    pub fn build<U, H>(&self) -> (r: (ScheduleStates<S, U, H>, NextState<S>))
        ensures
            r.0.wf(),
            r.0.current() == self.initial(),
            r.0.is_first_run(),
            r.0.calls() == Seq::<HostCall<S, U, H>>::empty(),
            forall|s: S| !r.0.has_state(s),
            forall|p: Phase, s: S| #[trigger] r.0.schedule(p, s) == Seq::<Action<U, H>>::empty(),
            r.1@ == None::<S>,
    {
        (ScheduleStates::new(self.initial_state), NextState::new())
    }
}

} // verus!
