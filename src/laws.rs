use vstd::prelude::*;

use crate::state_schedule::{
    drove, enter_step, host_call, joined, mailbox_after, request_left, round_at, round_steps, runs,
    settle_current, settle_trace, tagged, update_step, Action, HostCall, Phase, ScheduleStates,
    Step,
};

verus! {

/// A drive whose first round leaves the mailbox empty has exactly one
/// round: it took only the request that was pending when it was called.
proof fn lemma_quiet_round_ends_drive<S: Copy + PartialEq, U, H>(
    before: ScheduleStates<S, U, H>,
    after: ScheduleStates<S, U, H>,
    first: Option<S>,
    left: Option<S>,
    steps: Seq<Step<S>>,
    reqs: Seq<Option<S>>,
    logs: Seq<Seq<HostCall<S, U, H>>>,
)
    requires
        drove(before, after, first, left, steps, reqs, logs),
        mailbox_after(logs[0], None) == None::<S>,
    ensures
        reqs == seq![first],
        logs == seq![logs[0]],
        left == None::<S>,
        after.calls() == before.calls() + logs[0],
        steps == round_steps(before.current(), before.is_first_run(), first),
        after.current() == settle_current(before.current(), reqs),
        runs(
            logs[0],
            before.planned(round_steps(before.current(), before.is_first_run(), first)),
        ),
{
    if reqs.len() > 1 {
        let z: int = 0;
        assert(reqs[z + 1].is_some());
        assert(reqs[z + 1] == mailbox_after(logs[z], None));
    }
    assert(reqs =~= seq![first]);
    assert(logs =~= seq![logs[0]]);
    assert(logs.drop_last() =~= Seq::<Seq<HostCall<S, U, H>>>::empty());
    assert(joined(logs.drop_last()) =~= Seq::<HostCall<S, U, H>>::empty());
    assert(joined(logs) =~= logs[0]);
    let prev = reqs.drop_last();
    assert(prev =~= Seq::<Option<S>>::empty());
    assert(reqs.take(0) =~= Seq::<Option<S>>::empty());
    assert(settle_current(before.current(), reqs.take(0)) == before.current());
    assert(round_at(before.current(), before.is_first_run(), reqs, 0) == round_steps(
        before.current(),
        before.is_first_run(),
        first,
    ));
    assert(settle_trace(before.current(), before.is_first_run(), prev) =~= Seq::empty());
    assert(settle_current(before.current(), prev) == before.current());
    assert(settle_trace(before.current(), before.is_first_run(), reqs) =~= round_steps(
        before.current(),
        before.is_first_run(),
        first,
    ));
}

/// A machine that has never been entered, driven with no request pending
/// and none made by its actions, runs on the host exactly the enter
/// schedule and then the update schedule of its initial state; nothing is
/// exited, and it stays where it was.
pub proof fn lemma_first_drive_enters_then_updates<S: Copy + PartialEq, U, H>(
    before: ScheduleStates<S, U, H>,
    after: ScheduleStates<S, U, H>,
    left: Option<S>,
    steps: Seq<Step<S>>,
    reqs: Seq<Option<S>>,
    logs: Seq<Seq<HostCall<S, U, H>>>,
)
    requires
        before.is_first_run(),
        drove(before, after, None, left, steps, reqs, logs),
        mailbox_after(logs[0], None) == None::<S>,
    ensures
        steps == seq![enter_step(before.current()), update_step(before.current())],
        after.current() == before.current(),
        left == None::<S>,
        after.calls() == before.calls() + logs[0],
        runs(logs[0], before.planned(seq![enter_step(before.current()), update_step(before.current())])),
{
    lemma_quiet_round_ends_drive(before, after, None, left, steps, reqs, logs);
    let c = before.current();
    assert(round_steps(c, true, None::<S>) =~= seq![enter_step(c), update_step(c)]);
    assert(reqs.drop_last() =~= Seq::<Option<S>>::empty());
    assert(settle_current(c, reqs.drop_last()) == c);
}

/// Requesting the state that an entered machine is already in, with no
/// further request during the drive, runs on the host only the update
/// schedule of that state: no exit and enter pair, and the state is
/// unchanged.
pub proof fn lemma_same_state_request_only_updates<S: Copy + PartialEq, U, H>(
    before: ScheduleStates<S, U, H>,
    after: ScheduleStates<S, U, H>,
    left: Option<S>,
    steps: Seq<Step<S>>,
    reqs: Seq<Option<S>>,
    logs: Seq<Seq<HostCall<S, U, H>>>,
)
    requires
        !before.is_first_run(),
        drove(before, after, Some(before.current()), left, steps, reqs, logs),
        mailbox_after(logs[0], None) == None::<S>,
    ensures
        steps == seq![update_step(before.current())],
        after.current() == before.current(),
        left == None::<S>,
        after.calls() == before.calls() + logs[0],
        runs(logs[0], before.planned(seq![update_step(before.current())])),
{
    let c = before.current();
    lemma_quiet_round_ends_drive(before, after, Some(c), left, steps, reqs, logs);
    assert(round_steps(c, false, Some(c)) =~= seq![update_step(c)]);
    assert(reqs.drop_last() =~= Seq::<Option<S>>::empty());
    assert(settle_current(c, reqs.drop_last()) == c);
}

/// When `x` was requested and then overwritten by `y`, the drive that takes
/// the request moves the machine to `y`; with no further request, no phase
/// of the drive enters `x`.
pub proof fn lemma_overwritten_request_never_entered<S: Copy + PartialEq, U, H>(
    before: ScheduleStates<S, U, H>,
    after: ScheduleStates<S, U, H>,
    x: S,
    y: S,
    left: Option<S>,
    steps: Seq<Step<S>>,
    reqs: Seq<Option<S>>,
    logs: Seq<Seq<HostCall<S, U, H>>>,
)
    requires
        x != y,
        drove(before, after, Some(y), left, steps, reqs, logs),
        mailbox_after(logs[0], None) == None::<S>,
    ensures
        after.current() == y,
        left == None::<S>,
        forall|i: int| 0 <= i < steps.len() ==> #[trigger] steps[i] != enter_step(x),
{
    lemma_quiet_round_ends_drive(before, after, Some(y), left, steps, reqs, logs);
    assert(reqs.drop_last() =~= Seq::<Option<S>>::empty());
    assert(settle_current(before.current(), reqs.drop_last()) == before.current());
}

/// With a child bound to `state` (its enter schedule is the state's own
/// enter actions followed by the child's enter hook, its exit schedule the
/// child's exit hook followed by the state's own exit actions), running
/// the enter schedule hands the host the state's own actions and then the
/// child's replay, and running the exit schedule hands it the child's
/// suspension first and then the state's own actions.
pub proof fn lemma_nested_binding_order<S: Copy + PartialEq, U, H>(
    bound: ScheduleStates<S, U, H>,
    state: S,
    child: H,
    own_enter: Seq<Action<U, H>>,
    own_exit: Seq<Action<U, H>>,
    enter_calls: Seq<HostCall<S, U, H>>,
    exit_calls: Seq<HostCall<S, U, H>>,
)
    requires
        bound.schedule(Phase::Enter, state) == own_enter.push(Action::NestedEnter(child)),
        bound.schedule(Phase::Exit, state) == seq![Action::<U, H>::NestedExit(child)] + own_exit,
        runs(enter_calls, tagged(bound.schedule(Phase::Enter, state), state)),
        runs(exit_calls, tagged(bound.schedule(Phase::Exit, state), state)),
    ensures
        enter_calls.len() == own_enter.len() + 1,
        enter_calls.last() == HostCall::<S, U, H>::NestedEnter(child),
        runs(enter_calls.drop_last(), tagged(own_enter, state)),
        exit_calls.len() == own_exit.len() + 1,
        exit_calls[0] == HostCall::<S, U, H>::NestedExit(child),
        runs(exit_calls.skip(1), tagged(own_exit, state)),
{
    let te = tagged(bound.schedule(Phase::Enter, state), state);
    let tx = tagged(bound.schedule(Phase::Exit, state), state);
    assert(te[own_enter.len() as int].0 == Action::<U, H>::NestedEnter(child));
    assert(enter_calls[own_enter.len() as int] == host_call(
        te[own_enter.len() as int].0,
        te[own_enter.len() as int].1,
        request_left(enter_calls[own_enter.len() as int]),
    ));
    assert forall|i: int| 0 <= i < enter_calls.drop_last().len() implies #[trigger] enter_calls.drop_last()[i]
        == host_call(
        tagged(own_enter, state)[i].0,
        tagged(own_enter, state)[i].1,
        request_left(enter_calls.drop_last()[i]),
    ) by {
        assert(enter_calls[i] == host_call(te[i].0, te[i].1, request_left(enter_calls[i])));
    }
    assert(tx[0].0 == Action::<U, H>::NestedExit(child));
    assert(exit_calls[0] == host_call(tx[0].0, tx[0].1, request_left(exit_calls[0])));
    assert forall|i: int| 0 <= i < exit_calls.skip(1).len() implies #[trigger] exit_calls.skip(1)[i]
        == host_call(
        tagged(own_exit, state)[i].0,
        tagged(own_exit, state)[i].1,
        request_left(exit_calls.skip(1)[i]),
    ) by {
        assert(exit_calls[i + 1] == host_call(
            tx[i + 1].0,
            tx[i + 1].1,
            request_left(exit_calls[i + 1]),
        ));
    }
}

} // verus!
