//! What holds of the steps that outcomes of tasks lead to.

use crate::driver::embedding::InvocationOutcomeView;
use crate::driver::outcome::{cancellation_steps, outcome_state, outcome_steps, OutcomeView, StepView};
use crate::driver::pool::PoolView;
use crate::driver::tasks::TerminalTaskKind;
use crate::driver::types::{SuspendView, TaskCancellationReason, TaskContext, TaskId};
use vstd::prelude::*;

verus! {

/// Whether a step starts something that may resume the task.
pub open spec fn wakes(step: StepView) -> bool {
    step is StartTimer || step is ReceiveMailbox || step is Spawn || step is RequestExternal
}

/// Whether a step ends the task or gives it up.
pub open spec fn ends(step: StepView) -> bool {
    step is Publish || step is RecordTerminal || step is ForgetInRuntime || step is CancelInRuntime
        || step is RecordCancelled
}

/// Whether step `k` is the given one, and the only one that starts something that may resume the
/// task.
pub open spec fn woken_by(steps: Seq<StepView>, k: int, step: StepView) -> bool {
    &&& 0 <= k < steps.len() && steps[k] == step
    &&& forall|i: int| 0 <= i < steps.len() ==> (wakes(#[trigger] steps[i]) <==> i == k)
}

/// Whether step `k` is the given one and no other step is.
pub open spec fn once(steps: Seq<StepView>, k: int, step: StepView) -> bool {
    &&& 0 <= k < steps.len() && steps[k] == step
    &&& forall|i: int| 0 <= i < steps.len() && i != k ==> #[trigger] steps[i] != step
}

/// Whether a driver has room for an active task.
pub open spec fn room_for(state: PoolView, task: TaskId) -> bool {
    state.tasks.active.contains(task) || state.tasks.active.len()
        < state.tasks.limits.active_task_capacity
}

/// Whether a driver that runs lets a task of an open endpoint be suspended.
pub open spec fn lets_suspend(state: PoolView, task: TaskId, endpoint: u64) -> bool {
    &&& room_for(state, task)
    &&& state.lifecycle.state is Running
    &&& !state.lifecycle.closed_endpoints.contains(endpoint)
    &&& state.tasks.contexts.dom().len() < state.tasks.limits.suspended_task_capacity
}

/// A suspension that is accepted starts just what can end it, once, with what was asked for: a timer
/// of the asked milliseconds, and of none for a commit; the receive; the spawn with its selector,
/// target and delay; the request outside. One that waits for input, or for ever, starts nothing. A
/// timer and a receive come before deliveries are routed, a spawn and a request outside after. The
/// suspension is announced as what it is, and nothing ends the task.
pub proof fn law_a_suspension_starts_what_ends_it(
    state: PoolView,
    task: TaskId,
    endpoint: u64,
    kind: SuspendView,
)
    requires
        lets_suspend(state, task, endpoint),
    ensures
        ({
            let steps = outcome_steps(state, task, endpoint, OutcomeView::Suspended(kind));
            &&& once(steps, 1, StepView::Announce(kind))
            &&& forall|i: int| 0 <= i < steps.len() ==> !ends(#[trigger] steps[i])
            &&& match kind {
                SuspendView::Commit => woken_by(steps, 2, StepView::StartTimer(0)) && once(
                    steps,
                    3,
                    StepView::RouteDeliveries,
                ),
                SuspendView::TimedMillis(millis) => woken_by(steps, 2, StepView::StartTimer(millis))
                    && once(steps, 3, StepView::RouteDeliveries),
                SuspendView::MailboxRecv(receivers, timeout) => woken_by(
                    steps,
                    2,
                    StepView::ReceiveMailbox(receivers, timeout),
                ) && once(steps, 3, StepView::RouteDeliveries),
                SuspendView::Spawn(selector, target, delay) => woken_by(
                    steps,
                    3,
                    StepView::Spawn(selector, target, delay),
                ) && once(steps, 2, StepView::RouteDeliveries),
                SuspendView::ExternalRequest(service, payload, timeout) => woken_by(
                    steps,
                    3,
                    StepView::RequestExternal(service, payload, timeout),
                ) && once(steps, 2, StepView::RouteDeliveries),
                SuspendView::Never | SuspendView::WaitingForInput(_) => once(
                    steps,
                    2,
                    StepView::RouteDeliveries,
                ) && forall|i: int| 0 <= i < steps.len() ==> !wakes(#[trigger] steps[i]),
            }
            &&& once(steps, 0, StepView::DrainEffects)
        }),
{
    assert(state.admits(task));
    assert(state.called_off(endpoint) is None);
    assert(state.may_suspend());
}

/// A task whose suspension is accepted is kept with its context, and is put behind the others that
/// wait for input from its endpoint just where it waits for input. Nothing else of the driver
/// changes but that the task is active.
pub proof fn law_a_suspended_task_is_kept(
    state: PoolView,
    task: TaskId,
    context: TaskContext,
    kind: SuspendView,
)
    requires
        lets_suspend(state, task, context.endpoint@),
    ensures
        ({
            let after = outcome_state(state, task, context, OutcomeView::Suspended(kind));
            let endpoint = context.endpoint@;
            &&& after.tasks.active == state.tasks.active.insert(task)
            &&& after.tasks.contexts.contains_key(task) && after.tasks.contexts[task] == context
            &&& forall|other: TaskId|
                other != task ==> (#[trigger] after.tasks.contexts.contains_key(other)
                    <==> state.tasks.contexts.contains_key(other))
            &&& forall|other: TaskId|
                other != task && state.tasks.contexts.contains_key(other)
                    ==> #[trigger] after.tasks.contexts[other] == state.tasks.contexts[other]
            &&& after.tasks.terminal == state.tasks.terminal
            &&& after.tasks.limits == state.tasks.limits
            &&& kind !is WaitingForInput ==> after.inputs == state.inputs
            &&& kind is WaitingForInput ==> {
                &&& after.inputs.contains_key(endpoint)
                &&& after.inputs[endpoint] == if state.inputs.contains_key(endpoint) {
                    state.inputs[endpoint].push(task)
                } else {
                    seq![task]
                }
                &&& forall|other: u64|
                    other != endpoint ==> (#[trigger] after.inputs.contains_key(other)
                        <==> state.inputs.contains_key(other))
                &&& forall|other: u64|
                    other != endpoint && state.inputs.contains_key(other)
                        ==> #[trigger] after.inputs[other] == state.inputs[other]
            }
            &&& after.mailboxes == state.mailboxes
            &&& after.lifecycle == state.lifecycle
            &&& after.events == state.events
            &&& after.held == state.held
            &&& after.subscriptions == state.subscriptions
            &&& after.workers == state.workers
            &&& after.invocations == state.invocations
        }),
{
    assert(state.admits(task));
    assert(state.called_off(context.endpoint@) is None);
    assert(state.may_suspend());
    if kind is WaitingForInput && !state.inputs.contains_key(context.endpoint@) {
        assert(Seq::<u64>::empty().push(task) =~= seq![task]);
    }
}

/// Whether steps tell how a task ended, put it on record and have the runtime forget it, each once,
/// and start nothing.
pub open spec fn ends_with(
    steps: Seq<StepView>,
    told: InvocationOutcomeView,
    kind: TerminalTaskKind,
) -> bool {
    &&& exists|k: int| #[trigger] once(steps, k, StepView::Publish(told))
    &&& exists|k: int| #[trigger] once(steps, k, StepView::RecordTerminal(kind))
    &&& exists|k: int| #[trigger] once(steps, k, StepView::ForgetInRuntime)
    &&& forall|i: int|
        0 <= i < steps.len() ==> {
            &&& !wakes(#[trigger] steps[i]) && steps[i] !is Announce
            &&& steps[i] is Publish ==> steps[i] == StepView::Publish(told)
            &&& steps[i] is RecordTerminal ==> steps[i] == StepView::RecordTerminal(kind)
            &&& steps[i] !is RecordCancelled
        }
}

/// Whether steps have the runtime drop a task and put on record that it was cancelled for a reason,
/// each once, and start nothing.
pub open spec fn calls_off(steps: Seq<StepView>, reason: TaskCancellationReason) -> bool {
    &&& once(steps, 0, StepView::CancelInRuntime)
    &&& exists|k: int| #[trigger] once(steps, k, StepView::RecordCancelled(reason))
    &&& forall|i: int|
        0 <= i < steps.len() ==> {
            &&& !wakes(#[trigger] steps[i])
            &&& steps[i] !is Announce && steps[i] !is Publish && steps[i] !is RecordTerminal
            &&& steps[i] is RecordCancelled ==> steps[i] == StepView::RecordCancelled(reason)
        }
}

/// A task that is over is told to be so, once, with the value that it came to or the error that it
/// was aborted with, is put on record as such, once, and is forgotten by the runtime, once. Nothing
/// is started for it, and the driver keeps no context of it that it did not have.
pub proof fn law_an_ended_task_is_told_with_its_value(
    state: PoolView,
    task: TaskId,
    context: TaskContext,
    outcome: OutcomeView,
)
    requires
        room_for(state, task),
        outcome !is Suspended,
    ensures
        ({
            let steps = outcome_steps(state, task, context.endpoint@, outcome);
            &&& match outcome {
                OutcomeView::Complete(value) => ends_with(
                    steps,
                    InvocationOutcomeView::Completed(value),
                    TerminalTaskKind::Completed,
                ),
                OutcomeView::Aborted(error) => ends_with(
                    steps,
                    InvocationOutcomeView::Aborted(error),
                    TerminalTaskKind::Aborted,
                ),
                OutcomeView::Suspended(_) => true,
            }
            &&& outcome_state(state, task, context, outcome).tasks.contexts == state.tasks.contexts
            &&& outcome_state(state, task, context, outcome).inputs == state.inputs
        }),
{
    assert(state.admits(task));
    let steps = outcome_steps(state, task, context.endpoint@, outcome);
    match outcome {
        OutcomeView::Complete(value) => {
            assert(once(steps, 1, StepView::Publish(InvocationOutcomeView::Completed(value))));
            assert(once(steps, 2, StepView::RecordTerminal(TerminalTaskKind::Completed)));
        },
        OutcomeView::Aborted(error) => {
            assert(once(steps, 1, StepView::Publish(InvocationOutcomeView::Aborted(error))));
            assert(once(steps, 2, StepView::RecordTerminal(TerminalTaskKind::Aborted)));
        },
        OutcomeView::Suspended(_) => {},
    }
    assert(once(steps, 3, StepView::ForgetInRuntime));
}

/// A task for which there is no room fails, with word of what ran out: room for active tasks first,
/// then, for a task of an open endpoint that is to be suspended by a running driver, room for
/// suspended ones. Where it was suspended, the runtime is told to drop it first. It is not kept.
pub proof fn law_a_task_without_room_fails(
    state: PoolView,
    task: TaskId,
    context: TaskContext,
    outcome: OutcomeView,
)
    requires
        !room_for(state, task) || outcome is Suspended && state.lifecycle.state is Running
            && !state.lifecycle.closed_endpoints.contains(context.endpoint@)
            && state.tasks.contexts.dom().len() >= state.tasks.limits.suspended_task_capacity,
    ensures
        ({
            let steps = outcome_steps(state, task, context.endpoint@, outcome);
            &&& ends_with(
                steps,
                InvocationOutcomeView::Failed(
                    if room_for(state, task) {
                        "driver "@ + "suspended task"@ + " capacity is exhausted"@
                    } else {
                        "driver "@ + "active task"@ + " capacity is exhausted"@
                    },
                ),
                TerminalTaskKind::Failed,
            )
            &&& outcome is Suspended ==> once(steps, 0, StepView::CancelInRuntime)
            &&& outcome !is Suspended ==> forall|i: int|
                0 <= i < steps.len() ==> #[trigger] steps[i] !is CancelInRuntime
            &&& outcome_state(state, task, context, outcome).tasks.contexts == state.tasks.contexts
            &&& outcome_state(state, task, context, outcome).inputs == state.inputs
        }),
{
    let steps = outcome_steps(state, task, context.endpoint@, outcome);
    let said = if room_for(state, task) {
        "driver "@ + "suspended task"@ + " capacity is exhausted"@
    } else {
        "driver "@ + "active task"@ + " capacity is exhausted"@
    };
    assert(state.admits(task) == room_for(state, task));
    let from: int = if outcome is Suspended {
        1
    } else {
        0
    };
    assert(once(steps, from + 1, StepView::Publish(InvocationOutcomeView::Failed(said))));
    assert(once(steps, from + 3, StepView::RecordTerminal(TerminalTaskKind::Failed)));
    assert(once(steps, from + 4, StepView::ForgetInRuntime));
}

/// A task that may not stay suspended is dropped by the runtime, and its cancellation is put on
/// record, once, for the right reason: that the driver shuts down, or else that its endpoint is
/// closed. Nothing is started for it, and it is not kept.
pub proof fn law_a_task_called_off_is_cancelled_for_its_reason(
    state: PoolView,
    task: TaskId,
    context: TaskContext,
    kind: SuspendView,
)
    requires
        room_for(state, task),
        state.lifecycle.state !is Running || state.lifecycle.closed_endpoints.contains(
            context.endpoint@,
        ),
    ensures
        ({
            let steps = outcome_steps(state, task, context.endpoint@, OutcomeView::Suspended(kind));
            let after = outcome_state(state, task, context, OutcomeView::Suspended(kind));
            &&& calls_off(
                steps,
                if state.lifecycle.state is Running {
                    TaskCancellationReason::EndpointClosed
                } else {
                    TaskCancellationReason::DriverShutdown
                },
            )
            &&& after.tasks.contexts == state.tasks.contexts
            &&& after.inputs == state.inputs
        }),
{
    assert(state.admits(task));
    let steps = outcome_steps(state, task, context.endpoint@, OutcomeView::Suspended(kind));
    let reason = if state.lifecycle.state is Running {
        TaskCancellationReason::EndpointClosed
    } else {
        TaskCancellationReason::DriverShutdown
    };
    assert(state.called_off(context.endpoint@) == Some(reason));
    assert(once(steps, 2, StepView::RecordCancelled(reason)));
}

/// A task that is cancelled is told to be so for the reason given, once, and is then forgotten by the
/// runtime. Nothing is started for it.
pub proof fn law_a_cancelled_task_is_told_and_forgotten(reason: TaskCancellationReason)
    ensures
        ({
            let steps = cancellation_steps(reason);
            &&& once(steps, 0, StepView::Publish(InvocationOutcomeView::Cancelled(reason)))
            &&& once(steps, 1, StepView::ForgetInRuntime)
            &&& forall|i: int|
                0 <= i < steps.len() ==> !wakes(#[trigger] steps[i]) && steps[i] !is Announce
                    && steps[i] !is RecordTerminal
        }),
{
}

} // verus!
