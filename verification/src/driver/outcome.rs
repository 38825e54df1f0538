//! What the driver does when a task ends, is suspended, is resumed or is called off.

use crate::driver::embedding::{InvocationOutcome, InvocationOutcomeView};
use crate::driver::lifecycle::{outcome_view, LifecycleView};
use crate::driver::metrics::WorkerOutcome;
use crate::driver::pool::{PoolState, PoolView};
use crate::driver::tasks::{TaskTableView, TerminalTaskKind};
use crate::driver::types::{joined, DriverError, DriverEvent, ErrorView, EventView, ExternalRequest,
    MailboxRecvRequest, SpawnRequest, SuspendKind, SuspendView, TaskCancellationReason,
    TaskContext, TaskId};
use crate::driver::waiters::{copy_receivers, receiver_views, waiting_at, waits_anywhere, without_task,
    MailboxWaiter, MailboxWaiterView};
use crate::text::{decimal, numbered};
use crate::value::{copy_value, views, Value, ValueView};
use vstd::prelude::*;

verus! {

/// How a run of a task ended.
#[derive(Debug, PartialEq)]
pub enum TaskOutcome {
    Complete(Value),
    Aborted(Value),
    Suspended(SuspendKind),
}

/// How a run of a task ended, apart from how it is stored.
pub enum OutcomeView {
    Complete(ValueView),
    Aborted(ValueView),
    Suspended(SuspendView),
}

impl View for TaskOutcome {
    type V = OutcomeView;

    open spec fn view(&self) -> OutcomeView {
        match self {
            TaskOutcome::Complete(value) => OutcomeView::Complete(value@),
            TaskOutcome::Aborted(error) => OutcomeView::Aborted(error@),
            TaskOutcome::Suspended(kind) => OutcomeView::Suspended(kind@),
        }
    }
}

/// One of the things to do about an outcome.
#[derive(Debug, PartialEq)]
pub enum OutcomeStep {
    /// Have the runtime drop the suspended task.
    CancelInRuntime,
    /// Queue the effects that the runtime holds.
    DrainEffects,
    /// Tell the host that waits for the task, or all, how it ended.
    Publish(InvocationOutcome),
    /// Tell all that the task is suspended.
    Announce(SuspendKind),
    /// Tell those who wait at the mailboxes that the task sent to.
    RouteDeliveries,
    /// Put on record how the task ended.
    RecordTerminal(TerminalTaskKind),
    /// Have the runtime forget the task.
    ForgetInRuntime,
    /// Put on record that the task was cancelled; where that is new, tell of it and have the
    /// runtime forget the task.
    RecordCancelled(TaskCancellationReason),
    /// Resume the task after so many milliseconds. Where no timer can be had, the task
    /// fails, and the steps that follow are not taken.
    StartTimer(u64),
    /// Look for messages, or let the task wait for them.
    ReceiveMailbox(MailboxRecvRequest),
    /// Start another task, and resume this one with its number.
    Spawn(SpawnRequest),
    /// Ask a service outside.
    RequestExternal(ExternalRequest),
}

/// A step, apart from how it is stored.
pub enum StepView {
    CancelInRuntime,
    DrainEffects,
    Publish(InvocationOutcomeView),
    Announce(SuspendView),
    RouteDeliveries,
    RecordTerminal(TerminalTaskKind),
    ForgetInRuntime,
    RecordCancelled(TaskCancellationReason),
    StartTimer(u64),
    ReceiveMailbox(Seq<ValueView>, Option<u64>),
    Spawn(Seq<char>, ValueView, Option<u64>),
    RequestExternal(Seq<char>, ValueView, Option<u64>),
}

impl View for OutcomeStep {
    type V = StepView;

    open spec fn view(&self) -> StepView {
        match self {
            OutcomeStep::CancelInRuntime => StepView::CancelInRuntime,
            OutcomeStep::DrainEffects => StepView::DrainEffects,
            OutcomeStep::Publish(outcome) => StepView::Publish(outcome@),
            OutcomeStep::Announce(kind) => StepView::Announce(kind@),
            OutcomeStep::RouteDeliveries => StepView::RouteDeliveries,
            OutcomeStep::RecordTerminal(kind) => StepView::RecordTerminal(*kind),
            OutcomeStep::ForgetInRuntime => StepView::ForgetInRuntime,
            OutcomeStep::RecordCancelled(reason) => StepView::RecordCancelled(*reason),
            OutcomeStep::StartTimer(millis) => StepView::StartTimer(*millis),
            OutcomeStep::ReceiveMailbox(request) => StepView::ReceiveMailbox(
                views(request.receivers@),
                request.timeout_millis,
            ),
            OutcomeStep::Spawn(request) => StepView::Spawn(
                request.selector@,
                request.target@,
                request.delay_millis,
            ),
            OutcomeStep::RequestExternal(request) => StepView::RequestExternal(
                request.service@,
                request.payload@,
                request.timeout_millis,
            ),
        }
    }
}

impl StepView {
    /// Whether the step tells of what became of the task.
    pub open spec fn tells(self) -> bool {
        self is Publish || self is Announce || self is RecordCancelled
    }
}

/// The views of steps.
pub open spec fn step_views(steps: Seq<OutcomeStep>) -> Seq<StepView> {
    steps.map_values(|step: OutcomeStep| step@)
}

/// What a full driver says of a resource.
pub open spec fn exhausted(resource: Seq<char>) -> Seq<char> {
    "driver "@ + resource + " capacity is exhausted"@
}

/// What a full driver says of a resource.
pub fn capacity_error(resource: &str) -> (text: String)
    ensures
        text@ == exhausted(resource@),
{
    let mut text = joined("driver ", resource);
    text.append(" capacity is exhausted");
    text
}

impl PoolView {
    /// Whether a task may be active.
    pub open spec fn admits(self, task: TaskId) -> bool {
        self.tasks.active.contains(task) || self.tasks.active.len()
            < self.tasks.limits.active_task_capacity
    }

    /// Why a task of an endpoint may not stay suspended, where it may not.
    pub open spec fn called_off(self, endpoint: u64) -> Option<TaskCancellationReason> {
        if self.lifecycle.state !is Running {
            Some(TaskCancellationReason::DriverShutdown)
        } else if self.lifecycle.closed_endpoints.contains(endpoint) {
            Some(TaskCancellationReason::EndpointClosed)
        } else {
            None
        }
    }

    /// Whether one more task may be suspended.
    pub open spec fn may_suspend(self) -> bool {
        self.tasks.contexts.dom().len() < self.tasks.limits.suspended_task_capacity
    }
}

/// The steps for a task that finds no room.
pub open spec fn failure_steps(resource: Seq<char>, suspended: bool) -> Seq<StepView> {
    (if suspended {
        seq![StepView::CancelInRuntime]
    } else {
        Seq::empty()
    }) + seq![
        StepView::DrainEffects,
        StepView::Publish(InvocationOutcomeView::Failed(exhausted(resource))),
        StepView::RouteDeliveries,
        StepView::RecordTerminal(TerminalTaskKind::Failed),
        StepView::ForgetInRuntime,
    ]
}

/// The steps for a task that is over.
pub open spec fn terminal_steps(outcome: InvocationOutcomeView, kind: TerminalTaskKind) -> Seq<
    StepView,
> {
    seq![
        StepView::DrainEffects,
        StepView::Publish(outcome),
        StepView::RecordTerminal(kind),
        StepView::ForgetInRuntime,
        StepView::RouteDeliveries,
    ]
}

/// What a suspension starts before deliveries are routed.
pub open spec fn prompt_steps(kind: SuspendView) -> Seq<StepView> {
    match kind {
        SuspendView::Commit => seq![StepView::StartTimer(0)],
        SuspendView::TimedMillis(millis) => seq![StepView::StartTimer(millis)],
        SuspendView::MailboxRecv(receivers, timeout) => seq![
            StepView::ReceiveMailbox(receivers, timeout),
        ],
        _ => Seq::empty(),
    }
}

/// What a suspension starts after deliveries are routed.
pub open spec fn later_steps(kind: SuspendView) -> Seq<StepView> {
    match kind {
        SuspendView::Spawn(selector, target, delay) => seq![
            StepView::Spawn(selector, target, delay),
        ],
        SuspendView::ExternalRequest(service, payload, timeout) => seq![
            StepView::RequestExternal(service, payload, timeout),
        ],
        _ => Seq::empty(),
    }
}

/// What is done about a task once its cancellation is on record.
pub open spec fn cancellation_steps(reason: TaskCancellationReason) -> Seq<StepView> {
    seq![
        StepView::Publish(InvocationOutcomeView::Cancelled(reason)),
        StepView::ForgetInRuntime,
    ]
}

/// What is done about a task once its cancellation is on record.
pub fn plan_cancellation(reason: TaskCancellationReason) -> (steps: Vec<OutcomeStep>)
    ensures
        step_views(steps@) == cancellation_steps(reason),
{
    let mut steps: Vec<OutcomeStep> = Vec::new();
    steps.push(OutcomeStep::Publish(InvocationOutcome::Cancelled(reason)));
    steps.push(OutcomeStep::ForgetInRuntime);
    assert(step_views(steps@) =~= cancellation_steps(reason));
    steps
}

/// The steps for an outcome. Where the task is called off, putting its cancellation on record
/// leads to the steps of `cancellation_steps` at that place.
pub open spec fn outcome_steps(
    state: PoolView,
    task: TaskId,
    endpoint: u64,
    outcome: OutcomeView,
) -> Seq<StepView> {
    if !state.admits(task) {
        failure_steps("active task"@, outcome is Suspended)
    } else {
        match outcome {
            OutcomeView::Complete(value) => terminal_steps(
                InvocationOutcomeView::Completed(value),
                TerminalTaskKind::Completed,
            ),
            OutcomeView::Aborted(error) => terminal_steps(
                InvocationOutcomeView::Aborted(error),
                TerminalTaskKind::Aborted,
            ),
            OutcomeView::Suspended(kind) => match state.called_off(endpoint) {
                Some(reason) => seq![
                    StepView::CancelInRuntime,
                    StepView::DrainEffects,
                    StepView::RecordCancelled(reason),
                    StepView::RouteDeliveries,
                ],
                None => if !state.may_suspend() {
                    failure_steps("suspended task"@, true)
                } else {
                    seq![StepView::DrainEffects, StepView::Announce(kind)] + prompt_steps(kind)
                        + seq![StepView::RouteDeliveries] + later_steps(kind)
                },
            },
        }
    }
}

/// The state once the steps for an outcome are laid out.
pub open spec fn outcome_state(
    state: PoolView,
    task: TaskId,
    context: TaskContext,
    outcome: OutcomeView,
) -> PoolView {
    if !state.admits(task) {
        state
    } else {
        let active = state.tasks.active.insert(task);
        let admitted = PoolView { tasks: TaskTableView { active, ..state.tasks }, ..state };
        if outcome is Suspended && state.called_off(context.endpoint@) is None
            && state.may_suspend() {
            PoolView {
                tasks: TaskTableView {
                    contexts: state.tasks.contexts.insert(task, context),
                    ..admitted.tasks
                },
                inputs: if outcome->Suspended_0 is WaitingForInput {
                    state.inputs.insert(
                        context.endpoint@,
                        waiting_at::<u64>(state.inputs, context.endpoint@).push(task),
                    )
                } else {
                    state.inputs
                },
                ..admitted
            }
        } else {
            admitted
        }
    }
}

/// A driver that is shutting down lets no task suspend.
pub proof fn law_a_stopping_driver_suspends_nothing(
    state: PoolView,
    task: TaskId,
    context: TaskContext,
    outcome: OutcomeView,
)
    requires
        state.lifecycle.state !is Running,
    ensures
        outcome_state(state, task, context, outcome).tasks.contexts == state.tasks.contexts,
{
}

fn plan_failure(resource: &str, suspended: bool) -> (steps: Vec<OutcomeStep>)
    ensures
        step_views(steps@) == failure_steps(resource@, suspended),
{
    let mut steps: Vec<OutcomeStep> = Vec::new();
    if suspended {
        steps.push(OutcomeStep::CancelInRuntime);
    }
    steps.push(OutcomeStep::DrainEffects);
    steps.push(OutcomeStep::Publish(InvocationOutcome::Failed(capacity_error(resource))));
    steps.push(OutcomeStep::RouteDeliveries);
    steps.push(OutcomeStep::RecordTerminal(TerminalTaskKind::Failed));
    steps.push(OutcomeStep::ForgetInRuntime);
    assert(step_views(steps@) =~= failure_steps(resource@, suspended));
    steps
}

fn plan_terminal(outcome: InvocationOutcome, kind: TerminalTaskKind) -> (steps: Vec<OutcomeStep>)
    ensures
        step_views(steps@) == terminal_steps(outcome@, kind),
{
    let mut steps: Vec<OutcomeStep> = Vec::new();
    steps.push(OutcomeStep::DrainEffects);
    steps.push(OutcomeStep::Publish(outcome));
    steps.push(OutcomeStep::RecordTerminal(kind));
    steps.push(OutcomeStep::ForgetInRuntime);
    steps.push(OutcomeStep::RouteDeliveries);
    assert(step_views(steps@) =~= terminal_steps(outcome@, kind));
    steps
}

fn plan_suspension(kind: SuspendKind) -> (steps: Vec<OutcomeStep>)
    ensures
        step_views(steps@) == seq![StepView::DrainEffects, StepView::Announce(kind@)]
            + prompt_steps(kind@) + seq![StepView::RouteDeliveries] + later_steps(kind@),
{
    let ghost said = kind@;
    let mut steps: Vec<OutcomeStep> = Vec::new();
    steps.push(OutcomeStep::DrainEffects);
    steps.push(OutcomeStep::Announce(kind.clone()));
    let mut later: Option<OutcomeStep> = None;
    match kind {
        SuspendKind::Commit => {
            steps.push(OutcomeStep::StartTimer(0));
        },
        SuspendKind::TimedMillis(millis) => {
            steps.push(OutcomeStep::StartTimer(millis));
        },
        SuspendKind::MailboxRecv(request) => {
            steps.push(OutcomeStep::ReceiveMailbox(request));
        },
        SuspendKind::Spawn(request) => {
            later = Some(OutcomeStep::Spawn(request));
        },
        SuspendKind::ExternalRequest(request) => {
            later = Some(OutcomeStep::RequestExternal(request));
        },
        SuspendKind::Never => {},
        SuspendKind::WaitingForInput(_) => {},
    }
    steps.push(OutcomeStep::RouteDeliveries);
    match later {
        Some(step) => {
            steps.push(step);
        },
        None => {},
    }
    assert(step_views(steps@) =~= seq![StepView::DrainEffects, StepView::Announce(said)]
        + prompt_steps(said) + seq![StepView::RouteDeliveries] + later_steps(said));
    steps
}

impl PoolState {
    /// Lays out what to do about the outcome of a task, and notes the task as active
    /// and, where it stays so, as suspended.
    pub fn plan_outcome(&mut self, task: TaskId, context: TaskContext, outcome: TaskOutcome)
        -> (steps: Vec<OutcomeStep>)
        requires
            old(self)@.wf(),
        ensures
            final(self)@.wf(),
            step_views(steps@) == outcome_steps(old(self)@, task, context.endpoint@, outcome@),
            final(self)@ == outcome_state(old(self)@, task, context, outcome@),
    {
        let ghost before = self@;
        let ghost said = outcome@;
        if !self.tasks.admit_active_task(task) {
            let suspended: bool = matches!(outcome, TaskOutcome::Suspended(_));
            return plan_failure("active task", suspended);
        }
        match outcome {
            TaskOutcome::Complete(value) => plan_terminal(
                InvocationOutcome::Completed(value),
                TerminalTaskKind::Completed,
            ),
            TaskOutcome::Aborted(error) => plan_terminal(
                InvocationOutcome::Aborted(error),
                TerminalTaskKind::Aborted,
            ),
            TaskOutcome::Suspended(kind) => {
                let reason: Option<TaskCancellationReason> = if !self.lifecycle.is_running() {
                    Some(TaskCancellationReason::DriverShutdown)
                } else if self.lifecycle.is_closed(&context.endpoint) {
                    Some(TaskCancellationReason::EndpointClosed)
                } else {
                    None
                };
                match reason {
                    Some(reason) => {
                        let mut steps: Vec<OutcomeStep> = Vec::new();
                        steps.push(OutcomeStep::CancelInRuntime);
                        steps.push(OutcomeStep::DrainEffects);
                        steps.push(OutcomeStep::RecordCancelled(reason));
                        steps.push(OutcomeStep::RouteDeliveries);
                        assert(step_views(steps@) =~= outcome_steps(
                            before,
                            task,
                            context.endpoint@,
                            said,
                        ));
                        steps
                    },
                    None => {
                        if !self.tasks.suspend(task, context) {
                            return plan_failure("suspended task", true);
                        }
                        if matches!(kind, SuspendKind::WaitingForInput(_)) {
                            self.inputs.push(context.endpoint.raw(), task);
                        }
                        plan_suspension(kind)
                    },
                }
            },
        }
    }
}

/// Whether effects are drained at step `e` alone, the outcome is told at step `t` alone,
/// and deliveries are routed at step `d` alone, in this order.
pub open spec fn in_order(steps: Seq<StepView>, e: int, t: int, d: int) -> bool {
    &&& 0 <= e < t < d < steps.len()
    &&& forall|i: int|
        0 <= i < steps.len() ==> {
            &&& ((#[trigger] steps[i]) is DrainEffects <==> i == e)
            &&& (steps[i].tells() <==> i == t)
            &&& (steps[i] is RouteDeliveries <==> i == d)
        }
}

/// Whatever the outcome, effects that the task committed are queued before the step that
/// tells what became of it, deliveries are routed after, and each happens exactly once.
pub proof fn law_effects_then_outcome_then_deliveries(
    state: PoolView,
    task: TaskId,
    endpoint: u64,
    outcome: OutcomeView,
)
    ensures
        exists|e: int, t: int, d: int| #[trigger]
            in_order(outcome_steps(state, task, endpoint, outcome), e, t, d),
{
    let steps = outcome_steps(state, task, endpoint, outcome);
    if !state.admits(task) {
        if outcome is Suspended {
            assert(in_order(steps, 1, 2, 3));
        } else {
            assert(in_order(steps, 0, 1, 2));
        }
    } else {
        match outcome {
            OutcomeView::Complete(_) => {
                assert(in_order(steps, 0, 1, 4));
            },
            OutcomeView::Aborted(_) => {
                assert(in_order(steps, 0, 1, 4));
            },
            OutcomeView::Suspended(kind) => {
                if state.called_off(endpoint) is Some || !state.may_suspend() {
                    assert(in_order(steps, 1, 2, 3));
                } else {
                    assert(in_order(steps, 0, 1, (2 + prompt_steps(kind).len()) as int));
                }
            },
        }
    }
}

/// A task whose endpoint is closed, or whose driver shuts down, does not stay suspended,
/// and is told to be cancelled for that reason.
pub proof fn law_closed_endpoint_keeps_no_task(
    state: PoolView,
    task: TaskId,
    context: TaskContext,
    kind: SuspendView,
)
    requires
        state.admits(task),
        state.called_off(context.endpoint@) is Some,
    ensures
        outcome_state(state, task, context, OutcomeView::Suspended(kind)).tasks.contexts
            == state.tasks.contexts,
        outcome_steps(state, task, context.endpoint@, OutcomeView::Suspended(kind)).contains(
            StepView::RecordCancelled(state.called_off(context.endpoint@)->0),
        ),
{
    let steps = outcome_steps(state, task, context.endpoint@, OutcomeView::Suspended(kind));
    assert(steps[2] == StepView::RecordCancelled(state.called_off(context.endpoint@)->0));
}

/// Where the end of a task is told.
#[derive(Debug, PartialEq)]
pub enum Publication {
    /// To the host that waits for the task.
    Invocation(InvocationOutcome),
    /// To all, in the event queue.
    Event(DriverEvent),
}

/// What a task that receives does next.
#[derive(Debug, PartialEq)]
pub enum ReceiveStep {
    /// It waits, at most so many milliseconds where a number is given.
    Wait(Option<u64>),
    /// It goes on with this value.
    Resume(Value),
}

/// Receivers without those that share a mailbox with an earlier one.
pub open spec fn distinct_receivers(receivers: Seq<(u64, ValueView)>) -> Seq<(u64, ValueView)>
    decreases receivers.len(),
{
    if receivers.len() == 0 {
        Seq::empty()
    } else {
        let before = distinct_receivers(receivers.drop_last());
        if mailbox_among(before, receivers.last().0) {
            before
        } else {
            before.push(receivers.last())
        }
    }
}

/// Whether a mailbox is among those of receivers.
pub open spec fn mailbox_among(receivers: Seq<(u64, ValueView)>, mailbox: u64) -> bool {
    exists|i: int| 0 <= i < receivers.len() && (#[trigger] receivers[i]).0 == mailbox
}

/// The lists with a waiter added at each of the first `n` mailboxes of receivers.
pub open spec fn waiting_for(
    lists: Map<u64, Seq<MailboxWaiterView>>,
    waiter: MailboxWaiterView,
    n: int,
) -> Map<u64, Seq<MailboxWaiterView>>
    decreases n,
{
    if n <= 0 {
        lists
    } else {
        let before = waiting_for(lists, waiter, n - 1);
        let mailbox = waiter.receivers[n - 1].0;
        before.insert(mailbox, waiting_at::<MailboxWaiter>(before, mailbox).push(waiter))
    }
}

/// Mailboxes with others added behind, each once.
pub open spec fn merged(mailboxes: Seq<u64>, more: Seq<u64>) -> Seq<u64>
    decreases more.len(),
{
    if more.len() == 0 {
        mailboxes
    } else {
        let before = merged(mailboxes, more.drop_last());
        if before.contains(more.last()) {
            before
        } else {
            before.push(more.last())
        }
    }
}

/// The mailboxes that an outcome delivered to: those of subscriptions, then those that
/// the task sent to.
pub fn delivered_mailboxes(subscriptions: Vec<u64>, sends: &[u64]) -> (mailboxes: Vec<u64>)
    ensures
        mailboxes@ == merged(subscriptions@, sends@),
{
    let mut mailboxes = subscriptions;
    let mut i: usize = 0;
    assert(sends@.take(0) =~= Seq::empty());
    while i < sends.len()
        invariant
            i <= sends@.len(),
            mailboxes@ == merged(subscriptions@, sends@.take(i as int)),
        decreases sends@.len() - i,
    {
        let mut known: bool = false;
        let mut j: usize = 0;
        while j < mailboxes.len()
            invariant
                i < sends@.len(),
                j <= mailboxes@.len(),
                known == mailboxes@.take(j as int).contains(sends@[i as int]),
            decreases mailboxes@.len() - j,
        {
            if mailboxes[j] == sends[i] {
                known = true;
                assert(mailboxes@.take(j + 1)[j as int] == sends@[i as int]);
            }
            proof {
                let now = mailboxes@.take(j + 1);
                let then = mailboxes@.take(j as int);
                assert(now =~= then.push(mailboxes@[j as int]));
                if then.contains(sends@[i as int]) {
                    let k = choose|k: int| 0 <= k < then.len() && then[k] == sends@[i as int];
                    assert(now[k] == sends@[i as int]);
                }
                if now.contains(sends@[i as int]) && !then.contains(sends@[i as int]) {
                    let k = choose|k: int| 0 <= k < now.len() && now[k] == sends@[i as int];
                    if k < then.len() {
                        assert(then[k] == sends@[i as int]);
                    }
                }
            }
            j = j + 1;
        }
        assert(mailboxes@.take(j as int) =~= mailboxes@);
        assert(sends@.take(i + 1).drop_last() =~= sends@.take(i as int));
        if !known {
            mailboxes.push(sends[i]);
        }
        i = i + 1;
    }
    assert(sends@.take(i as int) =~= sends@);
    mailboxes
}

/// How a worker ended that could not resume its task.
pub fn resume_error_outcome(error: &DriverError) -> (outcome: WorkerOutcome)
    ensures
        outcome == if error@.called_off() {
            WorkerOutcome::Cancelled
        } else {
            WorkerOutcome::Error
        },
{
    if error.is_called_off() {
        WorkerOutcome::Cancelled
    } else {
        WorkerOutcome::Error
    }
}

/// The steps for a task that a worker could not resume.
pub fn plan_worker_failure(error: String) -> (steps: Vec<OutcomeStep>)
    ensures
        step_views(steps@) == seq![
            StepView::Publish(InvocationOutcomeView::Failed(error@)),
            StepView::RecordTerminal(TerminalTaskKind::Failed),
            StepView::ForgetInRuntime,
        ],
{
    let ghost said = error@;
    let mut steps: Vec<OutcomeStep> = Vec::new();
    steps.push(OutcomeStep::Publish(InvocationOutcome::Failed(error)));
    steps.push(OutcomeStep::RecordTerminal(TerminalTaskKind::Failed));
    steps.push(OutcomeStep::ForgetInRuntime);
    assert(step_views(steps@) =~= seq![
        StepView::Publish(InvocationOutcomeView::Failed(said)),
        StepView::RecordTerminal(TerminalTaskKind::Failed),
        StepView::ForgetInRuntime,
    ]);
    steps
}

impl PoolState {
    /// Notes that a host waits for a task.
    pub fn install_invocation(&mut self, task: TaskId)
        requires
            old(self)@.wf(),
        ensures
            final(self)@.wf(),
            final(self)@ == (PoolView {
                invocations: old(self)@.invocations.insert(task),
                ..old(self)@
            }),
    {
        let _ = self.invocations.insert(task, ());
        assert(self@.invocations =~= old(self)@.invocations.insert(task));
    }

    /// Notes that no host waits for a task any more, and says whether one did.
    pub fn complete_invocation(&mut self, task: TaskId) -> (waited: bool)
        requires
            old(self)@.wf(),
        ensures
            final(self)@.wf(),
            waited == old(self)@.invocations.contains(task),
            final(self)@ == (PoolView {
                invocations: old(self)@.invocations.remove(task),
                ..old(self)@
            }),
    {
        let waited: bool = self.invocations.remove(&task).is_some();
        assert(self@.invocations =~= old(self)@.invocations.remove(task));
        waited
    }

    /// Leaves a suspended task to itself: its end will be an event.
    pub fn detach_invocation(&mut self, task: TaskId) -> (result: Result<(), DriverError>)
        requires
            old(self)@.wf(),
        ensures
            final(self)@.wf(),
            if !old(self)@.tasks.contexts.contains_key(task) {
                &&& outcome_view(result) == Err::<(), _>(
                    ErrorView::Configuration(
                        "task "@ + decimal(task as nat) + " is not a suspended invocation"@,
                    ),
                )
                &&& final(self)@ == old(self)@
            } else if !old(self)@.invocations.contains(task) {
                &&& outcome_view(result) == Err::<(), _>(
                    ErrorView::Configuration(
                        "task "@ + decimal(task as nat) + " does not have an invocation handle"@,
                    ),
                )
                &&& final(self)@ == old(self)@
            } else {
                &&& result is Ok
                &&& final(self)@ == (PoolView {
                    invocations: old(self)@.invocations.remove(task),
                    ..old(self)@
                })
            },
    {
        if self.tasks.context(task).is_none() {
            return Err(
                DriverError::Configuration(
                    numbered("task ", task, " is not a suspended invocation"),
                ),
            );
        }
        if !self.complete_invocation(task) {
            assert(self@.invocations =~= old(self)@.invocations);
            return Err(
                DriverError::Configuration(
                    numbered("task ", task, " does not have an invocation handle"),
                ),
            );
        }
        Ok(())
    }

    /// Says where the end of a task is to be told. A host that waits for it waits no
    /// more.
    pub fn publish(&mut self, task: TaskId, outcome: InvocationOutcome) -> (told: Publication)
        requires
            old(self)@.wf(),
        ensures
            final(self)@.wf(),
            final(self)@ == (PoolView {
                invocations: old(self)@.invocations.remove(task),
                ..old(self)@
            }),
            match told {
                Publication::Invocation(back) => old(self)@.invocations.contains(task) && back@
                    == outcome@,
                Publication::Event(event) => !old(self)@.invocations.contains(task) && event@
                    == outcome@.event(task),
            },
    {
        if self.complete_invocation(task) {
            Publication::Invocation(outcome)
        } else {
            Publication::Event(outcome.into_event(task))
        }
    }

    /// The event that tells of a suspension. A host that waits for the end of the task
    /// is not troubled with it.
    pub fn announce(&self, task: TaskId, kind: SuspendKind) -> (event: Option<DriverEvent>)
        ensures
            event is None == self@.invocations.contains(task),
            event matches Some(told) ==> told@ == EventView::TaskSuspended(task, kind@),
    {
        if self.invocations.contains(&task) {
            None
        } else {
            Some(DriverEvent::TaskSuspended { task_id: task, kind })
        }
    }

    /// Takes a suspended task up again on behalf of its endpoint.
    pub fn begin_resume(&mut self, task: TaskId) -> (result: Result<TaskContext, DriverError>)
        requires
            old(self)@.wf(),
            old(self)@.tasks.contexts.contains_key(task) ==> old(self)@.lifecycle.activities(
                old(self)@.tasks.contexts[task].endpoint@,
            ) < usize::MAX,
        ensures
            final(self)@.wf(),
            match old(self)@.resume_refusal(task) {
                Some(error) => {
                    &&& outcome_view(result) == Err::<TaskContext, _>(error)
                    &&& final(self)@ == old(self)@
                },
                None => {
                    let context = old(self)@.tasks.contexts[task];
                    &&& old(self)@.tasks.contexts.contains_key(task)
                    &&& result matches Ok(found) && found == context
                    &&& final(self)@ == (PoolView {
                        lifecycle: LifecycleView {
                            endpoint_activities: old(self)@.lifecycle.endpoint_activities.insert(
                                context.endpoint@,
                                (old(self)@.lifecycle.activities(context.endpoint@) + 1) as usize,
                            ),
                            ..old(self)@.lifecycle
                        },
                        mailboxes: without_task::<MailboxWaiter>(old(self)@.mailboxes, task),
                        ..old(self)@.without_context(task)
                    })
                },
            },
    {
        match self.tasks.context(task) {
            None => if self.tasks.was_cancelled(task) {
                Err(DriverError::TaskCancelled(task))
            } else {
                Err(DriverError::MissingTaskContext(task))
            },
            Some(context) => match self.lifecycle.begin_endpoint_activity(context.endpoint) {
                Err(error) => Err(error),
                Ok(()) => {
                    let _ = self.tasks.take_context(task);
                    self.mailboxes.remove_task(task);
                    Ok(context)
                },
            },
        }
    }

    /// Takes a suspended task up again from within the driver.
    pub fn resume_raw(&mut self, task: TaskId) -> (result: Result<TaskContext, DriverError>)
        requires
            old(self)@.wf(),
        ensures
            final(self)@.wf(),
            if old(self)@.tasks.contexts.contains_key(task) {
                &&& result matches Ok(context) && context == old(self)@.tasks.contexts[task]
                &&& final(self)@ == old(self)@.without_context(task)
            } else {
                &&& outcome_view(result) == Err::<TaskContext, _>(
                    ErrorView::MissingTaskContext(task),
                )
                &&& final(self)@ == old(self)@
            },
    {
        match self.tasks.take_context(task) {
            Some(context) => Ok(context),
            None => {
                assert(self@.tasks.contexts =~= old(self)@.tasks.contexts);
                Err(DriverError::MissingTaskContext(task))
            },
        }
    }

    /// Takes a suspended task out in order to cancel it.
    pub fn begin_cancel(&mut self, task: TaskId) -> (result: Result<TaskContext, DriverError>)
        requires
            old(self)@.wf(),
        ensures
            final(self)@.wf(),
            if old(self)@.tasks.contexts.contains_key(task) {
                &&& result matches Ok(context) && context == old(self)@.tasks.contexts[task]
                &&& final(self)@ == old(self)@.without_context(task)
            } else {
                &&& result matches Err(error) && Some(error@) == old(self)@.absence(task)
                &&& final(self)@ == old(self)@
            },
    {
        match self.tasks.take_context(task) {
            Some(context) => Ok(context),
            None => {
                assert(self@.tasks.contexts =~= old(self)@.tasks.contexts);
                if self.tasks.was_cancelled(task) {
                    Err(DriverError::TaskCancelled(task))
                } else {
                    Err(DriverError::MissingTaskContext(task))
                }
            },
        }
    }

    /// Takes a suspended task out for which a resource ran out, and lays out how it ends.
    /// There is nothing to do for a task that is not suspended any more.
    pub fn fail_suspended_task_for_capacity(&mut self, task: TaskId, resource: &str) -> (steps: Vec<
        OutcomeStep,
    >)
        requires
            old(self)@.wf(),
        ensures
            final(self)@.wf(),
            if old(self)@.tasks.contexts.contains_key(task) {
                &&& step_views(steps@) == seq![
                    StepView::CancelInRuntime,
                    StepView::RecordTerminal(TerminalTaskKind::Failed),
                    StepView::Publish(InvocationOutcomeView::Failed(exhausted(resource@))),
                    StepView::ForgetInRuntime,
                ]
                &&& final(self)@ == old(self)@.without_context(task)
            } else {
                &&& steps@.len() == 0
                &&& final(self)@ == old(self)@
            },
    {
        let mut steps: Vec<OutcomeStep> = Vec::new();
        if self.tasks.take_context(task).is_none() {
            assert(self@.tasks.contexts =~= old(self)@.tasks.contexts);
            return steps;
        }
        steps.push(OutcomeStep::CancelInRuntime);
        steps.push(OutcomeStep::RecordTerminal(TerminalTaskKind::Failed));
        steps.push(OutcomeStep::Publish(InvocationOutcome::Failed(capacity_error(resource))));
        steps.push(OutcomeStep::ForgetInRuntime);
        assert(step_views(steps@) =~= seq![
            StepView::CancelInRuntime,
            StepView::RecordTerminal(TerminalTaskKind::Failed),
            StepView::Publish(InvocationOutcomeView::Failed(exhausted(resource@))),
            StepView::ForgetInRuntime,
        ]);
        steps
    }

    /// Puts the end of a task on record that the runtime dropped, lets nothing wait on
    /// its behalf, and hands back its workers, which are to be stopped.
    pub fn finish_end(&mut self, task: TaskId, kind: TerminalTaskKind) -> (workers: Vec<u64>)
        requires
            old(self)@.wf(),
        ensures
            final(self)@.wf(),
            forall|id: u64| #[trigger]
                workers@.contains(id) <==> old(self)@.workers.workers.contains_key(id)
                    && old(self)@.workers.workers[id].task_id == task,
            workers@.no_duplicates(),
            final(self)@ == old(self)@.finished(task, kind),
    {
        self.mailboxes.remove_task(task);
        self.inputs.remove_task(task);
        self.tasks.record_terminal_task(task, kind);
        let workers = self.workers.take_task_workers(task);
        assert(workers@.to_set() =~= old(self)@.workers_of(task));
        workers
    }

    /// Puts on record that a task was cancelled, unless its end is on record already, and lays
    /// out what is to be done about it then: it is told, and the runtime forgets the task.
    pub fn record_cancelled_task(&mut self, task: TaskId, reason: TaskCancellationReason) -> (steps:
        Vec<OutcomeStep>)
        requires
            old(self)@.wf(),
        ensures
            final(self)@.wf(),
            if old(self)@.tasks.terminal.contains_key(task) {
                steps@.len() == 0
            } else {
                step_views(steps@) == cancellation_steps(reason)
            },
            final(self)@ == old(self)@.noted(task),
    {
        if self.tasks.has_ended(task) {
            return Vec::new();
        }
        self.tasks.record_terminal_task(task, TerminalTaskKind::Cancelled);
        self.mailboxes.remove_task(task);
        self.inputs.remove_task(task);
        plan_cancellation(reason)
    }

    /// Lets a task wait at the mailboxes of its receivers, and hands back the receivers,
    /// one for each mailbox.
    pub fn begin_receive(&mut self, task: TaskId, receivers: Vec<(u64, Value)>) -> (distinct: Vec<
        (u64, Value),
    >)
        requires
            old(self)@.wf(),
        ensures
            final(self)@.wf(),
            receiver_views(distinct@) == distinct_receivers(receiver_views(receivers@)),
            final(self)@ == (PoolView {
                mailboxes: waiting_for(
                    old(self)@.mailboxes,
                    MailboxWaiterView { task_id: task, receivers: receiver_views(distinct@) },
                    distinct@.len() as int,
                ),
                ..old(self)@
            }),
    {
        let ghost all = receiver_views(receivers@);
        let distinct = without_repeats(receivers);
        let ghost waiter = MailboxWaiterView {
            task_id: task,
            receivers: receiver_views(distinct@),
        };
        let mut i: usize = 0;
        while i < distinct.len()
            invariant
                i <= distinct@.len(),
                waiter == (MailboxWaiterView {
                    task_id: task,
                    receivers: receiver_views(distinct@),
                }),
                self@.wf(),
                self@ == (PoolView {
                    mailboxes: waiting_for(old(self)@.mailboxes, waiter, i as int),
                    ..old(self)@
                }),
            decreases distinct@.len() - i,
        {
            let mailbox: u64 = distinct[i].0;
            assert(waiter.receivers[i as int].0 == mailbox);
            self.mailboxes.push(
                mailbox,
                MailboxWaiter { task_id: task, receivers: copy_receivers(&distinct) },
            );
            i = i + 1;
        }
        distinct
    }

    /// Decides whether a task that receives waits, given the messages that are ready.
    pub fn finish_receive(&mut self, task: TaskId, ready: Vec<Value>, timeout: Option<u64>)
        -> (step: ReceiveStep)
        requires
            old(self)@.wf(),
        ensures
            final(self)@.wf(),
            if ready@.len() == 0 && timeout != Some(0u64) {
                &&& step == ReceiveStep::Wait(timeout)
                &&& final(self)@ == old(self)@
            } else {
                &&& step matches ReceiveStep::Resume(value) && value@ == ValueView::List(
                    views(ready@),
                )
                &&& final(self)@ == (PoolView {
                    mailboxes: without_task::<MailboxWaiter>(old(self)@.mailboxes, task),
                    ..old(self)@
                })
            },
    {
        let at_once: bool = match timeout {
            Some(millis) => millis == 0,
            None => false,
        };
        if ready.len() == 0 && !at_once {
            return ReceiveStep::Wait(timeout);
        }
        self.mailboxes.remove_task(task);
        ReceiveStep::Resume(Value::list(ready))
    }
}

/// What a task goes on with that waited for messages: those that came, if any did.
pub fn awaited_messages(ready: Vec<Value>) -> (value: Option<Value>)
    ensures
        value is Some == (ready@.len() > 0),
        value matches Some(list) ==> list@ == ValueView::List(views(ready@)),
{
    if ready.len() == 0 {
        None
    } else {
        Some(Value::list(ready))
    }
}

fn without_repeats(receivers: Vec<(u64, Value)>) -> (distinct: Vec<(u64, Value)>)
    ensures
        receiver_views(distinct@) == distinct_receivers(receiver_views(receivers@)),
{
    let ghost all = receiver_views(receivers@);
    let mut distinct: Vec<(u64, Value)> = Vec::new();
    let mut i: usize = 0;
    proof {
        assert(all.take(0) =~= Seq::empty());
        assert(receiver_views(distinct@) =~= distinct_receivers(all.take(0)));
    }
    while i < receivers.len()
        invariant
            i <= receivers@.len(),
            all == receiver_views(receivers@),
            receiver_views(distinct@) == distinct_receivers(all.take(i as int)),
        decreases receivers@.len() - i,
    {
        let mailbox: u64 = receivers[i].0;
        let mut known: bool = false;
        let mut j: usize = 0;
        while j < distinct.len()
            invariant
                j <= distinct@.len(),
                known <==> exists|k: int| 0 <= k < j && (#[trigger] distinct@[k]).0 == mailbox,
            decreases distinct@.len() - j,
        {
            if distinct[j].0 == mailbox {
                known = true;
            }
            j = j + 1;
        }
        proof {
            let so_far = receiver_views(distinct@);
            assert(all.take(i + 1).drop_last() =~= all.take(i as int));
            assert(all.take(i + 1).last() == all[i as int]);
            if known {
                let k = choose|k: int| 0 <= k < j && (#[trigger] distinct@[k]).0 == mailbox;
                assert(so_far[k].0 == mailbox);
            }
            if mailbox_among(so_far, mailbox) {
                let k = choose|k: int| 0 <= k < so_far.len() && (#[trigger] so_far[k]).0 == mailbox;
                assert(distinct@[k].0 == mailbox);
            }
        }
        if !known {
            let ghost so_far = distinct@;
            distinct.push((mailbox, copy_value(&receivers[i].1)));
            assert(receiver_views(distinct@) =~= receiver_views(so_far).push(all[i as int]));
        }
        i = i + 1;
    }
    assert(all.take(i as int) =~= all);
    distinct
}

/// A task that ended, or was cancelled, waits nowhere.
pub proof fn law_ended_task_waits_nowhere(state: PoolView, task: TaskId, kind: TerminalTaskKind)
    ensures
        ({
            let after = state.without_waiters(task).ended(task, kind);
            &&& !waits_anywhere::<u64>(after.inputs, task)
            &&& !waits_anywhere::<MailboxWaiter>(after.mailboxes, task)
            &&& !after.tasks.contexts.contains_key(task)
            &&& !after.tasks.active.contains(task)
        }),
{
    let after = state.without_waiters(task).ended(task, kind);
    assert forall|place: u64, i: int|
        #![trigger after.inputs[place][i]]
        after.inputs.contains_key(place) && 0 <= i < after.inputs[place].len() implies after.inputs[place][i]
        != task by {
        broadcast use vstd::seq_lib::group_filter_ensures;

    }
    assert forall|place: u64, i: int|
        #![trigger after.mailboxes[place][i]]
        after.mailboxes.contains_key(place) && 0 <= i < after.mailboxes[place].len() implies after.mailboxes[place][i].task_id
        != task by {
        broadcast use vstd::seq_lib::group_filter_ensures;

    }
}

} // verus!
