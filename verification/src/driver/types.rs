//! Tasks, events, errors and requests of the driver.

use crate::text::{decimal, numbered};
use crate::value::{copy_value, copy_values, same_value, views, Identity, Symbol, Value, ValueView};
use vstd::prelude::*;

verus! {

/// The number of a task.
pub type TaskId = u64;

/// For whom a task runs. The authority is the number under which the runtime keeps
/// it.
#[derive(Clone, Copy, Debug, PartialEq, Eq, Structural)]
pub struct TaskContext {
    pub principal: Option<Identity>,
    pub actor: Option<Identity>,
    pub endpoint: Identity,
    pub authority: u64,
}

/// What a task asks of the runtime.
#[derive(Clone, Copy, Debug, PartialEq, Eq, Structural)]
pub struct TaskRequest {
    pub principal: Option<Identity>,
    pub actor: Option<Identity>,
    pub endpoint: Identity,
    pub authority: u64,
}

impl TaskContext {
    /// The context of a request that comes through `endpoint`.
    pub fn from_request(request: &TaskRequest, endpoint: Identity) -> (context: TaskContext)
        ensures
            context == (TaskContext {
                principal: request.principal,
                actor: request.actor,
                endpoint,
                authority: request.authority,
            }),
    {
        TaskContext {
            principal: request.principal,
            actor: request.actor,
            endpoint,
            authority: request.authority,
        }
    }

    /// The request that goes on with a task of this context.
    pub fn continuation(&self) -> (request: TaskRequest)
        ensures
            request == (TaskRequest {
                principal: self.principal,
                actor: self.actor,
                endpoint: self.endpoint,
                authority: self.authority,
            }),
    {
        TaskRequest {
            principal: self.principal,
            actor: self.actor,
            endpoint: self.endpoint,
            authority: self.authority,
        }
    }
}

/// A request to receive from mailboxes.
#[derive(Debug, PartialEq)]
pub struct MailboxRecvRequest {
    pub receivers: Vec<Value>,
    pub timeout_millis: Option<u64>,
}

/// A request to run another task.
#[derive(Debug, PartialEq)]
pub struct SpawnRequest {
    pub selector: Symbol,
    pub target: Value,
    pub delay_millis: Option<u64>,
}

/// A request to a service outside.
#[derive(Debug, PartialEq)]
pub struct ExternalRequest {
    pub service: Symbol,
    pub payload: Value,
    pub timeout_millis: Option<u64>,
}

/// Why a task is suspended.
#[derive(Debug, PartialEq)]
pub enum SuspendKind {
    Commit,
    Never,
    TimedMillis(u64),
    WaitingForInput(Value),
    MailboxRecv(MailboxRecvRequest),
    Spawn(SpawnRequest),
    ExternalRequest(ExternalRequest),
}

/// What a suspension is, apart from how it is stored.
pub enum SuspendView {
    Commit,
    Never,
    TimedMillis(u64),
    WaitingForInput(ValueView),
    MailboxRecv(Seq<ValueView>, Option<u64>),
    Spawn(Seq<char>, ValueView, Option<u64>),
    ExternalRequest(Seq<char>, ValueView, Option<u64>),
}

impl View for SuspendKind {
    type V = SuspendView;

    open spec fn view(&self) -> SuspendView {
        match self {
            SuspendKind::Commit => SuspendView::Commit,
            SuspendKind::Never => SuspendView::Never,
            SuspendKind::TimedMillis(millis) => SuspendView::TimedMillis(*millis),
            SuspendKind::WaitingForInput(prompt) => SuspendView::WaitingForInput(prompt@),
            SuspendKind::MailboxRecv(request) => SuspendView::MailboxRecv(
                views(request.receivers@),
                request.timeout_millis,
            ),
            SuspendKind::Spawn(request) => SuspendView::Spawn(
                request.selector@,
                request.target@,
                request.delay_millis,
            ),
            SuspendKind::ExternalRequest(request) => SuspendView::ExternalRequest(
                request.service@,
                request.payload@,
                request.timeout_millis,
            ),
        }
    }
}

fn same_values(a: &[Value], b: &[Value]) -> (result: bool)
    ensures
        result == (views(a@) == views(b@)),
{
    if a.len() != b.len() {
        assert(views(a@).len() != views(b@).len());
        return false;
    }
    let mut i: usize = 0;
    while i < a.len()
        invariant
            a@.len() == b@.len(),
            i <= a@.len(),
            forall|j: int| 0 <= j < i ==> views(a@)[j] == #[trigger] views(b@)[j],
        decreases a@.len() - i,
    {
        if !same_value(&a[i], &b[i]) {
            assert(views(a@)[i as int] != views(b@)[i as int]);
            return false;
        }
        i = i + 1;
    }
    assert(views(a@) =~= views(b@));
    true
}

fn same_millis(a: Option<u64>, b: Option<u64>) -> (result: bool)
    ensures
        result == (a == b),
{
    match (a, b) {
        (Some(a), Some(b)) => a == b,
        (None, None) => true,
        _ => false,
    }
}

impl SuspendKind {
    /// Whether two suspensions are the same.
    pub fn same(&self, other: &SuspendKind) -> (result: bool)
        ensures
            result == (self@ == other@),
    {
        match (self, other) {
            (SuspendKind::Commit, SuspendKind::Commit) => true,
            (SuspendKind::Never, SuspendKind::Never) => true,
            (SuspendKind::TimedMillis(a), SuspendKind::TimedMillis(b)) => *a == *b,
            (SuspendKind::WaitingForInput(a), SuspendKind::WaitingForInput(b)) => same_value(a, b),
            (SuspendKind::MailboxRecv(a), SuspendKind::MailboxRecv(b)) => same_values(
                &a.receivers,
                &b.receivers,
            ) && same_millis(a.timeout_millis, b.timeout_millis),
            (SuspendKind::Spawn(a), SuspendKind::Spawn(b)) => a.selector.same(&b.selector)
                && same_value(&a.target, &b.target) && same_millis(a.delay_millis, b.delay_millis),
            (SuspendKind::ExternalRequest(a), SuspendKind::ExternalRequest(b)) => a.service.same(
                &b.service,
            ) && same_value(&a.payload, &b.payload) && same_millis(
                a.timeout_millis,
                b.timeout_millis,
            ),
            _ => false,
        }
    }
}

impl Clone for SuspendKind {
    fn clone(&self) -> (copy: SuspendKind)
        ensures
            copy@ == self@,
    {
        match self {
            SuspendKind::Commit => SuspendKind::Commit,
            SuspendKind::Never => SuspendKind::Never,
            SuspendKind::TimedMillis(millis) => SuspendKind::TimedMillis(*millis),
            SuspendKind::WaitingForInput(prompt) => SuspendKind::WaitingForInput(
                copy_value(prompt),
            ),
            SuspendKind::MailboxRecv(request) => SuspendKind::MailboxRecv(
                MailboxRecvRequest {
                    receivers: copy_values(&request.receivers),
                    timeout_millis: request.timeout_millis,
                },
            ),
            SuspendKind::Spawn(request) => SuspendKind::Spawn(
                SpawnRequest {
                    selector: request.selector.clone(),
                    target: copy_value(&request.target),
                    delay_millis: request.delay_millis,
                },
            ),
            SuspendKind::ExternalRequest(request) => SuspendKind::ExternalRequest(
                ExternalRequest {
                    service: request.service.clone(),
                    payload: copy_value(&request.payload),
                    timeout_millis: request.timeout_millis,
                },
            ),
        }
    }
}

/// Why a task was cancelled.
#[derive(Clone, Copy, Debug, PartialEq, Eq, Structural)]
pub enum TaskCancellationReason {
    Requested,
    EndpointClosed,
    DriverShutdown,
}

/// Something that a task emitted for an endpoint.
#[derive(Debug, PartialEq)]
pub struct Effect {
    pub target: Identity,
    pub value: Value,
}

/// An ordered notification from the driver.
///
/// Effects committed by a task come before that task's lifecycle event, and
/// subscription readiness caused by an outcome follows it. Terminal task events and
/// effects stay queued until a host drains them; repeated suspension and
/// subscription-ready notifications may be coalesced.
#[derive(Debug, PartialEq)]
#[allow(inconsistent_fields)]
pub enum DriverEvent {
    TaskCompleted { task_id: TaskId, value: Value },
    TaskAborted { task_id: TaskId, error: Value },
    TaskCancelled { task_id: TaskId, reason: TaskCancellationReason },
    TaskFailed { task_id: TaskId, error: String },
    TaskSuspended { task_id: TaskId, kind: SuspendKind },
    SubscriptionReady { mailbox: u64 },
    Effect(Effect),
}

/// What an event says, apart from how it is stored.
pub enum EventView {
    TaskCompleted(TaskId, ValueView),
    TaskAborted(TaskId, ValueView),
    TaskCancelled(TaskId, TaskCancellationReason),
    TaskFailed(TaskId, Seq<char>),
    TaskSuspended(TaskId, SuspendView),
    SubscriptionReady(u64),
    Effect(u64, ValueView),
}

impl View for DriverEvent {
    type V = EventView;

    open spec fn view(&self) -> EventView {
        match self {
            DriverEvent::TaskCompleted { task_id, value } => EventView::TaskCompleted(
                *task_id,
                value@,
            ),
            DriverEvent::TaskAborted { task_id, error } => EventView::TaskAborted(*task_id, error@),
            DriverEvent::TaskCancelled { task_id, reason } => EventView::TaskCancelled(
                *task_id,
                *reason,
            ),
            DriverEvent::TaskFailed { task_id, error } => EventView::TaskFailed(*task_id, error@),
            DriverEvent::TaskSuspended { task_id, kind } => EventView::TaskSuspended(
                *task_id,
                kind@,
            ),
            DriverEvent::SubscriptionReady { mailbox } => EventView::SubscriptionReady(*mailbox),
            DriverEvent::Effect(effect) => EventView::Effect(effect.target@, effect.value@),
        }
    }
}

impl EventView {
    /// Whether a second copy of the event, queued behind the first, says nothing
    /// new.
    pub open spec fn repeatable(self) -> bool {
        self is TaskSuspended || self is SubscriptionReady
    }
}

impl Clone for DriverEvent {
    fn clone(&self) -> (copy: DriverEvent)
        ensures
            copy@ == self@,
    {
        match self {
            DriverEvent::TaskCompleted { task_id, value } => DriverEvent::TaskCompleted {
                task_id: *task_id,
                value: copy_value(value),
            },
            DriverEvent::TaskAborted { task_id, error } => DriverEvent::TaskAborted {
                task_id: *task_id,
                error: copy_value(error),
            },
            DriverEvent::TaskCancelled { task_id, reason } => DriverEvent::TaskCancelled {
                task_id: *task_id,
                reason: *reason,
            },
            DriverEvent::TaskFailed { task_id, error } => DriverEvent::TaskFailed {
                task_id: *task_id,
                error: error.clone(),
            },
            DriverEvent::TaskSuspended { task_id, kind } => DriverEvent::TaskSuspended {
                task_id: *task_id,
                kind: kind.clone(),
            },
            DriverEvent::SubscriptionReady { mailbox } => DriverEvent::SubscriptionReady {
                mailbox: *mailbox,
            },
            DriverEvent::Effect(effect) => DriverEvent::Effect(
                Effect { target: effect.target, value: copy_value(&effect.value) },
            ),
        }
    }
}

/// What closing an endpoint came to.
#[derive(Debug, PartialEq)]
pub struct EndpointCloseReport {
    pub relation_changes: usize,
    pub cancelled_tasks: Vec<TaskId>,
}

/// What a host asks to hear of: a subject and what is delivered at first, as the runtime knows
/// them, where to go on from, and how many deliveries are queued. Where the host names no number
/// of its own, it is the driver's.
#[derive(Debug, PartialEq, Eq)]
pub struct DriverSubscriptionRequest<S, D> {
    pub subject: S,
    pub initial_delivery: D,
    pub cursor: Option<u64>,
    pub queue_budget: Option<usize>,
}

/// What the runtime is asked to subscribe to.
#[derive(Debug, PartialEq)]
pub struct SubscriptionRequest<S, D> {
    pub sender: Value,
    pub subject: S,
    pub initial_delivery: D,
    pub cursor: Option<u64>,
    pub queue_budget: usize,
}

/// A mailbox through which a host hears of its subscriptions.
#[derive(Debug, PartialEq)]
pub struct DriverSubscriptionMailbox {
    mailbox: u64,
    receiver: Value,
    sender: Value,
}

impl DriverSubscriptionMailbox {
    /// The number of the mailbox.
    pub closed spec fn number(self) -> u64 {
        self.mailbox
    }

    /// The receiving end.
    pub closed spec fn receiving(self) -> ValueView {
        self.receiver@
    }

    /// The sending end.
    pub closed spec fn sending(self) -> ValueView {
        self.sender@
    }

    /// A mailbox with its two ends.
    pub fn new(mailbox: u64, receiver: Value, sender: Value) -> (made: DriverSubscriptionMailbox)
        ensures
            made.number() == mailbox,
            made.receiving() == receiver@,
            made.sending() == sender@,
    {
        DriverSubscriptionMailbox { mailbox, receiver, sender }
    }

    /// The number of the mailbox.
    pub fn id(&self) -> (id: u64)
        ensures
            id == self.number(),
    {
        self.mailbox
    }

    /// The receiving end.
    pub fn receiver(&self) -> (receiver: &Value)
        ensures
            receiver@ == self.receiving(),
    {
        &self.receiver
    }

    /// The sending end.
    pub fn sender(&self) -> (sender: &Value)
        ensures
            sender@ == self.sending(),
    {
        &self.sender
    }
}

/// Why the driver refused or failed.
#[derive(Debug, PartialEq, Eq)]
pub enum DriverError {
    Source(String),
    Storage(String),
    Configuration(String),
    Join(String),
    MissingTaskContext(TaskId),
    EphemeralIdentityExhausted,
    TaskCancelled(TaskId),
    EndpointClosed(Identity),
    DriverStopped,
}

/// What an error says, apart from how it is stored.
pub enum ErrorView {
    Source(Seq<char>),
    Storage(Seq<char>),
    Configuration(Seq<char>),
    Join(Seq<char>),
    MissingTaskContext(TaskId),
    EphemeralIdentityExhausted,
    TaskCancelled(TaskId),
    EndpointClosed(u64),
    DriverStopped,
}

impl View for DriverError {
    type V = ErrorView;

    open spec fn view(&self) -> ErrorView {
        match self {
            DriverError::Source(text) => ErrorView::Source(text@),
            DriverError::Storage(text) => ErrorView::Storage(text@),
            DriverError::Configuration(text) => ErrorView::Configuration(text@),
            DriverError::Join(text) => ErrorView::Join(text@),
            DriverError::MissingTaskContext(task_id) => ErrorView::MissingTaskContext(*task_id),
            DriverError::EphemeralIdentityExhausted => ErrorView::EphemeralIdentityExhausted,
            DriverError::TaskCancelled(task_id) => ErrorView::TaskCancelled(*task_id),
            DriverError::EndpointClosed(endpoint) => ErrorView::EndpointClosed(endpoint@),
            DriverError::DriverStopped => ErrorView::DriverStopped,
        }
    }
}

impl ErrorView {
    /// The text of the error, with the endpoint by the name that is given.
    pub open spec fn message(self, endpoint_name: Seq<char>) -> Seq<char> {
        match self {
            ErrorView::Source(text) => text,
            ErrorView::Storage(text) => "failed to open driver storage: "@ + text,
            ErrorView::Configuration(text) => "invalid driver configuration: "@ + text,
            ErrorView::Join(text) => "driver task failed: "@ + text,
            ErrorView::MissingTaskContext(task_id) => "missing task context for task "@ + decimal(
                task_id as nat,
            ),
            ErrorView::EphemeralIdentityExhausted => "ephemeral host identity space is exhausted"@,
            ErrorView::TaskCancelled(task_id) => "task "@ + decimal(task_id as nat)
                + " was cancelled"@,
            ErrorView::EndpointClosed(_) => "endpoint "@ + endpoint_name + " is closed"@,
            ErrorView::DriverStopped => "task driver is stopped"@,
        }
    }

    /// Whether the error says that work was called off rather than failed.
    pub open spec fn called_off(self) -> bool {
        self is TaskCancelled || self is EndpointClosed || self is DriverStopped
    }
}

/// `before` followed by `after`.
pub fn joined(before: &str, after: &str) -> (text: String)
    ensures
        text@ == before@ + after@,
{
    let mut text = before.to_owned();
    text.append(after);
    text
}

impl DriverError {
    /// An error of configuration.
    pub fn configuration(text: &str) -> (error: DriverError)
        ensures
            error@ == ErrorView::Configuration(text@),
    {
        DriverError::Configuration(text.to_owned())
    }

    /// The text of the error, with the endpoint by the name that is given.
    pub fn message(&self, endpoint_name: &str) -> (text: String)
        ensures
            text@ == self@.message(endpoint_name@),
    {
        match self {
            DriverError::Source(text) => text.clone(),
            DriverError::Storage(text) => joined("failed to open driver storage: ", text.as_str()),
            DriverError::Configuration(text) => joined(
                "invalid driver configuration: ",
                text.as_str(),
            ),
            DriverError::Join(text) => joined("driver task failed: ", text.as_str()),
            DriverError::MissingTaskContext(task_id) => {
                let text = numbered("missing task context for task ", *task_id, "");
                proof {
                    reveal_strlit("");
                }
                assert(text@ =~= self@.message(endpoint_name@));
                text
            },
            DriverError::EphemeralIdentityExhausted => {
                "ephemeral host identity space is exhausted".to_owned()
            },
            DriverError::TaskCancelled(task_id) => numbered("task ", *task_id, " was cancelled"),
            DriverError::EndpointClosed(_) => {
                let mut text = joined("endpoint ", endpoint_name);
                text.append(" is closed");
                text
            },
            DriverError::DriverStopped => "task driver is stopped".to_owned(),
        }
    }

    /// The error of the runtime that this error passes on.
    pub fn source(&self) -> (source: Option<&str>)
        ensures
            source is Some == self@ is Source,
            source matches Some(text) ==> self@ == ErrorView::Source(text@),
    {
        match self {
            DriverError::Source(text) => Some(text.as_str()),
            _ => None,
        }
    }

    /// Whether the error says that work was called off rather than failed.
    pub fn is_called_off(&self) -> (result: bool)
        ensures
            result == self@.called_off(),
    {
        match self {
            DriverError::TaskCancelled(_) | DriverError::EndpointClosed(_)
            | DriverError::DriverStopped => true,
            _ => false,
        }
    }
}

/// Whether an external request is still wanted.
#[derive(Debug, PartialEq, Eq)]
pub struct ExternalRequestCancellation {
    cancelled: bool,
}

impl ExternalRequestCancellation {
    /// Whether the request was cancelled.
    pub closed spec fn flagged(self) -> bool {
        self.cancelled
    }

    /// A request that is wanted.
    pub fn new() -> (cancellation: ExternalRequestCancellation)
        ensures
            !cancellation.flagged(),
    {
        ExternalRequestCancellation { cancelled: false }
    }

    /// Whether the request was cancelled.
    pub fn is_cancelled(&self) -> (cancelled: bool)
        ensures
            cancelled == self.flagged(),
    {
        self.cancelled
    }

    /// Cancels the request, once and for all, and says whether those who wait to
    /// hear of it are to be woken: the first time only.
    pub fn cancel(&mut self) -> (wake: bool)
        ensures
            final(self).flagged() == flagged_after(
                old(self).flagged(),
                seq![CancellationCall::Cancel],
            ),
            final(self).flagged(),
            wake == !old(self).flagged(),
    {
        let first: bool = !self.cancelled;
        self.cancelled = true;
        first
    }
}

/// What those who hold a cancellation do with it.
pub enum CancellationCall {
    Ask,
    Cancel,
}

/// Whether a request is cancelled after calls.
pub open spec fn flagged_after(flagged: bool, calls: Seq<CancellationCall>) -> bool
    decreases calls.len(),
{
    if calls.len() == 0 {
        flagged
    } else {
        calls.last() is Cancel || flagged_after(flagged, calls.drop_last())
    }
}

/// A request that is wanted counts as cancelled from the first call that cancels it, and stays
/// so whatever is called.
pub proof fn law_cancelled_from_the_first_such_call_on(calls: Seq<CancellationCall>)
    ensures
        flagged_after(false, calls) <==> calls.contains(CancellationCall::Cancel),
    decreases calls.len(),
{
    if calls.len() > 0 {
        let less = calls.drop_last();
        law_cancelled_from_the_first_such_call_on(less);
        assert(calls[calls.len() - 1] == calls.last());
        if less.contains(CancellationCall::Cancel) {
            let i = choose|i: int| 0 <= i < less.len() && less[i] == CancellationCall::Cancel;
            assert(calls[i] == CancellationCall::Cancel);
        }
        if calls.contains(CancellationCall::Cancel) && !(calls.last() is Cancel) {
            let i = choose|i: int| 0 <= i < calls.len() && calls[i] == CancellationCall::Cancel;
            assert(less[i] == CancellationCall::Cancel);
        }
    }
}

} // verus!
