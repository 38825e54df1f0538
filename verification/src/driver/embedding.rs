//! What a host embeds: invocations, event handlers, endpoint sessions.

use crate::driver::events::event_views;
use crate::driver::facts::Fact;
use crate::driver::lifecycle::outcome_view;
use crate::driver::subscriptions::checked;
use crate::driver::types::{DriverError, DriverEvent, ErrorView, EventView, TaskCancellationReason,
    TaskId};
use crate::table::{entry_keys, lemma_entry_map, Keyed, Table};
use crate::text::{decimal, numbered};
use crate::value::{copy_value, Identity, Symbol, Value, ValueView};
use std::collections::VecDeque;
use vstd::prelude::*;

verus! {

/// Something that a host is woken by when events wait.
pub trait DriverWake: Send + Sync {
    /// Wakes the host.
    fn wake(&self);
}

/// A fact of a relation that is known by its name.
pub type NamedTuple = Fact;

/// Which task an invocation is, and for whom it runs.
#[derive(Debug, PartialEq)]
pub struct InvocationDiagnostics {
    pub task_id: TaskId,
    pub selector: Symbol,
    pub endpoint: Identity,
    pub principal: Option<Identity>,
    pub actor: Option<Identity>,
}

/// How an invocation ended.
#[derive(Debug, PartialEq)]
pub enum InvocationOutcome {
    Completed(Value),
    Aborted(Value),
    Cancelled(TaskCancellationReason),
    Failed(String),
}

/// How an invocation ended, apart from how it is stored.
pub enum InvocationOutcomeView {
    Completed(ValueView),
    Aborted(ValueView),
    Cancelled(TaskCancellationReason),
    Failed(Seq<char>),
}

impl View for InvocationOutcome {
    type V = InvocationOutcomeView;

    open spec fn view(&self) -> InvocationOutcomeView {
        match self {
            InvocationOutcome::Completed(value) => InvocationOutcomeView::Completed(value@),
            InvocationOutcome::Aborted(error) => InvocationOutcomeView::Aborted(error@),
            InvocationOutcome::Cancelled(reason) => InvocationOutcomeView::Cancelled(*reason),
            InvocationOutcome::Failed(error) => InvocationOutcomeView::Failed(error@),
        }
    }
}

impl Clone for InvocationOutcome {
    fn clone(&self) -> (copy: InvocationOutcome)
        ensures
            copy@ == self@,
    {
        match self {
            InvocationOutcome::Completed(value) => InvocationOutcome::Completed(copy_value(value)),
            InvocationOutcome::Aborted(error) => InvocationOutcome::Aborted(copy_value(error)),
            InvocationOutcome::Cancelled(reason) => InvocationOutcome::Cancelled(*reason),
            InvocationOutcome::Failed(error) => InvocationOutcome::Failed(error.clone()),
        }
    }
}

impl InvocationOutcomeView {
    /// The event that tells of the end of a task.
    pub open spec fn event(self, task: TaskId) -> EventView {
        match self {
            InvocationOutcomeView::Completed(value) => EventView::TaskCompleted(task, value),
            InvocationOutcomeView::Aborted(error) => EventView::TaskAborted(task, error),
            InvocationOutcomeView::Cancelled(reason) => EventView::TaskCancelled(task, reason),
            InvocationOutcomeView::Failed(error) => EventView::TaskFailed(task, error),
        }
    }
}

impl InvocationOutcome {
    /// The event that tells of the end of a task.
    pub fn into_event(self, task_id: TaskId) -> (event: DriverEvent)
        ensures
            event@ == self@.event(task_id),
    {
        match self {
            InvocationOutcome::Completed(value) => DriverEvent::TaskCompleted { task_id, value },
            InvocationOutcome::Aborted(error) => DriverEvent::TaskAborted { task_id, error },
            InvocationOutcome::Cancelled(reason) => DriverEvent::TaskCancelled { task_id, reason },
            InvocationOutcome::Failed(error) => DriverEvent::TaskFailed { task_id, error },
        }
    }
}

/// An invocation whose end a host waits for.
#[derive(Debug)]
pub struct InvocationState {
    diagnostics: InvocationDiagnostics,
    outcome: Option<InvocationOutcome>,
}

impl InvocationState {
    /// Which task the invocation is, and for whom it runs.
    pub closed spec fn about(self) -> InvocationDiagnostics {
        self.diagnostics
    }

    /// How the invocation ended, if it has.
    pub closed spec fn ended(self) -> Option<InvocationOutcomeView> {
        match self.outcome {
            Some(outcome) => Some(outcome@),
            None => None,
        }
    }

    /// An invocation that has not ended.
    pub fn new(diagnostics: InvocationDiagnostics) -> (state: InvocationState)
        ensures
            state.about() == diagnostics,
            state.ended() is None,
    {
        InvocationState { diagnostics, outcome: None }
    }

    /// Which task the invocation is, and for whom it runs.
    pub fn diagnostics(&self) -> (diagnostics: &InvocationDiagnostics)
        ensures
            *diagnostics == self.about(),
    {
        &self.diagnostics
    }

    /// Ends the invocation; of several ends the first counts. Says whether the host
    /// that waits is to be woken.
    pub fn complete(&mut self, outcome: InvocationOutcome) -> (wake: bool)
        ensures
            final(self).about() == old(self).about(),
            wake == old(self).ended() is None,
            final(self).ended() == if old(self).ended() is Some {
                old(self).ended()
            } else {
                Some(outcome@)
            },
    {
        if self.outcome.is_some() {
            return false;
        }
        self.outcome = Some(outcome);
        true
    }

    /// How the invocation ended, if it has.
    pub fn try_outcome(&self) -> (outcome: Option<InvocationOutcome>)
        ensures
            outcome is Some == self.ended() is Some,
            outcome matches Some(found) ==> self.ended() == Some(found@),
    {
        match &self.outcome {
            Some(outcome) => Some(outcome.clone()),
            None => None,
        }
    }
}

/// The bounded queue of one event handler.
#[derive(Debug)]
pub struct DriverEventSinkQueue {
    events: VecDeque<DriverEvent>,
    capacity: usize,
    closed: bool,
}

/// The queued events of one handler, how many may wait, and whether the handler is
/// gone.
pub struct SinkView {
    pub events: Seq<EventView>,
    pub capacity: nat,
    pub closed: bool,
}

impl SinkView {
    /// Whether one more event is taken.
    pub open spec fn takes(self) -> bool {
        !self.closed && self.events.len() < self.capacity
    }

    /// The queue with one more event.
    pub open spec fn with_event(self, event: EventView) -> SinkView {
        SinkView { events: self.events.push(event), ..self }
    }
}

impl View for DriverEventSinkQueue {
    type V = SinkView;

    closed spec fn view(&self) -> SinkView {
        SinkView {
            events: event_views(self.events@),
            capacity: self.capacity as nat,
            closed: self.closed,
        }
    }
}

/// What a handler finds in its queue.
#[derive(Debug)]
pub enum SinkReceive {
    Event(DriverEvent),
    Closed,
    Empty,
}

impl DriverEventSinkQueue {
    /// An empty queue.
    pub fn new(capacity: usize) -> (queue: DriverEventSinkQueue)
        ensures
            queue@ == (SinkView {
                events: Seq::empty(),
                capacity: capacity as nat,
                closed: false,
            }),
    {
        let queue = DriverEventSinkQueue { events: VecDeque::new(), capacity, closed: false };
        assert(queue@.events =~= Seq::empty());
        queue
    }

    /// Queues an event, unless the queue is full or the handler is gone.
    pub fn try_send(&mut self, event: DriverEvent) -> (sent: bool)
        ensures
            sent == old(self)@.takes(),
            final(self)@ == if sent {
                old(self)@.with_event(event@)
            } else {
                old(self)@
            },
    {
        if self.closed || self.events.len() >= self.capacity {
            return false;
        }
        let ghost said = event@;
        self.events.push_back(event);
        assert(self@.events =~= old(self)@.events.push(said));
        true
    }

    /// Takes the first event.
    pub fn receive(&mut self) -> (received: SinkReceive)
        ensures
            match received {
                SinkReceive::Event(event) => {
                    &&& old(self)@.events.len() > 0
                    &&& event@ == old(self)@.events[0]
                    &&& final(self)@ == (SinkView {
                        events: old(self)@.events.drop_first(),
                        ..old(self)@
                    })
                },
                SinkReceive::Closed => old(self)@.events.len() == 0 && old(self)@.closed
                    && final(self)@ == old(self)@,
                SinkReceive::Empty => old(self)@.events.len() == 0 && !old(self)@.closed
                    && final(self)@ == old(self)@,
            },
    {
        match self.events.pop_front() {
            Some(event) => {
                assert(self@.events =~= old(self)@.events.drop_first());
                SinkReceive::Event(event)
            },
            None => {
                assert(self@.events =~= old(self)@.events);
                if self.closed {
                    SinkReceive::Closed
                } else {
                    SinkReceive::Empty
                }
            },
        }
    }

    /// Closes the queue and drops what waits.
    pub fn close(&mut self)
        ensures
            final(self)@ == (SinkView { events: Seq::empty(), closed: true, ..old(self)@ }),
    {
        self.closed = true;
        self.events.clear();
        assert(self@.events =~= Seq::empty());
    }
}

/// The event handlers of a driver and the invocations that it watches.
#[derive(Debug)]
pub struct DriverEventRouter {
    sinks: Table<u64, DriverEventSinkQueue>,
    watched: Table<u64, ()>,
    next_registration: u64,
    sink_capacity: usize,
}

/// The queues of event handlers by registration, the watched tasks, the next
/// registration, and the bound of each queue.
pub struct RouterView {
    pub sinks: Map<u64, SinkView>,
    pub watched: Set<TaskId>,
    pub next_registration: u64,
    pub sink_capacity: nat,
}

impl View for DriverEventRouter {
    type V = RouterView;

    closed spec fn view(&self) -> RouterView {
        RouterView {
            sinks: self.sinks@.map_values(|queue: DriverEventSinkQueue| queue@),
            watched: self.watched@.dom(),
            next_registration: self.next_registration,
            sink_capacity: self.sink_capacity as nat,
        }
    }
}

impl RouterView {
    /// The handlers after an event was routed: each that could take it has it, the
    /// others are disconnected.
    pub open spec fn routed(self, event: EventView) -> Map<u64, SinkView> {
        Map::new(
            |id: u64| self.sinks.contains_key(id) && self.sinks[id].takes(),
            |id: u64| self.sinks[id].with_event(event),
        )
    }

    /// The router once a handler is registered.
    pub open spec fn registered(self) -> RouterView {
        RouterView {
            sinks: self.sinks.insert(
                self.next_registration,
                SinkView { events: Seq::empty(), capacity: self.sink_capacity, closed: false },
            ),
            next_registration: self.next_registration.wrapping_add(1),
            ..self
        }
    }

    /// The router once a handler is forgotten.
    pub open spec fn unregistered(self, registration: u64) -> RouterView {
        RouterView { sinks: self.sinks.remove(registration), ..self }
    }

    /// The event that a handler gets when it asks for one.
    pub open spec fn next_for(self, registration: u64) -> Option<EventView> {
        if self.sinks.contains_key(registration) && self.sinks[registration].events.len() > 0 {
            Some(self.sinks[registration].events[0])
        } else {
            None
        }
    }

    /// The router once a handler asked for an event.
    pub open spec fn asked(self, registration: u64) -> RouterView {
        if self.next_for(registration) is Some {
            RouterView {
                sinks: self.sinks.insert(
                    registration,
                    SinkView {
                        events: self.sinks[registration].events.drop_first(),
                        ..self.sinks[registration]
                    },
                ),
                ..self
            }
        } else {
            self
        }
    }

    /// Why a task is not watched, where it is not.
    pub open spec fn watch_refusal(self, task: TaskId) -> Option<Seq<char>> {
        if self.watched.len() >= self.sink_capacity {
            Some("driver invocation watcher capacity is exhausted"@)
        } else if self.watched.contains(task) {
            Some("task "@ + decimal(task as nat) + " already has an invocation watcher"@)
        } else {
            None
        }
    }
}

impl DriverEventRouter {
    /// No handlers, each to have a queue of the given size.
    pub fn new(sink_capacity: usize) -> (router: DriverEventRouter)
        requires
            sink_capacity > 0,
        ensures
            router@ == (RouterView {
                sinks: Map::empty(),
                watched: Set::empty(),
                next_registration: 1,
                sink_capacity: sink_capacity as nat,
            }),
    {
        let router = DriverEventRouter {
            sinks: Table::new(),
            watched: Table::new(),
            next_registration: 1,
            sink_capacity,
        };
        assert(router@.sinks =~= Map::empty());
        assert(router@.watched =~= Set::empty());
        router
    }

    /// Registers a handler.
    pub fn register(&mut self) -> (registration: u64)
        ensures
            registration == old(self)@.next_registration,
            final(self)@ == old(self)@.registered(),
    {
        let registration: u64 = self.next_registration;
        self.next_registration = registration.wrapping_add(1);
        let queue = DriverEventSinkQueue::new(self.sink_capacity);
        let ghost made = queue@;
        let _ = self.sinks.insert(registration, queue);
        assert(self@.sinks =~= old(self)@.sinks.insert(registration, made));
        registration
    }

    /// Forgets a handler.
    pub fn unregister(&mut self, registration: u64)
        ensures
            final(self)@ == old(self)@.unregistered(registration),
    {
        let _ = self.sinks.remove(&registration);
        assert(self@.sinks =~= old(self)@.sinks.remove(registration));
    }

    /// Takes the first event of a handler. One that is disconnected finds its queue
    /// closed.
    pub fn receive(&mut self, registration: u64) -> (received: SinkReceive)
        ensures
            final(self)@ == old(self)@.asked(registration),
            match received {
                SinkReceive::Event(event) => old(self)@.next_for(registration) == Some(event@),
                SinkReceive::Closed => old(self)@.next_for(registration) is None && (
                !old(self)@.sinks.contains_key(registration)
                    || old(self)@.sinks[registration].closed),
                SinkReceive::Empty => old(self)@.next_for(registration) is None
                    && old(self)@.sinks.contains_key(registration)
                    && !old(self)@.sinks[registration].closed,
            },
    {
        match self.sinks.remove(&registration) {
            None => {
                assert(self@.sinks =~= old(self)@.sinks);
                SinkReceive::Closed
            },
            Some(mut queue) => {
                let ghost before = queue@;
                let received = queue.receive();
                let ghost after = queue@;
                let _ = self.sinks.insert(registration, queue);
                assert(self@.sinks =~= old(self)@.sinks.insert(registration, after));
                assert(old(self)@.sinks[registration] == before);
                assert(old(self)@.sinks =~= old(self)@.sinks.insert(registration, before));
                received
            },
        }
    }

    /// Routes an event to every handler. A handler whose queue is full or closed is
    /// disconnected; their registrations are handed back.
    pub fn route(&mut self, event: &DriverEvent) -> (disconnected: Vec<u64>)
        ensures
            final(self)@ == (RouterView { sinks: old(self)@.routed(event@), ..old(self)@ }),
            disconnected@.no_duplicates(),
            forall|id: u64| #[trigger]
                disconnected@.contains(id) <==> old(self)@.sinks.contains_key(id)
                    && !old(self)@.sinks[id].takes(),
    {
        let ghost start = self@;
        let entries = self.sinks.entries();
        let mut ids: Vec<u64> = Vec::new();
        let mut i: usize = 0;
        while i < entries.len()
            invariant
                i <= entries@.len(),
                ids@ == entry_keys(entries@).take(i as int),
            decreases entries@.len() - i,
        {
            ids.push(entries[i].0);
            i = i + 1;
            assert(ids@ =~= entry_keys(entries@).take(i as int));
        }
        proof {
            assert(entry_keys(entries@).take(i as int) =~= entry_keys(entries@));
            lemma_entry_map(entries@);
            assert forall|id: u64| #[trigger] start.sinks.contains_key(id) <==> ids@.contains(id) by {}
        }
        let mut disconnected: Vec<u64> = Vec::new();
        let mut n: usize = 0;
        while n < ids.len()
            invariant
                n <= ids@.len(),
                ids@.no_duplicates(),
                forall|id: u64| #[trigger] start.sinks.contains_key(id) <==> ids@.contains(id),
                self@.watched == start.watched,
                self@.next_registration == start.next_registration,
                self@.sink_capacity == start.sink_capacity,
                disconnected@.no_duplicates(),
                forall|id: u64| #[trigger]
                    disconnected@.contains(id) <==> ids@.take(n as int).contains(id)
                        && !start.sinks[id].takes(),
                forall|id: u64| #[trigger]
                    self@.sinks.contains_key(id) <==> start.sinks.contains_key(id) && !(ids@.take(
                        n as int,
                    ).contains(id) && !start.sinks[id].takes()),
                forall|id: u64| #[trigger]
                    self@.sinks.contains_key(id) ==> self@.sinks[id] == if ids@.take(
                        n as int,
                    ).contains(id) {
                        start.sinks[id].with_event(event@)
                    } else {
                        start.sinks[id]
                    },
            decreases ids@.len() - n,
        {
            let id: u64 = ids[n];
            let ghost before = self@.sinks;
            let ghost gone = disconnected@;
            proof {
                assert(ids@.contains(id));
                assert(!ids@.take(n as int).contains(id)) by {
                    if ids@.take(n as int).contains(id) {
                        let k = choose|k: int| 0 <= k < n && ids@.take(n as int)[k] == id;
                        assert(ids@[k] == ids@[n as int]);
                    }
                }
                assert(start.sinks.contains_key(id));
                assert(self@.sinks.contains_key(id));
                assert(!gone.contains(id));
                assert(ids@.take(n + 1) =~= ids@.take(n as int).push(id));
                assert forall|x: u64| #[trigger]
                    ids@.take(n + 1).contains(x) <==> ids@.take(n as int).contains(x) || x == id by {
                    let short = ids@.take(n as int);
                    if short.contains(x) {
                        let k = choose|k: int| 0 <= k < short.len() && short[k] == x;
                        assert(ids@.take(n + 1)[k] == x);
                    }
                    if x == id {
                        assert(ids@.take(n + 1)[n as int] == x);
                    }
                }
            }
            match self.sinks.remove(&id) {
                Some(mut queue) => {
                    assert(queue@ == start.sinks[id]);
                    let copy = event.clone();
                    if queue.try_send(copy) {
                        let ghost after = queue@;
                        let _ = self.sinks.insert(id, queue);
                        assert(self@.sinks =~= before.insert(id, after));
                    } else {
                        disconnected.push(id);
                        assert(self@.sinks =~= before.remove(id));
                        assert(disconnected@ =~= gone.push(id));
                    }
                },
                None => {
                    assert(false);
                },
            }
            n = n + 1;
            assert forall|x: u64| #[trigger]
                disconnected@.contains(x) <==> ids@.take(n as int).contains(x)
                    && !start.sinks[x].takes() by {
                assert(gone.contains(x) <==> ids@.take(n - 1).contains(x)
                    && !start.sinks[x].takes());
                if gone.contains(x) {
                    let k = choose|k: int| 0 <= k < gone.len() && gone[k] == x;
                    assert(disconnected@[k] == x);
                }
                if !start.sinks[id].takes() {
                    assert(disconnected@[gone.len() as int] == id);
                }
                if disconnected@.contains(x) && !gone.contains(x) {
                    let k = choose|k: int| 0 <= k < disconnected@.len() && disconnected@[k] == x;
                    if k < gone.len() {
                        assert(gone[k] == x);
                    }
                }
            }
        }
        proof {
            assert(ids@.take(n as int) =~= ids@);
            assert(self@.sinks =~= start.routed(event@));
        }
        disconnected
    }

    /// Watches a task, after forgetting those whose watchers are finished.
    pub fn watch_invocation(&mut self, task: TaskId, finished: &[TaskId]) -> (result: Result<
        (),
        DriverError,
    >)
        ensures
            ({
                let pruned = RouterView {
                    watched: old(self)@.watched.difference(finished@.to_set()),
                    ..old(self)@
                };
                &&& outcome_view(result) == checked(pruned.watch_refusal(task))
                &&& final(self)@ == if result is Ok {
                    RouterView { watched: pruned.watched.insert(task), ..pruned }
                } else {
                    pruned
                }
            }),
    {
        let ghost start = self@;
        let mut i: usize = 0;
        assert(self@.watched =~= start.watched.difference(finished@.take(0).to_set()));
        while i < finished.len()
            invariant
                i <= finished@.len(),
                self@.sinks == start.sinks,
                self@.next_registration == start.next_registration,
                self@.sink_capacity == start.sink_capacity,
                self@.watched == start.watched.difference(finished@.take(i as int).to_set()),
            decreases finished@.len() - i,
        {
            let _ = self.watched.remove(&finished[i]);
            i = i + 1;
            proof {
                assert(finished@.take(i as int) =~= finished@.take(i - 1).push(finished@[i - 1]));
                crate::driver::facts::lemma_push_to_set(finished@.take(i - 1), finished@[i - 1]);
                assert(self@.watched =~= start.watched.difference(
                    finished@.take(i as int).to_set(),
                ));
            }
        }
        assert(finished@.take(i as int) =~= finished@);
        if self.watched.len() >= self.sink_capacity {
            return Err(
                DriverError::configuration("driver invocation watcher capacity is exhausted"),
            );
        }
        if self.watched.contains(&task) {
            return Err(
                DriverError::Configuration(
                    numbered("task ", task, " already has an invocation watcher"),
                ),
            );
        }
        let ghost pruned = self@.watched;
        let _ = self.watched.insert(task, ());
        assert(self@.watched =~= pruned.insert(task));
        Ok(())
    }
}

/// Handlers do not hold each other up: what one has queued, or that one is
/// disconnected, changes nothing of what another gets.
pub proof fn law_handlers_are_independent(
    router: RouterView,
    id: u64,
    other: u64,
    state: SinkView,
    event: EventView,
)
    requires
        id != other,
        router.sinks.contains_key(id),
        router.sinks.contains_key(other),
    ensures
        ({
            let changed = RouterView { sinks: router.sinks.insert(other, state), ..router };
            &&& changed.routed(event).contains_key(id) == router.routed(event).contains_key(id)
            &&& router.routed(event).contains_key(id) ==> changed.routed(event)[id]
                == router.routed(event)[id]
        }),
{
}

/// Whether an event pump was asked to stop.
#[derive(Clone, Copy, Debug, PartialEq, Eq, Structural)]
pub struct PumpStop {
    pub requested: bool,
}

impl PumpStop {
    /// A pump that runs.
    pub fn new() -> (stop: PumpStop)
        ensures
            !stop.requested,
    {
        PumpStop { requested: false }
    }

    /// Asks the pump to stop.
    pub fn request(&mut self)
        ensures
            final(self).requested,
    {
        self.requested = true;
    }
}

/// What the owner of a driver has done with it.
#[derive(Clone, Copy, Debug, PartialEq, Eq, Structural)]
pub struct DriverOwner {
    event_pump_taken: bool,
    shutdown_started: bool,
}

impl DriverOwner {
    /// Whether the event pump was handed out.
    pub closed spec fn pump_taken(self) -> bool {
        self.event_pump_taken
    }

    /// Whether the owner began to shut the driver down.
    pub closed spec fn closing(self) -> bool {
        self.shutdown_started
    }

    /// The owner of a driver that just started.
    pub fn new() -> (owner: DriverOwner)
        ensures
            !owner.pump_taken(),
            !owner.closing(),
    {
        DriverOwner { event_pump_taken: false, shutdown_started: false }
    }

    /// Hands out the event pump, once.
    pub fn take_event_pump(&mut self) -> (result: Result<(), DriverError>)
        ensures
            final(self).pump_taken(),
            final(self).closing() == old(self).closing(),
            outcome_view(result) == checked(
                if old(self).pump_taken() {
                    Some("the driver event pump has already been taken"@)
                } else {
                    None
                },
            ),
    {
        if self.event_pump_taken {
            return Err(DriverError::configuration("the driver event pump has already been taken"));
        }
        self.event_pump_taken = true;
        Ok(())
    }

    /// Begins to shut the driver down, with a pump that must be its own.
    pub fn begin_shutdown(&mut self, same_driver: bool) -> (result: Result<(), DriverError>)
        ensures
            final(self).pump_taken() == old(self).pump_taken(),
            final(self).closing() == (old(self).closing() || same_driver),
            outcome_view(result) == checked(
                if same_driver {
                    None
                } else {
                    Some("event pump belongs to a different driver"@)
                },
            ),
    {
        if !same_driver {
            return Err(DriverError::configuration("event pump belongs to a different driver"));
        }
        self.shutdown_started = true;
        Ok(())
    }

    /// Whether dropping the owner has to shut the driver down.
    pub fn begin_drop(&mut self, is_shutdown: bool) -> (shut_down: bool)
        ensures
            shut_down == (!old(self).closing() && !is_shutdown),
            final(self).closing() == (old(self).closing() || shut_down),
            final(self).pump_taken() == old(self).pump_taken(),
    {
        if self.shutdown_started || is_shutdown {
            return false;
        }
        self.shutdown_started = true;
        true
    }
}

/// How an endpoint is opened.
#[derive(Debug)]
pub struct EndpointConfiguration {
    pub endpoint: Option<Identity>,
    pub principal: Option<Identity>,
    pub actor: Option<Identity>,
    pub protocol: Symbol,
    pub volatile_facts: Vec<NamedTuple>,
}

impl EndpointConfiguration {
    /// An endpoint of a protocol, with nothing else set.
    pub fn new(protocol: Symbol) -> (configuration: EndpointConfiguration)
        ensures
            configuration.endpoint is None,
            configuration.principal is None,
            configuration.actor is None,
            configuration.protocol == protocol,
            configuration.volatile_facts@ == Seq::<NamedTuple>::empty(),
    {
        EndpointConfiguration {
            endpoint: None,
            principal: None,
            actor: None,
            protocol,
            volatile_facts: Vec::new(),
        }
    }

    /// Sets the endpoint's identity.
    pub fn endpoint(self, endpoint: Identity) -> (configuration: EndpointConfiguration)
        ensures
            configuration == (EndpointConfiguration { endpoint: Some(endpoint), ..self }),
    {
        EndpointConfiguration { endpoint: Some(endpoint), ..self }
    }

    /// Sets the principal.
    pub fn principal(self, principal: Identity) -> (configuration: EndpointConfiguration)
        ensures
            configuration == (EndpointConfiguration { principal: Some(principal), ..self }),
    {
        EndpointConfiguration { principal: Some(principal), ..self }
    }

    /// Sets the actor.
    pub fn actor(self, actor: Identity) -> (configuration: EndpointConfiguration)
        ensures
            configuration == (EndpointConfiguration { actor: Some(actor), ..self }),
    {
        EndpointConfiguration { actor: Some(actor), ..self }
    }

    /// Sets the facts that the endpoint holds.
    pub fn volatile_facts(self, facts: Vec<NamedTuple>) -> (configuration: EndpointConfiguration)
        ensures
            configuration == (EndpointConfiguration { volatile_facts: facts, ..self }),
    {
        EndpointConfiguration { volatile_facts: facts, ..self }
    }
}

/// A host's session with an endpoint.
#[derive(Debug)]
pub struct EndpointSession {
    endpoint: Identity,
    closed: bool,
}

impl EndpointSession {
    /// The endpoint.
    pub closed spec fn at(self) -> Identity {
        self.endpoint
    }

    /// Whether the session was closed.
    pub closed spec fn over(self) -> bool {
        self.closed
    }

    /// A session with an open endpoint.
    pub fn new(endpoint: Identity) -> (session: EndpointSession)
        ensures
            session.at() == endpoint,
            !session.over(),
    {
        EndpointSession { endpoint, closed: false }
    }

    /// The endpoint.
    pub fn endpoint(&self) -> (endpoint: Identity)
        ensures
            endpoint == self.at(),
    {
        self.endpoint
    }

    /// Refuses work once the session is closed.
    pub fn ensure_open(&self) -> (result: Result<(), DriverError>)
        ensures
            outcome_view(result) == if self.over() {
                Err::<(), _>(ErrorView::EndpointClosed(self.at()@))
            } else {
                Ok(())
            },
    {
        if self.closed {
            Err(DriverError::EndpointClosed(self.endpoint))
        } else {
            Ok(())
        }
    }

    /// Closes the session, and says whether the endpoint is to be closed: the first
    /// time only.
    pub fn begin_close(&mut self) -> (close: bool)
        ensures
            close == !old(self).over(),
            final(self).over(),
            final(self).at() == old(self).at(),
    {
        let first: bool = !self.closed;
        self.closed = true;
        first
    }

    /// Refuses a subscription through a mailbox of another driver or one that is
    /// closed, and any once the session is closed.
    pub fn check_subscribe(&self, same_driver: bool, mailbox_open: bool) -> (result: Result<
        (),
        DriverError,
    >)
        ensures
            outcome_view(result) == if !same_driver {
                Err::<(), _>(
                    ErrorView::Configuration(
                        "subscription mailbox belongs to a different driver"@,
                    ),
                )
            } else if !mailbox_open {
                Err(ErrorView::Configuration("subscription mailbox is closed"@))
            } else if self.over() {
                Err(ErrorView::EndpointClosed(self.at()@))
            } else {
                Ok(())
            },
    {
        if !same_driver {
            return Err(
                DriverError::configuration("subscription mailbox belongs to a different driver"),
            );
        }
        if !mailbox_open {
            return Err(DriverError::configuration("subscription mailbox is closed"));
        }
        self.ensure_open()
    }
}

} // verus!
