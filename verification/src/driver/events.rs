//! The bounded queue of events between the driver and its host.

use crate::driver::types::{DriverEvent, EventView};
use std::collections::VecDeque;
use vstd::prelude::*;

verus! {

/// The number of events that a driver queues unless a host asks otherwise.
pub const DEFAULT_EVENT_QUEUE_CAPACITY: usize = 1024;

/// Events that wait for the host.
#[derive(Debug)]
pub struct EventQueue {
    events: VecDeque<DriverEvent>,
    capacity: usize,
    discarding: bool,
}

/// Events that wait for the host, in order.
pub struct EventQueueView {
    pub events: Seq<EventView>,
    pub capacity: nat,
    pub discarding: bool,
}

/// The views of events.
pub open spec fn event_views(events: Seq<DriverEvent>) -> Seq<EventView> {
    events.map_values(|event: DriverEvent| event@)
}

impl EventQueueView {
    /// Whether an event says nothing that is not queued already.
    pub open spec fn coalesces(self, event: EventView) -> bool {
        event.repeatable() && self.events.contains(event)
    }

    /// Whether an event is queued when it is offered.
    pub open spec fn admits(self, event: EventView) -> bool {
        !self.discarding && !self.coalesces(event) && self.events.len() < self.capacity
    }

    /// The queue once an event was offered.
    pub open spec fn offered(self, event: EventView) -> EventQueueView {
        if self.admits(event) {
            EventQueueView { events: self.events.push(event), ..self }
        } else {
            self
        }
    }

    /// The queue once its events were handed over.
    pub open spec fn drained(self) -> EventQueueView {
        EventQueueView { events: Seq::empty(), ..self }
    }

    /// What every operation keeps: the queue is within its bound, and holds each
    /// repeatable event once.
    pub open spec fn wf(self) -> bool {
        &&& self.capacity > 0
        &&& self.events.len() <= self.capacity
        &&& forall|i: int, j: int|
            0 <= i < j < self.events.len() && (#[trigger] self.events[i]).repeatable()
                ==> self.events[i] != #[trigger] self.events[j]
    }
}

impl View for EventQueue {
    type V = EventQueueView;

    closed spec fn view(&self) -> EventQueueView {
        EventQueueView {
            events: event_views(self.events@),
            capacity: self.capacity as nat,
            discarding: self.discarding,
        }
    }
}

/// What came of queueing an event.
#[derive(Debug)]
pub enum Enqueued {
    /// Nobody listens any more.
    Discarded,
    /// The same notification is queued already.
    Coalesced,
    /// The queue is full; the event is handed back.
    Full(DriverEvent),
    /// The event is queued, and `was_empty` says whether it is the first.
    Queued { was_empty: bool },
}

impl EventQueue {
    /// An empty queue.
    pub fn new(capacity: usize) -> (queue: EventQueue)
        requires
            capacity > 0,
        ensures
            queue@ == (EventQueueView {
                events: Seq::empty(),
                capacity: capacity as nat,
                discarding: false,
            }),
            queue@.wf(),
    {
        let queue = EventQueue { events: VecDeque::new(), capacity, discarding: false };
        assert(queue@.events =~= Seq::empty());
        queue
    }

    /// The number of queued events.
    pub fn len(&self) -> (len: usize)
        ensures
            len == self@.events.len(),
    {
        self.events.len()
    }

    /// The bound of the queue.
    pub fn capacity(&self) -> (capacity: usize)
        ensures
            capacity == self@.capacity,
    {
        self.capacity
    }

    /// Whether an event says nothing that is not queued already.
    pub fn coalesces(&self, event: &DriverEvent) -> (result: bool)
        ensures
            result == self@.coalesces(event@),
    {
        let mut i: usize = 0;
        while i < self.events.len()
            invariant
                i <= self.events@.len(),
                self@.events == event_views(self.events@),
                forall|j: int|
                    0 <= j < i ==> !(event@.repeatable() && #[trigger] self@.events[j] == event@),
            decreases self.events@.len() - i,
        {
            let queued = &self.events[i];
            assert(self@.events[i as int] == queued@);
            let repeats: bool = match (queued, event) {
                (
                    DriverEvent::TaskSuspended { task_id: queued_task, kind: queued_kind },
                    DriverEvent::TaskSuspended { task_id, kind },
                ) => *queued_task == *task_id && queued_kind.same(kind),
                (
                    DriverEvent::SubscriptionReady { mailbox: queued_mailbox },
                    DriverEvent::SubscriptionReady { mailbox },
                ) => *queued_mailbox == *mailbox,
                _ => false,
            };
            if repeats {
                assert(self@.events.contains(event@));
                return true;
            }
            i = i + 1;
        }
        false
    }

    /// Queues an event, unless it repeats a queued notification, the queue is full,
    /// or nobody listens.
    pub fn enqueue(&mut self, event: DriverEvent) -> (result: Enqueued)
        requires
            old(self)@.wf(),
        ensures
            final(self)@.wf(),
            final(self)@ == old(self)@.offered(event@),
            ({
                let before = old(self)@;
                if before.discarding {
                    result is Discarded
                } else if before.coalesces(event@) {
                    result is Coalesced
                } else if before.events.len() >= before.capacity {
                    result matches Enqueued::Full(back) && back@ == event@
                } else {
                    result == (Enqueued::Queued { was_empty: before.events.len() == 0 })
                }
            }),
    {
        if self.discarding {
            return Enqueued::Discarded;
        }
        if self.coalesces(&event) {
            return Enqueued::Coalesced;
        }
        if self.events.len() >= self.capacity {
            return Enqueued::Full(event);
        }
        let was_empty: bool = self.events.len() == 0;
        let ghost said = event@;
        self.events.push_back(event);
        proof {
            assert(self@.events =~= old(self)@.events.push(said));
            assert forall|i: int, j: int|
                0 <= i < j < self@.events.len() && (#[trigger] self@.events[i]).repeatable() implies
                self@.events[i] != #[trigger] self@.events[j] by {
                if j == old(self)@.events.len() {
                    assert(old(self)@.events[i] == self@.events[i]);
                    if self@.events[i] == said {
                        assert(old(self)@.events.contains(said));
                    }
                }
            }
        }
        Enqueued::Queued { was_empty }
    }

    /// Hands over every queued event, in order.
    pub fn drain(&mut self) -> (events: Vec<DriverEvent>)
        requires
            old(self)@.wf(),
        ensures
            final(self)@.wf(),
            event_views(events@) == old(self)@.events,
            final(self)@ == old(self)@.drained(),
    {
        let ghost all = self.events@;
        let mut events: Vec<DriverEvent> = Vec::new();
        let mut done: bool = false;
        assert(events@ + self.events@ =~= all);
        while !done
            invariant
                events@ + self.events@ == all,
                done ==> self.events@.len() == 0,
                self.capacity == old(self).capacity,
                self.discarding == old(self).discarding,
            decreases self.events@.len() + if done { 0int } else { 1int },
        {
            match self.events.pop_front() {
                Some(event) => {
                    events.push(event);
                    assert(events@ + self.events@ =~= all);
                },
                None => {
                    done = true;
                },
            }
        }
        assert(events@ =~= all);
        assert(self@.events =~= Seq::empty());
        events
    }

    /// Drops what is queued and whatever comes.
    pub fn discard(&mut self)
        requires
            old(self)@.wf(),
        ensures
            final(self)@.wf(),
            final(self)@ == (EventQueueView {
                events: Seq::empty(),
                discarding: true,
                ..old(self)@
            }),
    {
        self.discarding = true;
        self.events.clear();
        assert(self@.events =~= Seq::empty());
    }
}

/// A terminal event or an effect that is offered while somebody listens is queued or
/// handed back, never dropped.
pub proof fn law_terminal_events_are_retained(queue: EventQueueView, event: EventView)
    requires
        !event.repeatable(),
    ensures
        !queue.coalesces(event),
{
}

/// A notification that is coalesced is one that the host will still get.
pub proof fn law_coalesced_notification_is_queued(queue: EventQueueView, event: EventView)
    requires
        queue.coalesces(event),
    ensures
        queue.events.contains(event),
{
}

} // verus!
