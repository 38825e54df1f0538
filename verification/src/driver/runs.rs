//! What holds over any run of a driver's queues, and over its shutdown.

use crate::driver::embedding::RouterView;
use crate::driver::events::EventQueueView;
use crate::driver::pool::PoolView;
use crate::driver::tasks::TerminalTaskKind;
use crate::driver::types::{ErrorView, EventView, TaskId};
use crate::value::ValueView;
use vstd::prelude::*;

verus! {

/// What producers and consumers do with a queue of events.
pub enum QueueStep {
    /// A producer offers an event.
    Offer(EventView),
    /// A consumer takes what is queued.
    Drain,
}

/// A queue, the events that it took so far, and what each consumer got so far.
pub struct QueueRun {
    pub queue: EventQueueView,
    pub taken: Seq<EventView>,
    pub handed: Seq<Seq<EventView>>,
}

/// A queue after producers and consumers used it in some order.
pub open spec fn queue_run(queue: EventQueueView, steps: Seq<QueueStep>) -> QueueRun
    decreases steps.len(),
{
    if steps.len() == 0 {
        QueueRun { queue, taken: Seq::empty(), handed: Seq::empty() }
    } else {
        let before = queue_run(queue, steps.drop_last());
        match steps.last() {
            QueueStep::Offer(event) => QueueRun {
                queue: before.queue.offered(event),
                taken: if before.queue.admits(event) {
                    before.taken.push(event)
                } else {
                    before.taken
                },
                handed: before.handed,
            },
            QueueStep::Drain => QueueRun {
                queue: before.queue.drained(),
                taken: before.taken,
                handed: before.handed.push(before.queue.events),
            },
        }
    }
}

/// What consumers got, one after the other.
pub open spec fn all_handed(handed: Seq<Seq<EventView>>) -> Seq<EventView>
    decreases handed.len(),
{
    if handed.len() == 0 {
        Seq::empty()
    } else {
        all_handed(handed.drop_last()) + handed.last()
    }
}

/// Whatever the order in which producers offer events and consumers drain the queue, what the
/// consumers got, one after the other, and what is still queued are exactly the events that were
/// queued, in the order in which they were: each is handed over once, to one consumer.
pub proof fn law_each_queued_event_is_handed_over_once(
    queue: EventQueueView,
    steps: Seq<QueueStep>,
)
    ensures
        ({
            let run = queue_run(queue, steps);
            all_handed(run.handed) + run.queue.events == queue.events + run.taken
        }),
    decreases steps.len(),
{
    let run = queue_run(queue, steps);
    if steps.len() == 0 {
        assert(all_handed(run.handed) + run.queue.events =~= queue.events + run.taken);
    } else {
        law_each_queued_event_is_handed_over_once(queue, steps.drop_last());
        let before = queue_run(queue, steps.drop_last());
        match steps.last() {
            QueueStep::Offer(event) => {
                if before.queue.admits(event) {
                    assert(all_handed(run.handed) + run.queue.events =~= (all_handed(before.handed)
                        + before.queue.events).push(event));
                    assert(queue.events + run.taken =~= (queue.events + before.taken).push(event));
                }
            },
            QueueStep::Drain => {
                assert(run.handed.drop_last() =~= before.handed);
                assert(all_handed(run.handed) + run.queue.events =~= all_handed(before.handed)
                    + before.queue.events);
            },
        }
    }
}

/// What happens to a router of events.
pub enum RouterStep {
    /// Another handler is registered.
    Register,
    /// A handler is forgotten.
    Unregister(u64),
    /// An event is routed.
    Route(EventView),
    /// A handler asks for its next event.
    Ask(u64),
}

/// A router, the events that were routed so far, and what one handler got so far.
pub struct RouterRun {
    pub router: RouterView,
    pub routed: Seq<EventView>,
    pub got: Seq<EventView>,
}

/// A router after some steps, as one handler sees it.
pub open spec fn router_run(router: RouterView, id: u64, steps: Seq<RouterStep>) -> RouterRun
    decreases steps.len(),
{
    if steps.len() == 0 {
        RouterRun { router, routed: Seq::empty(), got: Seq::empty() }
    } else {
        let before = router_run(router, id, steps.drop_last());
        match steps.last() {
            RouterStep::Register => RouterRun { router: before.router.registered(), ..before },
            RouterStep::Unregister(other) => RouterRun {
                router: before.router.unregistered(other),
                ..before
            },
            RouterStep::Route(event) => RouterRun {
                router: RouterView { sinks: before.router.routed(event), ..before.router },
                routed: before.routed.push(event),
                ..before
            },
            RouterStep::Ask(other) => RouterRun {
                router: before.router.asked(other),
                got: match before.router.next_for(other) {
                    Some(event) => if other == id {
                        before.got.push(event)
                    } else {
                        before.got
                    },
                    None => before.got,
                },
                ..before
            },
        }
    }
}

/// Whatever happens after a handler is registered, the handler gets the events that are routed
/// in their order. As long as it is connected, what it got and what waits for it are all of
/// them, and no more wait than its queue holds. Once it is disconnected, what it got is where
/// the events began, and stays that.
pub proof fn law_a_handler_gets_its_events_in_order(
    router: RouterView,
    steps: Seq<RouterStep>,
)
    requires
        router.next_registration + steps.len() + 1 <= u64::MAX,
    ensures
        ({
            let id = router.next_registration;
            let run = router_run(router.registered(), id, steps);
            if run.router.sinks.contains_key(id) {
                &&& run.got + run.router.sinks[id].events == run.routed
                &&& run.router.sinks[id].events.len() <= router.sink_capacity
            } else {
                run.got.is_prefix_of(run.routed)
            }
        }),
{
    lemma_handler(router, steps);
}

proof fn lemma_handler(router: RouterView, steps: Seq<RouterStep>)
    requires
        router.next_registration + steps.len() + 1 <= u64::MAX,
    ensures
        ({
            let id = router.next_registration;
            let run = router_run(router.registered(), id, steps);
            &&& run.router.next_registration > id
            &&& run.router.next_registration <= id + 1 + steps.len()
            &&& if run.router.sinks.contains_key(id) {
                &&& run.got + run.router.sinks[id].events == run.routed
                &&& run.router.sinks[id].events.len() <= router.sink_capacity
                &&& run.router.sinks[id].capacity == router.sink_capacity
            } else {
                run.got.is_prefix_of(run.routed)
            }
        }),
    decreases steps.len(),
{
    let id = router.next_registration;
    let start = router.registered();
    let run = router_run(start, id, steps);
    if steps.len() == 0 {
        assert(run.got + run.router.sinks[id].events =~= run.routed);
    } else {
        lemma_handler(router, steps.drop_last());
        let before = router_run(start, id, steps.drop_last());
        let there = before.router.sinks.contains_key(id);
        match steps.last() {
            RouterStep::Register => {},
            RouterStep::Unregister(other) => {
                if there && other == id {
                    assert(run.got =~= run.routed.take(run.got.len() as int));
                }
            },
            RouterStep::Route(event) => {
                if there {
                    if before.router.sinks[id].takes() {
                        assert(run.got + run.router.sinks[id].events =~= (before.got
                            + before.router.sinks[id].events).push(event));
                    } else {
                        assert(before.got =~= before.routed.take(before.got.len() as int));
                        assert(run.got =~= run.routed.take(run.got.len() as int));
                    }
                } else {
                    assert(run.got =~= run.routed.take(run.got.len() as int));
                }
            },
            RouterStep::Ask(other) => {
                if there && other == id && before.router.next_for(id) is Some {
                    assert(run.got + run.router.sinks[id].events =~= before.got
                        + before.router.sinks[id].events);
                }
            },
        }
    }
}

/// A handler that was disconnected gets nothing any more, whatever happens, since its number
/// is not given out again.
pub proof fn law_a_disconnected_handler_stays_so(
    router: RouterView,
    id: u64,
    steps: Seq<RouterStep>,
)
    requires
        !router.sinks.contains_key(id),
        id < router.next_registration,
        router.next_registration + steps.len() <= u64::MAX,
    ensures
        !router_run(router, id, steps).router.sinks.contains_key(id),
        router_run(router, id, steps).got == Seq::<EventView>::empty(),
        id < router_run(router, id, steps).router.next_registration <= router.next_registration
            + steps.len(),
    decreases steps.len(),
{
    if steps.len() > 0 {
        law_a_disconnected_handler_stays_so(router, id, steps.drop_last());
    }
}

/// The state after suspended tasks were cancelled one after the other, and the tasks whose
/// cancellation is told.
pub open spec fn cancel_all(state: PoolView, tasks: Seq<TaskId>) -> (PoolView, Seq<TaskId>)
    decreases tasks.len(),
{
    if tasks.len() == 0 {
        (state, Seq::empty())
    } else {
        let (before, told) = cancel_all(state, tasks.drop_last());
        let task = tasks.last();
        if before.tasks.contexts.contains_key(task) {
            (
                before.without_context(task).finished(task, TerminalTaskKind::Cancelled),
                told.push(task),
            )
        } else {
            (before, told)
        }
    }
}

/// The state after the tasks that the runtime still had were put on record as cancelled, and
/// the tasks whose cancellation is told.
pub open spec fn note_all(state: PoolView, tasks: Seq<TaskId>) -> (PoolView, Seq<TaskId>)
    decreases tasks.len(),
{
    if tasks.len() == 0 {
        (state, Seq::empty())
    } else {
        let (before, told) = note_all(state, tasks.drop_last());
        let task = tasks.last();
        if before.tasks.terminal.contains_key(task) {
            (before, told)
        } else {
            (before.noted(task), told.push(task))
        }
    }
}

/// The state after a shutdown that found `tasks` suspended, and `strays` still in the runtime
/// once those were cancelled.
pub open spec fn shut_down(
    state: PoolView,
    tasks: Seq<TaskId>,
    strays: Seq<TaskId>,
    error: Option<Seq<char>>,
) -> PoolView {
    let released = note_all(cancel_all(state, tasks).0, strays).0.released();
    PoolView { lifecycle: released.lifecycle.stopped(error), ..released }
}

proof fn lemma_cancel_all(state: PoolView, tasks: Seq<TaskId>, n: int)
    requires
        tasks.no_duplicates(),
        forall|task: TaskId| #[trigger]
            tasks.contains(task) ==> state.tasks.contexts.contains_key(task),
        0 <= n <= tasks.len(),
    ensures
        cancel_all(state, tasks.take(n)).1 == tasks.take(n),
        forall|task: TaskId| #[trigger]
            cancel_all(state, tasks.take(n)).0.tasks.contexts.contains_key(task) == (
            state.tasks.contexts.contains_key(task) && !tasks.take(n).contains(task)),
        cancel_all(state, tasks.take(n)).0.lifecycle == state.lifecycle,
    decreases n,
{
    if n == 0 {
        assert(tasks.take(0) =~= Seq::empty());
    } else {
        lemma_cancel_all(state, tasks, n - 1);
        let less = tasks.take(n - 1);
        let task = tasks[n - 1];
        assert(tasks.take(n).drop_last() =~= less);
        assert(tasks.take(n).last() == task);
        assert(tasks.take(n) =~= less.push(task));
        assert(tasks.contains(task));
        assert(!less.contains(task)) by {
            if less.contains(task) {
                let i = choose|i: int| 0 <= i < less.len() && less[i] == task;
                assert(tasks[i] == tasks[n - 1]);
            }
        }
        assert forall|other: TaskId| tasks.take(n).contains(other) == (less.contains(other) || other
            == task) by {
            if less.contains(other) {
                let i = choose|i: int| 0 <= i < less.len() && less[i] == other;
                assert(tasks.take(n)[i] == other);
            }
            if other == task {
                assert(tasks.take(n)[n - 1] == task);
            }
        }
        let before = cancel_all(state, less).0;
        assert(before.tasks.contexts.contains_key(task));
    }
}

proof fn lemma_note_all(state: PoolView, strays: Seq<TaskId>)
    requires
        strays.no_duplicates(),
    ensures
        note_all(state, strays).1.no_duplicates(),
        forall|task: TaskId| #[trigger]
            note_all(state, strays).1.contains(task) ==> strays.contains(task),
        note_all(state, strays).0.tasks.contexts.dom().subset_of(state.tasks.contexts.dom()),
        note_all(state, strays).0.lifecycle == state.lifecycle,
    decreases strays.len(),
{
    if strays.len() > 0 {
        let less = strays.drop_last();
        let task = strays.last();
        assert(less.no_duplicates());
        lemma_note_all(state, less);
        let (before, told) = note_all(state, less);
        let all = note_all(state, strays).1;
        assert(strays[strays.len() - 1] == task);
        assert forall|other: TaskId| less.contains(other) implies strays.contains(other) && other
            != task by {
            let i = choose|i: int| 0 <= i < less.len() && less[i] == other;
            assert(strays[i] == other);
        }
        assert(!told.contains(task));
        assert forall|other: TaskId| #[trigger] all.contains(other) implies strays.contains(other) by {
            let i = choose|i: int| 0 <= i < all.len() && all[i] == other;
            if i < told.len() {
                assert(told[i] == other);
                assert(told.contains(other));
            }
        }
        assert(all.no_duplicates());
    }
}

/// A shutdown tells the cancellation of each suspended task exactly once, and of whatever else
/// the runtime still had at most once. Afterwards nothing is suspended, open or subscribed to,
/// and whatever is asked for is refused since the driver has stopped.
pub proof fn law_shutdown_tells_each_task_once_and_leaves_nothing(
    state: PoolView,
    tasks: Seq<TaskId>,
    strays: Seq<TaskId>,
    error: Option<Seq<char>>,
)
    requires
        tasks.no_duplicates(),
        forall|task: TaskId| #[trigger]
            tasks.contains(task) <==> state.tasks.contexts.contains_key(task),
        strays.no_duplicates(),
        forall|task: TaskId| #[trigger] strays.contains(task) ==> !tasks.contains(task),
    ensures
        ({
            let stopping = state.stopping();
            let (cancelled, told) = cancel_all(stopping, tasks);
            let (noted, also) = note_all(cancelled, strays);
            let end = shut_down(stopping, tasks, strays, error);
            &&& told == tasks
            &&& (told + also).no_duplicates()
            &&& end.tasks.contexts.dom() == Set::<TaskId>::empty()
            &&& end.held.endpoints.dom() == Set::<u64>::empty()
            &&& end.subscriptions.owners.dom() == Set::<ValueView>::empty()
            &&& end.subscriptions.mailboxes.dom() == Set::<u64>::empty()
            &&& end.lifecycle.state is Stopped
            &&& forall|endpoint: u64| #[trigger]
                end.lifecycle.refusal(endpoint) == Some(ErrorView::DriverStopped)
        }),
{
    let stopping = state.stopping();
    lemma_cancel_all(stopping, tasks, tasks.len() as int);
    assert(tasks.take(tasks.len() as int) =~= tasks);
    let (cancelled, told) = cancel_all(stopping, tasks);
    lemma_note_all(cancelled, strays);
    let (noted, also) = note_all(cancelled, strays);
    let all = told + also;
    assert forall|i: int, j: int| 0 <= i < all.len() && 0 <= j < all.len() && i != j implies all[i]
        != all[j] by {
        if i < told.len() && j >= told.len() {
            assert(tasks.contains(all[i]));
            assert(also.contains(all[j]));
        }
        if j < told.len() && i >= told.len() {
            assert(tasks.contains(all[j]));
            assert(also.contains(all[i]));
        }
    }
    assert forall|task: TaskId| !cancelled.tasks.contexts.contains_key(task) by {
        assert(tasks.contains(task) <==> state.tasks.contexts.contains_key(task));
    }
    let end = shut_down(stopping, tasks, strays, error);
    assert(end.tasks.contexts.dom() =~= Set::empty());
    assert(end.held.endpoints.dom() =~= Set::empty());
    assert(end.subscriptions.owners.dom() =~= Set::empty());
    assert(end.subscriptions.mailboxes.dom() =~= Set::empty());
}

} // verus!
