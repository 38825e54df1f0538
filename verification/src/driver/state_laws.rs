//! What holds of the driver's records as tasks, endpoints and facts come and go.

use crate::driver::affinity::{cpu_dir_number, first_known, grouped, heterogeneous, is_highest,
    is_lowest, on_core, performs, selected_processor, sums_up, worth_pinning, CoreMetric, LogicalProcessor, PhysicalCoreMetric};
use crate::driver::builder::{BuilderView, RunnerChoiceView};
use crate::driver::config::DriverResources;
use crate::driver::events::EventQueueView;
use crate::driver::execution::{first_position, AdmissionView};
use crate::driver::facts::FactView;
use crate::driver::lifecycle::{LifecycleView, ShutdownFailures};
use crate::driver::metrics::{suspension_kind, ActiveWorkers, AsyncWorkerKind};
use crate::driver::outcome::{distinct_receivers, mailbox_among, merged, waiting_for};
use crate::driver::pool::{unless_refused, unsubscribed, PoolView};
use crate::driver::subscriptions::{checked, parted, SubscriptionOwner, SubscriptionsView};
use crate::driver::tasks::{TaskTableView, TerminalTaskKind};
use crate::driver::types::{ErrorView, EventView, SuspendView, TaskId};
use crate::driver::volatile::{gain, last_held, lose, scope_gained, scope_lost, unheld, EndpointView,
    HeldView, Owners};
use crate::driver::waiters::{others, waiting_at, without_task, MailboxWaiter,
    MailboxWaiterView};
use crate::driver::workers::{following, timers, AsyncWorker, WorkerTableView};
use crate::text::decimal;
use crate::value::ValueView;
use crate::value_laws::law_a_written_number_is_read_back;
use vstd::prelude::*;

verus! {

/// A task that ended is on record as such, and is neither active nor suspended; the other tasks are
/// as they were, but that the one that ended longest ago is forgotten where there would be too many
/// on record.
pub proof fn law_an_ended_task_is_on_record(
    table: TaskTableView,
    task: TaskId,
    kind: TerminalTaskKind,
    other: TaskId,
)
    requires
        table.wf(),
        other != task,
    ensures
        ({
            let after = table.ended(task, kind);
            let full = !table.terminal.contains_key(task) && table.terminal_order.len()
                == table.limits.terminal_task_retention;
            &&& after.wf()
            &&& after.terminal.contains_key(task) && after.terminal[task] == kind
            &&& !after.active.contains(task) && !after.contexts.contains_key(task)
            &&& after.active.contains(other) <==> table.active.contains(other)
            &&& after.contexts.contains_key(other) <==> table.contexts.contains_key(other)
            &&& table.contexts.contains_key(other) ==> after.contexts[other]
                == table.contexts[other]
            &&& after.terminal.contains_key(other) <==> table.terminal.contains_key(other) && !(
            full && other == table.terminal_order[0])
            &&& after.terminal.contains_key(other) ==> after.terminal[other]
                == table.terminal[other]
            &&& !table.terminal.contains_key(task) ==> after.terminal_order.last() == task
            &&& after.was_cancelled(task) <==> kind is Cancelled
        }),
{
    let after = table.ended(task, kind);
    let order = if table.terminal.contains_key(task) {
        table.terminal_order
    } else {
        table.terminal_order.push(task)
    };
    assert(table.terminal_order.contains(task) <==> table.terminal.contains_key(task)) by {
        assert(table.terminal_order.to_set().contains(task) <==> table.terminal_order.contains(
            task,
        ));
    }
    let full = order.len() > table.limits.terminal_task_retention;
    if table.terminal_order.len() > 0 {
        assert(table.terminal_order.contains(table.terminal_order[0]));
        assert(table.terminal_order.to_set().contains(table.terminal_order[0]));
    }
    assert forall|id: TaskId| after.terminal_order.to_set().contains(id)
        <==> after.terminal.dom().contains(id) by {
        assert(order.contains(id) <==> table.terminal_order.contains(id) || id == task) by {
            if table.terminal_order.contains(id) {
                let k = choose|k: int|
                    0 <= k < table.terminal_order.len() && table.terminal_order[k] == id;
                assert(order[k] == id);
            }
            if !table.terminal.contains_key(task) {
                assert(order[order.len() - 1] == task);
            }
            if order.contains(id) && id != task {
                let k = choose|k: int| 0 <= k < order.len() && order[k] == id;
                assert(table.terminal_order[k] == id);
            }
        }
        assert(table.terminal_order.to_set().contains(id) <==> table.terminal.contains_key(id));
        if full {
            let rest = order.drop_first();
            assert(rest.contains(id) <==> order.contains(id) && id != order[0]) by {
                if rest.contains(id) {
                    let k = choose|k: int| 0 <= k < rest.len() && rest[k] == id;
                    assert(order[k + 1] == id);
                }
                if order.contains(id) && id != order[0] {
                    let k = choose|k: int| 0 <= k < order.len() && order[k] == id;
                    assert(rest[k - 1] == id);
                }
            }
        }
    }
    assert(after.terminal_order.to_set() =~= after.terminal.dom());
    assert(table.contexts.remove(task).dom() =~= table.contexts.dom().remove(task));
    if full {
        assert(order[0] != task) by {
            assert(table.limits.terminal_task_retention > 0);
            assert(order[0] == table.terminal_order[0]);
        }
    }
}

/// Nothing waits for a task once it is taken out, and what waits for other tasks keeps its order.
pub proof fn law_taking_a_task_out_leaves_the_others(
    lists: Map<u64, Seq<MailboxWaiterView>>,
    task: TaskId,
    place: u64,
)
    ensures
        ({
            let before = waiting_at::<MailboxWaiter>(lists, place);
            let after = waiting_at::<MailboxWaiter>(
                without_task::<MailboxWaiter>(lists, task),
                place,
            );
            &&& forall|i: int| 0 <= i < after.len() ==> (#[trigger] after[i]).task_id != task
            &&& forall|waiter: MailboxWaiterView| #[trigger]
                after.contains(waiter) <==> before.contains(waiter) && waiter.task_id != task
            &&& (forall|i: int| 0 <= i < before.len() ==> (#[trigger] before[i]).task_id != task)
                ==> after == before
            &&& without_task::<MailboxWaiter>(lists, task).contains_key(place) ==> after.len() > 0
        }),
{
    let before = waiting_at::<MailboxWaiter>(lists, place);
    lemma_others(before, task);
    let after = waiting_at::<MailboxWaiter>(without_task::<MailboxWaiter>(lists, task), place);
    assert(after =~= others::<MailboxWaiter>(before, task));
}

proof fn lemma_others(waiters: Seq<MailboxWaiterView>, task: TaskId)
    ensures
        ({
            let kept = others::<MailboxWaiter>(waiters, task);
            &&& forall|i: int| 0 <= i < kept.len() ==> (#[trigger] kept[i]).task_id != task
            &&& forall|waiter: MailboxWaiterView| #[trigger]
                kept.contains(waiter) <==> waiters.contains(waiter) && waiter.task_id != task
            &&& (forall|i: int| 0 <= i < waiters.len() ==> (#[trigger] waiters[i]).task_id != task)
                ==> kept == waiters
            &&& waiters.len() == 0 ==> kept.len() == 0
        }),
    decreases waiters.len(),
{
    reveal(Seq::filter);
    let kept = others::<MailboxWaiter>(waiters, task);
    if waiters.len() > 0 {
        let less = waiters.drop_last();
        let last = waiters.last();
        lemma_others(less, task);
        let before = others::<MailboxWaiter>(less, task);
        assert(kept == if last.task_id != task {
            before.push(last)
        } else {
            before
        });
        assert forall|waiter: MailboxWaiterView| #[trigger] kept.contains(waiter)
            <==> waiters.contains(waiter) && waiter.task_id != task by {
            lemma_pushed(before, last, waiter);
            lemma_pushed(less, last, waiter);
            assert(less.push(last) =~= waiters);
        }
        if forall|i: int| 0 <= i < waiters.len() ==> (#[trigger] waiters[i]).task_id != task {
            assert forall|i: int| 0 <= i < less.len() implies (#[trigger] less[i]).task_id != task by {
                assert(less[i] == waiters[i]);
            }
            assert(waiters[waiters.len() - 1] == last);
            assert(less.push(last) =~= waiters);
        }
    }
}

/// Which endpoints may be opened, and why the others may not: the driver has to run, the endpoint
/// must not be open, a reserved identity has to be one that was given out, and there has to be room.
pub proof fn law_which_endpoints_may_be_opened(state: PoolView, endpoint: u64, name: Seq<char>)
    ensures
        ({
            let runs = state.lifecycle.state is Running;
            let open = state.held.endpoints.contains_key(endpoint);
            let foreign = state.limits.ephemeral_identity_start <= endpoint && endpoint
                < state.limits.ephemeral_identity_end && !state.ephemeral.contains(endpoint);
            let room = state.held.endpoints.dom().len() < state.limits.endpoint_capacity;
            let refusal = state.open_refusal(endpoint, name);
            &&& refusal is None <==> runs && !open && !foreign && room
            &&& !runs ==> refusal == Some(ErrorView::DriverStopped)
            &&& runs && open ==> refusal == Some(
                ErrorView::Configuration("endpoint "@ + name + " is already open"@),
            )
            &&& runs && !open && !foreign && !room ==> refusal == Some(
                ErrorView::Configuration("driver endpoint capacity is exhausted"@),
            )
            &&& runs && !open && foreign ==> refusal is Some && refusal->0 is Configuration
        }),
{
}

/// An endpoint takes work, or facts and subscriptions, just where the driver runs and the endpoint is
/// not closed, and for the latter is open; what is refused is refused for the first of these reasons.
pub proof fn law_which_endpoints_take_work(state: PoolView, endpoint: u64)
    ensures
        ({
            let runs = state.lifecycle.state is Running;
            let closed = state.lifecycle.closed_endpoints.contains(endpoint);
            let open = state.held.endpoints.contains_key(endpoint);
            &&& state.lifecycle.refusal(endpoint) == if !runs {
                Some(ErrorView::DriverStopped)
            } else if closed {
                Some(ErrorView::EndpointClosed(endpoint))
            } else {
                None
            }
            &&& state.resource_refusal(endpoint) is None <==> runs && !closed && open
            &&& state.resource_refusal(endpoint) is Some ==> state.resource_refusal(endpoint)->0
                == if runs {
                ErrorView::EndpointClosed(endpoint)
            } else {
                ErrorView::DriverStopped
            }
        }),
{
}

/// A task is resumed just where it is suspended and its endpoint takes work; one that is not
/// suspended is said to be cancelled where that is on record, and to be missing otherwise.
pub proof fn law_which_tasks_are_resumed(state: PoolView, task: TaskId)
    ensures
        ({
            let kept = state.tasks.contexts.contains_key(task);
            let cancelled = state.tasks.terminal.contains_key(task) && state.tasks.terminal[task]
                is Cancelled;
            &&& state.resume_refusal(task) is None <==> kept && state.lifecycle.state is Running
                && !state.lifecycle.closed_endpoints.contains(
                state.tasks.contexts[task].endpoint@,
            )
            &&& !kept && cancelled ==> state.resume_refusal(task) == Some(
                ErrorView::TaskCancelled(task),
            )
            &&& !kept && !cancelled ==> state.resume_refusal(task) == Some(
                ErrorView::MissingTaskContext(task),
            )
            &&& cancelled ==> state.absence(task) == Some(ErrorView::TaskCancelled(task))
            &&& !cancelled ==> state.absence(task) == Some(ErrorView::MissingTaskContext(task))
        }),
{
}

/// A task that the runtime dropped has no worker left, and the workers of other tasks go on; a
/// cancellation that is noted twice is noted once, and the end of a task that is on record stays.
pub proof fn law_a_finished_task_has_no_worker(
    state: PoolView,
    task: TaskId,
    kind: TerminalTaskKind,
    id: u64,
)
    requires
        state.tasks.wf(),
    ensures
        ({
            let after = state.finished(task, kind);
            &&& after.workers.workers.contains_key(id) <==> state.workers.workers.contains_key(id)
                && state.workers.workers[id].task_id != task
            &&& after.workers.workers.contains_key(id) ==> after.workers.workers[id]
                == state.workers.workers[id]
            &&& after.tasks.terminal.contains_key(task) && after.tasks.terminal[task] == kind
            &&& after.held == state.held && after.events == state.events && after.subscriptions
                == state.subscriptions && after.lifecycle == state.lifecycle
        }),
        state.tasks.terminal.contains_key(task) ==> state.noted(task) == state,
        !state.tasks.terminal.contains_key(task) ==> state.noted(task).tasks.terminal.contains_key(
            task,
        ) && state.noted(task).tasks.terminal[task] is Cancelled,
        state.noted(task).noted(task) == state.noted(task),
{
    let other = if task == 0 {
        1
    } else {
        0
    };
    law_an_ended_task_is_on_record(state.tasks, task, kind, other);
    law_an_ended_task_is_on_record(state.tasks, task, TerminalTaskKind::Cancelled, other);
}

/// Shutting down stops the driver and its workers and leaves the rest to be told of; giving up what is
/// held leaves no endpoint, no fact, no mailbox and no subscription.
pub proof fn law_shutting_down_gives_everything_up(state: PoolView, key: u64, fact: FactView)
    ensures
        state.stopping().lifecycle.state is ShuttingDown,
        !state.stopping().workers.workers.contains_key(key),
        state.stopping().tasks == state.tasks && state.stopping().held == state.held
            && state.stopping().events == state.events,
        !state.released().held.endpoints.contains_key(key),
        !state.released().held.owners.contains_key(fact),
        !state.released().subscriptions.mailboxes.contains_key(key),
        state.released().subscriptions.owners.dom() == Set::<ValueView>::empty(),
        state.released().tasks == state.tasks && state.released().events == state.events
            && state.released().lifecycle == state.lifecycle,
{
    assert(Map::<ValueView, crate::driver::subscriptions::SubscriptionOwner>::empty().dom()
        =~= Set::<ValueView>::empty());
}

/// A subscription is taken just where there is room and its mailbox is open, and is cancelled just by
/// the endpoint that owns it.
pub proof fn law_which_subscriptions_are_taken(
    subscriptions: SubscriptionsView,
    mailbox: u64,
    endpoint: u64,
    subscription: ValueView,
)
    ensures
        subscriptions.refusal(mailbox) is None <==> subscriptions.owners.dom().len()
            < subscriptions.capacity && subscriptions.mailboxes.contains_key(mailbox),
        subscriptions.owners.dom().len() >= subscriptions.capacity ==> subscriptions.refusal(mailbox)
            == Some("driver subscription capacity is exhausted"@),
        subscriptions.owners.dom().len() < subscriptions.capacity
            && !subscriptions.mailboxes.contains_key(mailbox) ==> subscriptions.refusal(mailbox)
            == Some("subscription mailbox is closed"@),
        subscriptions.cancel_refusal(endpoint, subscription) is None
            <==> subscriptions.owners.contains_key(subscription)
            && subscriptions.owners[subscription].endpoint@ == endpoint,
        !subscriptions.owners.contains_key(subscription) ==> subscriptions.cancel_refusal(
            endpoint,
            subscription,
        ) == Some("subscription is not active"@),
        subscriptions.through(mailbox).contains(subscription)
            <==> subscriptions.owners.contains_key(subscription)
            && subscriptions.owners[subscription].mailbox == mailbox,
{
}

/// Every delivery goes to the tasks or to the hosts, to the hosts just where its mailbox is theirs, in
/// the order in which they came.
pub proof fn law_deliveries_are_parted(deliveries: Seq<u64>, external: Set<u64>, mailbox: u64)
    ensures
        parted(deliveries, external).0.len() + parted(deliveries, external).1.len()
            == deliveries.len(),
        parted(deliveries, external).0.contains(mailbox) <==> deliveries.contains(mailbox)
            && !external.contains(mailbox),
        parted(deliveries, external).1.contains(mailbox) <==> deliveries.contains(mailbox)
            && external.contains(mailbox),
        parted(deliveries.push(mailbox), external) == if external.contains(mailbox) {
            (
                parted(deliveries, external).0,
                parted(deliveries, external).1.push(mailbox),
            )
        } else {
            (
                parted(deliveries, external).0.push(mailbox),
                parted(deliveries, external).1,
            )
        },
    decreases deliveries.len(),
{
    reveal(Seq::filter);
    assert(deliveries.push(mailbox).drop_last() =~= deliveries);
    if deliveries.len() > 0 {
        let less = deliveries.drop_last();
        let last = deliveries.last();
        law_deliveries_are_parted(less, external, mailbox);
        let (a, b) = parted(less, external);
        let (c, d) = parted(deliveries, external);
        assert(deliveries.contains(mailbox) <==> less.contains(mailbox) || last == mailbox) by {
            if deliveries.contains(mailbox) {
                let k = choose|k: int| 0 <= k < deliveries.len() && deliveries[k] == mailbox;
                if k < less.len() {
                    assert(less[k] == mailbox);
                }
            }
            if less.contains(mailbox) {
                let k = choose|k: int| 0 <= k < less.len() && less[k] == mailbox;
                assert(deliveries[k] == mailbox);
            }
            assert(deliveries[deliveries.len() - 1] == last);
        }
        lemma_pushed(a, last, mailbox);
        lemma_pushed(b, last, mailbox);
    }
}

proof fn lemma_pushed<A>(items: Seq<A>, last: A, item: A)
    ensures
        items.push(last).contains(item) <==> items.contains(item) || item == last,
{
    let all = items.push(last);
    if items.contains(item) {
        let k = choose|k: int| 0 <= k < items.len() && items[k] == item;
        assert(all[k] == item);
    }
    if item == last {
        assert(all[items.len() as int] == item);
    }
    if all.contains(item) && item != last {
        let k = choose|k: int| 0 <= k < all.len() && all[k] == item;
        assert(items[k] == item);
    }
}

/// What comes of an error: which errors say that work was called off, and the text of each.
pub proof fn law_errors_tell_what_they_are(error: ErrorView, name: Seq<char>)
    ensures
        match error {
            ErrorView::TaskCancelled(task) => error.called_off() && error.message(name) == "task "@
                + decimal(task as nat) + " was cancelled"@,
            ErrorView::EndpointClosed(_) => error.called_off() && error.message(name)
                == "endpoint "@ + name + " is closed"@,
            ErrorView::DriverStopped => error.called_off() && error.message(name)
                == "task driver is stopped"@,
            ErrorView::Source(text) => !error.called_off() && error.message(name) == text,
            ErrorView::Storage(text) => !error.called_off() && error.message(name)
                == "failed to open driver storage: "@ + text,
            ErrorView::Configuration(text) => !error.called_off() && error.message(name)
                == "invalid driver configuration: "@ + text,
            ErrorView::Join(text) => !error.called_off() && error.message(name)
                == "driver task failed: "@ + text,
            ErrorView::MissingTaskContext(task) => !error.called_off() && error.message(name)
                == "missing task context for task "@ + decimal(task as nat),
            ErrorView::EphemeralIdentityExhausted => !error.called_off() && error.message(name)
                == "ephemeral host identity space is exhausted"@,
        },
{
}

/// What one endpoint comes to hold and ceases to hold again leaves the owners of every fact as they
/// were; a fact that nobody held is the driver's to take back just where the driver asserted it.
pub proof fn law_holding_and_letting_go_cancel_out(
    owners: Owners,
    facts: Set<FactView>,
    asserted: Set<FactView>,
    fact: FactView,
)
    requires
        owners.contains_key(fact) ==> 0 < owners[fact].owners < usize::MAX,
    ensures
        ({
            let held = gain(owners, facts, asserted);
            let after = lose(held, facts);
            &&& after.contains_key(fact) <==> owners.contains_key(fact)
            &&& owners.contains_key(fact) ==> after[fact] == owners[fact]
            &&& facts.contains(fact) ==> held.contains_key(fact)
            &&& facts.contains(fact) && !owners.contains_key(fact) ==> held[fact].owners == 1
                && held[fact].asserted_by_driver == asserted.contains(fact)
            &&& facts.contains(fact) && owners.contains_key(fact) ==> held[fact].owners
                == owners[fact].owners + 1 && held[fact].asserted_by_driver
                == owners[fact].asserted_by_driver
            &&& !facts.contains(fact) ==> (held.contains_key(fact) <==> owners.contains_key(fact))
                && (owners.contains_key(fact) ==> held[fact] == owners[fact])
            &&& last_held(held, facts).contains(fact) <==> facts.contains(fact)
                && !owners.contains_key(fact) && asserted.contains(fact)
            &&& unheld(owners, facts).contains(fact) <==> facts.contains(fact)
                && !owners.contains_key(fact)
        }),
{
}

/// A fact that is let go of is taken back just where the driver asserted it and it goes: where nobody
/// else holds it.
pub proof fn law_a_fact_is_taken_back_where_it_goes(
    owners: Owners,
    facts: Set<FactView>,
    fact: FactView,
)
    requires
        owners.contains_key(fact) ==> owners[fact].owners > 0,
    ensures
        last_held(owners, facts).contains(fact) <==> facts.contains(fact) && owners.contains_key(
            fact,
        ) && owners[fact].asserted_by_driver && !lose(owners, facts).contains_key(fact),
        lose(owners, facts).contains_key(fact) && facts.contains(fact) ==> lose(
            owners,
            facts,
        )[fact].owners == owners[fact].owners - 1,
        !facts.contains(fact) ==> (lose(owners, facts).contains_key(fact) <==> owners.contains_key(
            fact,
        )),
{
}

/// A scope that comes to hold other facts gains its endpoint those that it did not hold in any scope,
/// and loses it those of the scope that are not wanted and that no other scope holds.
pub proof fn law_what_a_scope_gains_and_loses(
    resources: EndpointView,
    scope: Seq<char>,
    next: Set<FactView>,
    fact: FactView,
    elsewhere: Seq<char>,
)
    ensures
        scope_gained(resources, scope, next).contains(fact) <==> next.contains(fact)
            && !resources.owned().contains(fact),
        scope_lost(resources, scope, next).contains(fact) <==> resources.in_scope(scope).contains(
            fact,
        ) && !next.contains(fact) && !resources.owned_elsewhere(scope).contains(fact),
        resources.in_scope(elsewhere).contains(fact) ==> resources.owned().contains(fact),
        resources.in_scope(elsewhere).contains(fact) && elsewhere != scope
            ==> resources.owned_elsewhere(scope).contains(fact),
        resources.with_scope(scope, next).in_scope(scope) == next,
        elsewhere != scope ==> resources.with_scope(scope, next).in_scope(elsewhere)
            == resources.in_scope(elsewhere),
{
    let after = resources.with_scope(scope, next);
    if resources.in_scope(elsewhere).contains(fact) {
        assert(resources.scopes.contains_key(elsewhere));
    }
    assert(after.scopes.contains_key(scope));
    if resources.owned().contains(fact) {
        let s = choose|s: Seq<char>| #[trigger]
            resources.scopes.contains_key(s) && resources.scopes[s].contains(fact);
        if s != scope {
            assert(after.scopes.contains_key(s) && after.scopes[s].contains(fact));
        }
    }
    if resources.owned_elsewhere(scope).contains(fact) {
        let s = choose|s: Seq<char>| #[trigger]
            resources.scopes.contains_key(s) && s != scope && resources.scopes[s].contains(fact);
        assert(after.scopes.contains_key(s) && after.scopes[s].contains(fact));
    }
    if after.owned().contains(fact) {
        let s = choose|s: Seq<char>| #[trigger]
            after.scopes.contains_key(s) && after.scopes[s].contains(fact);
        if s != scope {
            assert(resources.scopes.contains_key(s) && resources.scopes[s].contains(fact));
        }
    }
    if resources.in_scope(scope).contains(fact) {
        assert(resources.scopes.contains_key(scope) && resources.scopes[scope].contains(fact));
    }
}

/// A running driver takes every worker on that is no timer, and a timer while there is room for one;
/// workers get different numbers until all were given out, and never zero.
pub proof fn law_which_workers_are_taken_on(table: WorkerTableView, worker: AsyncWorker, id: u64)
    ensures
        !table.takes_on(worker, false),
        !worker.timer ==> table.takes_on(worker, true),
        worker.timer ==> (table.takes_on(worker, true) <==> timers(table.workers).len()
            < table.timer_capacity),
        timers(table.workers).contains(id) <==> table.workers.contains_key(id)
            && table.workers[id].timer,
        following(id) != id,
        following(id) != 0,
        id != u64::MAX ==> following(id) == id + 1,
{
}

proof fn lemma_distinct(receivers: Seq<(u64, ValueView)>, mailbox: u64)
    ensures
        mailbox_among(distinct_receivers(receivers), mailbox) <==> mailbox_among(
            receivers,
            mailbox,
        ),
        forall|i: int, j: int|
            0 <= i < j < distinct_receivers(receivers).len() ==> (
            #[trigger] distinct_receivers(receivers)[i]).0 != (
            #[trigger] distinct_receivers(receivers)[j]).0,
    decreases receivers.len(),
{
    if receivers.len() > 0 {
        let less = receivers.drop_last();
        let last = receivers.last();
        lemma_distinct(less, mailbox);
        lemma_distinct(less, last.0);
        let before = distinct_receivers(less);
        let after = distinct_receivers(receivers);
        assert(mailbox_among(receivers, mailbox) <==> mailbox_among(less, mailbox) || last.0
            == mailbox) by {
            if mailbox_among(less, mailbox) {
                let k = choose|k: int| 0 <= k < less.len() && (#[trigger] less[k]).0 == mailbox;
                assert(receivers[k].0 == mailbox);
            }
            if mailbox_among(receivers, mailbox) {
                let k = choose|k: int|
                    0 <= k < receivers.len() && (#[trigger] receivers[k]).0 == mailbox;
                if k < less.len() {
                    assert(less[k].0 == mailbox);
                }
            }
            assert(receivers[receivers.len() - 1] == last);
        }
        if !mailbox_among(before, last.0) {
            assert(after == before.push(last));
            assert(mailbox_among(after, mailbox) <==> mailbox_among(before, mailbox) || last.0
                == mailbox) by {
                if mailbox_among(before, mailbox) {
                    let k = choose|k: int|
                        0 <= k < before.len() && (#[trigger] before[k]).0 == mailbox;
                    assert(after[k].0 == mailbox);
                }
                if mailbox_among(after, mailbox) {
                    let k = choose|k: int|
                        0 <= k < after.len() && (#[trigger] after[k]).0 == mailbox;
                    if k < before.len() {
                        assert(before[k].0 == mailbox);
                    }
                }
                assert(after[before.len() as int] == last);
            }
            assert forall|i: int, j: int| 0 <= i < j < after.len() implies (#[trigger] after[i]).0
                != (#[trigger] after[j]).0 by {
                assert(after[i] == before[i]);
                if j < before.len() {
                    assert(after[j] == before[j]);
                }
            }
        }
    }
}

/// A task that receives waits at each mailbox of its receivers, and at each once, through the first
/// receiver that has it; a receiver that adds no mailbox changes nothing.
pub proof fn law_a_task_waits_at_each_mailbox_once(
    receivers: Seq<(u64, ValueView)>,
    next: (u64, ValueView),
)
    ensures
        forall|i: int, j: int|
            0 <= i < j < distinct_receivers(receivers).len() ==> (
            #[trigger] distinct_receivers(receivers)[i]).0 != (
            #[trigger] distinct_receivers(receivers)[j]).0,
        mailbox_among(distinct_receivers(receivers), next.0) <==> mailbox_among(
            receivers,
            next.0,
        ),
        distinct_receivers(receivers.push(next)) == if mailbox_among(receivers, next.0) {
            distinct_receivers(receivers)
        } else {
            distinct_receivers(receivers).push(next)
        },
{
    lemma_distinct(receivers, next.0);
    assert(receivers.push(next).drop_last() =~= receivers);
    assert(receivers.push(next).last() == next);
}

/// The mailboxes that were delivered to are those of subscriptions, and behind them, each once, those
/// that were sent to.
pub proof fn law_mailboxes_are_merged(mailboxes: Seq<u64>, more: Seq<u64>, mailbox: u64)
    ensures
        mailboxes.is_prefix_of(merged(mailboxes, more)),
        merged(mailboxes, more).contains(mailbox) <==> mailboxes.contains(mailbox) || more.contains(
            mailbox,
        ),
        mailboxes.no_duplicates() ==> merged(mailboxes, more).no_duplicates(),
    decreases more.len(),
{
    if more.len() > 0 {
        let less = more.drop_last();
        let before = merged(mailboxes, less);
        law_mailboxes_are_merged(mailboxes, less, mailbox);
        lemma_pushed(less, more.last(), mailbox);
        assert(less.push(more.last()) =~= more);
        lemma_pushed(before, more.last(), mailbox);
        if !before.contains(more.last()) {
            let after = merged(mailboxes, more);
            assert(after == before.push(more.last()));
            assert(mailboxes =~= after.subrange(0, mailboxes.len() as int));
        }
    }
}

/// A waiter stands behind the others at each of the mailboxes that it waits at, and nowhere else.
pub proof fn law_a_waiter_stands_behind_the_others(
    lists: Map<u64, Seq<MailboxWaiterView>>,
    waiter: MailboxWaiterView,
    n: int,
    mailbox: u64,
)
    requires
        0 <= n <= waiter.receivers.len(),
        forall|i: int, j: int|
            0 <= i < j < waiter.receivers.len() ==> (#[trigger] waiter.receivers[i]).0 != (
            #[trigger] waiter.receivers[j]).0,
    ensures
        ({
            let before = waiting_at::<MailboxWaiter>(lists, mailbox);
            let after = waiting_at::<MailboxWaiter>(waiting_for(lists, waiter, n), mailbox);
            if exists|i: int| 0 <= i < n && (#[trigger] waiter.receivers[i]).0 == mailbox {
                after == before.push(waiter)
            } else {
                after == before
            }
        }),
    decreases n,
{
    if n > 0 {
        law_a_waiter_stands_behind_the_others(lists, waiter, n - 1, mailbox);
        let last = waiter.receivers[n - 1];
        if exists|i: int| 0 <= i < n - 1 && (#[trigger] waiter.receivers[i]).0 == mailbox {
            let i = choose|i: int|
                0 <= i < n - 1 && (#[trigger] waiter.receivers[i]).0 == mailbox;
            assert(waiter.receivers[i].0 != last.0);
        }
    }
}

/// A worker that is free goes to the task that waits longest; workers for parallel work are given
/// just where no task waits, the bound for such work is not reached, and one is left for a task.
pub proof fn law_who_gets_a_free_worker(before: AdmissionView, workers: nat, id: u64)
    ensures
        before.next_waiter() is Some <==> before.task_waiters.len() > 0 && before.occupied
            < before.dispatch_capacity,
        before.next_waiter() is Some ==> before.next_waiter()->0 == before.task_waiters.first(),
        before.parallel_outcome(workers) is Admitted <==> before.task_waiters.len() == 0
            && before.parallel_occupied + workers < before.relation_parallelism && before.occupied
            + workers < before.dispatch_capacity,
        first_position(before.task_waiters, id) <= before.task_waiters.len(),
        first_position(before.task_waiters, id) < before.task_waiters.len()
            ==> before.task_waiters[first_position(before.task_waiters, id) as int] == id,
        forall|i: int|
            0 <= i < first_position(before.task_waiters, id) ==> before.task_waiters[i] != id,
{
    lemma_first_place(before.task_waiters, id);
}

proof fn lemma_first_place(waiters: Seq<u64>, id: u64)
    ensures
        first_position(waiters, id) <= waiters.len(),
        first_position(waiters, id) < waiters.len() ==> waiters[first_position(waiters, id) as int]
            == id,
        forall|i: int| 0 <= i < first_position(waiters, id) ==> waiters[i] != id,
    decreases waiters.len(),
{
    if waiters.len() > 0 && waiters[0] != id {
        let rest = waiters.drop_first();
        lemma_first_place(rest, id);
        assert forall|i: int| 0 <= i < first_position(waiters, id) implies waiters[i] != id by {
            if i > 0 {
                assert(rest[i - 1] == waiters[i]);
            }
        }
    }
}

/// Of what went wrong while the driver shut down, a worker's failure is reported before one of
/// storage, and that before one of the dispatcher; where nothing did, nothing is.
pub proof fn law_which_failure_is_reported(failures: ShutdownFailures, lifecycle: LifecycleView)
    ensures
        failures.decisive() is None <==> failures.worker is None && failures.persistence is None
            && failures.join is None,
        failures.worker matches Some(text) ==> failures.decisive() == Some(text@),
        failures.worker is None && failures.persistence is Some ==> failures.decisive() == Some(
            failures.persistence->0@,
        ),
        failures.worker is None && failures.persistence is None && failures.join is Some
            ==> failures.decisive() == Some(failures.join->0@),
        lifecycle.stopped(failures.decisive()).state is Stopped,
        lifecycle.stopped(failures.decisive()).shutdown_outcome() is Ok <==> failures.decisive()
            is None,
        failures.decisive() is Some ==> lifecycle.stopped(failures.decisive()).shutdown_outcome()
            == Err::<(), _>(ErrorView::Join(failures.decisive()->0)),
{
}

/// Resources are refused where more workers are to run relations in parallel than there are, or a
/// limit of tasks is zero; a runner that is set up takes neither storage nor a source beside it, and
/// storage is refused where there is none to be had.
pub proof fn law_which_setups_are_refused(
    resources: DriverResources,
    builder: BuilderView,
    storage_available: bool,
)
    ensures
        resources.fault() is None <==> resources.relation_parallelism <= resources.worker_count
            && resources.task_limits.instruction_budget != 0
            && resources.task_limits.max_call_depth != 0,
        builder.choice(storage_available) is Ok <==> builder.resources.fault() is None && (
        builder.runner_configured ==> builder.stored is None && !builder.source_configured) && (
        builder.stored is Some ==> storage_available),
        builder.choice(storage_available) matches Ok(choice) ==> match choice {
            RunnerChoiceView::Configured => builder.runner_configured,
            RunnerChoiceView::Empty(source) => !builder.runner_configured && builder.stored is None
                && source == builder.source_configured,
            RunnerChoiceView::Stored(path, durability, source) => !builder.runner_configured
                && builder.stored == Some((path, durability)) && source
                == builder.source_configured,
        },
        builder.choice(storage_available) matches Err(error) ==> error is Configuration,
{
}

/// A suspension is counted under its own kind.
pub proof fn law_a_suspension_is_counted_under_its_kind(kind: SuspendView)
    ensures
        suspension_kind(kind) is Commit <==> kind is Commit,
        suspension_kind(kind) is Never <==> kind is Never,
        suspension_kind(kind) is TimedMillis <==> kind is TimedMillis,
        suspension_kind(kind) is WaitingForInput <==> kind is WaitingForInput,
        suspension_kind(kind) is MailboxRecv <==> kind is MailboxRecv,
        suspension_kind(kind) is Spawn <==> kind is Spawn,
        suspension_kind(kind) is ExternalRequest <==> kind is ExternalRequest,
{
}

/// The core with the highest figure performs, and so does each within a tenth of it; one that is
/// further below, or of which nothing is known, does not. Cores with one figure are not worth telling
/// apart.
pub proof fn law_which_cores_perform(
    cores: Seq<PhysicalCoreMetric>,
    which: CoreMetric,
    i: int,
    high: u32,
    figure: u32,
)
    requires
        0 <= i < cores.len(),
        match which {
            CoreMetric::Capacity => cores[i].capacity == Some(figure),
            CoreMetric::MaxFrequency => cores[i].max_freq_khz == Some(figure),
        },
        exists|k: int| #![trigger cores[k]]
            0 <= k < cores.len() && match which {
                CoreMetric::Capacity => cores[k].capacity == Some(high),
                CoreMetric::MaxFrequency => cores[k].max_freq_khz == Some(high),
            },
        forall|k: int| #![trigger cores[k]]
            0 <= k < cores.len() ==> match which {
                CoreMetric::Capacity => cores[k].capacity is Some ==> cores[k].capacity->0 <= high,
                CoreMetric::MaxFrequency => cores[k].max_freq_khz is Some
                    ==> cores[k].max_freq_khz->0 <= high,
            },
    ensures
        performs(cores, which, cores[i]) <==> figure * 10 >= high * 9,
        figure == high ==> performs(cores, which, cores[i]),
        figure == high && cores[i].logical_processor_ids@.len() > 0 ==> selected_processor(
            cores,
            which,
            cores[i].logical_processor_ids@[0],
        ),
        (forall|k: int| #![trigger cores[k]]
            0 <= k < cores.len() ==> match which {
                CoreMetric::Capacity => cores[k].capacity == Some(high),
                CoreMetric::MaxFrequency => cores[k].max_freq_khz == Some(high),
            }) ==> !worth_pinning(cores, which),
{
    assert(is_highest(cores, which, high)) by {
        let k = choose|k: int| #![trigger cores[k]]
            0 <= k < cores.len() && match which {
                CoreMetric::Capacity => cores[k].capacity == Some(high),
                CoreMetric::MaxFrequency => cores[k].max_freq_khz == Some(high),
            };
        assert(cores[k].metric(which) == Some(high));
    }
    assert(cores[i].metric(which) == Some(figure));
    assert forall|other: u32| #[trigger] is_highest(cores, which, other) implies other == high by {
        let a = choose|a: int|
            0 <= a < cores.len() && (#[trigger] cores[a]).metric(which) == Some(other);
        let b = choose|b: int|
            0 <= b < cores.len() && (#[trigger] cores[b]).metric(which) == Some(high);
    }
    if forall|k: int| #![trigger cores[k]]
        0 <= k < cores.len() ==> match which {
            CoreMetric::Capacity => cores[k].capacity == Some(high),
            CoreMetric::MaxFrequency => cores[k].max_freq_khz == Some(high),
        } {
        assert forall|k: int| 0 <= k < cores.len() implies performs(
            cores,
            which,
            #[trigger] cores[k],
        ) by {
            assert(cores[k].metric(which) == Some(high));
        }
    }
    if figure == high && cores[i].logical_processor_ids@.len() > 0 {
        assert(performs(cores, which, cores[i]));
        assert(cores[i].logical_processor_ids@.contains(cores[i].logical_processor_ids@[0]));
    }
}

/// Cores are worth telling apart just where the lowest figure is a tenth of the highest, or more,
/// below it.
pub proof fn law_which_cores_differ(
    cores: Seq<PhysicalCoreMetric>,
    which: CoreMetric,
    low: u32,
    high: u32,
)
    requires
        is_lowest(cores, which, low),
        is_highest(cores, which, high),
        high > 0,
    ensures
        heterogeneous(cores, which) <==> low * 10 <= high * 9,
        low <= high,
{
    let a = choose|a: int| 0 <= a < cores.len() && (#[trigger] cores[a]).metric(which) == Some(low);
    let b = choose|b: int| 0 <= b < cores.len() && (#[trigger] cores[b]).metric(which) == Some(high);
    assert forall|x: u32, y: u32|
        #![trigger is_lowest(cores, which, x), is_highest(cores, which, y)]
        is_lowest(cores, which, x) && is_highest(cores, which, y) implies x == low && y == high by {
        let c = choose|c: int|
            0 <= c < cores.len() && (#[trigger] cores[c]).metric(which) == Some(x);
        let d = choose|d: int|
            0 <= d < cores.len() && (#[trigger] cores[d]).metric(which) == Some(y);
    }
}

/// Processors share a core where they name the same package and core; one that names no core has its
/// own.
pub proof fn law_which_processors_share_a_core(a: LogicalProcessor, b: LogicalProcessor)
    ensures
        a.package_id is Some && a.package_id == b.package_id && a.core_id is Some && a.core_id
            == b.core_id ==> a.core_key() == b.core_key(),
        a.core_id is None && b.core_id is None && a.id != b.id ==> a.core_key() != b.core_key(),
        a.core_id is Some && b.core_id is Some && a.core_id != b.core_id ==> a.core_key()
            != b.core_key(),
        a.package_id is Some && b.package_id is Some && a.package_id != b.package_id
            ==> a.core_key() != b.core_key(),
{
}

/// A processor's directory is named by its number: every number names one, and a name that starts
/// otherwise names none.
pub proof fn law_processors_are_named_by_their_numbers(n: nat, name: Seq<char>)
    requires
        n <= usize::MAX,
    ensures
        cpu_dir_number(seq!['c', 'p', 'u'] + decimal(n)) == Some(n),
        name.len() < 3 || name[0] != 'c' || name[1] != 'p' || name[2] != 'u' ==> cpu_dir_number(
            name,
        ) is None,
{
    let whole = seq!['c', 'p', 'u'] + decimal(n);
    law_a_written_number_is_read_back(n, usize::MAX as nat);
    assert(whole.take(3) =~= seq!['c', 'p', 'u']);
    assert(whole.skip(3) =~= decimal(n));
    if name.len() >= 3 && name.take(3) == seq!['c', 'p', 'u'] {
        assert(name.take(3)[0] == 'c');
        assert(name.take(3)[1] == 'p');
        assert(name.take(3)[2] == 'u');
        assert(name[0] == name.take(3)[0]);
        assert(name[1] == name.take(3)[1]);
        assert(name[2] == name.take(3)[2]);
    }
}

/// A core has the first figure that one of its processors gives, and none where none gives any.
pub proof fn law_a_core_has_the_first_figure_given(figures: Seq<Option<u32>>, k: int)
    requires
        0 <= k <= figures.len(),
        forall|j: int| 0 <= j < k ==> (#[trigger] figures[j]) is None,
        k < figures.len() ==> figures[k] is Some,
    ensures
        first_known(figures) == if k < figures.len() {
            figures[k]
        } else {
            None
        },
    decreases figures.len(),
{
    if figures.len() > 0 {
        let before = figures.drop_last();
        assert(figures.last() == figures[figures.len() - 1]);
        assert forall|j: int| 0 <= j < before.len() implies #[trigger] before[j] == figures[j] by {}
        if k < before.len() {
            assert(before[k] == figures[k]);
            law_a_core_has_the_first_figure_given(before, k);
        } else {
            law_a_core_has_the_first_figure_given(before, before.len() as int);
        }
    }
}

/// Workers are counted under their own kind.
pub proof fn law_workers_are_counted_under_their_kind(workers: ActiveWorkers)
    ensures
        workers.of(AsyncWorkerKind::TimerResume) == workers.timer_resume,
        workers.of(AsyncWorkerKind::MailboxTimeout) == workers.mailbox_timeout,
        workers.of(AsyncWorkerKind::ExternalRequest) == workers.external_request,
        workers.of(AsyncWorkerKind::MailboxRecv) == workers.mailbox_recv,
        workers.of(AsyncWorkerKind::MailboxWake) == workers.mailbox_wake,
        workers.of(AsyncWorkerKind::SpawnChild) == workers.spawn_child,
{
}

/// Only what tells that something goes on may be told once for several times: what ends a task, and
/// an effect, is told each time.
pub proof fn law_which_events_may_stand_for_several(event: EventView)
    ensures
        event is TaskCompleted || event is TaskAborted || event is TaskCancelled || event is TaskFailed
            || event is Effect ==> !event.repeatable(),
        event is TaskSuspended || event is SubscriptionReady ==> event.repeatable(),
{
}

/// Subscriptions that are gone are taken from the endpoints that own them, and each endpoint keeps
/// every other of its own.
pub proof fn law_gone_subscriptions_leave_their_endpoints(
    endpoints: Map<u64, EndpointView>,
    owners: Map<ValueView, SubscriptionOwner>,
    gone: Set<ValueView>,
    endpoint: u64,
    subscription: ValueView,
)
    requires
        endpoints.contains_key(endpoint),
    ensures
        ({
            let after = unsubscribed(endpoints, owners, gone);
            &&& after.dom() == endpoints.dom()
            &&& after[endpoint].scopes == endpoints[endpoint].scopes
            &&& gone.contains(subscription) && owners[subscription].endpoint@ == endpoint
                ==> !after[endpoint].subscriptions.contains(subscription)
            &&& !gone.contains(subscription) || owners[subscription].endpoint@ != endpoint ==> (
            after[endpoint].subscriptions.contains(subscription)
                <==> endpoints[endpoint].subscriptions.contains(subscription))
        }),
{
    assert(unsubscribed(endpoints, owners, gone).dom() =~= endpoints.dom());
}

/// A driver is idle just where nothing is being dispatched and nothing goes on at any endpoint.
pub proof fn law_an_idle_driver_does_nothing(lifecycle: LifecycleView)
    requires
        lifecycle.wf(),
    ensures
        lifecycle.idle() <==> lifecycle.in_flight_dispatches == 0 && forall|endpoint: u64| #[trigger]
            lifecycle.activities(endpoint) == 0,
{
    if lifecycle.idle() {
        assert forall|endpoint: u64| #[trigger] lifecycle.activities(endpoint) == 0 by {
            assert(!lifecycle.endpoint_activities.dom().contains(endpoint));
        }
    }
    if forall|endpoint: u64| #[trigger] lifecycle.activities(endpoint) == 0 {
        assert forall|endpoint: u64| !lifecycle.endpoint_activities.dom().contains(endpoint) by {
            assert(lifecycle.activities(endpoint) == 0);
        }
        assert(lifecycle.endpoint_activities.dom() =~= Set::<u64>::empty());
    }
}

/// An endpoint's subscriptions are replaced without a change to its facts, to another endpoint or to
/// who holds which fact, and an endpoint that is not open has none.
pub proof fn law_subscriptions_are_replaced_alone(
    held: HeldView,
    endpoint: u64,
    subscriptions: Set<ValueView>,
    other: u64,
    state: PoolView,
)
    requires
        held.endpoints.contains_key(endpoint),
        other != endpoint,
    ensures
        ({
            let after = held.with_subscriptions(endpoint, subscriptions);
            &&& after.endpoints.contains_key(endpoint)
            &&& after.endpoints[endpoint].subscriptions == subscriptions
            &&& after.endpoints[endpoint].scopes == held.endpoints[endpoint].scopes
            &&& after.endpoints.contains_key(other) == held.endpoints.contains_key(other)
            &&& held.endpoints.contains_key(other) ==> after.endpoints[other]
                == held.endpoints[other]
            &&& after.owners == held.owners
        }),
        state.held.endpoints.contains_key(endpoint) ==> state.subscriptions_of(endpoint)
            == state.held.endpoints[endpoint].subscriptions,
        !state.held.endpoints.contains_key(endpoint) ==> state.subscriptions_of(endpoint)
            == Set::<ValueView>::empty(),
{
}

/// A queue that was drained is empty and otherwise as it was.
pub proof fn law_a_drained_queue_is_empty(queue: EventQueueView)
    ensures
        queue.drained().events.len() == 0,
        queue.drained().capacity == queue.capacity,
        queue.drained().discarding == queue.discarding,
{
}

/// A task that leaves the suspended ones leaves every other where it is.
pub proof fn law_a_resumed_task_is_suspended_no_more(state: PoolView, task: TaskId, other: TaskId)
    requires
        other != task,
    ensures
        !state.without_context(task).tasks.contexts.contains_key(task),
        state.without_context(task).tasks.contexts.contains_key(other)
            == state.tasks.contexts.contains_key(other),
        state.tasks.contexts.contains_key(other) ==> state.without_context(
            task,
        ).tasks.contexts[other] == state.tasks.contexts[other],
        state.without_context(task).tasks.terminal == state.tasks.terminal,
        state.without_context(task).tasks.active == state.tasks.active,
{
}

/// Every processor stands in the core that it names, and a core holds no other processor.
pub proof fn law_every_processor_stands_in_its_core(
    cores: Seq<PhysicalCoreMetric>,
    keys: Seq<(usize, usize)>,
    processors: Seq<LogicalProcessor>,
    p: int,
    i: int,
)
    requires
        grouped(cores, keys, processors),
        0 <= p < processors.len(),
        0 <= i < cores.len(),
    ensures
        keys[i] == processors[p].core_key() ==> cores[i].logical_processor_ids@.contains(
            processors[p].id,
        ),
        forall|id: usize| #[trigger]
            cores[i].logical_processor_ids@.contains(id) ==> exists|q: int|
                0 <= q < processors.len() && (#[trigger] processors[q]).id == id
                    && processors[q].core_key() == keys[i],
{
    let key = keys[i];
    let there = on_core(processors, key);
    let ids = there.map_values(|one: LogicalProcessor| one.id);
    let held = cores[i].logical_processor_ids@;
    assert(sums_up(cores[i], there));
    lemma_on_core(processors, key);
    held.to_multiset_ensures();
    ids.to_multiset_ensures();
    if key == processors[p].core_key() {
        assert(there.contains(processors[p]));
        let k = choose|k: int| 0 <= k < there.len() && there[k] == processors[p];
        assert(ids[k] == processors[p].id);
        assert(ids.contains(processors[p].id));
        assert(held.to_multiset().contains(processors[p].id));
    }
    assert forall|id: usize| #[trigger] held.contains(id) implies exists|q: int|
        0 <= q < processors.len() && (#[trigger] processors[q]).id == id && processors[q].core_key()
            == keys[i] by {
        assert(held.to_multiset().contains(id));
        assert(ids.contains(id));
        let k = choose|k: int| 0 <= k < ids.len() && ids[k] == id;
        assert(there.contains(there[k]));
        let q = choose|q: int| 0 <= q < processors.len() && processors[q] == there[k];
        assert(processors[q].id == id);
    }
}

proof fn lemma_on_core(processors: Seq<LogicalProcessor>, key: (usize, usize))
    ensures
        forall|one: LogicalProcessor| #[trigger]
            on_core(processors, key).contains(one) <==> processors.contains(one) && one.core_key()
                == key,
    decreases processors.len(),
{
    reveal(Seq::filter);
    if processors.len() > 0 {
        let before = processors.drop_last();
        let last = processors.last();
        let found = on_core(before, key);
        lemma_on_core(before, key);
        assert(on_core(processors, key) == if last.core_key() == key {
            found.push(last)
        } else {
            found
        });
        assert forall|one: LogicalProcessor| #[trigger]
            on_core(processors, key).contains(one) <==> processors.contains(one) && one.core_key()
                == key by {
            assert(found.contains(one) <==> before.contains(one) && one.core_key() == key);
            assert(before.push(last) =~= processors);
            lemma_pushed_one(before, last, one);
            lemma_pushed_one(found, last, one);
        }
    }
}

proof fn lemma_pushed_one(before: Seq<LogicalProcessor>, last: LogicalProcessor, one: LogicalProcessor)
    ensures
        before.push(last).contains(one) <==> before.contains(one) || one == last,
{
    let all = before.push(last);
    if before.contains(one) {
        let i = choose|i: int| 0 <= i < before.len() && before[i] == one;
        assert(all[i] == one);
    }
    if one == last {
        assert(all[all.len() - 1] == one);
    }
    if all.contains(one) && one != last {
        let i = choose|i: int| 0 <= i < all.len() && all[i] == one;
        assert(before[i] == one);
    }
}

/// What is refused with a text fails as a fault of the configuration with that text, what is refused
/// with an error fails with that error, and what is not refused does not fail.
pub proof fn law_what_is_refused_fails(text: Seq<char>, error: ErrorView)
    ensures
        checked(Some(text)) == Err::<(), ErrorView>(ErrorView::Configuration(text)),
        checked(None) is Ok,
        unless_refused(Some(error)) == Err::<(), ErrorView>(error),
        unless_refused(None) is Ok,
{
}

} // verus!
