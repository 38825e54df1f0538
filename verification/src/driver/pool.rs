//! The state of a driver, and every decision that changes it.

use crate::driver::events::{EventQueue, EventQueueView};
use crate::driver::facts::{add_facts, fact_set, fact_views, find_lacking, first_lacking, without, Fact, FactSet, FactView};
use crate::driver::lifecycle::{outcome_view, DriverLifecycle, Lifecycle, LifecycleView,
    ShutdownStart};
use crate::driver::subscriptions::{checked, SubscriptionOwner, Subscriptions, SubscriptionsView};
use crate::driver::tasks::{TaskCapacities, TaskTable, TaskTableView, TerminalTaskKind};
use crate::driver::types::{joined, DriverError, DriverSubscriptionMailbox,
    DriverSubscriptionRequest, EndpointCloseReport, ErrorView, SubscriptionRequest, TaskId};
use crate::driver::volatile::{gain, identity_views, last_held, lose, scope_gained, scope_lost,
    unheld, EndpointView, HeldView, ScopeChange, VolatileFacts};
use crate::driver::waiters::{others, without_task, MailboxWaiter, MailboxWaiterView, WaitLists};
use crate::driver::workers::{following, timers, AsyncWorker, WorkerTable, WorkerTableView};
use crate::table::{entry_keys, Keyed, Table};
use crate::value::{copy_value, Identity, Symbol, Value, ValueView};
use vstd::prelude::*;

verus! {

/// How much of everything a driver keeps.
#[derive(Clone, Copy, Debug, PartialEq, Eq, Structural)]
pub struct PoolLimits {
    pub event_queue_capacity: usize,
    pub active_task_capacity: usize,
    pub suspended_task_capacity: usize,
    pub timer_capacity: usize,
    pub terminal_task_retention: usize,
    pub endpoint_capacity: usize,
    pub subscription_capacity: usize,
    pub subscription_mailbox_capacity: usize,
    /// The number of deliveries that a subscription queues unless a host asks otherwise.
    pub subscription_queue_budget: usize,
    pub ephemeral_identity_capacity: usize,
    /// The identities from here on are the driver's to give out.
    pub ephemeral_identity_start: u64,
    /// The identities from here on are not.
    pub ephemeral_identity_end: u64,
}

impl PoolLimits {
    /// Whether the limits that must not be zero are not.
    pub open spec fn positive(self) -> bool {
        &&& self.event_queue_capacity > 0
        &&& self.active_task_capacity > 0
        &&& self.suspended_task_capacity > 0
        &&& self.timer_capacity > 0
        &&& self.terminal_task_retention > 0
        &&& self.endpoint_capacity > 0
        &&& self.subscription_capacity > 0
        &&& self.subscription_mailbox_capacity > 0
        &&& self.subscription_queue_budget > 0
        &&& self.ephemeral_identity_capacity > 0
    }
}

/// The state of a driver.
#[derive(Debug)]
pub struct PoolState {
    pub lifecycle: Lifecycle,
    pub tasks: TaskTable,
    pub invocations: Table<u64, ()>,
    pub held: VolatileFacts,
    pub inputs: WaitLists<u64>,
    pub mailboxes: WaitLists<MailboxWaiter>,
    pub subscriptions: Subscriptions,
    pub events: EventQueue,
    pub workers: WorkerTable,
    pub ephemeral: Table<u64, ()>,
    pub next_ephemeral_identity: u64,
    pub limits: PoolLimits,
}

/// The state of a driver: whether it runs, its tasks and which of them a host waits
/// for, its endpoints, what waits for input or messages, its subscriptions, events and
/// workers, and the identities that it gave out.
pub struct PoolView {
    pub lifecycle: LifecycleView,
    pub tasks: TaskTableView,
    pub invocations: Set<TaskId>,
    pub held: HeldView,
    pub inputs: Map<u64, Seq<TaskId>>,
    pub mailboxes: Map<u64, Seq<MailboxWaiterView>>,
    pub subscriptions: SubscriptionsView,
    pub events: EventQueueView,
    pub workers: WorkerTableView,
    pub ephemeral: Set<u64>,
    pub next_ephemeral_identity: u64,
    pub limits: PoolLimits,
}

impl PoolView {
    /// What every operation keeps.
    pub open spec fn wf(self) -> bool {
        &&& self.lifecycle.wf()
        &&& self.tasks.wf()
        &&& self.held.wf()
        &&& self.held.endpoints.dom().len() <= self.limits.endpoint_capacity
        &&& self.events.wf()
        &&& self.ephemeral.finite()
        &&& self.ephemeral.len() <= self.limits.ephemeral_identity_capacity
        &&& forall|id: u64| #[trigger]
            self.ephemeral.contains(id) ==> self.limits.ephemeral_identity_start <= id
                < self.next_ephemeral_identity
        &&& self.limits.ephemeral_identity_start <= self.next_ephemeral_identity
    }

    /// Whether an endpoint takes resources, or why not.
    pub open spec fn resource_refusal(self, endpoint: u64) -> Option<ErrorView> {
        if self.lifecycle.state !is Running {
            Some(ErrorView::DriverStopped)
        } else if self.lifecycle.closed_endpoints.contains(endpoint)
            || !self.held.endpoints.contains_key(endpoint) {
            Some(ErrorView::EndpointClosed(endpoint))
        } else {
            None
        }
    }

    /// Why an endpoint may not be opened, where it may not. `name` is the endpoint as
    /// it is shown.
    pub open spec fn open_refusal(self, endpoint: u64, name: Seq<char>) -> Option<ErrorView> {
        if self.lifecycle.state !is Running {
            Some(ErrorView::DriverStopped)
        } else if self.held.endpoints.contains_key(endpoint) {
            Some(ErrorView::Configuration("endpoint "@ + name + " is already open"@))
        } else if self.limits.ephemeral_identity_start <= endpoint
            < self.limits.ephemeral_identity_end && !self.ephemeral.contains(endpoint) {
            Some(
                ErrorView::Configuration(
                    "endpoint "@ + name
                        + " is in the driver-reserved identity range but was not allocated by this driver"@,
                ),
            )
        } else if self.held.endpoints.dom().len() >= self.limits.endpoint_capacity {
            Some(ErrorView::Configuration("driver endpoint capacity is exhausted"@))
        } else {
            None
        }
    }

    /// Why a task cannot be resumed, where it cannot.
    pub open spec fn resume_refusal(self, task: TaskId) -> Option<ErrorView> {
        if !self.tasks.contexts.contains_key(task) {
            self.absence(task)
        } else {
            self.lifecycle.refusal(self.tasks.contexts[task].endpoint@)
        }
    }

    /// What is said of a task that is not suspended.
    pub open spec fn absence(self, task: TaskId) -> Option<ErrorView> {
        if self.tasks.was_cancelled(task) {
            Some(ErrorView::TaskCancelled(task))
        } else {
            Some(ErrorView::MissingTaskContext(task))
        }
    }

    /// The state without anything that waits on behalf of a task.
    pub open spec fn without_waiters(self, task: TaskId) -> PoolView {
        PoolView {
            inputs: without_task::<u64>(self.inputs, task),
            mailboxes: without_task::<MailboxWaiter>(self.mailboxes, task),
            ..self
        }
    }

    /// The state after a task ended.
    pub open spec fn ended(self, task: TaskId, kind: TerminalTaskKind) -> PoolView {
        PoolView { tasks: self.tasks.ended(task, kind), ..self }
    }

    /// The workers of a task.
    pub open spec fn workers_of(self, task: TaskId) -> Set<u64> {
        self.workers.workers.dom().filter(|id: u64| self.workers.workers[id].task_id == task)
    }

    /// The state after a task ended that the runtime dropped: nothing waits or works on its
    /// behalf.
    pub open spec fn finished(self, task: TaskId, kind: TerminalTaskKind) -> PoolView {
        PoolView {
            workers: WorkerTableView {
                workers: self.workers.workers.remove_keys(self.workers_of(task)),
                ..self.workers
            },
            ..self.without_waiters(task).ended(task, kind)
        }
    }

    /// The state once the cancellation of a task is on record, where its end was not.
    pub open spec fn noted(self, task: TaskId) -> PoolView {
        if self.tasks.terminal.contains_key(task) {
            self
        } else {
            self.without_waiters(task).ended(task, TerminalTaskKind::Cancelled)
        }
    }

    /// The state once shutting down has begun.
    pub open spec fn stopping(self) -> PoolView {
        PoolView {
            lifecycle: LifecycleView { state: DriverLifecycle::ShuttingDown, ..self.lifecycle },
            workers: WorkerTableView { workers: Map::empty(), ..self.workers },
            ..self
        }
    }

    /// The state once every endpoint, fact, mailbox and subscription is given up.
    pub open spec fn released(self) -> PoolView {
        PoolView {
            held: HeldView { endpoints: Map::empty(), owners: Map::empty() },
            subscriptions: SubscriptionsView {
                mailboxes: Map::empty(),
                owners: Map::empty(),
                ..self.subscriptions
            },
            ..self
        }
    }

    /// The state without the context of a task.
    pub open spec fn without_context(self, task: TaskId) -> PoolView {
        PoolView {
            tasks: TaskTableView { contexts: self.tasks.contexts.remove(task), ..self.tasks },
            ..self
        }
    }
}

impl View for PoolState {
    type V = PoolView;

    open spec fn view(&self) -> PoolView {
        PoolView {
            lifecycle: self.lifecycle@,
            tasks: self.tasks@,
            invocations: self.invocations@.dom(),
            held: self.held@,
            inputs: self.inputs@,
            mailboxes: self.mailboxes@,
            subscriptions: self.subscriptions@,
            events: self.events@,
            workers: self.workers@,
            ephemeral: self.ephemeral@.dom(),
            next_ephemeral_identity: self.next_ephemeral_identity,
            limits: self.limits,
        }
    }
}

/// The result of a refusal, or success.
pub open spec fn unless_refused(refusal: Option<ErrorView>) -> Result<(), ErrorView> {
    match refusal {
        Some(error) => Err(error),
        None => Ok(()),
    }
}

/// How many of everything a driver has.
#[derive(Clone, Copy, Debug, PartialEq, Eq, Structural)]
pub struct DriverResourceSnapshot {
    pub ephemeral_identities: usize,
    pub endpoints: usize,
    pub subscription_mailboxes: usize,
    pub subscriptions: usize,
    pub active_tasks: usize,
    pub suspended_tasks: usize,
    pub timers: usize,
    pub retained_terminal_tasks: usize,
    pub queued_events: usize,
    pub async_workers: usize,
}

impl PoolState {
    /// A driver that runs and has done nothing.
    pub fn new(limits: PoolLimits) -> (state: PoolState)
        requires
            limits.positive(),
        ensures
            state@.wf(),
            state@ == (PoolView {
                lifecycle: LifecycleView {
                    state: DriverLifecycle::Running,
                    shutdown_error: None,
                    in_flight_dispatches: 0,
                    endpoint_activities: Map::empty(),
                    closed_endpoints: Set::empty(),
                },
                tasks: TaskTableView {
                    contexts: Map::empty(),
                    active: Set::empty(),
                    terminal: Map::empty(),
                    terminal_order: Seq::empty(),
                    limits: TaskCapacities {
                        active_task_capacity: limits.active_task_capacity,
                        suspended_task_capacity: limits.suspended_task_capacity,
                        terminal_task_retention: limits.terminal_task_retention,
                    },
                },
                invocations: Set::empty(),
                held: HeldView { endpoints: Map::empty(), owners: Map::empty() },
                inputs: Map::empty(),
                mailboxes: Map::empty(),
                subscriptions: SubscriptionsView {
                    mailboxes: Map::empty(),
                    owners: Map::empty(),
                    mailbox_capacity: limits.subscription_mailbox_capacity as nat,
                    capacity: limits.subscription_capacity as nat,
                },
                events: EventQueueView {
                    events: Seq::empty(),
                    capacity: limits.event_queue_capacity as nat,
                    discarding: false,
                },
                workers: WorkerTableView {
                    workers: Map::empty(),
                    next_worker_id: 1,
                    timer_capacity: limits.timer_capacity as nat,
                },
                ephemeral: Set::empty(),
                next_ephemeral_identity: limits.ephemeral_identity_start,
                limits,
            }),
    {
        let state = PoolState {
            lifecycle: Lifecycle::new(),
            tasks: TaskTable::new(
                TaskCapacities {
                    active_task_capacity: limits.active_task_capacity,
                    suspended_task_capacity: limits.suspended_task_capacity,
                    terminal_task_retention: limits.terminal_task_retention,
                },
            ),
            invocations: Table::new(),
            held: VolatileFacts::new(),
            inputs: WaitLists::new(),
            mailboxes: WaitLists::new(),
            subscriptions: Subscriptions::new(
                limits.subscription_mailbox_capacity,
                limits.subscription_capacity,
            ),
            events: EventQueue::new(limits.event_queue_capacity),
            workers: WorkerTable::new(limits.timer_capacity),
            ephemeral: Table::new(),
            next_ephemeral_identity: limits.ephemeral_identity_start,
            limits,
        };
        assert(state@.invocations =~= Set::empty());
        assert(state@.ephemeral =~= Set::empty());
        state
    }

    /// Gives out an identity that the driver has not given out before.
    pub fn allocate_ephemeral_identity(&mut self) -> (result: Result<Identity, DriverError>)
        requires
            old(self)@.wf(),
        ensures
            final(self)@.wf(),
            ({
                let before = old(self)@;
                let raw = before.next_ephemeral_identity;
                let after_next = PoolView {
                    next_ephemeral_identity: (raw + 1) as u64,
                    ..before
                };
                if before.lifecycle.state !is Running {
                    &&& result matches Err(error) && error@ == ErrorView::DriverStopped
                    &&& final(self)@ == before
                } else if before.ephemeral.len() >= before.limits.ephemeral_identity_capacity {
                    &&& result matches Err(error) && error@ == ErrorView::Configuration(
                        "driver ephemeral identity capacity is exhausted"@,
                    )
                    &&& final(self)@ == before
                } else if raw >= before.limits.ephemeral_identity_end {
                    &&& result matches Err(error) && error@ == ErrorView::EphemeralIdentityExhausted
                    &&& final(self)@ == before
                } else if raw > crate::value::IDENTITY_MAX {
                    &&& result matches Err(error) && error@ == ErrorView::EphemeralIdentityExhausted
                    &&& final(self)@ == after_next
                } else {
                    &&& result matches Ok(identity) && identity@ == raw
                    &&& !before.ephemeral.contains(raw)
                    &&& final(self)@ == (PoolView {
                        ephemeral: before.ephemeral.insert(raw),
                        ..after_next
                    })
                }
            }),
    {
        if !self.lifecycle.is_running() {
            return Err(DriverError::DriverStopped);
        }
        if self.ephemeral.len() >= self.limits.ephemeral_identity_capacity {
            return Err(
                DriverError::configuration("driver ephemeral identity capacity is exhausted"),
            );
        }
        let raw: u64 = self.next_ephemeral_identity;
        if raw >= self.limits.ephemeral_identity_end {
            return Err(DriverError::EphemeralIdentityExhausted);
        }
        self.next_ephemeral_identity = raw + 1;
        match Identity::new(raw) {
            None => Err(DriverError::EphemeralIdentityExhausted),
            Some(identity) => {
                let _ = self.ephemeral.insert(raw, ());
                assert(self@.ephemeral =~= old(self)@.ephemeral.insert(raw));
                Ok(identity)
            },
        }
    }

    /// Refuses to open an endpoint that is open, that is not the host's to open, or for
    /// which there is no room.
    pub fn check_open_endpoint(&self, endpoint: Identity, name: &str) -> (result: Result<
        (),
        DriverError,
    >)
        ensures
            outcome_view(result) == unless_refused(self@.open_refusal(endpoint@, name@)),
    {
        if !self.lifecycle.is_running() {
            return Err(DriverError::DriverStopped);
        }
        if self.held.is_open(&endpoint) {
            let mut text = joined("endpoint ", name);
            text.append(" is already open");
            return Err(DriverError::Configuration(text));
        }
        let raw: u64 = endpoint.raw();
        if self.limits.ephemeral_identity_start <= raw && raw < self.limits.ephemeral_identity_end
            && !self.ephemeral.contains(&raw) {
            let mut text = joined("endpoint ", name);
            text.append(
                " is in the driver-reserved identity range but was not allocated by this driver",
            );
            return Err(DriverError::Configuration(text));
        }
        if self.held.open_count() >= self.limits.endpoint_capacity {
            return Err(DriverError::configuration("driver endpoint capacity is exhausted"));
        }
        Ok(())
    }

    /// The facts among those that an endpoint is to hold that nobody holds yet. Of them
    /// the absent ones are to be asserted.
    pub fn unheld_facts(&self, facts: &FactSet) -> (rest: FactSet)
        ensures
            rest@.dom() == unheld(self@.held.owners, facts@.dom()),
    {
        self.held.unheld(facts)
    }

    /// Opens an endpoint that holds `facts`, of which the driver asserted `asserted`.
    pub fn open_endpoint(&mut self, endpoint: Identity, facts: FactSet, asserted: &FactSet)
        requires
            old(self)@.wf(),
            old(self)@.open_refusal(endpoint@, Seq::empty()) is None,
        ensures
            final(self)@.wf(),
            final(self)@ == (PoolView {
                held: HeldView {
                    endpoints: old(self)@.held.endpoints.insert(
                        endpoint@,
                        EndpointView {
                            scopes: Map::empty().insert("endpoint"@, facts@.dom()),
                            subscriptions: Set::empty(),
                        },
                    ),
                    owners: gain(old(self)@.held.owners, facts@.dom(), asserted@.dom()),
                },
                lifecycle: LifecycleView {
                    closed_endpoints: old(self)@.lifecycle.closed_endpoints.remove(endpoint@),
                    ..old(self)@.lifecycle
                },
                ..old(self)@
            }),
    {
        self.held.open(endpoint, facts, asserted);
        self.lifecycle.mark_endpoint_open(&endpoint);
        assert(self@.held.endpoints.dom() =~= old(self)@.held.endpoints.dom().insert(endpoint@));
    }

    /// Refuses unless an endpoint may take resources.
    pub fn ensure_endpoint_resource_update(&self, endpoint: Identity) -> (result: Result<
        (),
        DriverError,
    >)
        ensures
            outcome_view(result) == unless_refused(self@.resource_refusal(endpoint@)),
    {
        if !self.lifecycle.is_running() {
            return Err(DriverError::DriverStopped);
        }
        if self.lifecycle.is_closed(&endpoint) || !self.held.is_open(&endpoint) {
            return Err(DriverError::EndpointClosed(endpoint));
        }
        Ok(())
    }

    /// What replacing the facts of a scope comes to.
    pub fn plan_endpoint_volatile_scope(
        &self,
        endpoint: Identity,
        scope: &Symbol,
        next: &FactSet,
    ) -> (result: Result<ScopeChange, DriverError>)
        requires
            self@.wf(),
        ensures
            match result {
                Ok(change) => {
                    let resources = self@.held.endpoints[endpoint@];
                    &&& self@.resource_refusal(endpoint@) is None
                    &&& change.retract@.dom() == last_held(
                        self@.held.owners,
                        scope_lost(resources, scope@, next@.dom()),
                    )
                    &&& change.unheld@.dom() == unheld(
                        self@.held.owners,
                        scope_gained(resources, scope@, next@.dom()),
                    )
                },
                Err(error) => self@.resource_refusal(endpoint@) == Some(error@),
            },
    {
        match self.ensure_endpoint_resource_update(endpoint) {
            Err(error) => Err(error),
            Ok(()) => Ok(self.held.plan_scope(&endpoint, scope, next)),
        }
    }

    /// Replaces the facts of a scope of an endpoint.
    pub fn replace_endpoint_volatile_scope(
        &mut self,
        endpoint: Identity,
        scope: Symbol,
        next: FactSet,
        asserted: &FactSet,
    )
        requires
            old(self)@.wf(),
            old(self)@.held.endpoints.contains_key(endpoint@),
        ensures
            final(self)@.wf(),
            ({
                let resources = old(self)@.held.endpoints[endpoint@];
                final(self)@ == (PoolView {
                    held: HeldView {
                        endpoints: old(self)@.held.endpoints.insert(
                            endpoint@,
                            resources.with_scope(scope@, next@.dom()),
                        ),
                        owners: gain(
                            lose(
                                old(self)@.held.owners,
                                scope_lost(resources, scope@, next@.dom()),
                            ),
                            scope_gained(resources, scope@, next@.dom()),
                            asserted@.dom(),
                        ),
                    },
                    ..old(self)@
                })
            }),
    {
        self.held.replace_scope(endpoint, scope, next, asserted);
        assert(self@.held.endpoints.dom() =~= old(self)@.held.endpoints.dom());
    }

    /// The facts of a scope after some were taken out and others put in. Only facts that
    /// the scope holds can be taken out; the first that it does not hold is handed back.
    pub fn plan_scope_diff(
        &self,
        endpoint: Identity,
        scope: &Symbol,
        retract: &[Fact],
        assert_facts: &[Fact],
    ) -> (result: Result<FactSet, ScopeDiffError>)
        requires
            self@.wf(),
        ensures
            ({
                let previous = self@.held.endpoints[endpoint@].in_scope(scope@);
                let out = fact_views(retract@).to_set();
                match result {
                    Ok(next) => {
                        &&& self@.resource_refusal(endpoint@) is None
                        &&& out.subset_of(previous)
                        &&& next@.dom() == previous.difference(out).union(
                            fact_views(assert_facts@).to_set(),
                        )
                    },
                    Err(ScopeDiffError::Driver(error)) => self@.resource_refusal(endpoint@) == Some(
                        error@,
                    ),
                    Err(ScopeDiffError::NotOwned(fact)) => {
                        &&& self@.resource_refusal(endpoint@) is None
                        &&& first_lacking(fact_views(retract@), previous, fact@)
                    },
                }
            }),
    {
        match self.ensure_endpoint_resource_update(endpoint) {
            Err(error) => {
                return Err(ScopeDiffError::Driver(error));
            },
            Ok(()) => {},
        }
        let previous = self.held.in_scope(&endpoint, scope);
        let out = fact_set(retract);
        match find_lacking(retract, &previous) {
            Some(fact) => {
                return Err(ScopeDiffError::NotOwned(fact));
            },
            None => {},
        }
        let mut next = without(&previous, &out);
        let more = fact_set(assert_facts);
        add_facts(&mut next, &more);
        Ok(next)
    }

    /// Lets an endpoint take no more work.
    pub fn mark_endpoint_closed(&mut self, endpoint: Identity)
        requires
            old(self)@.wf(),
        ensures
            final(self)@.wf(),
            final(self)@ == (PoolView {
                lifecycle: LifecycleView {
                    closed_endpoints: old(self)@.lifecycle.closed_endpoints.insert(endpoint@),
                    ..old(self)@.lifecycle
                },
                ..old(self)@
            }),
    {
        self.lifecycle.mark_endpoint_closed(endpoint);
    }

    /// Whether an endpoint has resources, and the facts to retract when it closes.
    pub fn plan_close_endpoint(&self, endpoint: &Identity) -> (retract: Option<FactSet>)
        ensures
            retract is Some == self@.held.endpoints.contains_key(endpoint@),
            retract matches Some(facts) ==> facts@.dom() == last_held(
                self@.held.owners,
                self@.held.endpoints[endpoint@].owned(),
            ),
    {
        if !self.held.is_open(endpoint) {
            return None;
        }
        Some(self.held.plan_close(endpoint))
    }

    /// Gives up what an endpoint holds, its subscriptions included, once the runtime made so many
    /// changes to close it and the tasks that waited there were cancelled. Tells what it came to:
    /// there are no changes where the endpoint was not open.
    pub fn close_endpoint_resources(
        &mut self,
        endpoint: &Identity,
        relation_changes: usize,
        cancelled_tasks: Vec<TaskId>,
    ) -> (report: EndpointCloseReport)
        requires
            old(self)@.wf(),
        ensures
            final(self)@.wf(),
            report.relation_changes == (if old(self)@.held.endpoints.contains_key(endpoint@) {
                relation_changes
            } else {
                0
            }),
            report.cancelled_tasks@ == cancelled_tasks@,
            final(self)@ == (PoolView {
                held: HeldView {
                    endpoints: old(self)@.held.endpoints.remove(endpoint@),
                    owners: lose(old(self)@.held.owners, old(self)@.held.held_by(endpoint@)),
                },
                subscriptions: SubscriptionsView {
                    owners: old(self)@.subscriptions.owners.remove_keys(
                        old(self)@.subscriptions_of(endpoint@),
                    ),
                    ..old(self)@.subscriptions
                },
                ..old(self)@
            }),
    {
        let ghost before = self@;
        let open: bool = self.held.is_open(endpoint);
        match self.held.close(endpoint) {
            None => {
                assert(self@.subscriptions.owners =~= before.subscriptions.owners.remove_keys(
                    before.subscriptions_of(endpoint@),
                ));
            },
            Some(resources) => {
                let entries = resources.subscriptions().entries();
                let ghost keys = entry_keys(entries@);
                let mut i: usize = 0;
                assert(self@.subscriptions.owners =~= before.subscriptions.owners.remove_keys(
                    keys.take(0).to_set(),
                ));
                while i < entries.len()
                    invariant
                        i <= entries@.len(),
                        keys == entry_keys(entries@),
                        self@ == (PoolView {
                            held: HeldView {
                                endpoints: before.held.endpoints.remove(endpoint@),
                                owners: lose(before.held.owners, before.held.held_by(endpoint@)),
                            },
                            subscriptions: SubscriptionsView {
                                owners: before.subscriptions.owners.remove_keys(
                                    keys.take(i as int).to_set(),
                                ),
                                ..before.subscriptions
                            },
                            ..before
                        }),
                    decreases entries@.len() - i,
                {
                    self.subscriptions.forget(&entries[i].0);
                    i = i + 1;
                    proof {
                        assert(keys.take(i as int) =~= keys.take(i - 1).push(keys[i - 1]));
                        crate::driver::facts::lemma_push_to_set(keys.take(i - 1), keys[i - 1]);
                        assert(self@.subscriptions.owners =~= before.subscriptions.owners.remove_keys(
                            keys.take(i as int).to_set(),
                        ));
                    }
                }
                proof {
                    assert(keys.take(i as int) =~= keys);
                    assert(keys.to_set() =~= before.subscriptions_of(endpoint@));
                }
            },
        }
        proof {
            let removed = before.held.endpoints.remove(endpoint@);
            assert(removed.dom().subset_of(before.held.endpoints.dom()));
            vstd::set_lib::lemma_len_subset(removed.dom(), before.held.endpoints.dom());
        }
        EndpointCloseReport {
            relation_changes: if open {
                relation_changes
            } else {
                0
            },
            cancelled_tasks,
        }
    }
}

impl PoolView {
    /// The subscriptions that an endpoint owns.
    pub open spec fn subscriptions_of(self, endpoint: u64) -> Set<ValueView> {
        if self.held.endpoints.contains_key(endpoint) {
            self.held.endpoints[endpoint].subscriptions
        } else {
            Set::empty()
        }
    }
}

/// Why the facts of a scope cannot be changed.
#[derive(Debug)]
pub enum ScopeDiffError {
    Driver(DriverError),
    /// The scope does not hold a fact that was to be taken out of it.
    NotOwned(Fact),
}

/// The subscriptions of each endpoint without those among `gone` that it owns.
pub open spec fn unsubscribed(
    endpoints: Map<u64, EndpointView>,
    owners: Map<ValueView, SubscriptionOwner>,
    gone: Set<ValueView>,
) -> Map<u64, EndpointView> {
    Map::new(
        |e: u64| endpoints.contains_key(e),
        |e: u64|
            EndpointView {
                subscriptions: endpoints[e].subscriptions.filter(
                    |s: ValueView| !(gone.contains(s) && owners[s].endpoint@ == e),
                ),
                ..endpoints[e]
            },
    )
}

impl PoolState {
    /// Whether the driver may open one more mailbox for a host.
    pub fn check_new_subscription_mailbox(&self) -> (result: Result<(), DriverError>)
        ensures
            outcome_view(result) == unless_refused(
                if self@.lifecycle.state !is Running {
                    Some(ErrorView::DriverStopped)
                } else if self@.subscriptions.mailboxes.dom().len()
                    >= self@.subscriptions.mailbox_capacity {
                    Some(
                        ErrorView::Configuration(
                            "driver subscription mailbox capacity is exhausted"@,
                        ),
                    )
                } else {
                    None
                },
            ),
    {
        match self.lifecycle.ensure_running() {
            Err(error) => Err(error),
            Ok(()) => self.subscriptions.check_new_mailbox(),
        }
    }

    /// What the runtime is asked for when an endpoint subscribes through a mailbox, where it may.
    pub fn plan_register_subscription<S, D>(
        &self,
        endpoint: Identity,
        mailbox: &DriverSubscriptionMailbox,
        request: DriverSubscriptionRequest<S, D>,
    ) -> (result: Result<SubscriptionRequest<S, D>, DriverError>)
        ensures
            match (self@.lifecycle.refusal(endpoint@), self@.subscriptions.refusal(mailbox.number())) {
                (Some(error), _) => result matches Err(told) && told@ == error,
                (None, Some(text)) => result matches Err(told) && told@ == ErrorView::Configuration(
                    text,
                ),
                (None, None) => {
                    &&& result matches Ok(made)
                    &&& made.sender@ == mailbox.sending()
                    &&& made.subject == request.subject
                    &&& made.initial_delivery == request.initial_delivery
                    &&& made.cursor == request.cursor
                    &&& made.queue_budget == match request.queue_budget {
                        Some(asked) => asked,
                        None => self@.limits.subscription_queue_budget,
                    }
                },
            },
    {
        match self.lifecycle.ensure_endpoint_open(endpoint) {
            Err(error) => {
                return Err(error);
            },
            Ok(()) => {},
        }
        match self.subscriptions.check_register(mailbox.id()) {
            Err(error) => {
                return Err(error);
            },
            Ok(()) => {},
        }
        let queue_budget: usize = match request.queue_budget {
            Some(asked) => asked,
            None => self.limits.subscription_queue_budget,
        };
        Ok(
            SubscriptionRequest {
                sender: copy_value(mailbox.sender()),
                subject: request.subject,
                initial_delivery: request.initial_delivery,
                cursor: request.cursor,
                queue_budget,
            },
        )
    }

    /// Notes a subscription that the runtime made for an endpoint, unless the endpoint
    /// was closed meanwhile. Then the subscription is to be cancelled.
    pub fn finish_register_subscription(
        &mut self,
        endpoint: Identity,
        mailbox: u64,
        subscription: Value,
    ) -> (result: Result<(), DriverError>)
        requires
            old(self)@.wf(),
            old(self)@.lifecycle.refusal(endpoint@) is None
                ==> old(self)@.held.endpoints.contains_key(endpoint@),
        ensures
            final(self)@.wf(),
            if old(self)@.lifecycle.refusal(endpoint@) is Some {
                &&& outcome_view(result) == Err::<(), _>(ErrorView::EndpointClosed(endpoint@))
                &&& final(self)@ == old(self)@
            } else {
                &&& result is Ok
                &&& final(self)@ == (PoolView {
                    subscriptions: SubscriptionsView {
                        owners: old(self)@.subscriptions.owners.insert(
                            subscription@,
                            SubscriptionOwner { endpoint, mailbox },
                        ),
                        ..old(self)@.subscriptions
                    },
                    held: old(self)@.held.with_subscriptions(
                        endpoint@,
                        old(self)@.held.endpoints[endpoint@].subscriptions.insert(subscription@),
                    ),
                    ..old(self)@
                })
            },
    {
        if !self.lifecycle.is_running() || self.lifecycle.is_closed(&endpoint) {
            return Err(DriverError::EndpointClosed(endpoint));
        }
        let kept = copy_value(&subscription);
        self.subscriptions.register(subscription, SubscriptionOwner { endpoint, mailbox });
        self.held.add_subscription(&endpoint, kept);
        assert(self@.held.endpoints.dom() =~= old(self)@.held.endpoints.dom());
        Ok(())
    }

    /// Whether an endpoint may cancel a subscription.
    pub fn check_cancel_subscription(&self, endpoint: Identity, subscription: &Value) -> (result:
        Result<(), DriverError>)
        ensures
            outcome_view(result) == if self@.lifecycle.state !is Running {
                Err::<(), _>(ErrorView::DriverStopped)
            } else {
                checked(self@.subscriptions.cancel_refusal(endpoint@, subscription@))
            },
    {
        match self.lifecycle.ensure_running() {
            Err(error) => Err(error),
            Ok(()) => self.subscriptions.check_cancel(&endpoint, subscription),
        }
    }

    /// Forgets a subscription of an endpoint.
    pub fn cancel_subscription_for_endpoint(&mut self, endpoint: Identity, subscription: &Value)
        requires
            old(self)@.wf(),
        ensures
            final(self)@.wf(),
            final(self)@ == (PoolView {
                subscriptions: SubscriptionsView {
                    owners: old(self)@.subscriptions.owners.remove(subscription@),
                    ..old(self)@.subscriptions
                },
                held: if old(self)@.held.endpoints.contains_key(endpoint@) {
                    old(self)@.held.with_subscriptions(
                        endpoint@,
                        old(self)@.held.endpoints[endpoint@].subscriptions.remove(subscription@),
                    )
                } else {
                    old(self)@.held
                },
                ..old(self)@
            }),
    {
        self.subscriptions.forget(subscription);
        self.held.drop_subscription(&endpoint, subscription);
        assert(self@.held.endpoints.dom() =~= old(self)@.held.endpoints.dom());
    }

    /// Forgets the subscriptions through a mailbox that was closed.
    pub fn forget_mailbox_subscriptions(&mut self, mailbox: u64)
        requires
            old(self)@.wf(),
        ensures
            final(self)@.wf(),
            ({
                let gone = old(self)@.subscriptions.through(mailbox);
                final(self)@ == (PoolView {
                    subscriptions: SubscriptionsView {
                        owners: old(self)@.subscriptions.owners.remove_keys(gone),
                        ..old(self)@.subscriptions
                    },
                    held: HeldView {
                        endpoints: unsubscribed(
                            old(self)@.held.endpoints,
                            old(self)@.subscriptions.owners,
                            gone,
                        ),
                        ..old(self)@.held
                    },
                    ..old(self)@
                })
            }),
    {
        let ghost before = self@;
        let ghost owners = before.subscriptions.owners;
        let ghost gone = before.subscriptions.through(mailbox);
        let forgotten = self.subscriptions.forget_through(mailbox);
        let ghost middle = self@;
        let ghost names = forgotten@.map_values(|pair: (Value, Identity)| pair.0@);
        let mut i: usize = 0;
        proof {
            assert(names.take(0).to_set() =~= Set::empty());
            assert(unsubscribed(before.held.endpoints, owners, names.take(0).to_set())
                =~= before.held.endpoints) by {
                assert forall|e: u64| before.held.endpoints.contains_key(e) implies #[trigger]
                unsubscribed(before.held.endpoints, owners, names.take(0).to_set())[e]
                    == before.held.endpoints[e] by {
                    assert(unsubscribed(before.held.endpoints, owners, names.take(0).to_set())[e].subscriptions
                        =~= before.held.endpoints[e].subscriptions);
                }
            }
        }
        while i < forgotten.len()
            invariant
                i <= forgotten@.len(),
                names == forgotten@.map_values(|pair: (Value, Identity)| pair.0@),
                forall|k: int|
                    0 <= k < forgotten@.len() ==> (#[trigger] forgotten@[k]).1
                        == owners[forgotten@[k].0@].endpoint,
                self@.wf(),
                self@ == (PoolView { held: self@.held, ..middle }),
                self@.held == (HeldView {
                    endpoints: unsubscribed(
                        before.held.endpoints,
                        owners,
                        names.take(i as int).to_set(),
                    ),
                    ..before.held
                }),
            decreases forgotten@.len() - i,
        {
            let ghost then = self@.held.endpoints;
            self.held.drop_subscription(&forgotten[i].1, &forgotten[i].0);
            i = i + 1;
            proof {
                let set = names.take(i as int).to_set();
                assert(names.take(i as int) =~= names.take(i - 1).push(names[i - 1]));
                crate::driver::facts::lemma_push_to_set(names.take(i - 1), names[i - 1]);
                let want = unsubscribed(before.held.endpoints, owners, set);
                assert forall|e: u64| want.contains_key(e) implies #[trigger] self@.held.endpoints[e]
                    == want[e] by {
                    assert(self@.held.endpoints[e].subscriptions =~= want[e].subscriptions);
                }
                assert(self@.held.endpoints =~= want);
                assert(self@.held.endpoints.dom() =~= then.dom());
            }
        }
        proof {
            assert(names.take(i as int) =~= names);
            assert forall|s: ValueView| names.to_set().contains(s) <==> #[trigger] gone.contains(
                s,
            ) by {
                if gone.contains(s) {
                    let k = choose|k: int| 0 <= k < forgotten@.len() && (#[trigger] forgotten@[k]).0@ == s;
                    assert(names[k] == s);
                }
                if names.contains(s) {
                    let k = choose|k: int| 0 <= k < names.len() && names[k] == s;
                    assert(forgotten@[k].0@ == s);
                }
            }
            assert(names.to_set() =~= gone);
        }
    }

    /// Begins to shut the driver down, and hands back the workers to stop. `finished`
    /// are workers that have come to an end.
    pub fn begin_shutdown(&mut self, finished: &[u64]) -> (start: (ShutdownStart, Vec<u64>))
        requires
            old(self)@.wf(),
        ensures
            final(self)@.wf(),
            match old(self)@.lifecycle.state {
                DriverLifecycle::Running => {
                    let left = old(self)@.workers.workers.remove_keys(finished@.to_set());
                    &&& start.0 is Start
                    &&& start.1@.no_duplicates()
                    &&& start.1@.to_set() == left.dom()
                    &&& final(self)@ == old(self)@.stopping()
                },
                DriverLifecycle::ShuttingDown => {
                    &&& start.0 is Wait
                    &&& start.1@.len() == 0
                    &&& final(self)@ == old(self)@
                },
                DriverLifecycle::Stopped => {
                    &&& start.0 matches ShutdownStart::Complete(result)
                    &&& outcome_view(result) == old(self)@.lifecycle.shutdown_outcome()
                    &&& start.1@.len() == 0
                    &&& final(self)@ == old(self)@
                },
            },
    {
        let start = self.lifecycle.begin_shutdown();
        match start {
            ShutdownStart::Start => {
                self.workers.reap(finished);
                let ids = self.workers.drain();
                (ShutdownStart::Start, ids)
            },
            other => (other, Vec::new()),
        }
    }

    /// Gives up every endpoint, fact, mailbox and subscription, and hands back the
    /// endpoints, the facts that the driver had asserted, and the mailboxes.
    pub fn release_for_shutdown(&mut self) -> (released: (Vec<Identity>, FactSet, Vec<Value>))
        requires
            old(self)@.wf(),
        ensures
            final(self)@.wf(),
            final(self)@ == old(self)@.released(),
            identity_views(released.0@).to_set() == old(self)@.held.endpoints.dom(),
            identity_views(released.0@).no_duplicates(),
            released.1@.dom() == old(self)@.held.owners.dom().filter(
                |f: FactView| old(self)@.held.owners[f].asserted_by_driver,
            ),
            released.2@.len() == old(self)@.subscriptions.mailboxes.dom().len(),
            forall|m: u64| #[trigger]
                old(self)@.subscriptions.mailboxes.contains_key(m) ==> exists|i: int|
                    0 <= i < released.2@.len() && (#[trigger] released.2@[i])@
                        == old(self)@.subscriptions.mailboxes[m],
    {
        let (endpoints, facts) = self.held.drain();
        let receivers = self.subscriptions.drain();
        assert(self@.held.endpoints.dom() =~= Set::empty());
        (endpoints, facts, receivers)
    }

    /// Where the driver runs, drops its events and whatever comes, and says that it is
    /// to be shut down.
    pub fn begin_background_shutdown(&mut self) -> (shut_down: bool)
        requires
            old(self)@.wf(),
        ensures
            final(self)@.wf(),
            shut_down == old(self)@.lifecycle.state is Running,
            final(self)@ == if shut_down {
                PoolView {
                    events: EventQueueView {
                        events: Seq::empty(),
                        discarding: true,
                        ..old(self)@.events
                    },
                    ..old(self)@
                }
            } else {
                old(self)@
            },
    {
        if !self.lifecycle.is_running() {
            return false;
        }
        self.events.discard();
        true
    }

    /// How many of everything the driver has. The runtime retains `completed` tasks of
    /// its own.
    pub fn resource_snapshot(&mut self, finished: &[u64], completed: usize) -> (snapshot:
        DriverResourceSnapshot)
        requires
            old(self)@.wf(),
            old(self)@.tasks.terminal.dom().len() + completed <= usize::MAX,
        ensures
            final(self)@.wf(),
            ({
                let workers = old(self)@.workers.workers.remove_keys(finished@.to_set());
                &&& final(self)@ == (PoolView {
                    workers: WorkerTableView { workers, ..old(self)@.workers },
                    ..old(self)@
                })
                &&& snapshot.ephemeral_identities == old(self)@.ephemeral.len()
                &&& snapshot.endpoints == old(self)@.held.endpoints.dom().len()
                &&& snapshot.subscription_mailboxes == old(self)@.subscriptions.mailboxes.dom().len()
                &&& snapshot.subscriptions == old(self)@.subscriptions.owners.dom().len()
                &&& snapshot.active_tasks == old(self)@.tasks.active.len()
                &&& snapshot.suspended_tasks == old(self)@.tasks.contexts.dom().len()
                &&& snapshot.timers == timers(workers).len()
                &&& snapshot.retained_terminal_tasks == old(self)@.tasks.terminal.dom().len()
                    + completed
                &&& snapshot.queued_events == old(self)@.events.events.len()
                &&& snapshot.async_workers == workers.dom().len()
            }),
    {
        self.workers.reap(finished);
        let (async_workers, running_timers) = self.workers.counts();
        let (active_tasks, suspended_tasks, ended) = self.tasks.counts();
        let (subscription_mailboxes, subscriptions) = self.subscriptions.counts();
        DriverResourceSnapshot {
            ephemeral_identities: self.ephemeral.len(),
            endpoints: self.held.open_count(),
            subscription_mailboxes,
            subscriptions,
            active_tasks,
            suspended_tasks,
            timers: running_timers,
            retained_terminal_tasks: ended + completed,
            queued_events: self.events.len(),
            async_workers,
        }
    }

    /// Takes a worker on, unless the driver no longer runs or too many timers do.
    pub fn track_worker(&mut self, finished: &[u64], worker: AsyncWorker) -> (id: Option<u64>)
        requires
            old(self)@.wf(),
        ensures
            final(self)@.wf(),
            ({
                let reaped = WorkerTableView {
                    workers: old(self)@.workers.workers.remove_keys(finished@.to_set()),
                    ..old(self)@.workers
                };
                &&& id == if reaped.takes_on(worker, old(self)@.lifecycle.state is Running) {
                    Some(reaped.next_worker_id)
                } else {
                    None
                }
                &&& final(self)@ == (PoolView {
                    workers: if id is Some {
                        WorkerTableView {
                            workers: reaped.workers.insert(reaped.next_worker_id, worker),
                            next_worker_id: following(reaped.next_worker_id),
                            ..reaped
                        }
                    } else {
                        reaped
                    },
                    ..old(self)@
                })
            }),
    {
        self.workers.reap(finished);
        self.workers.track(worker, self.lifecycle.is_running())
    }
}

/// No identity is given out twice: each is at least the number that was next, and that
/// number only grows.
pub proof fn law_ephemeral_identities_are_fresh(state: PoolView)
    requires
        state.wf(),
    ensures
        !state.ephemeral.contains(state.next_ephemeral_identity),
        forall|id: u64| #[trigger] state.ephemeral.contains(id) ==> id < state.next_ephemeral_identity,
{
}

/// An endpoint in the range of the driver's own identities can be opened only under an
/// identity that this driver gave out.
pub proof fn law_reserved_identities_are_the_drivers(
    state: PoolView,
    endpoint: u64,
    name: Seq<char>,
)
    requires
        state.open_refusal(endpoint, name) is None,
    ensures
        state.limits.ephemeral_identity_start <= endpoint < state.limits.ephemeral_identity_end
            ==> state.ephemeral.contains(endpoint),
        !state.held.endpoints.contains_key(endpoint),
        state.held.endpoints.dom().len() < state.limits.endpoint_capacity,
{
}

} // verus!
