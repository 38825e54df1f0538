use mica::driver::events::{Enqueued, EventQueue};
use mica::driver::facts::{fact_set, Fact};
use mica::driver::outcome::{
    capacity_error, plan_cancellation, OutcomeStep, Publication, TaskOutcome,
};
use mica::driver::embedding::InvocationOutcome;
use mica::driver::pool::{PoolLimits, PoolState};
use mica::driver::types::{
    DriverError, DriverEvent, SuspendKind, TaskCancellationReason, TaskContext,
};
use mica::driver::tasks::TerminalTaskKind;
use mica::driver::volatile::absent_facts;
use mica::tuple::Tuple;
use mica::value::{Identity, Symbol, Value};

const EPHEMERAL_START: u64 = 0x00e8_0000_0000_0000;
const EPHEMERAL_END: u64 = 0x00e9_0000_0000_0000;

fn limits() -> PoolLimits {
    PoolLimits {
        event_queue_capacity: 16,
        active_task_capacity: 16,
        suspended_task_capacity: 16,
        timer_capacity: 16,
        terminal_task_retention: 16,
        endpoint_capacity: 16,
        subscription_capacity: 16,
        subscription_mailbox_capacity: 16,
        subscription_queue_budget: 256,
        ephemeral_identity_capacity: 16,
        ephemeral_identity_start: EPHEMERAL_START,
        ephemeral_identity_end: EPHEMERAL_END,
    }
}

fn id(raw: u64) -> Identity {
    Identity::new(raw).unwrap()
}

fn endpoint(offset: u64) -> Identity {
    id(0x00ee_0000_0000_0000 + offset)
}

fn num(value: i64) -> Value {
    Value::integer(value).unwrap()
}

fn context(endpoint: Identity) -> TaskContext {
    TaskContext {
        principal: None,
        actor: None,
        endpoint,
        authority: 0,
    }
}

fn message_of(error: DriverError) -> String {
    match error {
        DriverError::Configuration(message) => message,
        other => panic!("{}", other.message("")),
    }
}

#[test]
fn driver_allocates_one_ephemeral_identity_sequence_for_host_objects() {
    let mut driver = PoolState::new(limits());
    let endpoint = driver.allocate_ephemeral_identity().unwrap();
    let request = driver.allocate_ephemeral_identity().unwrap();

    assert_eq!(endpoint.raw(), EPHEMERAL_START);
    assert_eq!(request.raw(), EPHEMERAL_START + 1);
    assert_eq!(driver.resource_snapshot(&[], 0).ephemeral_identities, 2);
}

#[test]
fn driver_enforces_ephemeral_identity_capacity() {
    let mut resources = limits();
    resources.ephemeral_identity_capacity = 1;
    let mut driver = PoolState::new(resources);

    driver.allocate_ephemeral_identity().unwrap();
    assert!(matches!(
        driver.allocate_ephemeral_identity(),
        Err(DriverError::Configuration(message))
            if message.contains("ephemeral identity capacity")
    ));
}

#[test]
fn driver_rejects_unallocated_endpoints_in_its_ephemeral_identity_range() {
    let mut driver = PoolState::new(limits());
    let endpoint = id(EPHEMERAL_START);

    assert!(matches!(
        driver.check_open_endpoint(endpoint, "test"),
        Err(DriverError::Configuration(message))
            if message.contains("was not allocated by this driver")
    ));

    let allocated = driver.allocate_ephemeral_identity().unwrap();
    assert_eq!(allocated, endpoint);
    assert!(driver.check_open_endpoint(allocated, "test").is_ok());
    driver.open_endpoint(allocated, fact_set(&[]), &fact_set(&[]));
    assert_eq!(driver.resource_snapshot(&[], 0).endpoints, 1);
    assert_eq!(
        message_of(driver.check_open_endpoint(allocated, "test").unwrap_err()),
        "endpoint test is already open"
    );
    let report = driver.close_endpoint_resources(&allocated, 4, vec![]);
    assert_eq!(report.relation_changes, 4);
    assert!(report.cancelled_tasks.is_empty());
    assert_eq!(
        driver
            .close_endpoint_resources(&allocated, 4, vec![])
            .relation_changes,
        0
    );
    assert_eq!(driver.resource_snapshot(&[], 0).endpoints, 0);
}

#[test]
fn endpoint_fact_ownership_is_shared_and_preserves_preexisting_facts() {
    let subject = id(7);
    let shared = Fact {
        relation: Symbol::intern("Observed"),
        tuple: Tuple::new(vec![Value::identity(subject), num(2)]),
    };
    let preexisting = Fact {
        relation: Symbol::intern("Observed"),
        tuple: Tuple::new(vec![Value::identity(subject), num(1)]),
    };
    let mut driver = PoolState::new(limits());
    let first = endpoint(1);
    let second = endpoint(2);

    let wanted = fact_set(&[
        Fact {
            relation: shared.relation.clone(),
            tuple: shared.tuple.clone(),
        },
        Fact {
            relation: preexisting.relation.clone(),
            tuple: preexisting.tuple.clone(),
        },
    ]);
    let unheld = driver.unheld_facts(&wanted);
    assert_eq!(unheld.len(), 2);
    let present: Vec<bool> = unheld
        .entries()
        .iter()
        .map(|(fact, _)| fact.tuple == preexisting.tuple)
        .collect();
    let asserted = absent_facts(&unheld, &present);
    assert_eq!(asserted.len(), 1);
    driver.open_endpoint(first, wanted, &asserted);

    let also = fact_set(&[Fact {
        relation: shared.relation.clone(),
        tuple: shared.tuple.clone(),
    }]);
    assert_eq!(driver.unheld_facts(&also).len(), 0);
    driver.open_endpoint(second, also, &fact_set(&[]));

    let retracted = driver.plan_close_endpoint(&first).unwrap();
    assert_eq!(retracted.len(), 0);
    driver.close_endpoint_resources(&first, 0, vec![]);

    let retracted = driver.plan_close_endpoint(&second).unwrap();
    assert_eq!(retracted.len(), 1);
    assert!(retracted.contains(&shared));
    assert!(!retracted.contains(&preexisting));
    driver.close_endpoint_resources(&second, 1, vec![]);
    assert_eq!(driver.resource_snapshot(&[], 0).endpoints, 0);
}

#[test]
fn event_queue_backpressures_producers_without_losing_terminal_events() {
    let mut queue = EventQueue::new(1);
    let first = DriverEvent::TaskCompleted {
        task_id: 1,
        value: num(1),
    };
    assert!(matches!(
        queue.enqueue(first),
        Enqueued::Queued { was_empty: true }
    ));
    let second = DriverEvent::TaskCompleted {
        task_id: 2,
        value: num(2),
    };
    let second = match queue.enqueue(second) {
        Enqueued::Full(event) => event,
        _ => panic!("a full queue takes no event"),
    };
    assert!(matches!(
        queue.drain().as_slice(),
        [DriverEvent::TaskCompleted { task_id: 1, .. }]
    ));
    assert!(matches!(queue.enqueue(second), Enqueued::Queued { .. }));
    assert!(matches!(
        queue.drain().as_slice(),
        [DriverEvent::TaskCompleted { task_id: 2, .. }]
    ));
}

#[test]
fn the_same_notification_is_queued_once() {
    let mut queue = EventQueue::new(4);
    assert!(matches!(
        queue.enqueue(DriverEvent::SubscriptionReady { mailbox: 9 }),
        Enqueued::Queued { was_empty: true }
    ));
    assert!(matches!(
        queue.enqueue(DriverEvent::SubscriptionReady { mailbox: 9 }),
        Enqueued::Coalesced
    ));
    assert!(matches!(
        queue.enqueue(DriverEvent::SubscriptionReady { mailbox: 8 }),
        Enqueued::Queued { was_empty: false }
    ));
    queue.discard();
    assert!(matches!(
        queue.enqueue(DriverEvent::SubscriptionReady { mailbox: 8 }),
        Enqueued::Discarded
    ));
}

#[test]
fn driver_enforces_task_and_terminal_resource_budgets() {
    let mut resources = limits();
    resources.active_task_capacity = 1;
    resources.suspended_task_capacity = 1;
    resources.timer_capacity = 1;
    resources.terminal_task_retention = 2;
    let mut driver = PoolState::new(resources);
    let at = context(endpoint(44));

    let steps = driver.plan_outcome(1, at, TaskOutcome::Suspended(SuspendKind::Never));
    assert!(matches!(steps[1], OutcomeStep::Announce(SuspendKind::Never)));
    let steps = driver.plan_outcome(2, at, TaskOutcome::Complete(num(2)));
    assert!(steps.iter().any(|step| matches!(
        step,
        OutcomeStep::Publish(InvocationOutcome::Failed(error))
            if error.contains("active task capacity")
    )));
    assert_eq!(driver.resource_snapshot(&[], 0).active_tasks, 1);

    driver.begin_cancel(1).unwrap();
    assert_eq!(
        driver
            .record_cancelled_task(1, TaskCancellationReason::Requested)
            .len(),
        2
    );
    for task in 3..7 {
        let steps = driver.plan_outcome(task, at, TaskOutcome::Complete(num(0)));
        for step in &steps {
            if let OutcomeStep::RecordTerminal(kind) = step {
                assert_eq!(*kind, TerminalTaskKind::Completed);
                driver.finish_end(task, *kind);
            }
        }
    }

    let snapshot = driver.resource_snapshot(&[], 0);
    assert_eq!(snapshot.active_tasks, 0);
    assert_eq!(snapshot.suspended_tasks, 0);
    assert_eq!(snapshot.retained_terminal_tasks, 2);
}

#[test]
fn driver_rejects_suspensions_above_suspended_task_budget() {
    let mut resources = limits();
    resources.active_task_capacity = 4;
    resources.suspended_task_capacity = 1;
    resources.timer_capacity = 4;
    let mut driver = PoolState::new(resources);
    let at = context(endpoint(46));

    driver.plan_outcome(1, at, TaskOutcome::Suspended(SuspendKind::Never));
    let steps = driver.plan_outcome(2, at, TaskOutcome::Suspended(SuspendKind::Never));
    assert!(steps.iter().any(|step| matches!(
        step,
        OutcomeStep::Publish(InvocationOutcome::Failed(error))
            if error.contains("suspended task capacity")
    )));
    for step in &steps {
        if let OutcomeStep::RecordTerminal(kind) = step {
            driver.finish_end(2, *kind);
        }
    }
    let snapshot = driver.resource_snapshot(&[], 0);
    assert_eq!(snapshot.active_tasks, 1);
    assert_eq!(snapshot.suspended_tasks, 1);
    assert_eq!(
        capacity_error("suspended task"),
        "driver suspended task capacity is exhausted"
    );
}

#[test]
fn endpoint_close_cancels_suspended_tasks() {
    let mut driver = PoolState::new(limits());
    let shell = endpoint(40);
    let about = |relation: &str| Fact {
        relation: Symbol::intern(relation),
        tuple: Tuple::new(vec![Value::identity(shell)]),
    };
    let facts = [
        about("Endpoint"),
        about("EndpointProtocol"),
        about("EndpointOpen"),
    ];
    let wanted = fact_set(&facts);
    let unheld = driver.unheld_facts(&wanted);
    let asserted = absent_facts(&unheld, &[false, false, false]);
    driver.open_endpoint(shell, wanted, &asserted);
    driver.plan_outcome(
        5,
        context(shell),
        TaskOutcome::Suspended(SuspendKind::WaitingForInput(Value::named("line"))),
    );
    assert_eq!(driver.tasks.suspended_tasks(Some(shell)), vec![5]);

    driver.mark_endpoint_closed(shell);
    let mut cancelled = Vec::new();
    let mut forgotten = Vec::new();
    for task in driver.tasks.suspended_tasks(Some(shell)) {
        driver.begin_cancel(task).unwrap();
        assert_eq!(
            driver.finish_end(task, TerminalTaskKind::Cancelled),
            Vec::<u64>::new()
        );
        for step in plan_cancellation(TaskCancellationReason::EndpointClosed) {
            match step {
                OutcomeStep::Publish(outcome) => match driver.publish(task, outcome) {
                    Publication::Event(event) => {
                        assert!(matches!(
                            driver.events.enqueue(event),
                            Enqueued::Queued { .. }
                        ));
                    }
                    other => panic!("{other:?}"),
                },
                OutcomeStep::ForgetInRuntime => forgotten.push(task),
                other => panic!("{other:?}"),
            }
        }
        cancelled.push(task);
    }
    let retract = driver.plan_close_endpoint(&shell).unwrap();
    for fact in &facts {
        assert!(retract.contains(fact));
    }
    let report = driver.close_endpoint_resources(&shell, retract.len(), cancelled);

    assert_eq!(report.relation_changes, 3);
    assert_eq!(report.cancelled_tasks, vec![5]);
    assert_eq!(forgotten, vec![5]);
    assert_eq!(driver.tasks.suspended_tasks(None), Vec::<u64>::new());
    assert!(driver.events.drain().iter().any(|event| matches!(
        event,
        DriverEvent::TaskCancelled { task_id, reason }
            if *task_id == 5 && *reason == TaskCancellationReason::EndpointClosed
    )));
    assert!(matches!(
        driver.begin_resume(5),
        Err(DriverError::TaskCancelled(5))
    ));
}

#[test]
fn a_task_that_suspends_at_a_closed_endpoint_is_cancelled() {
    let mut driver = PoolState::new(limits());
    let shell = endpoint(41);
    driver.mark_endpoint_closed(shell);
    let steps = driver.plan_outcome(
        6,
        context(shell),
        TaskOutcome::Suspended(SuspendKind::TimedMillis(10)),
    );
    assert!(steps.iter().any(|step| matches!(
        step,
        OutcomeStep::RecordCancelled(TaskCancellationReason::EndpointClosed)
    )));
    assert!(!steps.iter().any(|step| matches!(step, OutcomeStep::StartTimer(_))));
}

#[test]
fn a_cancellation_goes_on_record_once() {
    let mut driver = PoolState::new(limits());
    let shell = endpoint(42);
    driver.mark_endpoint_closed(shell);
    let reason = TaskCancellationReason::EndpointClosed;
    driver.plan_outcome(
        7,
        context(shell),
        TaskOutcome::Suspended(SuspendKind::TimedMillis(10)),
    );
    assert_eq!(
        driver.record_cancelled_task(7, reason),
        vec![
            OutcomeStep::Publish(InvocationOutcome::Cancelled(reason)),
            OutcomeStep::ForgetInRuntime,
        ]
    );
    assert_eq!(driver.record_cancelled_task(7, reason), vec![]);
}

#[test]
fn queued_events_come_out_once_and_in_order() {
    let mut queue = EventQueue::new(2);
    let mut told = Vec::new();
    for task_id in 0..7 {
        let mut waiting = DriverEvent::TaskCompleted {
            task_id,
            value: num(0),
        };
        while let Enqueued::Full(event) = queue.enqueue(waiting) {
            told.extend(queue.drain());
            waiting = event;
        }
    }
    told.extend(queue.drain());
    let order: Vec<u64> = told
        .iter()
        .map(|event| match event {
            DriverEvent::TaskCompleted { task_id, .. } => *task_id,
            other => panic!("{other:?}"),
        })
        .collect();
    assert_eq!(order, vec![0, 1, 2, 3, 4, 5, 6]);
    assert_eq!(queue.drain().len(), 0);
}
