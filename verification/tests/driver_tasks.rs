use mica::driver::embedding::{
    DriverEventRouter, DriverOwner, EndpointSession, InvocationDiagnostics, InvocationOutcome,
    InvocationState, SinkReceive,
};
use mica::driver::external::{
    check_emit, external_timeout_answer, group_ready_messages, mica_query_error_value, plan_query,
    read_only_query_options_from_payload, route_external_request, usize_option, ExternalRoute,
    ReadOnlySourceQueryOptions,
};
use mica::driver::facts::{fact_set, Fact};
use mica::driver::lifecycle::{ShutdownFailures, ShutdownStart};
use mica::driver::metrics::{duration_us, ActiveWorkers, AsyncWorkerKind};
use mica::driver::outcome::{
    awaited_messages, delivered_mailboxes, plan_worker_failure, OutcomeStep, Publication,
    ReceiveStep, TaskOutcome,
};
use mica::driver::pool::{PoolLimits, PoolState, ScopeDiffError};
use mica::driver::tasks::TerminalTaskKind;
use mica::driver::types::{
    DriverError, DriverEvent, DriverSubscriptionMailbox, DriverSubscriptionRequest,
    ExternalRequest, ExternalRequestCancellation, MailboxRecvRequest, SubscriptionRequest,
    SuspendKind, TaskCancellationReason, TaskContext, TaskRequest,
};
use mica::driver::volatile::absent_facts;
use mica::driver::workers::AsyncWorker;
use mica::tuple::Tuple;
use mica::value::{Identity, Symbol, Value};

const EPHEMERAL_START: u64 = 0x00e8_0000_0000_0000;

fn limits() -> PoolLimits {
    PoolLimits {
        event_queue_capacity: 16,
        active_task_capacity: 16,
        suspended_task_capacity: 16,
        timer_capacity: 16,
        terminal_task_retention: 16,
        endpoint_capacity: 2,
        subscription_capacity: 16,
        subscription_mailbox_capacity: 1,
        subscription_queue_budget: 256,
        ephemeral_identity_capacity: 16,
        ephemeral_identity_start: EPHEMERAL_START,
        ephemeral_identity_end: EPHEMERAL_START + 2,
    }
}

fn id(raw: u64) -> Identity {
    Identity::new(raw).unwrap()
}

fn endpoint(offset: u64) -> Identity {
    id(0x00ee_0000_0000_0000 + offset)
}

fn num(value: i64) -> Value {
    Value::integer(value).unwrap()
}

fn context(endpoint: Identity) -> TaskContext {
    TaskContext {
        principal: None,
        actor: None,
        endpoint,
        authority: 0,
    }
}

fn timer(task_id: u64) -> AsyncWorker {
    AsyncWorker {
        task_id,
        timer: true,
        external: false,
    }
}

fn fact(value: i64) -> Fact {
    Fact {
        relation: Symbol::intern("Observed"),
        tuple: Tuple::new(vec![num(value)]),
    }
}

#[test]
fn driver_rejects_suspensions_above_timer_budget() {
    let mut resources = limits();
    resources.active_task_capacity = 4;
    resources.suspended_task_capacity = 4;
    resources.timer_capacity = 1;
    let mut driver = PoolState::new(resources);
    let at = context(endpoint(45));

    let suspended = || TaskOutcome::Suspended(SuspendKind::TimedMillis(60_000));
    let steps = driver.plan_outcome(1, at, suspended());
    assert!(steps
        .iter()
        .any(|step| matches!(step, OutcomeStep::StartTimer(60_000))));
    assert!(driver.track_worker(&[], timer(1)).is_some());

    driver.plan_outcome(2, at, suspended());
    assert!(driver.track_worker(&[], timer(2)).is_none());
    let steps = driver.fail_suspended_task_for_capacity(2, "timer");
    assert!(steps.iter().any(|step| matches!(
        step,
        OutcomeStep::Publish(InvocationOutcome::Failed(error))
            if error.contains("timer capacity")
    )));
    for step in &steps {
        if let OutcomeStep::RecordTerminal(kind) = step {
            driver.finish_end(2, *kind);
        }
    }
    let snapshot = driver.resource_snapshot(&[], 0);
    assert_eq!(snapshot.active_tasks, 1);
    assert_eq!(snapshot.suspended_tasks, 1);
    assert_eq!(snapshot.timers, 1);
}

#[test]
fn a_worker_that_cannot_resume_its_task_ends_it() {
    let steps = plan_worker_failure("boom".to_owned());
    assert_eq!(
        steps,
        vec![
            OutcomeStep::Publish(InvocationOutcome::Failed("boom".to_owned())),
            OutcomeStep::RecordTerminal(TerminalTaskKind::Failed),
            OutcomeStep::ForgetInRuntime,
        ]
    );
    let mut driver = PoolState::new(limits());
    assert_eq!(driver.fail_suspended_task_for_capacity(5, "timer"), vec![]);
}

#[test]
fn explicit_cancellation_stops_timed_resume() {
    let mut driver = PoolState::new(limits());
    let at = context(endpoint(41));
    driver.plan_outcome(1, at, TaskOutcome::Suspended(SuspendKind::TimedMillis(10)));
    driver.track_worker(&[], timer(1));

    driver.begin_cancel(1).unwrap();
    let requested = TaskCancellationReason::Requested;
    assert_eq!(
        driver.record_cancelled_task(1, requested),
        vec![
            OutcomeStep::Publish(InvocationOutcome::Cancelled(requested)),
            OutcomeStep::ForgetInRuntime,
        ]
    );
    assert_eq!(driver.record_cancelled_task(1, requested), vec![]);
    let told = driver.publish(
        1,
        InvocationOutcome::Cancelled(TaskCancellationReason::Requested),
    );
    assert_eq!(
        told,
        Publication::Event(DriverEvent::TaskCancelled {
            task_id: 1,
            reason: TaskCancellationReason::Requested,
        })
    );
    assert!(matches!(
        driver.begin_resume(1),
        Err(DriverError::TaskCancelled(1))
    ));
}

#[test]
fn missing_external_stream_handler_delivers_an_error_event() {
    let sender = Value::Capability(3);
    let request = ExternalRequest {
        service: Symbol::intern("llm_stream"),
        payload: Value::map(vec![(Value::named("stream_to"), Value::Capability(3))]),
        timeout_millis: None,
    };
    match route_external_request(&request, true, false) {
        ExternalRoute::StreamUnavailable {
            sender: to, notice, ..
        } => {
            assert_eq!(to, sender);
            assert_eq!(notice.map_get("type"), Some(&Value::named("error")));
            assert_eq!(
                notice.map_get("message"),
                Some(&Value::string(
                    "no external stream request handler is configured"
                ))
            );
        }
        other => panic!("{other:?}"),
    }
    assert!(matches!(
        route_external_request(&request, true, true),
        ExternalRoute::Stream { .. }
    ));
}

#[test]
fn external_request_timeout_resumes_with_error_value() {
    let mut driver = PoolState::new(limits());
    let at = context(endpoint(32));
    let request = || ExternalRequest {
        service: Symbol::intern("slow"),
        payload: Value::string("hello"),
        timeout_millis: Some(1),
    };
    let steps = driver.plan_outcome(
        1,
        at,
        TaskOutcome::Suspended(SuspendKind::ExternalRequest(request())),
    );
    assert!(steps.contains(&OutcomeStep::RequestExternal(request())));
    assert!(matches!(
        route_external_request(&request(), true, false),
        ExternalRoute::Handler
    ));
    let worker = driver
        .track_worker(
            &[],
            AsyncWorker {
                task_id: 1,
                timer: false,
                external: true,
            },
        )
        .unwrap();
    let mut cancellation = ExternalRequestCancellation::new();
    assert!(!cancellation.is_cancelled());
    assert!(check_emit(cancellation.is_cancelled()).is_ok());

    assert!(cancellation.cancel());
    assert!(!cancellation.cancel());
    assert_eq!(
        check_emit(cancellation.is_cancelled()).unwrap_err(),
        "external request was cancelled"
    );
    let answer = external_timeout_answer();
    assert_eq!(
        answer,
        Value::error(
            Symbol::intern("ExternalTimeout"),
            "external request timed out"
        )
    );
    assert_eq!(driver.begin_resume(1).unwrap(), at);
    let mut told = Vec::new();
    for step in driver.plan_outcome(1, at, TaskOutcome::Complete(answer)) {
        match step {
            OutcomeStep::Publish(outcome) => told.push(driver.publish(1, outcome)),
            OutcomeStep::RecordTerminal(kind) => {
                assert_eq!(kind, TerminalTaskKind::Completed);
                driver.finish_end(1, kind);
            }
            _ => {}
        }
    }
    assert!(matches!(
        told.as_slice(),
        [Publication::Event(DriverEvent::TaskCompleted {
            task_id: 1,
            value: Value::Error(code, ..),
        })] if *code == Symbol::intern("ExternalTimeout")
    ));
    assert_eq!(driver.resource_snapshot(&[worker], 0).active_tasks, 0);
}

#[test]
fn mailbox_recv_zero_timeout_returns_empty_list() {
    let mut driver = PoolState::new(limits());
    let receivers = driver.begin_receive(1, vec![(5, Value::Capability(5))]);
    let ready = group_ready_messages(&receivers, &[vec![]]);
    assert_eq!(
        driver.finish_receive(1, ready, Some(0)),
        ReceiveStep::Resume(Value::list(vec![]))
    );
    assert!(!driver.mailboxes.waits(1));
}

#[test]
fn mailbox_recv_reports_which_mailbox_is_ready() {
    let mut driver = PoolState::new(limits());
    let first = Value::Capability(1);
    let second = Value::Capability(2);
    let receivers = driver.begin_receive(
        1,
        vec![
            (1, Value::Capability(1)),
            (2, Value::Capability(2)),
            (1, Value::Capability(1)),
        ],
    );
    assert_eq!(receivers.len(), 2);
    assert_eq!(receivers[0].1, first);
    let ready = group_ready_messages(&receivers, &[vec![], vec![Value::string("second")]]);
    assert_eq!(
        driver.finish_receive(1, ready, Some(0)),
        ReceiveStep::Resume(Value::list(vec![Value::list(vec![
            second,
            Value::list(vec![Value::string("second")]),
        ])]))
    );
}

#[test]
fn a_receiver_waits_until_a_message_comes() {
    let mut driver = PoolState::new(limits());
    let receivers = driver.begin_receive(7, vec![(3, Value::Capability(3))]);
    let ready = group_ready_messages(&receivers, &[vec![]]);
    assert_eq!(
        driver.finish_receive(7, ready, None),
        ReceiveStep::Wait(None)
    );
    assert!(driver.mailboxes.waits(7));
    assert_eq!(delivered_mailboxes(vec![3, 4], &[4, 5]), vec![3, 4, 5]);
    let woken = driver.mailboxes.pop(3).unwrap();
    assert_eq!(woken.task_id, 7);
    assert!(!driver.mailboxes.waits(7));
    assert_eq!(awaited_messages(vec![]), None);
    assert_eq!(
        awaited_messages(vec![num(1)]),
        Some(Value::list(vec![num(1)]))
    );
}

#[test]
fn shutdown_cancels_async_workers_and_joins_dispatcher() {
    let mut driver = PoolState::new(limits());
    let shell = endpoint(42);
    driver.open_endpoint(shell, fact_set(&[]), &fact_set(&[]));
    driver.plan_outcome(
        9,
        context(shell),
        TaskOutcome::Suspended(SuspendKind::ExternalRequest(ExternalRequest {
            service: Symbol::intern("pending"),
            payload: Value::OptionNone,
            timeout_millis: None,
        })),
    );
    let worker = driver
        .track_worker(
            &[],
            AsyncWorker {
                task_id: 9,
                timer: false,
                external: true,
            },
        )
        .unwrap();
    let (start, workers) = driver.begin_shutdown(&[]);
    assert!(matches!(start, ShutdownStart::Start));
    assert_eq!(workers, vec![worker]);
    assert!(matches!(driver.begin_shutdown(&[]).0, ShutdownStart::Wait));
    assert!(driver.track_worker(&[], timer(9)).is_none());

    for task in driver.tasks.suspended_tasks(None) {
        driver.begin_cancel(task).unwrap();
        let steps = driver.record_cancelled_task(task, TaskCancellationReason::DriverShutdown);
        assert_eq!(steps.len(), 2);
        assert_eq!(steps[1], OutcomeStep::ForgetInRuntime);
        assert!(matches!(
            driver.publish(
                task,
                InvocationOutcome::Cancelled(TaskCancellationReason::DriverShutdown)
            ),
            Publication::Event(DriverEvent::TaskCancelled {
                task_id: 9,
                reason: TaskCancellationReason::DriverShutdown,
            })
        ));
    }
    let (endpoints, facts, mailboxes) = driver.release_for_shutdown();
    assert_eq!(endpoints, vec![shell]);
    assert_eq!(facts.len(), 0);
    assert_eq!(mailboxes.len(), 0);
    assert!(driver
        .lifecycle
        .finish_shutdown(ShutdownFailures::none())
        .is_ok());
    assert!(driver.lifecycle.is_shutdown());
    assert!(matches!(
        driver.lifecycle.begin_dispatch(),
        Err(DriverError::DriverStopped)
    ));
    assert!(matches!(
        driver.begin_shutdown(&[]).0,
        ShutdownStart::Complete(Ok(()))
    ));
}

#[test]
fn the_first_failure_of_a_shutdown_is_told_to_all() {
    let mut driver = PoolState::new(limits());
    driver.begin_shutdown(&[]);
    let mut failures = ShutdownFailures::none();
    failures.note_worker("boom".to_owned());
    let told = driver.lifecycle.finish_shutdown(failures).unwrap_err();
    assert_eq!(
        driver.lifecycle.shutdown_result().unwrap_err().message(""),
        told.message("")
    );
}

#[test]
fn identities_run_out() {
    let mut driver = PoolState::new(limits());
    driver.allocate_ephemeral_identity().unwrap();
    driver.allocate_ephemeral_identity().unwrap();
    assert!(matches!(
        driver.allocate_ephemeral_identity(),
        Err(DriverError::EphemeralIdentityExhausted)
    ));
}

#[test]
fn endpoints_run_out() {
    let mut driver = PoolState::new(limits());
    for offset in 0..2 {
        assert!(driver.check_open_endpoint(endpoint(offset), "e").is_ok());
        driver.open_endpoint(endpoint(offset), fact_set(&[]), &fact_set(&[]));
    }
    assert!(matches!(
        driver.check_open_endpoint(endpoint(2), "e"),
        Err(DriverError::Configuration(text)) if text == "driver endpoint capacity is exhausted"
    ));
}

#[test]
fn a_scope_is_replaced_and_changed_by_its_difference() {
    let mut driver = PoolState::new(limits());
    let shell = endpoint(1);
    driver.open_endpoint(shell, fact_set(&[]), &fact_set(&[]));
    let scope = Symbol::intern("view");
    let next = fact_set(&[fact(1), fact(2)]);
    let change = driver
        .plan_endpoint_volatile_scope(shell, &scope, &next)
        .unwrap();
    assert_eq!(change.unheld.len(), 2);
    assert_eq!(change.retract.len(), 0);
    let asserted = absent_facts(&change.unheld, &[false, false]);
    driver.replace_endpoint_volatile_scope(shell, scope.clone(), next, &asserted);

    let wanted = driver.plan_scope_diff(shell, &scope, &[fact(2)], &[fact(3)]);
    let wanted = match wanted {
        Ok(set) => set,
        Err(error) => panic!("{error:?}"),
    };
    assert!(wanted.contains(&fact(1)));
    assert!(!wanted.contains(&fact(2)));
    assert!(wanted.contains(&fact(3)));
    let change = driver
        .plan_endpoint_volatile_scope(shell, &scope, &wanted)
        .unwrap();
    assert_eq!(change.unheld.len(), 1);
    assert!(change.retract.contains(&fact(2)));
    assert!(matches!(
        driver.plan_scope_diff(shell, &scope, &[fact(9)], &[]),
        Err(ScopeDiffError::NotOwned(lacking)) if lacking.tuple == fact(9).tuple
    ));
    assert!(matches!(
        driver.plan_scope_diff(shell, &scope, &[fact(9), fact(2), fact(7), fact(8)], &[]),
        Err(ScopeDiffError::NotOwned(lacking)) if lacking.tuple == fact(7).tuple
    ));
    assert!(matches!(
        driver.plan_scope_diff(endpoint(9), &scope, &[], &[]),
        Err(ScopeDiffError::Driver(DriverError::EndpointClosed(_)))
    ));
}

#[test]
fn subscriptions_belong_to_their_endpoint() {
    let mut driver = PoolState::new(limits());
    let shell = endpoint(1);
    driver.open_endpoint(shell, fact_set(&[]), &fact_set(&[]));
    assert!(driver.check_new_subscription_mailbox().is_ok());
    driver.subscriptions.add_mailbox(4, Value::Capability(4));
    assert!(matches!(
        driver.check_new_subscription_mailbox(),
        Err(DriverError::Configuration(text))
            if text == "driver subscription mailbox capacity is exhausted"
    ));
    assert!(driver.subscriptions.check_register(4).is_ok());
    driver
        .finish_register_subscription(shell, 4, Value::Capability(77))
        .unwrap();
    assert_eq!(driver.subscriptions.split_deliveries(&[4, 5]).0.len(), 1);
    assert!(driver
        .check_cancel_subscription(endpoint(2), &Value::Capability(77))
        .is_err());
    assert!(driver
        .check_cancel_subscription(shell, &Value::Capability(77))
        .is_ok());
    driver.cancel_subscription_for_endpoint(shell, &Value::Capability(77));
    assert_eq!(driver.resource_snapshot(&[], 0).subscriptions, 0);
    driver.mark_endpoint_closed(shell);
    assert!(matches!(
        driver.finish_register_subscription(shell, 4, Value::Capability(78)),
        Err(DriverError::EndpointClosed(_))
    ));
}

#[test]
fn a_mailbox_takes_its_subscriptions_with_it() {
    let mut driver = PoolState::new(limits());
    let shell = endpoint(1);
    driver.open_endpoint(shell, fact_set(&[]), &fact_set(&[]));
    driver.subscriptions.add_mailbox(4, Value::Capability(4));
    driver
        .finish_register_subscription(shell, 4, Value::Capability(77))
        .unwrap();
    assert_eq!(
        driver.subscriptions.remove_mailbox(4),
        Some(Value::Capability(4))
    );
    driver.forget_mailbox_subscriptions(4);
    assert_eq!(driver.resource_snapshot(&[], 0).subscriptions, 0);
    assert!(driver.subscriptions.check_register(4).is_err());
}

#[test]
fn a_host_that_waits_hears_of_the_end_alone() {
    let mut driver = PoolState::new(limits());
    driver.install_invocation(3);
    assert_eq!(driver.announce(3, SuspendKind::Commit), None);
    assert_eq!(
        driver.publish(3, InvocationOutcome::Completed(num(1))),
        Publication::Invocation(InvocationOutcome::Completed(num(1)))
    );
    assert!(driver.announce(3, SuspendKind::Commit).is_some());
    assert!(driver.detach_invocation(3).is_err());

    let mut state = InvocationState::new(InvocationDiagnostics {
        task_id: 3,
        selector: Symbol::intern("run"),
        endpoint: endpoint(1),
        principal: None,
        actor: Some(id(4)),
    });
    assert_eq!(state.diagnostics().actor, Some(id(4)));
    assert_eq!(state.try_outcome(), None);
    assert!(state.complete(InvocationOutcome::Aborted(num(2))));
    assert!(!state.complete(InvocationOutcome::Completed(num(5))));
    assert_eq!(
        state.try_outcome(),
        Some(InvocationOutcome::Aborted(num(2)))
    );
}

#[test]
fn a_task_is_taken_up_where_it_waits() {
    let mut driver = PoolState::new(limits());
    let at = context(endpoint(3));
    let steps = driver.plan_outcome(
        1,
        at,
        TaskOutcome::Suspended(SuspendKind::MailboxRecv(MailboxRecvRequest {
            receivers: vec![Value::Capability(1)],
            timeout_millis: Some(5),
        })),
    );
    assert!(steps.iter().any(|step| matches!(
        step,
        OutcomeStep::ReceiveMailbox(request) if request.timeout_millis == Some(5)
    )));
    assert_eq!(driver.begin_resume(1).unwrap(), at);
    assert!(matches!(
        driver.resume_raw(1),
        Err(DriverError::MissingTaskContext(1))
    ));
    assert_eq!(driver.lifecycle.end_endpoint_activity(&at.endpoint).1, true);
    let steps = driver.plan_outcome(1, at, TaskOutcome::Aborted(num(4)));
    assert!(steps.iter().any(|step| matches!(
        step,
        OutcomeStep::Publish(InvocationOutcome::Aborted(_))
    )));
    assert_eq!(
        steps
            .iter()
            .filter(|step| matches!(
                step,
                OutcomeStep::RecordTerminal(TerminalTaskKind::Completed)
                    | OutcomeStep::RecordTerminal(TerminalTaskKind::Aborted)
            ))
            .count(),
        1
    );
}

#[test]
fn a_request_runs_on_as_its_task() {
    let request = TaskRequest {
        principal: Some(id(1)),
        actor: Some(id(2)),
        endpoint: endpoint(9),
        authority: 7,
    };
    let context = TaskContext::from_request(&request, endpoint(3));
    assert_eq!(context.endpoint, endpoint(3));
    assert_eq!(context.continuation().actor, Some(id(2)));
    assert_eq!(context.continuation().authority, 7);
}

fn options() -> ReadOnlySourceQueryOptions {
    ReadOnlySourceQueryOptions {
        max_output_chars: 10,
        instruction_budget: 20,
        max_call_depth: 30,
    }
}

#[test]
fn a_query_is_read_out_of_its_payload() {
    let payload = Value::map(vec![
        (Value::named("query"), Value::string("return 1")),
        (
            Value::named("options"),
            Value::map(vec![(Value::named("max_output_chars"), num(64))]),
        ),
    ]);
    let plan = plan_query(1, Some(context(endpoint(2))), &payload, options(), "error").unwrap();
    assert_eq!(plan.query, "return 1");
    assert_eq!(plan.options.max_output_chars, 64);
    assert_eq!(plan.options.max_call_depth, 30);
    assert_eq!(plan.endpoint, endpoint(2));

    let answer = plan_query(1, None, &payload, options(), "error").unwrap_err();
    assert_eq!(
        answer,
        mica_query_error_value("error", "missing task context for task 1")
    );
    let answer = plan_query(
        1,
        Some(context(endpoint(2))),
        &Value::map(vec![]),
        options(),
        "error",
    )
    .unwrap_err();
    assert_eq!(
        answer.map_get("diagnostics"),
        Some(&Value::list(vec![Value::string(
            "mica_query request missing query string"
        )]))
    );
    assert_eq!(
        usize_option("max_output_chars", &Value::Nothing).unwrap_err(),
        "mica_query option `max_output_chars` must be an integer"
    );
    assert_eq!(
        usize_option("max_output_chars", &num(-1)).unwrap_err(),
        "mica_query option `max_output_chars` must be non-negative"
    );
    assert_eq!(
        read_only_query_options_from_payload(&Value::Nothing, options()).unwrap(),
        options()
    );
}

#[test]
fn requests_go_to_whoever_answers_them() {
    let request = |service: &str| ExternalRequest {
        service: Symbol::intern(service),
        payload: Value::Nothing,
        timeout_millis: None,
    };
    assert!(matches!(
        route_external_request(&request("mica_query"), false, false),
        ExternalRoute::Query
    ));
    assert!(matches!(
        route_external_request(&request("echo"), true, false),
        ExternalRoute::Handler
    ));
    match route_external_request(&request("echo"), false, false) {
        ExternalRoute::Unavailable { answer } => assert_eq!(
            answer,
            Value::error(
                Symbol::intern("ExternalUnavailable"),
                "no external request handler is configured"
            )
        ),
        other => panic!("{other:?}"),
    }
}

#[test]
fn a_slow_handler_is_disconnected() {
    let mut router = DriverEventRouter::new(1);
    let first = router.register();
    let second = router.register();
    let event = |task_id: u64| DriverEvent::TaskCompleted {
        task_id,
        value: num(0),
    };
    assert_eq!(router.route(&event(1)), Vec::<u64>::new());
    assert!(matches!(
        router.receive(second),
        SinkReceive::Event(DriverEvent::TaskCompleted { task_id: 1, .. })
    ));
    assert!(matches!(router.receive(second), SinkReceive::Empty));
    assert_eq!(router.route(&event(2)), vec![first]);
    assert!(matches!(router.receive(first), SinkReceive::Closed));
    router.unregister(second);
    assert!(matches!(router.receive(second), SinkReceive::Closed));
}

#[test]
fn a_task_is_watched_once() {
    let mut router = DriverEventRouter::new(1);
    router.watch_invocation(4, &[]).unwrap();
    assert!(router.watch_invocation(4, &[]).is_err());
    assert!(router.watch_invocation(4, &[4]).is_ok());
}

#[test]
fn an_owner_hands_out_one_pump() {
    let mut owner = DriverOwner::new();
    assert!(owner.take_event_pump().is_ok());
    assert!(owner.take_event_pump().is_err());
    assert!(owner.begin_shutdown(false).is_err());
    assert!(owner.begin_drop(false));
    assert!(!owner.begin_drop(false));
}

#[test]
fn a_session_is_closed_once() {
    let mut session = EndpointSession::new(endpoint(5));
    assert!(session.check_subscribe(true, true).is_ok());
    assert!(session.check_subscribe(false, true).is_err());
    assert!(session.check_subscribe(true, false).is_err());
    assert!(session.begin_close());
    assert!(!session.begin_close());
    assert!(matches!(
        session.ensure_open(),
        Err(DriverError::EndpointClosed(at)) if at == endpoint(5)
    ));
}

#[test]
fn workers_are_counted_by_kind() {
    let mut active = ActiveWorkers::new();
    assert_eq!(active.async_worker_started(AsyncWorkerKind::TimerResume), (1, 1));
    assert_eq!(
        active.async_worker_started(AsyncWorkerKind::ExternalRequest),
        (1, 2)
    );
    assert_eq!(active.async_worker_finished(AsyncWorkerKind::TimerResume), (0, 1));
    assert_eq!(duration_us(u128::from(u64::MAX) + 5), u64::MAX);
    assert_eq!(duration_us(17), 17);
}

#[test]
fn a_subscription_queues_what_is_asked_for() {
    let mut driver = PoolState::new(limits());
    let shell = endpoint(1);
    driver.open_endpoint(shell, fact_set(&[]), &fact_set(&[]));
    driver.subscriptions.add_mailbox(4, Value::Capability(4));
    let mailbox = DriverSubscriptionMailbox::new(4, Value::Capability(4), Value::Capability(5));
    let request = |queue_budget: Option<usize>| DriverSubscriptionRequest {
        subject: "subject",
        initial_delivery: true,
        cursor: Some(12),
        queue_budget,
    };
    let made = |queue_budget: usize| SubscriptionRequest {
        sender: Value::Capability(5),
        subject: "subject",
        initial_delivery: true,
        cursor: Some(12),
        queue_budget,
    };
    assert_eq!(
        driver.plan_register_subscription(shell, &mailbox, request(Some(3))),
        Ok(made(3))
    );
    assert_eq!(
        driver.plan_register_subscription(shell, &mailbox, request(None)),
        Ok(made(256))
    );
    let other = DriverSubscriptionMailbox::new(6, Value::Capability(6), Value::Capability(7));
    assert!(matches!(
        driver.plan_register_subscription(shell, &other, request(None)),
        Err(DriverError::Configuration(_))
    ));
    driver.mark_endpoint_closed(shell);
    assert!(matches!(
        driver.plan_register_subscription(shell, &mailbox, request(None)),
        Err(DriverError::EndpointClosed(at)) if at == shell
    ));
}

#[test]
fn a_handler_hears_in_order_until_it_is_disconnected() {
    let mut router = DriverEventRouter::new(3);
    let handler = router.register();
    let event = |task_id: u64| DriverEvent::TaskCompleted {
        task_id,
        value: num(0),
    };
    let mut heard = Vec::new();
    for task_id in 0..6 {
        assert_eq!(router.route(&event(task_id)), Vec::<u64>::new());
        if task_id % 2 == 1 {
            for _ in 0..2 {
                match router.receive(handler) {
                    SinkReceive::Event(DriverEvent::TaskCompleted { task_id, .. }) => {
                        heard.push(task_id)
                    }
                    other => panic!("{other:?}"),
                }
            }
        }
    }
    assert_eq!(heard, vec![0, 1, 2, 3, 4, 5]);
    for task_id in 6..9 {
        assert_eq!(router.route(&event(task_id)), Vec::<u64>::new());
    }
    assert_eq!(router.route(&event(9)), vec![handler]);
    for task_id in 10..12 {
        assert_eq!(router.route(&event(task_id)), Vec::<u64>::new());
        assert!(matches!(router.receive(handler), SinkReceive::Closed));
    }
}

#[test]
fn a_shutdown_tells_each_task_once_and_leaves_nothing() {
    let mut driver = PoolState::new(limits());
    let shell = endpoint(50);
    driver.open_endpoint(shell, fact_set(&[fact(1)]), &fact_set(&[fact(1)]));
    driver.subscriptions.add_mailbox(4, Value::Capability(4));
    driver
        .finish_register_subscription(shell, 4, Value::Capability(77))
        .unwrap();
    for task in 1..4 {
        driver.plan_outcome(
            task,
            context(shell),
            TaskOutcome::Suspended(SuspendKind::Never),
        );
    }
    driver.begin_shutdown(&[]);
    let reason = TaskCancellationReason::DriverShutdown;
    let mut told = Vec::new();
    for task in driver.tasks.suspended_tasks(None) {
        driver.begin_cancel(task).unwrap();
        driver.finish_end(task, TerminalTaskKind::Cancelled);
        told.push(task);
    }
    for task in [3, 8] {
        if !driver.record_cancelled_task(task, reason).is_empty() {
            told.push(task);
        }
    }
    told.sort_unstable();
    assert_eq!(told, vec![1, 2, 3, 8]);
    let (endpoints, facts, mailboxes) = driver.release_for_shutdown();
    assert_eq!(endpoints, vec![shell]);
    assert!(facts.contains(&fact(1)));
    assert_eq!(mailboxes, vec![Value::Capability(4)]);
    driver
        .lifecycle
        .finish_shutdown(ShutdownFailures::none())
        .unwrap();
    let left = driver.resource_snapshot(&[], 0);
    assert_eq!(left.active_tasks, 0);
    assert_eq!(left.suspended_tasks, 0);
    assert_eq!(left.endpoints, 0);
    assert_eq!(left.subscriptions, 0);
    assert_eq!(driver.tasks.suspended_tasks(None), Vec::<u64>::new());
}

#[test]
fn a_stopping_driver_suspends_nothing() {
    let mut driver = PoolState::new(limits());
    driver.begin_shutdown(&[]);
    let steps = driver.plan_outcome(
        1,
        context(endpoint(51)),
        TaskOutcome::Suspended(SuspendKind::TimedMillis(1)),
    );
    assert!(steps.contains(&OutcomeStep::RecordCancelled(
        TaskCancellationReason::DriverShutdown
    )));
    assert!(!steps.contains(&OutcomeStep::StartTimer(1)));
    assert_eq!(driver.tasks.suspended_tasks(None), Vec::<u64>::new());
}
