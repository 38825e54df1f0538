use mica::driver::affinity::{
    configure_dispatcher, detect_performance_logical_processors, group_physical_cores,
    parse_cpu_dir, select_performance_core_ids, CoreMetric, DispatcherAffinity, DispatcherConfig,
    LogicalProcessor, PhysicalCoreMetric,
};
use mica::driver::builder::{
    DriverBuilder, DriverDurability, DriverStorage, FileinMode, InitialFilein, RunnerChoice,
};
use mica::driver::config::{DriverResources, TaskLimits};
use mica::driver::execution::{CpuAdmission, DispatchAdmission, DispatchPoll};
use mica::driver::metrics::ParallelAdmissionOutcome;
use mica::driver::types::DriverError;
use mica::value::Symbol;

fn limits() -> TaskLimits {
    TaskLimits {
        instruction_budget: 10_000,
        max_call_depth: 64,
    }
}

fn ready(request: &mut DispatchAdmission, admission: &mut CpuAdmission) {
    match request.poll(admission) {
        DispatchPoll::Ready { .. } => {}
        DispatchPoll::Pending { .. } => panic!("admission should be ready"),
    }
}

fn is_pending(request: &mut DispatchAdmission, admission: &mut CpuAdmission) -> bool {
    matches!(request.poll(admission), DispatchPoll::Pending { .. })
}

fn reserved(outcome: ParallelAdmissionOutcome) -> bool {
    matches!(outcome, ParallelAdmissionOutcome::Admitted)
}

#[test]
fn selects_high_capacity_tier() {
    let cores = vec![
        PhysicalCoreMetric {
            logical_processor_ids: vec![0, 10],
            capacity: Some(512),
            max_freq_khz: None,
        },
        PhysicalCoreMetric {
            logical_processor_ids: vec![1, 11],
            capacity: Some(1024),
            max_freq_khz: None,
        },
    ];

    assert_eq!(
        select_performance_core_ids(&cores, CoreMetric::Capacity),
        Some(vec![1, 11])
    );
}

#[test]
fn rejects_homogeneous_topology() {
    let cores = vec![
        PhysicalCoreMetric {
            logical_processor_ids: vec![0],
            capacity: Some(1024),
            max_freq_khz: None,
        },
        PhysicalCoreMetric {
            logical_processor_ids: vec![1],
            capacity: Some(1024),
            max_freq_khz: None,
        },
    ];

    assert_eq!(
        select_performance_core_ids(&cores, CoreMetric::Capacity),
        None
    );
}

#[test]
fn frequency_decides_where_capacity_does_not() {
    let cores = vec![
        PhysicalCoreMetric {
            logical_processor_ids: vec![0],
            capacity: Some(1024),
            max_freq_khz: Some(2_000_000),
        },
        PhysicalCoreMetric {
            logical_processor_ids: vec![1],
            capacity: Some(1024),
            max_freq_khz: Some(4_000_000),
        },
        PhysicalCoreMetric {
            logical_processor_ids: vec![2],
            capacity: Some(1024),
            max_freq_khz: Some(3_700_000),
        },
    ];
    assert_eq!(
        detect_performance_logical_processors(&cores),
        Some(vec![1, 2])
    );
    assert_eq!(detect_performance_logical_processors(&[]), None);
}

#[test]
fn processors_are_grouped_by_core() {
    let processor = |id: usize, core: usize, capacity: Option<u32>| LogicalProcessor {
        id,
        package_id: Some(0),
        core_id: Some(core),
        capacity,
        max_freq_khz: None,
    };
    let cores = group_physical_cores(&[
        processor(3, 1, Some(900)),
        processor(0, 0, None),
        processor(2, 0, Some(400)),
        processor(1, 1, None),
    ]);
    assert_eq!(cores.len(), 2);
    assert_eq!(cores[0].logical_processor_ids, vec![0, 2]);
    assert_eq!(cores[0].capacity, Some(400));
    assert_eq!(cores[1].logical_processor_ids, vec![1, 3]);
    assert_eq!(cores[1].capacity, Some(900));
}

#[test]
fn processor_directories_are_recognised() {
    assert_eq!(parse_cpu_dir("cpu12"), Some(12));
    assert_eq!(parse_cpu_dir("cpu"), None);
    assert_eq!(parse_cpu_dir("cpufreq"), None);
    assert_eq!(parse_cpu_dir("node0"), None);
}

#[test]
fn workers_follow_the_detected_processors() {
    let placement = configure_dispatcher(
        DispatcherConfig {
            workers: Some(3),
            affinity: DispatcherAffinity::Performance,
        },
        Some(vec![4, 6]),
        8,
    );
    assert!(placement.is_pinned());
    assert_eq!(placement.pinned_core(0), Some(4));
    assert_eq!(placement.pinned_core(3), Some(6));

    let free = configure_dispatcher(
        DispatcherConfig {
            workers: Some(3),
            affinity: DispatcherAffinity::Unrestricted,
        },
        Some(vec![4, 6]),
        8,
    );
    assert!(!free.is_pinned());
    assert_eq!(free.worker_count, 3);
    assert_eq!(free.pinned_core(1), None);
}

#[test]
fn dispatch_waits_outside_pool_and_has_priority_over_parallel_work() {
    let mut admission = CpuAdmission::new(2, 2);
    let mut first = admission.acquire_dispatch();
    let mut second = admission.acquire_dispatch();
    ready(&mut first, &mut admission);
    ready(&mut second, &mut admission);
    let mut waiting = admission.acquire_dispatch();

    assert!(is_pending(&mut waiting, &mut admission));
    assert_eq!(admission.state(), (2, 1));
    let wake = admission.release_workers(1);
    assert!(wake.is_some());
    assert!(!reserved(admission.try_reserve_parallel(1)));

    ready(&mut waiting, &mut admission);
    assert_eq!(admission.state(), (2, 0));
    admission.release_workers(1);
    admission.release_workers(1);
    assert_eq!(admission.state(), (0, 0));
}

#[test]
fn cancelling_front_waiter_allows_next_task_to_run() {
    let mut admission = CpuAdmission::new(1, 1);
    let mut running = admission.acquire_dispatch();
    ready(&mut running, &mut admission);
    let mut cancelled = admission.acquire_dispatch();
    let mut next = admission.acquire_dispatch();
    assert!(is_pending(&mut cancelled, &mut admission));
    assert!(is_pending(&mut next, &mut admission));

    cancelled.cancel(&mut admission);
    admission.release_workers(1);
    ready(&mut next, &mut admission);
    assert_eq!(admission.state(), (1, 0));
    admission.release_workers(1);
}

#[test]
fn external_request_admission_bounds_handler_concurrency() {
    let mut admission = CpuAdmission::new(1, 1);
    let mut first = admission.acquire_dispatch();
    let mut second = admission.acquire_dispatch();
    ready(&mut first, &mut admission);
    let mut starts = 1;
    assert!(is_pending(&mut second, &mut admission));
    assert!(is_pending(&mut second, &mut admission));
    assert_eq!(starts, 1);
    assert_eq!(admission.state(), (1, 1));

    assert!(admission.release_workers(1).is_some());
    ready(&mut second, &mut admission);
    starts += 1;
    assert_eq!(starts, 2);
    assert_eq!(admission.state(), (1, 0));
    assert!(admission.release_workers(1).is_none());
    assert_eq!(admission.state(), (0, 0));
}

#[test]
fn parallel_reservation_uses_only_unoccupied_capacity() {
    let mut admission = CpuAdmission::new(4, 4);
    let mut running = admission.acquire_dispatch();
    ready(&mut running, &mut admission);

    assert!(reserved(admission.try_reserve_parallel(2)));
    assert_eq!(admission.state(), (3, 0));
    assert!(!reserved(admission.try_reserve_parallel(1)));

    admission.release_parallel_workers(2);
    admission.release_workers(1);
    assert_eq!(admission.state(), (0, 0));
}

#[test]
fn relation_parallelism_is_bounded_below_dispatch_capacity() {
    let mut admission = CpuAdmission::new(4, 2);
    let mut running = admission.acquire_dispatch();
    ready(&mut running, &mut admission);

    assert_eq!(admission.capacity(), 2);
    assert!(reserved(admission.try_reserve_parallel(1)));
    assert!(!reserved(admission.try_reserve_parallel(1)));

    admission.release_parallel_workers(1);
    admission.release_workers(1);
}

#[test]
fn rejects_relation_parallelism_above_dispatcher_capacity() {
    let mut resources = DriverResources::new(1, limits());
    resources.relation_parallelism = 2;

    assert!(matches!(
        resources.validate(),
        Err(DriverError::Configuration(message))
            if message.contains("relation parallelism 2")
    ));
}

#[test]
fn resources_without_a_task_budget_are_refused() {
    let mut resources = DriverResources::new(2, limits());
    assert!(resources.validate().is_ok());
    assert_eq!(resources.dispatcher_config().workers, Some(2));
    resources.task_limits.instruction_budget = 0;
    assert!(matches!(
        resources.validate(),
        Err(DriverError::Configuration(message))
            if message == "task instruction budget must be non-zero"
    ));
    resources.task_limits = TaskLimits {
        instruction_budget: 1,
        max_call_depth: 0,
    };
    assert!(matches!(
        resources.validate(),
        Err(DriverError::Configuration(message))
            if message == "task call-depth limit must be non-zero"
    ));
}

#[test]
fn reports_unavailable_fjall_provider_without_changing_the_api() {
    let resources = DriverResources::new(1, limits());
    let result = DriverBuilder::new(resources)
        .storage(DriverStorage::Fjall {
            path: "unused".to_owned(),
            durability: DriverDurability::Strict,
        })
        .build_driver(false);

    assert!(matches!(
        result,
        Err(DriverError::Configuration(message)) if message.contains("`fjall` feature")
    ));
}

#[test]
fn a_builder_hands_over_what_is_to_be_filed_in() {
    let resources = DriverResources::new(1, limits());
    let (runner, fileins) = DriverBuilder::new(resources)
        .initial_filein("make_identity(:first)".to_owned(), None)
        .initial_filein("make_identity(:second)".to_owned(), None)
        .build_driver(false)
        .unwrap();
    assert_eq!(
        runner,
        RunnerChoice::Empty {
            source_provider: false
        }
    );
    assert_eq!(fileins.len(), 2);
}

#[test]
fn a_runner_of_the_host_excludes_other_choices() {
    let resources = DriverResources::new(1, limits());
    let (runner, fileins) = DriverBuilder::new(resources)
        .source_runner()
        .initial_filein_unit(
            Symbol::intern("core"),
            "make_identity(:first)".to_owned(),
            FileinMode::Replace,
            Some(3),
        )
        .build_driver(false)
        .unwrap();
    assert_eq!(runner, RunnerChoice::Configured);
    assert!(matches!(
        &fileins[0],
        InitialFilein::Unit { mode: FileinMode::Replace, include_loader: Some(3), .. }
    ));
    assert!(matches!(
        DriverBuilder::new(DriverResources::new(1, limits()))
            .source_runner()
            .source_config()
            .build_driver(false),
        Err(DriverError::Configuration(message))
            if message == "a source runner and source-provider configuration cannot both be configured"
    ));
}
