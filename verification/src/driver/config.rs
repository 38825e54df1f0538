//! What a host grants the driver.

use crate::driver::affinity::{DispatcherAffinity, DispatcherConfig};
use crate::driver::events::DEFAULT_EVENT_QUEUE_CAPACITY;
use crate::driver::lifecycle::outcome_view;
use crate::driver::subscriptions::checked;
use crate::driver::types::DriverError;
use crate::text::{decimal, push_decimal};
use vstd::prelude::*;

verus! {

/// The number of deliveries that a subscription queues unless a host asks otherwise.
pub const DEFAULT_SUBSCRIPTION_QUEUE_BUDGET: usize = 256;

/// How far a task may go before it yields or is stopped.
#[derive(Clone, Copy, Debug, PartialEq, Eq, Structural)]
pub struct TaskLimits {
    pub instruction_budget: usize,
    pub max_call_depth: usize,
}

/// Process resources reserved for one driver.
///
/// A host chooses the dispatcher worker count. Other limits start from conservative
/// defaults and remain explicit fields that can be adjusted before construction.
#[derive(Clone, Copy, Debug, PartialEq, Eq, Structural)]
pub struct DriverResources {
    pub worker_count: usize,
    pub relation_parallelism: usize,
    pub affinity: DispatcherAffinity,
    pub task_limits: TaskLimits,
    pub event_queue_capacity: usize,
    pub subscription_queue_budget: usize,
}

impl DriverResources {
    /// Whether the counts that must not be zero are not.
    pub open spec fn positive(self) -> bool {
        &&& self.worker_count > 0
        &&& self.relation_parallelism > 0
        &&& self.event_queue_capacity > 0
        &&& self.subscription_queue_budget > 0
    }

    /// What is wrong with the resources, where something is.
    pub open spec fn fault(self) -> Option<Seq<char>> {
        if self.relation_parallelism > self.worker_count {
            Some(
                "relation parallelism "@ + decimal(self.relation_parallelism as nat)
                    + " exceeds dispatcher worker count "@ + decimal(self.worker_count as nat),
            )
        } else if self.task_limits.instruction_budget == 0 {
            Some("task instruction budget must be non-zero"@)
        } else if self.task_limits.max_call_depth == 0 {
            Some("task call-depth limit must be non-zero"@)
        } else {
            None
        }
    }

    /// Resources with the given workers and the defaults for everything else.
    pub fn new(worker_count: usize, task_limits: TaskLimits) -> (resources: DriverResources)
        requires
            worker_count > 0,
        ensures
            resources == (DriverResources {
                worker_count,
                relation_parallelism: worker_count,
                affinity: DispatcherAffinity::Unrestricted,
                task_limits,
                event_queue_capacity: DEFAULT_EVENT_QUEUE_CAPACITY,
                subscription_queue_budget: DEFAULT_SUBSCRIPTION_QUEUE_BUDGET,
            }),
            resources.positive(),
    {
        DriverResources {
            worker_count,
            relation_parallelism: worker_count,
            affinity: DispatcherAffinity::Unrestricted,
            task_limits,
            event_queue_capacity: DEFAULT_EVENT_QUEUE_CAPACITY,
            subscription_queue_budget: DEFAULT_SUBSCRIPTION_QUEUE_BUDGET,
        }
    }

    /// Refuses resources that do not fit together.
    pub fn validate(&self) -> (result: Result<(), DriverError>)
        ensures
            outcome_view(result) == checked(self.fault()),
    {
        if self.relation_parallelism > self.worker_count {
            let mut text = "relation parallelism ".to_owned();
            push_decimal(&mut text, self.relation_parallelism as u64);
            text.append(" exceeds dispatcher worker count ");
            push_decimal(&mut text, self.worker_count as u64);
            return Err(DriverError::Configuration(text));
        }
        if self.task_limits.instruction_budget == 0 {
            return Err(DriverError::configuration("task instruction budget must be non-zero"));
        }
        if self.task_limits.max_call_depth == 0 {
            return Err(DriverError::configuration("task call-depth limit must be non-zero"));
        }
        Ok(())
    }

    /// What the resources ask of the dispatcher.
    pub fn dispatcher_config(&self) -> (config: DispatcherConfig)
        ensures
            config == (DispatcherConfig {
                workers: Some(self.worker_count),
                affinity: self.affinity,
            }),
    {
        DispatcherConfig { workers: Some(self.worker_count), affinity: self.affinity }
    }
}

} // verus!
