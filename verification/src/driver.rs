//! The task driver: admission, placement, limits, events and endpoints.

pub mod affinity;
pub mod builder;
pub mod config;
pub mod embedding;
pub mod events;
pub mod execution;
pub mod external;
pub mod facts;
pub mod lifecycle;
pub mod metrics;
pub mod outcome;
pub mod outcome_laws;
pub mod pool;
pub mod request_laws;
pub mod runs;
pub mod state_laws;
pub mod subscriptions;
pub mod tasks;
pub mod types;
pub mod volatile;
pub mod waiters;
pub mod workers;
