//! What hosts and the driver say to each other.

pub mod view_dependency;
