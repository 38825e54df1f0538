//! Relations: their rows, indexes, snapshots, transactions and commits.

pub mod access;
pub mod algebra;
pub mod catalog;
pub mod catalog_laws;
pub mod change_laws;
pub mod changes;
pub mod codec;
pub mod commit;
pub mod committing;
pub mod computed;
pub mod conflict_laws;
pub mod decode;
pub mod dispatch;
pub mod dispatch_laws;
pub mod error;
pub mod forking;
pub mod index;
pub mod inline_cache;
pub mod live;
pub mod loading;
pub mod loading_laws;
pub mod lookup_laws;
pub mod metadata;
pub mod overlay;
pub mod persistence;
pub mod publishing;
pub mod radix;
pub mod read;
pub mod reading_laws;
pub mod record_laws;
pub mod relation;
pub mod replay;
pub mod round_trip;
pub mod rules;
pub mod ruling;
pub mod snapshot;
pub mod staging;
pub mod states;
pub mod store;
pub mod storing;
pub mod strata;
pub mod transaction;
pub mod writing_laws;
