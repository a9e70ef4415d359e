//! Two-phase locking: the shared lock table and the per-transaction
//! concurrency manager.

pub mod locktable;
pub mod manager;
