//! Undo-only write-ahead logging: the tagged log records and the recovery
//! manager that writes and replays them.

pub mod logrecord;
pub mod manager;
