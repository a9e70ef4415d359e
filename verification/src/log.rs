//! The append-only write-ahead log: block layout, manager, and the
//! newest-to-oldest record iterator.

pub mod manager;
pub mod iterator;
