//! The transaction layer: locking, recovery, and the public transaction
//! interface.

pub mod concurrency;
pub mod recovery;
pub mod bufferlist;
pub mod transaction;
