//! Storage and transaction kernel of a block-addressed database engine.
//!
//! The crate models the durable store as an in-memory array of named,
//! block-sized files ([`file::manager::FileMgr`]); an embedding program maps
//! that model onto a real directory. On top of it sit an append-only
//! write-ahead log written back-to-front within blocks
//! ([`log::manager::LogMgr`]), a bounded pool of pinned page frames
//! ([`buffer::manager::BufferMgr`]), a shared lock table for two-phase locking
//! ([`tx::concurrency::locktable::LockTable`]), and undo-only recovery driven
//! by tagged log records ([`tx::recovery::logrecord`]).

pub mod errors;
pub mod file;
pub mod log;
pub mod buffer;
pub mod tx;
pub mod server;
