//! The buffer layer: page frames pinned in memory and the bounded pool that
//! manages them.

pub mod buffer;
pub mod manager;
