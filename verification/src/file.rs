//! The page and block-store layer: typed pages, block identifiers, and the
//! block-addressed file model.

pub mod block_id;
pub mod page;
pub mod manager;
