//! The error taxonomy of the kernel.
//!
//! Every fallible operation reports one of these conditions; nothing is
//! recovered locally. Callers translate the abort kinds into a transaction
//! rollback.

use vstd::prelude::*;

verus! {

/// One error kind for the whole kernel.
#[derive(Clone, Copy, Debug, PartialEq, Eq, Structural)]
pub enum DbError {
    /// A page accessor was asked to touch bytes past the end of the page.
    BufferSizeExceeded,
    /// A frame was asked to flush while holding no block.
    BlockNotFound,
    /// The block store could not carry out a read, write or append.
    FileAccessFailed,
    /// A pin request found no frame it could claim.
    BufferAbort,
    /// A lock request conflicted with locks held by other transactions.
    LockAbort,
    /// A log record carried a tag outside the known set.
    UnknownLogRecord,
    /// Bytes read as a string were not valid UTF-8.
    InvalidUtf8,
}

} // verus!
