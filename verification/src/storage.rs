//! Storage layers: virtual file system, paging, and the Prolly tree.

use vstd::prelude::*;

pub mod paging;
pub mod prolly;
pub mod vfs;

verus! {

/// The error taxonomy shared by every storage layer.
#[derive(Debug, Clone, Copy, PartialEq, Eq, Structural)]
pub enum StorageError {
    /// The named file, path, or page is absent.
    NotFound,
    /// The underlying byte transport failed.
    IoFailure,
    /// An advisory lock was unavailable, or was not held as the request assumed.
    LockConflict,
    /// A checksum, magic number, or layout check failed on decode.
    CorruptFormat,
    /// An internal structural assertion failed.
    InvariantViolation,
}

} // verus!
