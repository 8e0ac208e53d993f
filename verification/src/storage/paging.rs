//! Paging: buffer-pool management of slotted page files.
//!
//! A slotted page store manages a collection of fixed-size pages indexed by
//! 64-bit unsigned integers atop a single file of the virtual file system,
//! with page zero reserved for the superblock. It allocates pages from a
//! freelist — appending to the file only when the freelist is empty — and
//! caches frames in a bounded buffer pool, writing dirty frames through on
//! an explicit commit and dropping them on a discard, so that the last
//! committed state survives a crash.
//!
//! The store is specified at interface level here: a conforming
//! implementation hands out read-only and exclusive writable page handles,
//! reserves and releases page numbers, and seals changes with a commit that
//! writes the superblock last. The tree layer consumes a store through this
//! vocabulary; [`crate::storage::prolly::BasicTree`] holds its entries in
//! memory instead and seals them through its own snapshot commit.

use vstd::prelude::*;

verus! {

/// A slotted page store over a single file of some virtual file system.
pub trait Store {
    /// The type of files used to store pages.
    type File;
}

} // verus!
