//! Embedded storage engine for an ordered key-value map, built from three
//! layers: a prefix-varint integer codec, a virtual file system with
//! byte-addressable files and advisory locks, and a Prolly tree whose node
//! boundaries are chosen by a deterministic policy, so that any two trees
//! holding the same entries are structurally identical.

pub mod encoding;
pub mod storage;
