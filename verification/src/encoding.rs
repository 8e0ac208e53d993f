//! Encodings shared by the storage layers.

pub mod prefix_varint;
