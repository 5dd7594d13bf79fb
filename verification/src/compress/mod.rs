//! Payload compression.

pub mod lz4;
