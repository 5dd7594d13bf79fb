//! Buffers: a pool of fixed size, and a bounded queue.

pub mod pool;
pub mod ring;
