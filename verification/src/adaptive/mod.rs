//! Sizes that follow the measured throughput.

pub mod window;
pub mod laws;
pub mod chunk_size;
pub mod channels;
