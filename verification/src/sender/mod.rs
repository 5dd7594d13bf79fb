//! The sending side.

pub mod framing;
pub mod batching;
pub mod splitter;
pub mod pacing;
pub mod parallel_splitter;
pub mod queue;
pub mod fairness;
pub mod dispatching;
pub mod health;
pub mod worker;
pub mod sending;
