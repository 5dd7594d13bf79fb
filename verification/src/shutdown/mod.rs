//! Graceful shutdown.

pub mod manager;
