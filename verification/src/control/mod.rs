//! The control connection between sender and receiver.

pub mod client;
pub mod negotiation;
pub mod server;
pub mod laws;
