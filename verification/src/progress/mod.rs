//! Progress of a transfer.

pub mod reporter;
