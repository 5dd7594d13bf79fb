//! The wire protocol: framing headers, checksums and control messages.

pub mod headers;
pub mod crc;
pub mod control;
pub mod laws;
