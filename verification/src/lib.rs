//! BRAID: verified core of a bulk transfer tool that spreads one byte stream
//! over several UDP channels.

pub mod adaptive;
pub mod buffer;
pub mod channel;
pub mod cli;
pub mod compress;
pub mod control;
pub mod error;
pub mod file_mode;
pub mod flow;
pub mod progress;
pub mod protocol;
pub mod receiver;
pub mod sender;
pub mod session;
pub mod shutdown;
pub mod text;
pub mod time;
pub mod wire;
