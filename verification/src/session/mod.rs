//! A whole transfer, as the program runs it.

use crate::protocol::control::ControlMessage;
use vstd::prelude::*;

pub mod outgoing;
pub mod receive;
pub mod send;
pub mod sharding;
pub mod transfer;
pub mod laws;

verus! {

/// What is transferred.
#[derive(Debug, Clone, Copy, PartialEq, Eq, Structural)]
pub enum Mode {
    /// A stream, from standard input to standard output or a file.
    Pipe,
    /// A file with its name and checksum.
    File,
}

/// What came while something was waited for.
#[derive(Debug)]
pub enum Awaited {
    /// A message.
    Message(ControlMessage),
    /// Nothing in time.
    TimedOut,
    /// Nothing, and nothing will.
    Closed,
}

} // verus!
