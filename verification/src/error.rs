//! The error type of the application.

use crate::text;
use crate::text::{push_decimal, push_hex};
use vstd::prelude::*;
use vstd::string::*;

verus! {

/// `std::io::Error`, carried through as it is.
#[verifier::external_type_specification]
#[verifier::external_body]
pub struct ExIoError(std::io::Error);

/// Everything that can go wrong in a transfer.
#[derive(Debug)]
pub enum BraidError {
    /// Reading or writing a socket or a file failed.
    Io(std::io::Error),
    /// The peer violated the protocol.
    Protocol(&'static str),
    /// A chunk's checksum is wrong.
    CrcMismatch { sequence_number: u64 },
    /// A received file has the wrong checksum.
    FileHashMismatch { expected: u32, computed: u32 },
    /// The peers could not agree.
    NegotiationFailed(&'static str),
    /// No channel is left.
    AllChannelsFailed,
    /// Something took too long.
    Timeout,
    /// A shutdown was asked for.
    Shutdown,
}

/// Convenience alias.
pub type Result<T> = std::result::Result<T, BraidError>;

/// Whether `shown` is the text that `e` displays as.
pub open spec fn io_text(e: std::io::Error, shown: Seq<char>) -> bool {
    exists|t: String| #[trigger] to_string_from_display_ensures(&e, t) && t@ == shown
}

impl BraidError {
    /// Whether `shown` is the message for the error.
    pub open spec fn is_message(self, shown: Seq<char>) -> bool {
        match self {
            BraidError::Io(e) => exists|t: Seq<char>|
                #[trigger] io_text(e, t) && shown == "I/O error: "@ + t,
            BraidError::Protocol(msg) => shown == "protocol error: "@ + msg@,
            BraidError::CrcMismatch { sequence_number } => shown
                == "CRC mismatch at commit gate: sequence_number="@ + text::decimal(
                sequence_number as nat,
            ),
            BraidError::FileHashMismatch { expected, computed } => shown
                == "file CRC32C mismatch: expected 0x"@ + text::hex(expected as nat, 8, true)
                + ", got 0x"@ + text::hex(computed as nat, 8, true),
            BraidError::NegotiationFailed(msg) => shown == "negotiation failed: "@ + msg@,
            BraidError::AllChannelsFailed => shown == "all UDP channels failed"@,
            BraidError::Timeout => shown == "operation timed out"@,
            BraidError::Shutdown => shown == "graceful shutdown"@,
        }
    }

    /// The message for the error.
    pub fn to_string(&self) -> (r: String)
        ensures
            self.is_message(r@),
            match self {
                BraidError::Io(e) => exists|t: Seq<char>|
                    #[trigger] io_text(*e, t) && r@ == "I/O error: "@ + t,
                BraidError::Protocol(msg) => r@ == "protocol error: "@ + msg@,
                BraidError::CrcMismatch { sequence_number } => r@
                    == "CRC mismatch at commit gate: sequence_number="@ + text::decimal(
                    *sequence_number as nat,
                ),
                BraidError::FileHashMismatch { expected, computed } => r@
                    == "file CRC32C mismatch: expected 0x"@ + text::hex(*expected as nat, 8, true)
                    + ", got 0x"@ + text::hex(*computed as nat, 8, true),
                BraidError::NegotiationFailed(msg) => r@ == "negotiation failed: "@ + msg@,
                BraidError::AllChannelsFailed => r@ == "all UDP channels failed"@,
                BraidError::Timeout => r@ == "operation timed out"@,
                BraidError::Shutdown => r@ == "graceful shutdown"@,
            },
    {
        match self {
            BraidError::Io(e) => {
                let t = e.to_string();
                assert(io_text(*e, t@));
                text::joined("I/O error: ", t.as_str())
            },
            BraidError::Protocol(msg) => text::joined("protocol error: ", msg),
            BraidError::CrcMismatch { sequence_number } => {
                let mut s = "CRC mismatch at commit gate: sequence_number=".to_owned();
                push_decimal(&mut s, *sequence_number);
                s
            },
            BraidError::FileHashMismatch { expected, computed } => {
                let mut s = "file CRC32C mismatch: expected 0x".to_owned();
                push_hex(&mut s, *expected, 8, true);
                s.append(", got 0x");
                push_hex(&mut s, *computed, 8, true);
                s
            },
            BraidError::NegotiationFailed(msg) => text::joined("negotiation failed: ", msg),
            BraidError::AllChannelsFailed => "all UDP channels failed".to_owned(),
            BraidError::Timeout => "operation timed out".to_owned(),
            BraidError::Shutdown => "graceful shutdown".to_owned(),
        }
    }

    /// The I/O error behind this one, where there is one.
    pub fn source(&self) -> (r: Option<&std::io::Error>)
        ensures
            r == match self {
                BraidError::Io(e) => Some(e),
                _ => None,
            },
    {
        match self {
            BraidError::Io(e) => Some(e),
            _ => None,
        }
    }
}

impl From<std::io::Error> for BraidError {
    fn from(e: std::io::Error) -> (r: BraidError) {
        BraidError::Io(e)
    }
}

impl vstd::std_specs::convert::FromSpecImpl<std::io::Error> for BraidError {
    open spec fn obeys_from_spec() -> bool {
        true
    }

    open spec fn from_spec(e: std::io::Error) -> BraidError {
        BraidError::Io(e)
    }
}

/// Each error has one message, which says what went wrong with whom.
pub proof fn lemma_messages_name_the_error(e: BraidError, shown: Seq<char>)
    requires
        e.is_message(shown),
    ensures
        e matches BraidError::Protocol(msg) ==> shown == "protocol error: "@ + msg@,
        e matches BraidError::CrcMismatch { sequence_number } ==> shown
            == "CRC mismatch at commit gate: sequence_number="@ + text::decimal(
            sequence_number as nat,
        ),
        e matches BraidError::FileHashMismatch { expected, computed } ==> shown
            == "file CRC32C mismatch: expected 0x"@ + text::hex(expected as nat, 8, true)
            + ", got 0x"@ + text::hex(computed as nat, 8, true),
        e matches BraidError::NegotiationFailed(msg) ==> shown == "negotiation failed: "@ + msg@,
        e is AllChannelsFailed ==> shown == "all UDP channels failed"@,
        e is Timeout ==> shown == "operation timed out"@,
        e is Shutdown ==> shown == "graceful shutdown"@,
        e matches BraidError::Io(io) ==> exists|t: Seq<char>|
            #[trigger] io_text(io, t) && shown == "I/O error: "@ + t,
{
}

} // verus!
