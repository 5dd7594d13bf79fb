//! Frames on the control connection.
//!
//! A frame is the length of its body in four bytes, then the body, which is
//! one control message.

use crate::error;
use crate::protocol::control;
use crate::protocol::control::{ControlMessage, ControlMessageKind, MessageModel};
use crate::text;
use crate::wire;
use vstd::prelude::*;
use vstd::string::*;
use vstd::utf8::*;

verus! {

/// How long the connection may be idle before a heartbeat is sent, in
/// nanoseconds.
pub const HEARTBEAT_NS: u64 = 5_000_000_000;

/// How long a read or write may take, in nanoseconds.
pub const IO_TIMEOUT_NS: u64 = 10_000_000_000;

/// What can go wrong on the control connection.
#[derive(Debug)]
pub enum ControlError {
    Io(std::io::Error),
    Protocol(&'static str),
    Timeout,
}

impl ControlError {
    /// Whether `shown` is the message for the error.
    pub open spec fn is_message(self, shown: Seq<char>) -> bool {
        match self {
            ControlError::Io(e) => exists|t: Seq<char>|
                #[trigger] error::io_text(e, t) && shown == "I/O error: "@ + t,
            ControlError::Protocol(msg) => shown == "protocol error: "@ + msg@,
            ControlError::Timeout => shown == "timeout"@,
        }
    }

    /// The message for the error.
    pub fn to_string(&self) -> (r: String)
        ensures
            self.is_message(r@),
            match self {
                ControlError::Io(e) => exists|t: Seq<char>|
                    #[trigger] error::io_text(*e, t) && r@ == "I/O error: "@ + t,
                ControlError::Protocol(msg) => r@ == "protocol error: "@ + msg@,
                ControlError::Timeout => r@ == "timeout"@,
            },
    {
        match self {
            ControlError::Io(e) => {
                let t = e.to_string();
                assert(error::io_text(*e, t@));
                text::joined("I/O error: ", t.as_str())
            },
            ControlError::Protocol(msg) => text::joined("protocol error: ", msg),
            ControlError::Timeout => "timeout".to_owned(),
        }
    }

    /// The I/O error behind this one, where there is one.
    pub fn source(&self) -> (r: Option<&std::io::Error>)
        ensures
            r == match self {
                ControlError::Io(e) => Some(e),
                _ => None,
            },
    {
        match self {
            ControlError::Io(e) => Some(e),
            _ => None,
        }
    }
}

impl From<std::io::Error> for ControlError {
    fn from(e: std::io::Error) -> (r: ControlError) {
        ControlError::Io(e)
    }
}

impl vstd::std_specs::convert::FromSpecImpl<std::io::Error> for ControlError {
    open spec fn obeys_from_spec() -> bool {
        true
    }

    open spec fn from_spec(e: std::io::Error) -> ControlError {
        ControlError::Io(e)
    }
}

/// The frame with the given body.
pub open spec fn frame(body: Seq<u8>) -> Seq<u8> {
    wire::be32(body.len() as u32) + body
}

/// Makes a frame. A body whose length does not fit 32 bits is refused.
pub fn encode_frame(body: &[u8]) -> (r: Result<Vec<u8>, ControlError>)
    ensures
        match r {
            Ok(f) => body@.len() <= u32::MAX && f@ == frame(body@),
            Err(e) => body@.len() > u32::MAX && e is Protocol && e->Protocol_0@
                == "message too large"@,
        },
{
    if body.len() as u64 > u32::MAX as u64 {
        return Err(ControlError::Protocol("message too large"));
    }
    let mut f: Vec<u8> = Vec::new();
    wire::put_u32(&mut f, body.len() as u32);
    f.extend_from_slice(body);
    assert(f@ =~= frame(body@));
    Ok(f)
}

/// Makes the frame that carries a message.
pub fn encode_message(msg: &ControlMessage) -> (r: Result<Vec<u8>, ControlError>)
    ensures
        match r {
            Ok(f) => msg@.encoded().len() <= u32::MAX && f@ == frame(msg@.encoded()),
            Err(e) => msg@.encoded().len() > u32::MAX && e is Protocol && e->Protocol_0@
                == "message too large"@,
        },
{
    let body = msg.to_bytes();
    encode_frame(body.as_slice())
}

/// Takes the message out of the body of a frame.
pub fn decode_message(body: &[u8]) -> (r: Result<ControlMessage, ControlError>)
    requires
        control::is_whole(body@),
    ensures
        match r {
            Ok(m) => body@.len() > 0 && ControlMessageKind::is_code(body@[0]) && (body@[0] == 0x0B
                ==> valid_utf8(control::name_bytes(body@))) && m@ == control::decoded(body@),
            Err(e) => e is Protocol && {
                ||| body@.len() == 0 && e->Protocol_0@ == "empty control message"@
                ||| body@.len() > 0 && !ControlMessageKind::is_code(body@[0]) && e->Protocol_0@
                    == "invalid control message kind"@
                ||| body@.len() > 0 && body@[0] == 0x0B && !valid_utf8(control::name_bytes(body@))
                    && e->Protocol_0@ == "invalid utf-8 filename"@
            },
        },
{
    match ControlMessage::try_from(body) {
        Ok(m) => Ok(m),
        Err(e) => Err(ControlError::Protocol(e)),
    }
}

/// Reads frames piece by piece: first the length, then the body.
#[derive(Debug, Clone, Copy, PartialEq, Eq, Structural)]
pub enum FrameReader {
    /// The four bytes of the length come next.
    Length,
    /// A body of this many bytes comes next.
    Body(usize),
}

impl FrameReader {
    /// How many bytes come next.
    pub open spec fn need(self) -> nat {
        match self {
            FrameReader::Length => 4,
            FrameReader::Body(n) => n as nat,
        }
    }

    /// A reader at the start of a frame.
    pub fn new() -> (r: Self)
        ensures
            r == FrameReader::Length,
    {
        FrameReader::Length
    }

    /// How many bytes to read next.
    pub fn wanted(&self) -> (r: usize)
        ensures
            r == self.need(),
            *self == FrameReader::Length ==> r == 4,
            self matches FrameReader::Body(n) ==> r == *n,
    {
        match self {
            FrameReader::Length => 4,
            FrameReader::Body(n) => *n,
        }
    }

    /// Takes in the bytes that were wanted. Once a frame is whole its body is
    /// returned, and the next frame begins.
    pub fn feed(&mut self, bytes: Vec<u8>) -> (r: Option<Vec<u8>>)
        requires
            bytes@.len() == old(self).need(),
        ensures
            match *old(self) {
                FrameReader::Length => r is None && *final(self) == FrameReader::Body(
                    wire::un32(bytes@, 0) as usize,
                ),
                FrameReader::Body(_) => r == Some(bytes) && *final(self) == FrameReader::Length,
            },
            forall|body: Seq<u8>|
                *old(self) == FrameReader::Length && body.len() <= u32::MAX && bytes@ == (
                #[trigger] frame(body)).take(4) ==> final(self).need() == body.len(),
    {
        proof {
            assert forall|body: Seq<u8>|
                *old(self) == FrameReader::Length && body.len() <= u32::MAX && bytes@ == (
                #[trigger] frame(body)).take(4) implies wire::un32(bytes@, 0) == body.len() by {
                assert(bytes@.subrange(0, 4) =~= wire::be32(body.len() as u32));
                wire::lemma_un32(bytes@, 0, body.len() as u32);
            }
        }
        match *self {
            FrameReader::Length => {
                *self = FrameReader::Body(wire::get_u32(bytes.as_slice(), 0) as usize);
                None
            },
            FrameReader::Body(_) => {
                *self = FrameReader::Length;
                Some(bytes)
            },
        }
    }
}

/// A message comes out of its frame as it went in: the first four bytes tell
/// the length of the rest, and the rest decodes to the message.
pub proof fn lemma_frame_round_trip(m: MessageModel)
    requires
        m matches MessageModel::FileStart { filename, .. } ==> encode_utf8(filename).len()
            <= u16::MAX,
    ensures
        ({
            let f = frame(m.encoded());
            let body = f.subrange(4, f.len() as int);
            &&& m.encoded().len() <= u32::MAX
            &&& wire::un32(f, 0) == body.len()
            &&& control::is_whole(body)
            &&& control::decoded(body) == m
        }),
{
    let f = frame(m.encoded());
    let body = f.subrange(4, f.len() as int);
    control::lemma_encoded_len(m);
    assert(f.subrange(0, 4) =~= wire::be32(m.encoded().len() as u32));
    wire::lemma_un32(f, 0, m.encoded().len() as u32);
    assert(body =~= m.encoded());
    control::lemma_message_round_trip(m, Seq::empty());
    assert(m.encoded() + Seq::<u8>::empty() =~= m.encoded());
}

/// Whether a heartbeat is due before the next read, after the connection was
/// idle for `idle_ns`.
pub fn heartbeat_due(idle_ns: u64) -> (r: bool)
    ensures
        r == (idle_ns >= HEARTBEAT_NS),
        r == (idle_ns >= 5_000_000_000),
{
    idle_ns >= HEARTBEAT_NS
}

/// The message that serves as heartbeat.
pub fn heartbeat() -> (r: ControlMessage)
    ensures
        r@ == (MessageModel::Ack { sequence_number: 0 }),
{
    ControlMessage::Ack { sequence_number: 0 }
}

} // verus!
