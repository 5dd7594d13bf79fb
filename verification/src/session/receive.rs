//! What the receiving program decides.

use crate::control::client::ControlError;
use crate::control::negotiation;
use crate::control::negotiation::{announce_channels, list_channels};
use crate::file_mode::sanitize;
use crate::file_mode::sanitize::sanitize_filename;
use crate::file_mode::FileMetadata;
use crate::progress::reporter::ProgressVerbosity;
use crate::protocol::control::{ControlMessage, MessageModel};
use crate::protocol::crc;
use crate::protocol::crc::verify_fragment_crc;
use crate::protocol::headers::FragmentHeader;
use crate::receiver::delivery;
use crate::receiver::interleaving;
use crate::receiver::interleaving::{Arrival, SentChunk};
use crate::receiver::reassembly;
use crate::sender::framing;
use crate::session::{Awaited, Mode};
use crate::text;
use crate::text::push_hex;
use crate::wire;
use vstd::prelude::*;
use vstd::string::*;

verus! {

/// How long a chunk may stay incomplete, in seconds.
pub const DEFAULT_CHUNK_TIMEOUT_SECS: u64 = 60;

/// How many items a channel between two stages has room for.
pub const DEFAULT_CHANNEL_CAPACITY: usize = 32_768;

/// Time between two status reports, in nanoseconds.
pub const DEFAULT_STATUS_INTERVAL_NS: u64 = 1_000_000_000;

/// How much may be on its way where it is not said: 64 MiB.
pub const DEFAULT_BUFFER_SIZE: usize = 67_108_864;

/// Size of a receive buffer.
pub const RECEIVE_BUFFER_SIZE: usize = 65_536;

/// Fewest receive buffers.
pub const MIN_RECEIVE_BUFFERS: usize = 16;

/// How long to wait for a datagram, in nanoseconds.
pub const RECEIVE_TIMEOUT_NS: u64 = 1_000_000_000;

/// After how many timeouts in a row a worker stops.
pub const MAX_CONSECUTIVE_TIMEOUTS: u32 = 10;

/// How long a gap in the sequence may last, in nanoseconds.
pub const GAP_TIMEOUT_NS: u64 = 5_000_000_000;

/// What the receiving program was asked to do.
#[derive(Debug)]
pub struct BraidReceive {
    /// Address to listen on.
    pub bind: String,
    /// Where a stream goes; standard output where it is left open.
    pub output: Option<String>,
    /// How many bytes may be on their way; 0 where it is left open.
    pub buffer_size: usize,
    pub mtu: usize,
    pub verbosity: ProgressVerbosity,
    pub mode: Mode,
    /// Where a file goes, whatever the sender calls it.
    pub output_override: Option<String>,
}

impl BraidReceive {
    /// A receiver for a stream.
    pub fn new(
        bind: String,
        output: Option<String>,
        buffer_size: usize,
        mtu: usize,
        verbosity: ProgressVerbosity,
    ) -> (r: Self)
        ensures
            r == (BraidReceive {
                bind,
                output,
                buffer_size,
                mtu,
                verbosity,
                mode: Mode::Pipe,
                output_override: None,
            }),
    {
        BraidReceive {
            bind,
            output,
            buffer_size,
            mtu,
            verbosity,
            mode: Mode::Pipe,
            output_override: None,
        }
    }

    /// A receiver with everything given.
    pub fn new_with_mode(
        bind: String,
        output: Option<String>,
        buffer_size: usize,
        mtu: usize,
        verbosity: ProgressVerbosity,
        mode: Mode,
        output_override: Option<String>,
    ) -> (r: Self)
        ensures
            r == (BraidReceive {
                bind,
                output,
                buffer_size,
                mtu,
                verbosity,
                mode,
                output_override,
            }),
    {
        BraidReceive { bind, output, buffer_size, mtu, verbosity, mode, output_override }
    }

    /// How many bytes may be on their way.
    pub fn max_inflight(&self) -> (r: usize)
        ensures
            r == (if self.buffer_size > 0 {
                self.buffer_size
            } else {
                DEFAULT_BUFFER_SIZE
            }),
            self.buffer_size == 0 ==> r == 67_108_864,
    {
        if self.buffer_size > 0 {
            self.buffer_size
        } else {
            DEFAULT_BUFFER_SIZE
        }
    }

    /// How many receive buffers there are.
    pub fn pool_buffers(&self) -> (r: usize)
        ensures
            ({
                let bytes = if self.buffer_size > 0 {
                    self.buffer_size
                } else {
                    DEFAULT_BUFFER_SIZE
                };
                let many = bytes / RECEIVE_BUFFER_SIZE;
                r == (if many > MIN_RECEIVE_BUFFERS {
                    many
                } else {
                    MIN_RECEIVE_BUFFERS
                })
            }),
            self.buffer_size == 0 ==> r == 1024,
            0 < self.buffer_size < 16 * 65_536 ==> r == 16,
            self.buffer_size >= 16 * 65_536 ==> r == self.buffer_size / 65_536,
    {
        let many: usize = self.max_inflight() / RECEIVE_BUFFER_SIZE;
        if many > MIN_RECEIVE_BUFFERS {
            many
        } else {
            MIN_RECEIVE_BUFFERS
        }
    }
}

/// What becomes of a datagram.
#[derive(Debug, Clone, Copy, PartialEq, Eq, Structural)]
pub enum Datagram {
    /// It is too short to be a fragment, and ignored.
    TooShort,
    /// Its checksum is wrong, and it is dropped.
    Damaged,
    /// It goes to the reassembler with this index.
    Routed(usize),
}

/// What becomes of a datagram where there are `shards` reassemblers: a fragment
/// whose checksum is right goes to the one that its chunk belongs to.
pub open spec fn verdict_on(datagram: Seq<u8>, shards: usize) -> Datagram {
    if datagram.len() < FragmentHeader::LEN {
        Datagram::TooShort
    } else if crc::crc32_of(reassembly::fragment_payload(datagram)) != wire::un32(datagram, 10) {
        Datagram::Damaged
    } else {
        Datagram::Routed((wire::un32(datagram, 0) as int % shards as int) as usize)
    }
}

/// Receives datagrams on one channel.
#[derive(Debug, Clone, Copy, PartialEq, Eq, Structural)]
pub struct ReceiveWorker {
    /// How many reassemblers there are.
    pub shards: usize,
    /// How many timeouts there were in a row.
    pub timeouts: u32,
}

impl ReceiveWorker {
    /// After one more timeout.
    pub open spec fn timed_out(self) -> ReceiveWorker {
        ReceiveWorker {
            timeouts: if self.timeouts < MAX_CONSECUTIVE_TIMEOUTS {
                (self.timeouts + 1) as u32
            } else {
                self.timeouts
            },
            ..self
        }
    }

    /// Whether to go on.
    pub open spec fn goes_on(self) -> bool {
        self.timeouts < MAX_CONSECUTIVE_TIMEOUTS
    }

    /// A worker that has received nothing yet.
    pub fn new(shards: usize) -> (r: Self)
        ensures
            r == (ReceiveWorker { shards, timeouts: 0 }),
    {
        ReceiveWorker { shards, timeouts: 0 }
    }

    /// Takes in a datagram.
    pub fn on_datagram(&mut self, datagram: &[u8]) -> (r: Datagram)
        requires
            old(self).shards > 0,
        ensures
            r == verdict_on(datagram@, old(self).shards),
            *final(self) == (ReceiveWorker { timeouts: 0, ..*old(self) }),
    {
        self.timeouts = 0;
        let len: usize = datagram.len();
        if len < FragmentHeader::LEN {
            return Datagram::TooShort;
        }
        let payload = vstd::slice::slice_subrange(datagram, FragmentHeader::LEN, len);
        assert(payload@ =~= reassembly::fragment_payload(datagram@));
        if !verify_fragment_crc(payload, wire::get_u32(datagram, 10)) {
            return Datagram::Damaged;
        }
        let chunk_id: u32 = wire::get_u32(datagram, 0);
        Datagram::Routed((chunk_id as u64 % self.shards as u64) as usize)
    }

    /// Nothing came in time. Tells whether to go on.
    pub fn on_timeout(&mut self) -> (r: bool)
        ensures
            r == (old(self).timeouts + 1 < MAX_CONSECUTIVE_TIMEOUTS),
            r == (old(self).timeouts < 9),
            r ==> final(self).timeouts == old(self).timeouts + 1,
            *final(self) == old(self).timed_out(),
            r == final(self).goes_on(),
            *final(self) == (ReceiveWorker {
                timeouts: if old(self).timeouts < MAX_CONSECUTIVE_TIMEOUTS {
                    (old(self).timeouts + 1) as u32
                } else {
                    old(self).timeouts
                },
                ..*old(self)
            }),
    {
        if self.timeouts < MAX_CONSECUTIVE_TIMEOUTS {
            self.timeouts = self.timeouts + 1;
            self.timeouts < MAX_CONSECUTIVE_TIMEOUTS
        } else {
            false
        }
    }
}

/// All fragments of a chunk go to the same reassembler, whichever channel they
/// come on, and to one that there is.
pub proof fn lemma_shards_keep_chunks_together(a: Seq<u8>, b: Seq<u8>, shards: usize)
    requires
        shards > 0,
        verdict_on(a, shards) is Routed,
        verdict_on(b, shards) is Routed,
        FragmentHeader::decoded(a).chunk_id == FragmentHeader::decoded(b).chunk_id,
    ensures
        verdict_on(a, shards) == verdict_on(b, shards),
        verdict_on(a, shards)->Routed_0 < shards,
{
}

/// A fragment that arrives as it was sent is taken for what it is: it is neither
/// too short nor damaged, and goes to the reassembler of its chunk.
pub proof fn lemma_sent_fragments_are_routed(
    chunks: Seq<SentChunk>,
    size: nat,
    a: Arrival,
    shards: usize,
)
    requires
        shards > 0,
        interleaving::exists_in(chunks, size, a),
    ensures
        verdict_on(interleaving::bytes_of(chunks, size, a), shards) == Datagram::Routed(
            (chunks[a.chunk].id() as int % shards as int) as usize,
        ),
{
    let c = chunks[a.chunk];
    let f = interleaving::bytes_of(chunks, size, a);
    delivery::lemma_fragment_payload(
        c.id(),
        framing::chunk_image(c.number, c.data),
        size,
        a.fragment,
    );
    assert(f.len() >= FragmentHeader::LEN);
    assert(FragmentHeader::decoded(f).chunk_id == wire::un32(f, 0));
    assert(FragmentHeader::decoded(f).fragment_crc == wire::un32(f, 10));
}

/// Why a file is not received.
#[derive(Debug)]
pub enum FileStartError {
    /// The sender's name for it is not harmless.
    InvalidName(&'static str),
    /// Something else came than the start of a file.
    Unexpected(ControlMessage),
}

/// The answer to a file that is not received, or was not written: it failed.
pub open spec fn refusal() -> MessageModel {
    MessageModel::FileComplete { success: false, expected_hash: 0, computed_hash: 0 }
}

/// The answer to a file that is not received, or was not written.
pub fn refuse_file() -> (r: ControlMessage)
    ensures
        r@ == refusal(),
{
    ControlMessage::FileComplete { success: false, expected_hash: 0, computed_hash: 0 }
}

impl FileStartError {
    /// The message for the error, and what to put behind it.
    pub open spec fn shown(self) -> Seq<char> {
        match self {
            FileStartError::InvalidName(why) => "invalid filename from sender: "@ + why@,
            FileStartError::Unexpected(_) => "expected FileStart in file mode, got "@,
        }
    }

    /// The message for the error. A message that was not expected is to be shown
    /// behind it.
    pub fn to_string(&self) -> (r: String)
        ensures
            r@ == self.shown(),
    {
        match self {
            FileStartError::InvalidName(why) => text::joined("invalid filename from sender: ", why),
            FileStartError::Unexpected(_) => "expected FileStart in file mode, got ".to_owned(),
        }
    }

    /// What the sender is told, where it waits for an answer.
    pub fn answer(&self) -> (r: Option<ControlMessage>)
        ensures
            match self {
                FileStartError::InvalidName(_) => r is Some && r->Some_0@ == refusal(),
                FileStartError::Unexpected(_) => r is None,
            },
    {
        match self {
            FileStartError::InvalidName(_) => Some(refuse_file()),
            FileStartError::Unexpected(_) => None,
        }
    }
}

/// Takes in the message with which a file transfer starts.
pub fn accept_file(msg: ControlMessage) -> (r: Result<FileMetadata, FileStartError>)
    ensures
        match msg@ {
            MessageModel::FileStart { filename, filesize, file_crc32c } => match sanitize::complaint(
                text::trimmed(filename),
            ) {
                None => r is Ok && r->Ok_0.filename@ == text::trimmed(filename)
                    && r->Ok_0.filesize == filesize && r->Ok_0.file_crc32c == file_crc32c,
                Some(why) => r is Err && r->Err_0 is InvalidName && r->Err_0->InvalidName_0@ == why,
            },
            _ => r is Err && r->Err_0 == FileStartError::Unexpected(msg),
        },
{
    match &msg {
        ControlMessage::FileStart { filename, filesize, file_crc32c } => {
            match sanitize_filename(filename.as_str()) {
                Ok(name) => Ok(FileMetadata::from_basename(name, *filesize, *file_crc32c)),
                Err(why) => Err(FileStartError::InvalidName(why)),
            }
        },
        _ => Err(FileStartError::Unexpected(msg)),
    }
}

/// What the sender is told of a file that was written: whether its checksum is
/// the expected one.
pub open spec fn file_verdict(expected: u32, computed: u32) -> MessageModel {
    MessageModel::FileComplete {
        success: computed == expected,
        expected_hash: expected,
        computed_hash: computed,
    }
}

/// Judges a file that was written. The message goes to the sender; a file whose
/// checksum is wrong is to be deleted.
pub fn judge_file(expected: u32, computed: u32) -> (r: (ControlMessage, bool))
    ensures
        r.0@ == file_verdict(expected, computed),
        r.1 == (expected == computed),
{
    let success = computed == expected;
    let msg = ControlMessage::FileComplete {
        success,
        expected_hash: expected,
        computed_hash: computed,
    };
    (msg, success)
}

/// What the user is told of a file that arrived.
pub fn received_note(computed: u32) -> (r: String)
    ensures
        r@ == "file transferred successfully (crc32c=0x"@ + text::hex(computed as nat, 8, true)
            + ")"@,
{
    let mut s = "file transferred successfully (crc32c=0x".to_owned();
    push_hex(&mut s, computed, 8, true);
    s.append(")");
    s
}

/// What to do about a control message while a stream is received.
#[derive(Debug, Clone, Copy, PartialEq, Eq, Structural)]
pub enum ReceiveRoute {
    /// The sender sends a file: the program ends with an error.
    Abort,
    /// The sender asks to go on from the given chunk.
    Reconnect(u64),
    /// The sender has sent everything up to the given chunk.
    EndOfStream(u64),
    /// Nothing.
    Ignore,
    /// Control ends here.
    Stop,
}

/// What to do about a control message while a stream is received.
pub open spec fn route_of(msg: MessageModel) -> ReceiveRoute {
    match msg {
        MessageModel::FileStart { .. } => ReceiveRoute::Abort,
        MessageModel::Reconnect { last_sequence_number } => ReceiveRoute::Reconnect(
            last_sequence_number,
        ),
        MessageModel::Eos { sequence_number } => ReceiveRoute::EndOfStream(sequence_number),
        _ => ReceiveRoute::Ignore,
    }
}

/// What to do about a control message, or an error, while a stream is received.
pub fn route_control(received: &Result<ControlMessage, ControlError>) -> (r: ReceiveRoute)
    ensures
        r == match received {
            Err(_) => ReceiveRoute::Stop,
            Ok(msg) => match msg@ {
                MessageModel::FileStart { .. } => ReceiveRoute::Abort,
                MessageModel::Reconnect { last_sequence_number } => ReceiveRoute::Reconnect(
                    last_sequence_number,
                ),
                MessageModel::Eos { sequence_number } => ReceiveRoute::EndOfStream(sequence_number),
                _ => ReceiveRoute::Ignore,
            },
        },
        received matches Ok(msg) ==> r == route_of(msg@),
{
    match received {
        Err(_) => ReceiveRoute::Stop,
        Ok(msg) => match msg {
            ControlMessage::FileStart { .. } => ReceiveRoute::Abort,
            ControlMessage::Reconnect { last_sequence_number } => ReceiveRoute::Reconnect(
                *last_sequence_number,
            ),
            ControlMessage::Eos { sequence_number } => ReceiveRoute::EndOfStream(*sequence_number),
            _ => ReceiveRoute::Ignore,
        },
    }
}

/// How the wait for the end of the stream goes on.
#[derive(Debug, Clone, Copy, PartialEq, Eq, Structural)]
pub enum WaitStep {
    /// Wait on.
    GoOn,
    /// Open new channels: the sender goes on after the given chunk.
    Reconnect(u64),
    /// All reassemblers are done.
    Done,
    /// A shutdown was asked for.
    Interrupted,
}

/// How the wait goes on, after something came or not.
pub open spec fn wait_step(awaited: Awaited, all_done: bool, shutting_down: bool) -> WaitStep {
    match awaited {
        Awaited::Message(ControlMessage::Reconnect { last_sequence_number }) =>
            WaitStep::Reconnect(last_sequence_number),
        _ => if all_done {
            WaitStep::Done
        } else if shutting_down {
            WaitStep::Interrupted
        } else {
            WaitStep::GoOn
        },
    }
}

/// Decides how the wait goes on.
pub fn next_wait(awaited: &Awaited, all_done: bool, shutting_down: bool) -> (r: WaitStep)
    ensures
        r == wait_step(*awaited, all_done, shutting_down),
{
    match awaited {
        Awaited::Message(ControlMessage::Reconnect { last_sequence_number }) => {
            WaitStep::Reconnect(*last_sequence_number)
        },
        _ => {
            if all_done {
                WaitStep::Done
            } else if shutting_down {
                WaitStep::Interrupted
            } else {
                WaitStep::GoOn
            }
        },
    }
}

/// Whether fragments may still come through new channels: not where control has
/// ended, nor after the end of the stream was announced.
pub fn more_may_come(awaited: &Awaited) -> (r: bool)
    ensures
        r == !(awaited is Closed || (awaited matches Awaited::Message(ControlMessage::Eos { .. }))),
{
    match awaited {
        Awaited::Closed => false,
        Awaited::Message(ControlMessage::Eos { .. }) => false,
        _ => true,
    }
}

/// The answer to a request to reconnect, given the ports that could be opened: an
/// acknowledgement with the first port, then the open channels.
pub open spec fn reconnect_replies(ports: Seq<Option<u16>>) -> Seq<MessageModel> {
    let channels = negotiation::opened_channels(ports);
    seq![
        MessageModel::Ack {
            sequence_number: if channels.len() > 0 {
                channels[0].port as u64
            } else {
                0
            },
        },
    ] + negotiation::announcements(channels)
}

/// Answers a request to reconnect.
pub fn answer_reconnect(ports: &Vec<Option<u16>>) -> (r: Vec<ControlMessage>)
    requires
        ports@.len() <= u16::MAX,
    ensures
        negotiation::message_models(r@) == reconnect_replies(ports@),
{
    let channels = list_channels(ports);
    let first: u64 = if channels.len() > 0 {
        channels[0].port as u64
    } else {
        0
    };
    let mut msgs: Vec<ControlMessage> = Vec::new();
    msgs.push(ControlMessage::Ack { sequence_number: first });
    assert(negotiation::message_models(msgs@) =~= seq![
        MessageModel::Ack { sequence_number: first },
    ]);
    announce_channels(&channels, &mut msgs);
    msgs
}

} // verus!
