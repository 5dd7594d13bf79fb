//! Messages on the control connection.

use crate::text;
use crate::text::{push_decimal, string_from_utf8};
use crate::wire;
use vstd::prelude::*;
use vstd::string::*;
use vstd::utf8::*;

verus! {

/// The kinds of control messages.
#[derive(Debug, Clone, Copy, PartialEq, Eq, Structural)]
pub enum ControlMessageKind {
    Hello,
    Ack,
    Nack,
    DataReady,
    Eos,
    Reconnect,
    Stats,
    QueueStatus,
    ChannelOpened,
    ChannelClosed,
    FileStart,
    FileComplete,
    Error,
}

impl ControlMessageKind {
    /// The byte that stands for the kind on the wire.
    pub open spec fn code_of(self) -> u8 {
        match self {
            ControlMessageKind::Hello => 0x01,
            ControlMessageKind::Ack => 0x02,
            ControlMessageKind::Nack => 0x03,
            ControlMessageKind::DataReady => 0x04,
            ControlMessageKind::Eos => 0x05,
            ControlMessageKind::Reconnect => 0x06,
            ControlMessageKind::Stats => 0x07,
            ControlMessageKind::QueueStatus => 0x08,
            ControlMessageKind::ChannelOpened => 0x09,
            ControlMessageKind::ChannelClosed => 0x0A,
            ControlMessageKind::FileStart => 0x0B,
            ControlMessageKind::FileComplete => 0x0C,
            ControlMessageKind::Error => 0xFF,
        }
    }

    /// Whether `value` stands for a kind.
    pub open spec fn is_code(value: u8) -> bool {
        1 <= value <= 12 || value == 0xFF
    }

    /// The byte that stands for the kind on the wire.
    pub fn code(self) -> (r: u8)
        ensures
            r == self.code_of(),
    {
        match self {
            ControlMessageKind::Hello => 0x01,
            ControlMessageKind::Ack => 0x02,
            ControlMessageKind::Nack => 0x03,
            ControlMessageKind::DataReady => 0x04,
            ControlMessageKind::Eos => 0x05,
            ControlMessageKind::Reconnect => 0x06,
            ControlMessageKind::Stats => 0x07,
            ControlMessageKind::QueueStatus => 0x08,
            ControlMessageKind::ChannelOpened => 0x09,
            ControlMessageKind::ChannelClosed => 0x0A,
            ControlMessageKind::FileStart => 0x0B,
            ControlMessageKind::FileComplete => 0x0C,
            ControlMessageKind::Error => 0xFF,
        }
    }

    /// The kind that a byte stands for.
    pub fn try_from(value: u8) -> (r: Result<ControlMessageKind, &'static str>)
        ensures
            match r {
                Ok(kind) => kind.code_of() == value,
                Err(e) => !ControlMessageKind::is_code(value) && e@
                    == "invalid control message kind"@,
            },
    {
        match value {
            0x01 => Ok(ControlMessageKind::Hello),
            0x02 => Ok(ControlMessageKind::Ack),
            0x03 => Ok(ControlMessageKind::Nack),
            0x04 => Ok(ControlMessageKind::DataReady),
            0x05 => Ok(ControlMessageKind::Eos),
            0x06 => Ok(ControlMessageKind::Reconnect),
            0x07 => Ok(ControlMessageKind::Stats),
            0x08 => Ok(ControlMessageKind::QueueStatus),
            0x09 => Ok(ControlMessageKind::ChannelOpened),
            0x0A => Ok(ControlMessageKind::ChannelClosed),
            0x0B => Ok(ControlMessageKind::FileStart),
            0x0C => Ok(ControlMessageKind::FileComplete),
            0xFF => Ok(ControlMessageKind::Error),
            _ => Err("invalid control message kind"),
        }
    }
}

/// A control message.
#[derive(Debug, Clone, PartialEq, Eq)]
pub enum ControlMessage {
    /// Opens a session.
    Hello { protocol_version: u16, features: u32 },
    /// Confirms.
    Ack { sequence_number: u64 },
    /// Refuses.
    Nack { sequence_number: u64, reason: u16 },
    /// A chunk is ready.
    DataReady { chunk_id: u32, payload_length: u16 },
    /// The stream has ended.
    Eos { sequence_number: u64 },
    /// Asks to go on after a break.
    Reconnect { last_sequence_number: u64 },
    /// Transfer counters.
    Stats { bytes_sent: u64, bytes_received: u64, active_channels: u16 },
    /// How full the receiver is.
    QueueStatus { queued_chunks: u32, queued_bytes: u32, total_capacity: u32 },
    /// A data channel is open.
    ChannelOpened { channel_id: u16, port: u16 },
    /// A data channel is closed.
    ChannelClosed { channel_id: u16, code: u16 },
    /// A file transfer begins.
    FileStart { filename: String, filesize: u64, file_crc32c: u32 },
    /// A file transfer has ended.
    FileComplete { success: bool, expected_hash: u32, computed_hash: u32 },
    /// Something went wrong.
    Error { code: u16, detail: u32 },
}

/// What a control message says.
#[verifier::ext_equal]
pub enum MessageModel {
    Hello { protocol_version: u16, features: u32 },
    Ack { sequence_number: u64 },
    Nack { sequence_number: u64, reason: u16 },
    DataReady { chunk_id: u32, payload_length: u16 },
    Eos { sequence_number: u64 },
    Reconnect { last_sequence_number: u64 },
    Stats { bytes_sent: u64, bytes_received: u64, active_channels: u16 },
    QueueStatus { queued_chunks: u32, queued_bytes: u32, total_capacity: u32 },
    ChannelOpened { channel_id: u16, port: u16 },
    ChannelClosed { channel_id: u16, code: u16 },
    FileStart { filename: Seq<char>, filesize: u64, file_crc32c: u32 },
    FileComplete { success: bool, expected_hash: u32, computed_hash: u32 },
    Error { code: u16, detail: u32 },
}

impl View for ControlMessage {
    type V = MessageModel;

    open spec fn view(&self) -> MessageModel {
        match *self {
            ControlMessage::Hello { protocol_version, features } => MessageModel::Hello { protocol_version, features },
            ControlMessage::Ack { sequence_number } => MessageModel::Ack { sequence_number },
            ControlMessage::Nack { sequence_number, reason } => MessageModel::Nack { sequence_number, reason },
            ControlMessage::DataReady { chunk_id, payload_length } => MessageModel::DataReady { chunk_id, payload_length },
            ControlMessage::Eos { sequence_number } => MessageModel::Eos { sequence_number },
            ControlMessage::Reconnect { last_sequence_number } => MessageModel::Reconnect { last_sequence_number },
            ControlMessage::Stats { bytes_sent, bytes_received, active_channels } => MessageModel::Stats { bytes_sent, bytes_received, active_channels },
            ControlMessage::QueueStatus { queued_chunks, queued_bytes, total_capacity } => MessageModel::QueueStatus { queued_chunks, queued_bytes, total_capacity },
            ControlMessage::ChannelOpened { channel_id, port } => MessageModel::ChannelOpened { channel_id, port },
            ControlMessage::ChannelClosed { channel_id, code } => MessageModel::ChannelClosed { channel_id, code },
            ControlMessage::FileStart { filename, filesize, file_crc32c } => MessageModel::FileStart { filename: filename@, filesize, file_crc32c },
            ControlMessage::FileComplete { success, expected_hash, computed_hash } => MessageModel::FileComplete { success, expected_hash, computed_hash },
            ControlMessage::Error { code, detail } => MessageModel::Error { code, detail },
        }
    }
}

impl MessageModel {
    /// The kind of the message.
    pub open spec fn kind_of(self) -> ControlMessageKind {
        match self {
            MessageModel::Hello { .. } => ControlMessageKind::Hello,
            MessageModel::Ack { .. } => ControlMessageKind::Ack,
            MessageModel::Nack { .. } => ControlMessageKind::Nack,
            MessageModel::DataReady { .. } => ControlMessageKind::DataReady,
            MessageModel::Eos { .. } => ControlMessageKind::Eos,
            MessageModel::Reconnect { .. } => ControlMessageKind::Reconnect,
            MessageModel::Stats { .. } => ControlMessageKind::Stats,
            MessageModel::QueueStatus { .. } => ControlMessageKind::QueueStatus,
            MessageModel::ChannelOpened { .. } => ControlMessageKind::ChannelOpened,
            MessageModel::ChannelClosed { .. } => ControlMessageKind::ChannelClosed,
            MessageModel::FileStart { .. } => ControlMessageKind::FileStart,
            MessageModel::FileComplete { .. } => ControlMessageKind::FileComplete,
            MessageModel::Error { .. } => ControlMessageKind::Error,
        }
    }

    /// What follows the kind on the wire.
    pub open spec fn body(self) -> Seq<u8> {
        match self {
            MessageModel::Hello { protocol_version, features } => wire::be16(protocol_version) + wire::be32(features),
            MessageModel::Ack { sequence_number } => wire::be64(sequence_number),
            MessageModel::Nack { sequence_number, reason } => wire::be64(sequence_number) + wire::be16(reason),
            MessageModel::DataReady { chunk_id, payload_length } => wire::be32(chunk_id) + wire::be16(payload_length),
            MessageModel::Eos { sequence_number } => wire::be64(sequence_number),
            MessageModel::Reconnect { last_sequence_number } => wire::be64(last_sequence_number),
            MessageModel::Stats { bytes_sent, bytes_received, active_channels } => wire::be64(bytes_sent) + wire::be64(bytes_received) + wire::be16(active_channels),
            MessageModel::QueueStatus { queued_chunks, queued_bytes, total_capacity } => wire::be32(queued_chunks) + wire::be32(queued_bytes) + wire::be32(total_capacity),
            MessageModel::ChannelOpened { channel_id, port } => wire::be16(channel_id) + wire::be16(port),
            MessageModel::ChannelClosed { channel_id, code } => wire::be16(channel_id) + wire::be16(code),
            MessageModel::FileStart { filename, filesize, file_crc32c } => {
                let name = encode_utf8(filename);
                wire::be16(name.len() as u16) + name + wire::be64(filesize) + wire::be32(file_crc32c)
            },
            MessageModel::FileComplete { success, expected_hash, computed_hash } => seq![if success {
                1u8
            } else {
                0u8
            }] + wire::be32(expected_hash) + wire::be32(computed_hash),
            MessageModel::Error { code, detail } => wire::be16(code) + wire::be32(detail),
        }
    }

    /// The message on the wire: its kind, then its fields.
    pub open spec fn encoded(self) -> Seq<u8> {
        seq![self.kind_of().code_of()] + self.body()
    }

    /// The text shown for the message.
    pub open spec fn shown(self) -> Seq<char> {
        match self {
            MessageModel::Hello { protocol_version, features } => "HELLO(protocol_version="@ + text::decimal(protocol_version as nat) + ", features="@ + text::decimal(features as nat) + ")"@,
            MessageModel::Ack { sequence_number } => "ACK(sequence_number="@ + text::decimal(sequence_number as nat) + ")"@,
            MessageModel::Nack { sequence_number, reason } => "NACK(sequence_number="@ + text::decimal(sequence_number as nat) + ", reason="@ + text::decimal(reason as nat) + ")"@,
            MessageModel::DataReady { chunk_id, payload_length } => "DATA_READY(chunk_id="@ + text::decimal(chunk_id as nat) + ", payload_length="@ + text::decimal(payload_length as nat) + ")"@,
            MessageModel::Eos { sequence_number } => "EOS(sequence_number="@ + text::decimal(sequence_number as nat) + ")"@,
            MessageModel::Reconnect { last_sequence_number } => "RECONNECT(last_sequence_number="@ + text::decimal(last_sequence_number as nat) + ")"@,
            MessageModel::Stats { bytes_sent, bytes_received, active_channels } => "STATS(bytes_sent="@ + text::decimal(bytes_sent as nat) + ", bytes_received="@ + text::decimal(bytes_received as nat) + ", active_channels="@ + text::decimal(active_channels as nat) + ")"@,
            MessageModel::QueueStatus { queued_chunks, queued_bytes, total_capacity } => "QUEUE_STATUS(chunks="@ + text::decimal(queued_chunks as nat) + ", bytes="@ + text::decimal(queued_bytes as nat) + ", capacity="@ + text::decimal(total_capacity as nat) + ")"@,
            MessageModel::ChannelOpened { channel_id, port } => "CHANNEL_OPENED(channel_id="@ + text::decimal(channel_id as nat) + ", port="@ + text::decimal(port as nat) + ")"@,
            MessageModel::ChannelClosed { channel_id, code } => "CHANNEL_CLOSED(channel_id="@ + text::decimal(channel_id as nat) + ", code="@ + text::decimal(code as nat) + ")"@,
            MessageModel::FileStart { filename, filesize, file_crc32c } => "FILE_START(filename="@ + filename + ", filesize="@ + text::decimal(filesize as nat) + ", file_crc32c="@ + text::decimal(file_crc32c as nat) + ")"@,
            MessageModel::FileComplete { success, expected_hash, computed_hash } => "FILE_COMPLETE(success="@ + (if success {
                "true"@
            } else {
                "false"@
            }) + ", expected_hash="@ + text::decimal(expected_hash as nat) + ", computed_hash="@ + text::decimal(computed_hash as nat) + ")"@,
            MessageModel::Error { code, detail } => "ERROR(code="@ + text::decimal(code as nat) + ", detail="@ + text::decimal(detail as nat) + ")"@,
        }
    }
}

/// How long the fields of a message of the kind `code` are; of a message about
/// the start of a file, only the length of the name.
pub open spec fn fixed_len(code: u8) -> int {
    if code == 0x07 {
        18
    } else if code == 0x08 {
        12
    } else if code == 0x03 {
        10
    } else if code == 0x0C {
        9
    } else if code == 0x02 || code == 0x05 || code == 0x06 {
        8
    } else if code == 0x01 || code == 0x04 || code == 0xFF {
        6
    } else if code == 0x09 || code == 0x0A {
        4
    } else {
        2
    }
}

/// The bytes of the file name in a message about the start of a file.
pub open spec fn name_bytes(s: Seq<u8>) -> Seq<u8> {
    s.subrange(3, 3 + wire::un16(s, 1))
}

/// Whether `s` is long enough to be decoded: it is empty, its kind is unknown,
/// or all fields that are read are there.
pub open spec fn is_whole(s: Seq<u8>) -> bool {
    s.len() > 0 && ControlMessageKind::is_code(s[0]) ==> if s[0] == 0x0B {
        &&& s.len() >= 3
        &&& s.len() >= 3 + wire::un16(s, 1)
        &&& valid_utf8(name_bytes(s)) ==> s.len() >= 3 + wire::un16(s, 1) + 12
    } else {
        s.len() >= 1 + fixed_len(s[0])
    }
}

/// The message that the bytes of `s` hold; what follows the fields is not
/// looked at.
pub open spec fn decoded(s: Seq<u8>) -> MessageModel {
    if s[0] == 0x01 {
        MessageModel::Hello { protocol_version: wire::un16(s, 1), features: wire::un32(s, 3) }
    } else if s[0] == 0x02 {
        MessageModel::Ack { sequence_number: wire::un64(s, 1) }
    } else if s[0] == 0x03 {
        MessageModel::Nack { sequence_number: wire::un64(s, 1), reason: wire::un16(s, 9) }
    } else if s[0] == 0x04 {
        MessageModel::DataReady { chunk_id: wire::un32(s, 1), payload_length: wire::un16(s, 5) }
    } else if s[0] == 0x05 {
        MessageModel::Eos { sequence_number: wire::un64(s, 1) }
    } else if s[0] == 0x06 {
        MessageModel::Reconnect { last_sequence_number: wire::un64(s, 1) }
    } else if s[0] == 0x07 {
        MessageModel::Stats { bytes_sent: wire::un64(s, 1), bytes_received: wire::un64(s, 9), active_channels: wire::un16(s, 17) }
    } else if s[0] == 0x08 {
        MessageModel::QueueStatus { queued_chunks: wire::un32(s, 1), queued_bytes: wire::un32(s, 5), total_capacity: wire::un32(s, 9) }
    } else if s[0] == 0x09 {
        MessageModel::ChannelOpened { channel_id: wire::un16(s, 1), port: wire::un16(s, 3) }
    } else if s[0] == 0x0A {
        MessageModel::ChannelClosed { channel_id: wire::un16(s, 1), code: wire::un16(s, 3) }
    } else if s[0] == 0x0B {
        let n = wire::un16(s, 1);
        MessageModel::FileStart {
            filename: decode_utf8(name_bytes(s)),
            filesize: wire::un64(s, 3 + n),
            file_crc32c: wire::un32(s, 11 + n),
        }
    } else if s[0] == 0x0C {
        MessageModel::FileComplete { success: s[1] != 0, expected_hash: wire::un32(s, 2), computed_hash: wire::un32(s, 6) }
    } else {
        MessageModel::Error { code: wire::un16(s, 1), detail: wire::un32(s, 3) }
    }
}

/// Where the fields of a message about the start of a file stand.
proof fn lemma_file_start_fields(name: Seq<u8>, filesize: u64, file_crc32c: u32, rest: Seq<u8>)
    requires
        name.len() <= u16::MAX,
    ensures
        ({
            let n = name.len() as u16;
            let s = seq![0x0Bu8] + (wire::be16(n) + name + wire::be64(filesize) + wire::be32(
                file_crc32c,
            )) + rest;
            &&& s.len() == 15 + n + rest.len()
            &&& wire::un16(s, 1) == n
            &&& name_bytes(s) == name
            &&& wire::un64(s, 3 + n) == filesize
            &&& wire::un32(s, 11 + n) == file_crc32c
        }),
{
    let n = name.len() as u16;
    let s = seq![0x0Bu8] + (wire::be16(n) + name + wire::be64(filesize) + wire::be32(file_crc32c))
        + rest;
    assert(s.subrange(1, 3) =~= wire::be16(n));
    wire::lemma_un16(s, 1, n);
    assert(name_bytes(s) =~= name);
    assert(s.subrange(3 + n, 11 + n) =~= wire::be64(filesize));
    wire::lemma_un64(s, 3 + n, filesize);
    assert(s.subrange(11 + n, 15 + n) =~= wire::be32(file_crc32c));
    wire::lemma_un32(s, 11 + n, file_crc32c);
}

proof fn lemma_hello_round_trip(protocol_version: u16, features: u32, rest: Seq<u8>)
    ensures
        ({
            let m = MessageModel::Hello { protocol_version, features };
            is_whole(m.encoded() + rest) && decoded(m.encoded() + rest) == m
        }),
{
    let m = MessageModel::Hello { protocol_version, features };
    let s = m.encoded() + rest;
    assert(s[0] == m.kind_of().code_of());
    assert(s.subrange(1, 3) =~= wire::be16(protocol_version));
    wire::lemma_un16(s, 1, protocol_version);
    assert(s.subrange(3, 7) =~= wire::be32(features));
    wire::lemma_un32(s, 3, features);
}

proof fn lemma_ack_round_trip(sequence_number: u64, rest: Seq<u8>)
    ensures
        ({
            let m = MessageModel::Ack { sequence_number };
            is_whole(m.encoded() + rest) && decoded(m.encoded() + rest) == m
        }),
{
    let m = MessageModel::Ack { sequence_number };
    let s = m.encoded() + rest;
    assert(s[0] == m.kind_of().code_of());
    assert(s.subrange(1, 9) =~= wire::be64(sequence_number));
    wire::lemma_un64(s, 1, sequence_number);
}

proof fn lemma_nack_round_trip(sequence_number: u64, reason: u16, rest: Seq<u8>)
    ensures
        ({
            let m = MessageModel::Nack { sequence_number, reason };
            is_whole(m.encoded() + rest) && decoded(m.encoded() + rest) == m
        }),
{
    let m = MessageModel::Nack { sequence_number, reason };
    let s = m.encoded() + rest;
    assert(s[0] == m.kind_of().code_of());
    assert(s.subrange(1, 9) =~= wire::be64(sequence_number));
    wire::lemma_un64(s, 1, sequence_number);
    assert(s.subrange(9, 11) =~= wire::be16(reason));
    wire::lemma_un16(s, 9, reason);
}

proof fn lemma_data_ready_round_trip(chunk_id: u32, payload_length: u16, rest: Seq<u8>)
    ensures
        ({
            let m = MessageModel::DataReady { chunk_id, payload_length };
            is_whole(m.encoded() + rest) && decoded(m.encoded() + rest) == m
        }),
{
    let m = MessageModel::DataReady { chunk_id, payload_length };
    let s = m.encoded() + rest;
    assert(s[0] == m.kind_of().code_of());
    assert(s.subrange(1, 5) =~= wire::be32(chunk_id));
    wire::lemma_un32(s, 1, chunk_id);
    assert(s.subrange(5, 7) =~= wire::be16(payload_length));
    wire::lemma_un16(s, 5, payload_length);
}

proof fn lemma_eos_round_trip(sequence_number: u64, rest: Seq<u8>)
    ensures
        ({
            let m = MessageModel::Eos { sequence_number };
            is_whole(m.encoded() + rest) && decoded(m.encoded() + rest) == m
        }),
{
    let m = MessageModel::Eos { sequence_number };
    let s = m.encoded() + rest;
    assert(s[0] == m.kind_of().code_of());
    assert(s.subrange(1, 9) =~= wire::be64(sequence_number));
    wire::lemma_un64(s, 1, sequence_number);
}

proof fn lemma_reconnect_round_trip(last_sequence_number: u64, rest: Seq<u8>)
    ensures
        ({
            let m = MessageModel::Reconnect { last_sequence_number };
            is_whole(m.encoded() + rest) && decoded(m.encoded() + rest) == m
        }),
{
    let m = MessageModel::Reconnect { last_sequence_number };
    let s = m.encoded() + rest;
    assert(s[0] == m.kind_of().code_of());
    assert(s.subrange(1, 9) =~= wire::be64(last_sequence_number));
    wire::lemma_un64(s, 1, last_sequence_number);
}

proof fn lemma_stats_round_trip(bytes_sent: u64, bytes_received: u64, active_channels: u16, rest: Seq<u8>)
    ensures
        ({
            let m = MessageModel::Stats { bytes_sent, bytes_received, active_channels };
            is_whole(m.encoded() + rest) && decoded(m.encoded() + rest) == m
        }),
{
    let m = MessageModel::Stats { bytes_sent, bytes_received, active_channels };
    let s = m.encoded() + rest;
    assert(s[0] == m.kind_of().code_of());
    assert(s.subrange(1, 9) =~= wire::be64(bytes_sent));
    wire::lemma_un64(s, 1, bytes_sent);
    assert(s.subrange(9, 17) =~= wire::be64(bytes_received));
    wire::lemma_un64(s, 9, bytes_received);
    assert(s.subrange(17, 19) =~= wire::be16(active_channels));
    wire::lemma_un16(s, 17, active_channels);
}

proof fn lemma_queue_status_round_trip(queued_chunks: u32, queued_bytes: u32, total_capacity: u32, rest: Seq<u8>)
    ensures
        ({
            let m = MessageModel::QueueStatus { queued_chunks, queued_bytes, total_capacity };
            is_whole(m.encoded() + rest) && decoded(m.encoded() + rest) == m
        }),
{
    let m = MessageModel::QueueStatus { queued_chunks, queued_bytes, total_capacity };
    let s = m.encoded() + rest;
    assert(s[0] == m.kind_of().code_of());
    assert(s.subrange(1, 5) =~= wire::be32(queued_chunks));
    wire::lemma_un32(s, 1, queued_chunks);
    assert(s.subrange(5, 9) =~= wire::be32(queued_bytes));
    wire::lemma_un32(s, 5, queued_bytes);
    assert(s.subrange(9, 13) =~= wire::be32(total_capacity));
    wire::lemma_un32(s, 9, total_capacity);
}

proof fn lemma_channel_opened_round_trip(channel_id: u16, port: u16, rest: Seq<u8>)
    ensures
        ({
            let m = MessageModel::ChannelOpened { channel_id, port };
            is_whole(m.encoded() + rest) && decoded(m.encoded() + rest) == m
        }),
{
    let m = MessageModel::ChannelOpened { channel_id, port };
    let s = m.encoded() + rest;
    assert(s[0] == m.kind_of().code_of());
    assert(s.subrange(1, 3) =~= wire::be16(channel_id));
    wire::lemma_un16(s, 1, channel_id);
    assert(s.subrange(3, 5) =~= wire::be16(port));
    wire::lemma_un16(s, 3, port);
}

proof fn lemma_channel_closed_round_trip(channel_id: u16, code: u16, rest: Seq<u8>)
    ensures
        ({
            let m = MessageModel::ChannelClosed { channel_id, code };
            is_whole(m.encoded() + rest) && decoded(m.encoded() + rest) == m
        }),
{
    let m = MessageModel::ChannelClosed { channel_id, code };
    let s = m.encoded() + rest;
    assert(s[0] == m.kind_of().code_of());
    assert(s.subrange(1, 3) =~= wire::be16(channel_id));
    wire::lemma_un16(s, 1, channel_id);
    assert(s.subrange(3, 5) =~= wire::be16(code));
    wire::lemma_un16(s, 3, code);
}

proof fn lemma_file_complete_round_trip(success: bool, expected_hash: u32, computed_hash: u32, rest: Seq<u8>)
    ensures
        ({
            let m = MessageModel::FileComplete { success, expected_hash, computed_hash };
            is_whole(m.encoded() + rest) && decoded(m.encoded() + rest) == m
        }),
{
    let m = MessageModel::FileComplete { success, expected_hash, computed_hash };
    let s = m.encoded() + rest;
    assert(s[0] == m.kind_of().code_of());
    assert(s.subrange(2, 6) =~= wire::be32(expected_hash));
    wire::lemma_un32(s, 2, expected_hash);
    assert(s.subrange(6, 10) =~= wire::be32(computed_hash));
    wire::lemma_un32(s, 6, computed_hash);
}

proof fn lemma_error_round_trip(code: u16, detail: u32, rest: Seq<u8>)
    ensures
        ({
            let m = MessageModel::Error { code, detail };
            is_whole(m.encoded() + rest) && decoded(m.encoded() + rest) == m
        }),
{
    let m = MessageModel::Error { code, detail };
    let s = m.encoded() + rest;
    assert(s[0] == m.kind_of().code_of());
    assert(s.subrange(1, 3) =~= wire::be16(code));
    wire::lemma_un16(s, 1, code);
    assert(s.subrange(3, 7) =~= wire::be32(detail));
    wire::lemma_un32(s, 3, detail);
}

/// Decoding the bytes of a message, whatever follows them, gives the message
/// back. A file name must fit the 16 bits of its length.
pub proof fn lemma_message_round_trip(m: MessageModel, rest: Seq<u8>)
    requires
        m matches MessageModel::FileStart { filename, .. } ==> encode_utf8(filename).len()
            <= u16::MAX,
    ensures
        is_whole(m.encoded() + rest),
        decoded(m.encoded() + rest) == m,
{
    match m {
        MessageModel::Hello { protocol_version, features } => {
            lemma_hello_round_trip(protocol_version, features, rest);
        },
        MessageModel::Ack { sequence_number } => {
            lemma_ack_round_trip(sequence_number, rest);
        },
        MessageModel::Nack { sequence_number, reason } => {
            lemma_nack_round_trip(sequence_number, reason, rest);
        },
        MessageModel::DataReady { chunk_id, payload_length } => {
            lemma_data_ready_round_trip(chunk_id, payload_length, rest);
        },
        MessageModel::Eos { sequence_number } => {
            lemma_eos_round_trip(sequence_number, rest);
        },
        MessageModel::Reconnect { last_sequence_number } => {
            lemma_reconnect_round_trip(last_sequence_number, rest);
        },
        MessageModel::Stats { bytes_sent, bytes_received, active_channels } => {
            lemma_stats_round_trip(bytes_sent, bytes_received, active_channels, rest);
        },
        MessageModel::QueueStatus { queued_chunks, queued_bytes, total_capacity } => {
            lemma_queue_status_round_trip(queued_chunks, queued_bytes, total_capacity, rest);
        },
        MessageModel::ChannelOpened { channel_id, port } => {
            lemma_channel_opened_round_trip(channel_id, port, rest);
        },
        MessageModel::ChannelClosed { channel_id, code } => {
            lemma_channel_closed_round_trip(channel_id, code, rest);
        },
        MessageModel::FileStart { filename, filesize, file_crc32c } => {
            let s = m.encoded() + rest;
            lemma_file_start_fields(encode_utf8(filename), filesize, file_crc32c, rest);
            encode_utf8_valid_utf8(filename);
            encode_utf8_decode_utf8(filename);
            assert(s[0] == 0x0B);
        },
        MessageModel::FileComplete { success, expected_hash, computed_hash } => {
            lemma_file_complete_round_trip(success, expected_hash, computed_hash, rest);
        },
        MessageModel::Error { code, detail } => {
            lemma_error_round_trip(code, detail, rest);
        },
    }
}

/// No message is longer than a full file name and some fields.
pub proof fn lemma_encoded_len(m: MessageModel)
    requires
        m matches MessageModel::FileStart { filename, .. } ==> encode_utf8(filename).len()
            <= u16::MAX,
    ensures
        1 < m.encoded().len() <= 15 + u16::MAX,
{
}

impl ControlMessage {
    /// The kind of the message.
    pub fn kind(&self) -> (r: ControlMessageKind)
        ensures
            r == self@.kind_of(),
    {
        match self {
            ControlMessage::Hello { .. } => ControlMessageKind::Hello,
            ControlMessage::Ack { .. } => ControlMessageKind::Ack,
            ControlMessage::Nack { .. } => ControlMessageKind::Nack,
            ControlMessage::DataReady { .. } => ControlMessageKind::DataReady,
            ControlMessage::Eos { .. } => ControlMessageKind::Eos,
            ControlMessage::Reconnect { .. } => ControlMessageKind::Reconnect,
            ControlMessage::Stats { .. } => ControlMessageKind::Stats,
            ControlMessage::QueueStatus { .. } => ControlMessageKind::QueueStatus,
            ControlMessage::ChannelOpened { .. } => ControlMessageKind::ChannelOpened,
            ControlMessage::ChannelClosed { .. } => ControlMessageKind::ChannelClosed,
            ControlMessage::FileStart { .. } => ControlMessageKind::FileStart,
            ControlMessage::FileComplete { .. } => ControlMessageKind::FileComplete,
            ControlMessage::Error { .. } => ControlMessageKind::Error,
        }
    }

    /// Encodes the message.
    pub fn to_bytes(&self) -> (r: Vec<u8>)
        ensures
            r@ == self@.encoded(),
    {
        let mut buf: Vec<u8> = Vec::new();
        buf.push(self.kind().code());
        match self {
            ControlMessage::Hello { protocol_version, features } => {
                wire::put_u16(&mut buf, *protocol_version);
                wire::put_u32(&mut buf, *features);
            },
            ControlMessage::Ack { sequence_number } => {
                wire::put_u64(&mut buf, *sequence_number);
            },
            ControlMessage::Nack { sequence_number, reason } => {
                wire::put_u64(&mut buf, *sequence_number);
                wire::put_u16(&mut buf, *reason);
            },
            ControlMessage::DataReady { chunk_id, payload_length } => {
                wire::put_u32(&mut buf, *chunk_id);
                wire::put_u16(&mut buf, *payload_length);
            },
            ControlMessage::Eos { sequence_number } => {
                wire::put_u64(&mut buf, *sequence_number);
            },
            ControlMessage::Reconnect { last_sequence_number } => {
                wire::put_u64(&mut buf, *last_sequence_number);
            },
            ControlMessage::Stats { bytes_sent, bytes_received, active_channels } => {
                wire::put_u64(&mut buf, *bytes_sent);
                wire::put_u64(&mut buf, *bytes_received);
                wire::put_u16(&mut buf, *active_channels);
            },
            ControlMessage::QueueStatus { queued_chunks, queued_bytes, total_capacity } => {
                wire::put_u32(&mut buf, *queued_chunks);
                wire::put_u32(&mut buf, *queued_bytes);
                wire::put_u32(&mut buf, *total_capacity);
            },
            ControlMessage::ChannelOpened { channel_id, port } => {
                wire::put_u16(&mut buf, *channel_id);
                wire::put_u16(&mut buf, *port);
            },
            ControlMessage::ChannelClosed { channel_id, code } => {
                wire::put_u16(&mut buf, *channel_id);
                wire::put_u16(&mut buf, *code);
            },
            ControlMessage::FileStart { filename, filesize, file_crc32c } => {
                let name = filename.as_str().as_bytes();
                wire::put_u16(&mut buf, name.len() as u16);
                buf.extend_from_slice(name);
                wire::put_u64(&mut buf, *filesize);
                wire::put_u32(&mut buf, *file_crc32c);
            },
            ControlMessage::FileComplete { success, expected_hash, computed_hash } => {
                buf.push(if *success {
                    1
                } else {
                    0
                });
                wire::put_u32(&mut buf, *expected_hash);
                wire::put_u32(&mut buf, *computed_hash);
            },
            ControlMessage::Error { code, detail } => {
                wire::put_u16(&mut buf, *code);
                wire::put_u32(&mut buf, *detail);
            },
        }
        assert(buf@ =~= self@.encoded());
        buf
    }

    /// Whether `value` is long enough to be decoded.
    pub fn is_decodable(value: &[u8]) -> (r: bool)
        ensures
            r == is_whole(value@),
    {
        if value.len() == 0 {
            return true;
        }
        let kind = match ControlMessageKind::try_from(value[0]) {
            Ok(kind) => kind,
            Err(_) => {
                return true;
            },
        };
        proof {
            assert(ControlMessageKind::is_code(value@[0]));
            assert(kind.code_of() == value@[0]);
        }
        match kind {
            ControlMessageKind::Hello => value.len() >= 7,
            ControlMessageKind::Ack => value.len() >= 9,
            ControlMessageKind::Nack => value.len() >= 11,
            ControlMessageKind::DataReady => value.len() >= 7,
            ControlMessageKind::Eos => value.len() >= 9,
            ControlMessageKind::Reconnect => value.len() >= 9,
            ControlMessageKind::Stats => value.len() >= 19,
            ControlMessageKind::QueueStatus => value.len() >= 13,
            ControlMessageKind::ChannelOpened => value.len() >= 5,
            ControlMessageKind::ChannelClosed => value.len() >= 5,
            ControlMessageKind::FileStart => {
                if value.len() < 3 {
                    return false;
                }
                let n: usize = wire::get_u16(value, 1) as usize;
                if value.len() < 3 + n {
                    return false;
                }
                match string_from_utf8(wire::copy_range(value, 3, 3 + n)) {
                    Some(_) => value.len() >= 3 + n + 12,
                    None => true,
                }
            },
            ControlMessageKind::FileComplete => value.len() >= 10,
            ControlMessageKind::Error => value.len() >= 7,
        }
    }

    /// Decodes a message. What follows its fields is not looked at.
    pub fn try_from(value: &[u8]) -> (r: Result<ControlMessage, &'static str>)
        requires
            is_whole(value@),
        ensures
            match r {
                Ok(m) => value@.len() > 0 && ControlMessageKind::is_code(value@[0]) && (value@[0]
                    == 0x0B ==> valid_utf8(name_bytes(value@))) && m@ == decoded(value@),
                Err(e) => {
                    ||| value@.len() == 0 && e@ == "empty control message"@
                    ||| value@.len() > 0 && !ControlMessageKind::is_code(value@[0]) && e@
                        == "invalid control message kind"@
                    ||| value@.len() > 0 && value@[0] == 0x0B && !valid_utf8(name_bytes(value@))
                        && e@ == "invalid utf-8 filename"@
                },
            },
    {
        if value.len() == 0 {
            return Err("empty control message");
        }
        let kind = match ControlMessageKind::try_from(value[0]) {
            Ok(kind) => kind,
            Err(e) => {
                return Err(e);
            },
        };
        proof {
            assert(ControlMessageKind::is_code(value@[0]));
            assert(kind.code_of() == value@[0]);
        }
        Ok(
            match kind {
                ControlMessageKind::Hello => ControlMessage::Hello {
                    protocol_version: wire::get_u16(value, 1),
                    features: wire::get_u32(value, 3),
                },
                ControlMessageKind::Ack => ControlMessage::Ack {
                    sequence_number: wire::get_u64(value, 1),
                },
                ControlMessageKind::Nack => ControlMessage::Nack {
                    sequence_number: wire::get_u64(value, 1),
                    reason: wire::get_u16(value, 9),
                },
                ControlMessageKind::DataReady => ControlMessage::DataReady {
                    chunk_id: wire::get_u32(value, 1),
                    payload_length: wire::get_u16(value, 5),
                },
                ControlMessageKind::Eos => ControlMessage::Eos {
                    sequence_number: wire::get_u64(value, 1),
                },
                ControlMessageKind::Reconnect => ControlMessage::Reconnect {
                    last_sequence_number: wire::get_u64(value, 1),
                },
                ControlMessageKind::Stats => ControlMessage::Stats {
                    bytes_sent: wire::get_u64(value, 1),
                    bytes_received: wire::get_u64(value, 9),
                    active_channels: wire::get_u16(value, 17),
                },
                ControlMessageKind::QueueStatus => ControlMessage::QueueStatus {
                    queued_chunks: wire::get_u32(value, 1),
                    queued_bytes: wire::get_u32(value, 5),
                    total_capacity: wire::get_u32(value, 9),
                },
                ControlMessageKind::ChannelOpened => ControlMessage::ChannelOpened {
                    channel_id: wire::get_u16(value, 1),
                    port: wire::get_u16(value, 3),
                },
                ControlMessageKind::ChannelClosed => ControlMessage::ChannelClosed {
                    channel_id: wire::get_u16(value, 1),
                    code: wire::get_u16(value, 3),
                },
                ControlMessageKind::FileStart => {
                    let n: usize = wire::get_u16(value, 1) as usize;
                    let filename = match string_from_utf8(wire::copy_range(value, 3, 3 + n)) {
                        Some(name) => name,
                        None => {
                            return Err("invalid utf-8 filename");
                        },
                    };
                    ControlMessage::FileStart {
                        filename,
                        filesize: wire::get_u64(value, 3 + n),
                        file_crc32c: wire::get_u32(value, 11 + n),
                    }
                },
                ControlMessageKind::FileComplete => ControlMessage::FileComplete {
                    success: value[1] != 0,
                    expected_hash: wire::get_u32(value, 2),
                    computed_hash: wire::get_u32(value, 6),
                },
                ControlMessageKind::Error => ControlMessage::Error {
                    code: wire::get_u16(value, 1),
                    detail: wire::get_u32(value, 3),
                },
            },
        )
    }

    /// The text shown for the message.
    pub fn to_string(&self) -> (r: String)
        ensures
            r@ == self@.shown(),
    {
        let mut s = String::new();
        match self {
            ControlMessage::Hello { protocol_version, features } => {
                s.append("HELLO(protocol_version=");
                push_decimal(&mut s, *protocol_version as u64);
                s.append(", features=");
                push_decimal(&mut s, *features as u64);
            },
            ControlMessage::Ack { sequence_number } => {
                s.append("ACK(sequence_number=");
                push_decimal(&mut s, *sequence_number);
            },
            ControlMessage::Nack { sequence_number, reason } => {
                s.append("NACK(sequence_number=");
                push_decimal(&mut s, *sequence_number);
                s.append(", reason=");
                push_decimal(&mut s, *reason as u64);
            },
            ControlMessage::DataReady { chunk_id, payload_length } => {
                s.append("DATA_READY(chunk_id=");
                push_decimal(&mut s, *chunk_id as u64);
                s.append(", payload_length=");
                push_decimal(&mut s, *payload_length as u64);
            },
            ControlMessage::Eos { sequence_number } => {
                s.append("EOS(sequence_number=");
                push_decimal(&mut s, *sequence_number);
            },
            ControlMessage::Reconnect { last_sequence_number } => {
                s.append("RECONNECT(last_sequence_number=");
                push_decimal(&mut s, *last_sequence_number);
            },
            ControlMessage::Stats { bytes_sent, bytes_received, active_channels } => {
                s.append("STATS(bytes_sent=");
                push_decimal(&mut s, *bytes_sent);
                s.append(", bytes_received=");
                push_decimal(&mut s, *bytes_received);
                s.append(", active_channels=");
                push_decimal(&mut s, *active_channels as u64);
            },
            ControlMessage::QueueStatus { queued_chunks, queued_bytes, total_capacity } => {
                s.append("QUEUE_STATUS(chunks=");
                push_decimal(&mut s, *queued_chunks as u64);
                s.append(", bytes=");
                push_decimal(&mut s, *queued_bytes as u64);
                s.append(", capacity=");
                push_decimal(&mut s, *total_capacity as u64);
            },
            ControlMessage::ChannelOpened { channel_id, port } => {
                s.append("CHANNEL_OPENED(channel_id=");
                push_decimal(&mut s, *channel_id as u64);
                s.append(", port=");
                push_decimal(&mut s, *port as u64);
            },
            ControlMessage::ChannelClosed { channel_id, code } => {
                s.append("CHANNEL_CLOSED(channel_id=");
                push_decimal(&mut s, *channel_id as u64);
                s.append(", code=");
                push_decimal(&mut s, *code as u64);
            },
            ControlMessage::FileStart { filename, filesize, file_crc32c } => {
                s.append("FILE_START(filename=");
                s.append(filename.as_str());
                s.append(", filesize=");
                push_decimal(&mut s, *filesize);
                s.append(", file_crc32c=");
                push_decimal(&mut s, *file_crc32c as u64);
            },
            ControlMessage::FileComplete { success, expected_hash, computed_hash } => {
                s.append("FILE_COMPLETE(success=");
                if *success {
                    s.append("true");
                } else {
                    s.append("false");
                }
                s.append(", expected_hash=");
                push_decimal(&mut s, *expected_hash as u64);
                s.append(", computed_hash=");
                push_decimal(&mut s, *computed_hash as u64);
            },
            ControlMessage::Error { code, detail } => {
                s.append("ERROR(code=");
                push_decimal(&mut s, *code as u64);
                s.append(", detail=");
                push_decimal(&mut s, *detail as u64);
            },
        }
        s.append(")");
        assert(s@ =~= self@.shown());
        s
    }
}

} // verus!
