//! The form of the control messages on the wire and on the screen.

use crate::protocol::control;
use crate::protocol::control::{ControlMessage, ControlMessageKind, MessageModel};
use crate::text;
use crate::wire;
use vstd::prelude::*;
use vstd::utf8::*;

verus! {

/// Each kind has a byte of its own.
pub proof fn lemma_kinds_by_code(kind: ControlMessageKind, value: u8)
    ensures
        match kind {
            ControlMessageKind::Hello => kind.code_of() == 1,
            ControlMessageKind::Ack => kind.code_of() == 2,
            ControlMessageKind::Nack => kind.code_of() == 3,
            ControlMessageKind::DataReady => kind.code_of() == 4,
            ControlMessageKind::Eos => kind.code_of() == 5,
            ControlMessageKind::Reconnect => kind.code_of() == 6,
            ControlMessageKind::Stats => kind.code_of() == 7,
            ControlMessageKind::QueueStatus => kind.code_of() == 8,
            ControlMessageKind::ChannelOpened => kind.code_of() == 9,
            ControlMessageKind::ChannelClosed => kind.code_of() == 10,
            ControlMessageKind::FileStart => kind.code_of() == 11,
            ControlMessageKind::FileComplete => kind.code_of() == 12,
            ControlMessageKind::Error => kind.code_of() == 255,
        },
        ControlMessageKind::is_code(value) <==> exists|k: ControlMessageKind|
            #[trigger] k.code_of() == value,
{
    let k0 = ControlMessageKind::Hello;
    let k1 = ControlMessageKind::Ack;
    let k2 = ControlMessageKind::Nack;
    let k3 = ControlMessageKind::DataReady;
    let k4 = ControlMessageKind::Eos;
    let k5 = ControlMessageKind::Reconnect;
    let k6 = ControlMessageKind::Stats;
    let k7 = ControlMessageKind::QueueStatus;
    let k8 = ControlMessageKind::ChannelOpened;
    let k9 = ControlMessageKind::ChannelClosed;
    let k10 = ControlMessageKind::FileStart;
    let k11 = ControlMessageKind::FileComplete;
    let k12 = ControlMessageKind::Error;
    assert(k0.code_of() > 0 && k1.code_of() > 0 && k2.code_of() > 0 && k3.code_of() > 0 && k4.code_of() > 0 && k5.code_of() > 0 && k6.code_of() > 0 && k7.code_of() > 0 && k8.code_of() > 0 && k9.code_of() > 0 && k10.code_of() > 0 && k11.code_of() > 0 && k12.code_of() > 0);
}

proof fn lemma_hello_layout(protocol_version: u16, features: u32)
    ensures
        ({
            let s = MessageModel::Hello { protocol_version, features }.encoded();
            &&& s.len() == 7
            &&& s[0] == 1
            &&& wire::un16(s, 1) == protocol_version
            &&& wire::un32(s, 3) == features
        }),
{
    let m = MessageModel::Hello { protocol_version, features };
    control::lemma_message_round_trip(m, Seq::empty());
    assert(m.encoded() + Seq::<u8>::empty() =~= m.encoded());
}

proof fn lemma_ack_layout(sequence_number: u64)
    ensures
        ({
            let s = MessageModel::Ack { sequence_number }.encoded();
            &&& s.len() == 9
            &&& s[0] == 2
            &&& wire::un64(s, 1) == sequence_number
        }),
{
    let m = MessageModel::Ack { sequence_number };
    control::lemma_message_round_trip(m, Seq::empty());
    assert(m.encoded() + Seq::<u8>::empty() =~= m.encoded());
}

proof fn lemma_nack_layout(sequence_number: u64, reason: u16)
    ensures
        ({
            let s = MessageModel::Nack { sequence_number, reason }.encoded();
            &&& s.len() == 11
            &&& s[0] == 3
            &&& wire::un64(s, 1) == sequence_number
            &&& wire::un16(s, 9) == reason
        }),
{
    let m = MessageModel::Nack { sequence_number, reason };
    control::lemma_message_round_trip(m, Seq::empty());
    assert(m.encoded() + Seq::<u8>::empty() =~= m.encoded());
}

proof fn lemma_data_ready_layout(chunk_id: u32, payload_length: u16)
    ensures
        ({
            let s = MessageModel::DataReady { chunk_id, payload_length }.encoded();
            &&& s.len() == 7
            &&& s[0] == 4
            &&& wire::un32(s, 1) == chunk_id
            &&& wire::un16(s, 5) == payload_length
        }),
{
    let m = MessageModel::DataReady { chunk_id, payload_length };
    control::lemma_message_round_trip(m, Seq::empty());
    assert(m.encoded() + Seq::<u8>::empty() =~= m.encoded());
}

proof fn lemma_eos_layout(sequence_number: u64)
    ensures
        ({
            let s = MessageModel::Eos { sequence_number }.encoded();
            &&& s.len() == 9
            &&& s[0] == 5
            &&& wire::un64(s, 1) == sequence_number
        }),
{
    let m = MessageModel::Eos { sequence_number };
    control::lemma_message_round_trip(m, Seq::empty());
    assert(m.encoded() + Seq::<u8>::empty() =~= m.encoded());
}

proof fn lemma_reconnect_layout(last_sequence_number: u64)
    ensures
        ({
            let s = MessageModel::Reconnect { last_sequence_number }.encoded();
            &&& s.len() == 9
            &&& s[0] == 6
            &&& wire::un64(s, 1) == last_sequence_number
        }),
{
    let m = MessageModel::Reconnect { last_sequence_number };
    control::lemma_message_round_trip(m, Seq::empty());
    assert(m.encoded() + Seq::<u8>::empty() =~= m.encoded());
}

proof fn lemma_stats_layout(bytes_sent: u64, bytes_received: u64, active_channels: u16)
    ensures
        ({
            let s = MessageModel::Stats { bytes_sent, bytes_received, active_channels }.encoded();
            &&& s.len() == 19
            &&& s[0] == 7
            &&& wire::un64(s, 1) == bytes_sent
            &&& wire::un64(s, 9) == bytes_received
            &&& wire::un16(s, 17) == active_channels
        }),
{
    let m = MessageModel::Stats { bytes_sent, bytes_received, active_channels };
    control::lemma_message_round_trip(m, Seq::empty());
    assert(m.encoded() + Seq::<u8>::empty() =~= m.encoded());
}

proof fn lemma_queue_status_layout(queued_chunks: u32, queued_bytes: u32, total_capacity: u32)
    ensures
        ({
            let s = MessageModel::QueueStatus { queued_chunks, queued_bytes, total_capacity }.encoded();
            &&& s.len() == 13
            &&& s[0] == 8
            &&& wire::un32(s, 1) == queued_chunks
            &&& wire::un32(s, 5) == queued_bytes
            &&& wire::un32(s, 9) == total_capacity
        }),
{
    let m = MessageModel::QueueStatus { queued_chunks, queued_bytes, total_capacity };
    control::lemma_message_round_trip(m, Seq::empty());
    assert(m.encoded() + Seq::<u8>::empty() =~= m.encoded());
}

proof fn lemma_channel_opened_layout(channel_id: u16, port: u16)
    ensures
        ({
            let s = MessageModel::ChannelOpened { channel_id, port }.encoded();
            &&& s.len() == 5
            &&& s[0] == 9
            &&& wire::un16(s, 1) == channel_id
            &&& wire::un16(s, 3) == port
        }),
{
    let m = MessageModel::ChannelOpened { channel_id, port };
    control::lemma_message_round_trip(m, Seq::empty());
    assert(m.encoded() + Seq::<u8>::empty() =~= m.encoded());
}

proof fn lemma_channel_closed_layout(channel_id: u16, code: u16)
    ensures
        ({
            let s = MessageModel::ChannelClosed { channel_id, code }.encoded();
            &&& s.len() == 5
            &&& s[0] == 10
            &&& wire::un16(s, 1) == channel_id
            &&& wire::un16(s, 3) == code
        }),
{
    let m = MessageModel::ChannelClosed { channel_id, code };
    control::lemma_message_round_trip(m, Seq::empty());
    assert(m.encoded() + Seq::<u8>::empty() =~= m.encoded());
}

proof fn lemma_file_start_layout(filename: Seq<char>, filesize: u64, file_crc32c: u32)
    requires
        encode_utf8(filename).len() <= u16::MAX,
    ensures
        ({
            let s = MessageModel::FileStart { filename, filesize, file_crc32c }.encoded();
            let n = s.len() - 15;
            &&& n >= 0
            &&& s[0] == 11
            &&& wire::un16(s, 1) == n
            &&& s.subrange(3, 3 + n) == encode_utf8(filename)
            &&& wire::un64(s, 3 + n) == filesize
            &&& wire::un32(s, 11 + n) == file_crc32c
        }),
{
    let m = MessageModel::FileStart { filename, filesize, file_crc32c };
    control::lemma_message_round_trip(m, Seq::empty());
    assert(m.encoded() + Seq::<u8>::empty() =~= m.encoded());
}

proof fn lemma_file_complete_layout(success: bool, expected_hash: u32, computed_hash: u32)
    ensures
        ({
            let s = MessageModel::FileComplete { success, expected_hash, computed_hash }.encoded();
            &&& s.len() == 10
            &&& s[0] == 12
            &&& success ==> s[1] == 1
            &&& !success ==> s[1] == 0
            &&& wire::un32(s, 2) == expected_hash
            &&& wire::un32(s, 6) == computed_hash
        }),
{
    let m = MessageModel::FileComplete { success, expected_hash, computed_hash };
    control::lemma_message_round_trip(m, Seq::empty());
    assert(m.encoded() + Seq::<u8>::empty() =~= m.encoded());
}

proof fn lemma_error_layout(code: u16, detail: u32)
    ensures
        ({
            let s = MessageModel::Error { code, detail }.encoded();
            &&& s.len() == 7
            &&& s[0] == 255
            &&& wire::un16(s, 1) == code
            &&& wire::un32(s, 3) == detail
        }),
{
    let m = MessageModel::Error { code, detail };
    control::lemma_message_round_trip(m, Seq::empty());
    assert(m.encoded() + Seq::<u8>::empty() =~= m.encoded());
}

/// Where the fields of a message stand: the byte of its kind first, then the fields in
/// the order in which they are declared, each as an integer with the most significant
/// byte first. A file name is preceded by the number of its bytes.
pub proof fn lemma_message_layout(m: ControlMessage)
    requires
        m matches ControlMessage::FileStart { filename, .. } ==> encode_utf8(filename@).len()
            <= u16::MAX,
    ensures
        ({
            let s = m@.encoded();
            match m {
                ControlMessage::Hello { protocol_version, features } => {
                    &&& s.len() == 7
                    &&& s[0] == 1
                    &&& wire::un16(s, 1) == protocol_version
                    &&& wire::un32(s, 3) == features
                },
                ControlMessage::Ack { sequence_number } => {
                    &&& s.len() == 9
                    &&& s[0] == 2
                    &&& wire::un64(s, 1) == sequence_number
                },
                ControlMessage::Nack { sequence_number, reason } => {
                    &&& s.len() == 11
                    &&& s[0] == 3
                    &&& wire::un64(s, 1) == sequence_number
                    &&& wire::un16(s, 9) == reason
                },
                ControlMessage::DataReady { chunk_id, payload_length } => {
                    &&& s.len() == 7
                    &&& s[0] == 4
                    &&& wire::un32(s, 1) == chunk_id
                    &&& wire::un16(s, 5) == payload_length
                },
                ControlMessage::Eos { sequence_number } => {
                    &&& s.len() == 9
                    &&& s[0] == 5
                    &&& wire::un64(s, 1) == sequence_number
                },
                ControlMessage::Reconnect { last_sequence_number } => {
                    &&& s.len() == 9
                    &&& s[0] == 6
                    &&& wire::un64(s, 1) == last_sequence_number
                },
                ControlMessage::Stats { bytes_sent, bytes_received, active_channels } => {
                    &&& s.len() == 19
                    &&& s[0] == 7
                    &&& wire::un64(s, 1) == bytes_sent
                    &&& wire::un64(s, 9) == bytes_received
                    &&& wire::un16(s, 17) == active_channels
                },
                ControlMessage::QueueStatus { queued_chunks, queued_bytes, total_capacity } => {
                    &&& s.len() == 13
                    &&& s[0] == 8
                    &&& wire::un32(s, 1) == queued_chunks
                    &&& wire::un32(s, 5) == queued_bytes
                    &&& wire::un32(s, 9) == total_capacity
                },
                ControlMessage::ChannelOpened { channel_id, port } => {
                    &&& s.len() == 5
                    &&& s[0] == 9
                    &&& wire::un16(s, 1) == channel_id
                    &&& wire::un16(s, 3) == port
                },
                ControlMessage::ChannelClosed { channel_id, code } => {
                    &&& s.len() == 5
                    &&& s[0] == 10
                    &&& wire::un16(s, 1) == channel_id
                    &&& wire::un16(s, 3) == code
                },
                ControlMessage::FileStart { filename, filesize, file_crc32c } => {
                    let n = s.len() - 15;
                    &&& n >= 0
                    &&& s[0] == 11
                    &&& wire::un16(s, 1) == n
                    &&& s.subrange(3, 3 + n) == encode_utf8(filename@)
                    &&& wire::un64(s, 3 + n) == filesize
                    &&& wire::un32(s, 11 + n) == file_crc32c
                },
                ControlMessage::FileComplete { success, expected_hash, computed_hash } => {
                    &&& s.len() == 10
                    &&& s[0] == 12
                    &&& success ==> s[1] == 1
                    &&& !success ==> s[1] == 0
                    &&& wire::un32(s, 2) == expected_hash
                    &&& wire::un32(s, 6) == computed_hash
                },
                ControlMessage::Error { code, detail } => {
                    &&& s.len() == 7
                    &&& s[0] == 255
                    &&& wire::un16(s, 1) == code
                    &&& wire::un32(s, 3) == detail
                },
            }
        }),
{
    match m {
        ControlMessage::Hello { protocol_version, features } => {
            lemma_hello_layout(protocol_version, features);
        },
        ControlMessage::Ack { sequence_number } => {
            lemma_ack_layout(sequence_number);
        },
        ControlMessage::Nack { sequence_number, reason } => {
            lemma_nack_layout(sequence_number, reason);
        },
        ControlMessage::DataReady { chunk_id, payload_length } => {
            lemma_data_ready_layout(chunk_id, payload_length);
        },
        ControlMessage::Eos { sequence_number } => {
            lemma_eos_layout(sequence_number);
        },
        ControlMessage::Reconnect { last_sequence_number } => {
            lemma_reconnect_layout(last_sequence_number);
        },
        ControlMessage::Stats { bytes_sent, bytes_received, active_channels } => {
            lemma_stats_layout(bytes_sent, bytes_received, active_channels);
        },
        ControlMessage::QueueStatus { queued_chunks, queued_bytes, total_capacity } => {
            lemma_queue_status_layout(queued_chunks, queued_bytes, total_capacity);
        },
        ControlMessage::ChannelOpened { channel_id, port } => {
            lemma_channel_opened_layout(channel_id, port);
        },
        ControlMessage::ChannelClosed { channel_id, code } => {
            lemma_channel_closed_layout(channel_id, code);
        },
        ControlMessage::FileStart { filename, filesize, file_crc32c } => {
            lemma_file_start_layout(filename@, filesize, file_crc32c);
        },
        ControlMessage::FileComplete { success, expected_hash, computed_hash } => {
            lemma_file_complete_layout(success, expected_hash, computed_hash);
        },
        ControlMessage::Error { code, detail } => {
            lemma_error_layout(code, detail);
        },
    }
}

/// Encoding what was decoded gives back the bytes that were read. Only a result of a
/// file transfer may be written in more than one way: any byte but zero is a success.
pub proof fn lemma_decoding_is_undone(s: Seq<u8>)
    requires
        s.len() > 0,
        control::is_whole(s),
        ControlMessageKind::is_code(s[0]),
        s[0] == 11 ==> valid_utf8(control::name_bytes(s)),
    ensures
        ({
            let e = control::decoded(s).encoded();
            &&& e.len() <= s.len()
            &&& e[0] == s[0]
            &&& s[0] == 12 ==> e[1] == (if s[1] == 0 {
                0u8
            } else {
                1u8
            })
            &&& e.skip(2) == s.subrange(2, e.len() as int)
            &&& s[0] != 12 ==> e == s.take(e.len() as int)
        }),
{
    if s[0] == 11 {
        lemma_decoding_file_start(s);
    } else if s[0] == 12 {
        lemma_decoding_file_complete(s);
    } else {
        lemma_decoding_plain_fields(s);
        lemma_plain_len(s);
    }
    let e = control::decoded(s).encoded();
    if s[0] != 12 {
        assert(e.skip(2) =~= s.take(e.len() as int).skip(2));
        assert(s.take(e.len() as int).skip(2) =~= s.subrange(2, e.len() as int));
    }
}

proof fn lemma_decoding_file_start(s: Seq<u8>)
    requires
        s.len() > 0,
        control::is_whole(s),
        s[0] == 11,
        valid_utf8(control::name_bytes(s)),
    ensures
        ({
            let e = control::decoded(s).encoded();
            2 < e.len() <= s.len() && e == s.take(e.len() as int)
        }),
{
    let e = control::decoded(s).encoded();
    let n = wire::un16(s, 1) as int;
    wire::lemma_be16(s, 1);
    wire::lemma_be64(s, 3 + n);
    wire::lemma_be32(s, 11 + n);
    decode_utf8_encode_utf8(control::name_bytes(s));
    assert(e =~= seq![11u8] + (s.subrange(1, 3) + s.subrange(3, 3 + n) + s.subrange(
        3 + n,
        11 + n,
    ) + s.subrange(11 + n, 15 + n)));
    assert(e =~= s.take(15 + n));
}

proof fn lemma_decoding_file_complete(s: Seq<u8>)
    requires
        s.len() > 0,
        control::is_whole(s),
        s[0] == 12,
    ensures
        ({
            let e = control::decoded(s).encoded();
            &&& e.len() == 10 <= s.len()
            &&& e[0] == 12
            &&& e[1] == (if s[1] == 0 {
                0u8
            } else {
                1u8
            })
            &&& e.skip(2) == s.subrange(2, 10)
        }),
{
    let e = control::decoded(s).encoded();
    wire::lemma_be32(s, 2);
    wire::lemma_be32(s, 6);
    assert(e =~= seq![12u8, if s[1] == 0 {
        0u8
    } else {
        1u8
    }] + s.subrange(2, 6) + s.subrange(6, 10));
    assert(e.skip(2) =~= s.subrange(2, 10));
}

proof fn lemma_decoding_plain_fields(s: Seq<u8>)
    requires
        s.len() > 0,
        control::is_whole(s),
        ControlMessageKind::is_code(s[0]),
        s[0] != 11 && s[0] != 12,
    ensures
        ({
            let e = control::decoded(s).encoded();
            2 < e.len() <= s.len() && e == s.take(e.len() as int)
        }),
{
    let e = control::decoded(s).encoded();
    if s[0] == 1 {
        wire::lemma_be16(s, 1);
        wire::lemma_be32(s, 3);
        assert(e =~= s.take(e.len() as int));
    } else if s[0] == 2 {
        wire::lemma_be64(s, 1);
        assert(e =~= s.take(e.len() as int));
    } else if s[0] == 3 {
        wire::lemma_be64(s, 1);
        wire::lemma_be16(s, 9);
        assert(e =~= s.take(e.len() as int));
    } else if s[0] == 4 {
        wire::lemma_be32(s, 1);
        wire::lemma_be16(s, 5);
        assert(e =~= s.take(e.len() as int));
    } else if s[0] == 5 {
        wire::lemma_be64(s, 1);
        assert(e =~= s.take(e.len() as int));
    } else if s[0] == 6 {
        wire::lemma_be64(s, 1);
        assert(e =~= s.take(e.len() as int));
    } else if s[0] == 7 {
        wire::lemma_be64(s, 1);
        wire::lemma_be64(s, 9);
        wire::lemma_be16(s, 17);
        assert(e =~= s.take(e.len() as int));
    } else if s[0] == 8 {
        wire::lemma_be32(s, 1);
        wire::lemma_be32(s, 5);
        wire::lemma_be32(s, 9);
        assert(e =~= s.take(e.len() as int));
    } else if s[0] == 9 {
        wire::lemma_be16(s, 1);
        wire::lemma_be16(s, 3);
        assert(e =~= s.take(e.len() as int));
    } else if s[0] == 10 {
        wire::lemma_be16(s, 1);
        wire::lemma_be16(s, 3);
        assert(e =~= s.take(e.len() as int));
    } else if s[0] == 255 {
        wire::lemma_be16(s, 1);
        wire::lemma_be32(s, 3);
        assert(e =~= s.take(e.len() as int));
    }
}

proof fn lemma_plain_len(s: Seq<u8>)
    requires
        ControlMessageKind::is_code(s[0]),
        s[0] != 11,
    ensures
        control::decoded(s).encoded().len() == 1 + control::fixed_len(s[0]),
{
    lemma_code_decides(s);
    lemma_model_len(control::decoded(s));
}

proof fn lemma_code_decides(s: Seq<u8>)
    requires
        ControlMessageKind::is_code(s[0]),
    ensures
        control::decoded(s).kind_of().code_of() == s[0],
{
}

proof fn lemma_model_len(m: MessageModel)
    requires
        !(m is FileStart),
    ensures
        m.encoded().len() == 1 + control::fixed_len(m.kind_of().code_of()),
{
    match m {
        MessageModel::Hello { protocol_version, features } => {
            assert(m.encoded().len() == 7);
        },
        MessageModel::Nack { sequence_number, reason } => {
            assert(m.encoded().len() == 11);
        },
        MessageModel::Stats { bytes_sent, bytes_received, active_channels } => {
            assert(m.encoded().len() == 19);
        },
        _ => {},
    }
}

/// Bytes can be decoded where their kind is unknown, and else where they are as many as
/// the message has. Where a file name is not valid, nothing behind it is needed.
pub proof fn lemma_whole_messages(s: Seq<u8>)
    ensures
        s.len() == 0 ==> control::is_whole(s),
        s.len() > 0 && !ControlMessageKind::is_code(s[0]) ==> control::is_whole(s),
        s.len() > 0 && ControlMessageKind::is_code(s[0]) && s[0] != 11 ==> (control::is_whole(s)
            <==> s.len() >= control::decoded(s).encoded().len()),
        s.len() > 0 && s[0] == 11 ==> (control::is_whole(s) <==> s.len() >= 3 && {
            let n = wire::un16(s, 1);
            s.len() >= 3 + n && (valid_utf8(s.subrange(3, 3 + n)) ==> s.len() >= 15 + n)
        }),
{
    if s.len() > 0 && ControlMessageKind::is_code(s[0]) && s[0] != 11 {
        lemma_plain_len(s);
    }
}

/// The text shown for a message names it and its fields.
pub proof fn lemma_message_text(m: ControlMessage)
    ensures
        ({
            let s = m@.shown();
            match m {
                ControlMessage::Hello { protocol_version, features } => s == "HELLO(protocol_version="@ + text::decimal(protocol_version as nat) + ", features="@ + text::decimal(features as nat) + ")"@,
                ControlMessage::Ack { sequence_number } => s == "ACK(sequence_number="@ + text::decimal(sequence_number as nat) + ")"@,
                ControlMessage::Nack { sequence_number, reason } => s == "NACK(sequence_number="@ + text::decimal(sequence_number as nat) + ", reason="@ + text::decimal(reason as nat) + ")"@,
                ControlMessage::DataReady { chunk_id, payload_length } => s == "DATA_READY(chunk_id="@ + text::decimal(chunk_id as nat) + ", payload_length="@ + text::decimal(payload_length as nat) + ")"@,
                ControlMessage::Eos { sequence_number } => s == "EOS(sequence_number="@ + text::decimal(sequence_number as nat) + ")"@,
                ControlMessage::Reconnect { last_sequence_number } => s == "RECONNECT(last_sequence_number="@ + text::decimal(last_sequence_number as nat) + ")"@,
                ControlMessage::Stats { bytes_sent, bytes_received, active_channels } => s == "STATS(bytes_sent="@ + text::decimal(bytes_sent as nat) + ", bytes_received="@ + text::decimal(bytes_received as nat) + ", active_channels="@ + text::decimal(active_channels as nat) + ")"@,
                ControlMessage::QueueStatus { queued_chunks, queued_bytes, total_capacity } => s == "QUEUE_STATUS(chunks="@ + text::decimal(queued_chunks as nat) + ", bytes="@ + text::decimal(queued_bytes as nat) + ", capacity="@ + text::decimal(total_capacity as nat) + ")"@,
                ControlMessage::ChannelOpened { channel_id, port } => s == "CHANNEL_OPENED(channel_id="@ + text::decimal(channel_id as nat) + ", port="@ + text::decimal(port as nat) + ")"@,
                ControlMessage::ChannelClosed { channel_id, code } => s == "CHANNEL_CLOSED(channel_id="@ + text::decimal(channel_id as nat) + ", code="@ + text::decimal(code as nat) + ")"@,
                ControlMessage::FileStart { filename, filesize, file_crc32c } => s == "FILE_START(filename="@ + filename@ + ", filesize="@ + text::decimal(filesize as nat) + ", file_crc32c="@ + text::decimal(file_crc32c as nat) + ")"@,
                ControlMessage::FileComplete { success, expected_hash, computed_hash } => s == "FILE_COMPLETE(success="@ + (if success { "true"@ } else { "false"@ }) + ", expected_hash="@ + text::decimal(expected_hash as nat) + ", computed_hash="@ + text::decimal(computed_hash as nat) + ")"@,
                ControlMessage::Error { code, detail } => s == "ERROR(code="@ + text::decimal(code as nat) + ", detail="@ + text::decimal(detail as nat) + ")"@,
            }
        }),
{
}

} // verus!
