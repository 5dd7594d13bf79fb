use braid::control::client::{
    decode_message, encode_message, heartbeat, heartbeat_due, ControlError, FrameReader,
    HEARTBEAT_NS,
};
use braid::control::negotiation::{
    accept_hello, accept_negotiation, negotiate, NegotiationConfig, NegotiationError,
    NegotiationResult, SenderNegotiation, FEATURE_COMPRESSION_LZ4, FEATURE_COMPRESSION_ZSTD,
};
use braid::control::server::{RetryAction, RetrySchedule, MAX_RETRY_DELAY_NS};
use braid::protocol::control::ControlMessage;

fn config(channel_count: u8) -> NegotiationConfig {
    NegotiationConfig {
        channel_count,
        min_chunk: 10,
        max_chunk: 20,
        mtu: 14,
        compression_lz4: false,
        compression_zstd: false,
    }
}

/// Runs both sides; the receiver gets a port for every channel asked for.
fn run_negotiation(
    config: NegotiationConfig,
) -> (
    Result<NegotiationResult, NegotiationError>,
    Result<(NegotiationConfig, NegotiationResult), NegotiationError>,
) {
    let (_sender, hello) = SenderNegotiation::start(config);
    let asked = accept_hello(&hello).unwrap();
    let ports: Vec<Option<u16>> = (0..asked.channel_count as u16).map(|i| Some(40_000 + i)).collect();
    let (answers, receiver) = accept_negotiation(&hello, &ports);
    let sender = negotiate(config, &answers).expect("the answers should settle it");
    (sender, receiver)
}

#[test]
fn full_negotiation_succeeds() {
    let (sender_res, receiver_res) = run_negotiation(config(4));
    let sender = sender_res.expect("sender negotiation should succeed");
    assert_eq!(sender.channels.len(), 4, "should have 4 channels");
    for (i, ch) in sender.channels.iter().enumerate() {
        assert_eq!(ch.channel_id, i as u16, "channel_id should be {}", i);
        assert!(ch.port > 0, "port should be non-zero");
    }
    let (recv_config, recv_result) = receiver_res.expect("receiver negotiation should succeed");
    assert_eq!(recv_config.channel_count, 4);
    assert_eq!(recv_result.channels.len(), 4);
}

#[test]
fn single_channel_negotiation() {
    let (sender_res, receiver_res) = run_negotiation(config(1));
    let sender = sender_res.expect("sender negotiation should succeed");
    assert_eq!(sender.channels.len(), 1);
    assert_eq!(sender.channels[0].channel_id, 0);
    assert!(sender.channels[0].port > 0);
    let (_cfg, recv) = receiver_res.expect("receiver should succeed");
    assert_eq!(recv.channels.len(), 1);
}

#[test]
fn max_channels_negotiation() {
    let (sender_res, receiver_res) = run_negotiation(config(63));
    let sender = sender_res.expect("sender negotiation should succeed");
    assert_eq!(sender.channels.len(), 63);
    assert_eq!(sender.channels[0].channel_id, 0);
    assert_eq!(sender.channels[62].channel_id, 62);
    let (_cfg, recv) = receiver_res.expect("receiver should succeed");
    assert_eq!(recv.channels.len(), 63);
}

#[test]
fn features_round_trip() {
    let decoded = NegotiationConfig::from_features(config(8).to_features());
    assert_eq!(decoded.channel_count, 8);
    assert_eq!(decoded.min_chunk, 10);
    assert_eq!(decoded.max_chunk, 20);
    assert_eq!(decoded.mtu, 14);
    assert!(!decoded.compression_lz4);
    assert!(!decoded.compression_zstd);
}

#[test]
fn features_compression_lz4_round_trip() {
    let config = NegotiationConfig { compression_lz4: true, ..config(4) };
    let features = config.to_features();
    assert!(features & FEATURE_COMPRESSION_LZ4 != 0, "LZ4 bit should be set");
    assert!(features & FEATURE_COMPRESSION_ZSTD == 0, "Zstd bit should be clear");
    let decoded = NegotiationConfig::from_features(features);
    assert!(decoded.compression_lz4);
    assert!(!decoded.compression_zstd);
    assert_eq!(decoded.channel_count, 4);
}

#[test]
fn features_compression_zstd_round_trip() {
    let config = NegotiationConfig { compression_zstd: true, ..config(4) };
    let features = config.to_features();
    assert!(features & FEATURE_COMPRESSION_ZSTD != 0, "Zstd bit should be set");
    assert!(features & FEATURE_COMPRESSION_LZ4 == 0, "LZ4 bit should be clear");
    let decoded = NegotiationConfig::from_features(features);
    assert!(!decoded.compression_lz4);
    assert!(decoded.compression_zstd);
}

#[test]
fn features_compression_both_round_trip() {
    let config = NegotiationConfig { compression_lz4: true, compression_zstd: true, ..config(2) };
    let features = config.to_features();
    assert!(features & FEATURE_COMPRESSION_LZ4 != 0);
    assert!(features & FEATURE_COMPRESSION_ZSTD != 0);
    let decoded = NegotiationConfig::from_features(features);
    assert!(decoded.compression_lz4);
    assert!(decoded.compression_zstd);
}

#[test]
fn features_compression_bits_dont_interfere() {
    let config_no_compress = NegotiationConfig {
        channel_count: 63,
        min_chunk: 255,
        max_chunk: 255,
        mtu: 255,
        compression_lz4: false,
        compression_zstd: false,
    };
    let config_with_compress = NegotiationConfig {
        compression_lz4: true,
        compression_zstd: true,
        ..config_no_compress
    };
    let f1 = config_no_compress.to_features();
    let f2 = config_with_compress.to_features();
    assert_eq!(f1 & 0x3FFFFFFF, f2 & 0x3FFFFFFF);
    assert_eq!(f1 & 0xC0000000, 0);
    assert_eq!(f2 & 0xC0000000, 0xC0000000);
}

#[test]
fn features_zero_values() {
    let config = NegotiationConfig {
        channel_count: 0,
        min_chunk: 0,
        max_chunk: 0,
        mtu: 0,
        compression_lz4: false,
        compression_zstd: false,
    };
    let decoded = NegotiationConfig::from_features(config.to_features());
    assert_eq!(decoded.channel_count, 0);
    assert_eq!(decoded.min_chunk, 0);
    assert_eq!(decoded.max_chunk, 0);
    assert_eq!(decoded.mtu, 0);
}

#[test]
fn zero_channels_returns_error() {
    let (sender_res, receiver_res) = run_negotiation(config(0));
    assert!(sender_res.is_err(), "sender should fail with zero channels");
    assert!(receiver_res.is_err(), "receiver should fail with zero channels");
}

#[test]
fn partial_success_some_ports_in_use() {
    let (sender_res, receiver_res) = run_negotiation(config(16));
    let sender = sender_res.expect("sender should succeed with 16 channels");
    assert_eq!(sender.channels.len(), 16);
    let (_cfg, recv) = receiver_res.expect("receiver should succeed");
    assert_eq!(recv.channels.len(), 16);
}

#[test]
fn channels_that_cannot_be_opened_are_left_out() {
    let (_sender, hello) = SenderNegotiation::start(config(3));
    let (answers, receiver) = accept_negotiation(&hello, &vec![Some(5), None, Some(7)]);
    let (_, result) = receiver.unwrap();
    let listed: Vec<(u16, u16)> = result.channels.iter().map(|c| (c.channel_id, c.port)).collect();
    assert_eq!(listed, vec![(0, 5), (2, 7)]);
    assert_eq!(answers.len(), 3);
    assert_eq!(answers[0], ControlMessage::Ack { sequence_number: 0 });
    assert_eq!(answers[1], ControlMessage::ChannelOpened { channel_id: 0, port: 5 });
    assert_eq!(answers[2], ControlMessage::ChannelOpened { channel_id: 2, port: 7 });
    assert!(negotiate(config(3), &answers).is_none());
}

#[test]
fn negotiation_errors() {
    let nothing = accept_hello(&ControlMessage::Ack { sequence_number: 1 });
    assert!(matches!(nothing, Err(NegotiationError::Protocol(_))));
    let error = accept_hello(&ControlMessage::Error { code: 1, detail: 2 });
    assert_eq!(
        error.err().unwrap().to_string(),
        "protocol error: sender sent error instead of Hello"
    );
    let refused = negotiate(config(2), &vec![ControlMessage::Error { code: 1, detail: 0 }]);
    assert!(matches!(refused, Some(Err(NegotiationError::Protocol(_)))));
    assert_eq!(NegotiationError::Timeout.to_string(), "timeout");
    let io = std::io::Error::new(std::io::ErrorKind::Other, "gone");
    assert!(NegotiationError::Io(io).to_string().contains("gone"));
}

/// Sends a message through frames, read piece by piece.
fn through_frames(msg: &ControlMessage) -> ControlMessage {
    let bytes = encode_message(msg).unwrap();
    let mut reader = FrameReader::new();
    let mut at = 0;
    loop {
        let wanted = reader.wanted();
        let piece = bytes[at..at + wanted].to_vec();
        at += wanted;
        if let Some(body) = reader.feed(piece) {
            assert_eq!(at, bytes.len());
            return decode_message(&body).unwrap();
        }
    }
}

#[test]
fn tcp_control_round_trip() {
    let hello = ControlMessage::Hello { protocol_version: 1, features: 0xAA };
    assert_eq!(through_frames(&hello), hello);
    let ack = ControlMessage::Ack { sequence_number: 7 };
    assert_eq!(through_frames(&ack), ack);
}

#[test]
fn frames_start_with_their_length() {
    let frame = encode_message(&ControlMessage::Ack { sequence_number: 7 }).unwrap();
    assert_eq!(frame, vec![0, 0, 0, 9, 0x02, 0, 0, 0, 0, 0, 0, 0, 7]);
}

#[test]
fn undecodable_frames_are_protocol_errors() {
    for body in [&[][..], &[0xEE][..]] {
        assert!(matches!(decode_message(body), Err(ControlError::Protocol(_))));
    }
    assert_eq!(ControlError::Timeout.to_string(), "timeout");
    assert_eq!(ControlError::Protocol("x").to_string(), "protocol error: x");
    assert!(ControlError::Timeout.source().is_none());
    let io: ControlError = std::io::Error::new(std::io::ErrorKind::Other, "gone").into();
    assert!(io.source().is_some());
    assert_eq!(io.to_string(), "I/O error: gone");
}

#[test]
fn heartbeat_after_five_idle_seconds() {
    assert!(!heartbeat_due(HEARTBEAT_NS - 1));
    assert!(heartbeat_due(HEARTBEAT_NS));
    assert_eq!(heartbeat(), ControlMessage::Ack { sequence_number: 0 });
}

#[test]
fn accept_with_retry_returns_connection_on_success() {
    let schedule = RetrySchedule::new(3, 10_000_000);
    assert!(schedule.may_try());
}

#[test]
fn accept_with_retry_retries_on_timeout_then_succeeds() {
    let mut schedule = RetrySchedule::new(3, 10_000_000);
    assert_eq!(schedule.on_timeout(), RetryAction::RetryAfter(10_000_000));
    assert!(schedule.may_try());
}

#[test]
fn accept_with_retry_exhausts_retries_and_returns_timeout() {
    let mut schedule = RetrySchedule::new(2, 1_000_000);
    assert_eq!(schedule.on_timeout(), RetryAction::RetryAfter(1_000_000));
    assert_eq!(schedule.on_timeout(), RetryAction::GiveUp);
    assert!(!RetrySchedule::new(0, 1).may_try());
}

#[test]
fn retry_delays_double_up_to_the_longest() {
    let mut schedule = RetrySchedule::new(100, 25_000_000_000);
    assert_eq!(schedule.on_timeout(), RetryAction::RetryAfter(25_000_000_000));
    assert_eq!(schedule.on_timeout(), RetryAction::RetryAfter(50_000_000_000));
    assert_eq!(schedule.on_timeout(), RetryAction::RetryAfter(MAX_RETRY_DELAY_NS));
    assert_eq!(schedule.on_timeout(), RetryAction::RetryAfter(MAX_RETRY_DELAY_NS));
}
