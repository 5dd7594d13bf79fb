use braid::compress::lz4::{compress_lz4, decompress_lz4, CompressionError};
use braid::protocol::control::{ControlMessage, ControlMessageKind};
use braid::protocol::crc::{
    compute_chunk_crc, compute_fragment_crc, verify_chunk_crc, verify_fragment_crc,
};
use braid::protocol::headers::{
    ChunkHeader, FragmentHeader, COMPRESSED_LZ4, COMPRESSED_ZSTD, COMPRESSION_NONE,
};

#[test]
fn compress_lz4_roundtrip() {
    let data = b"Hello, BRAID! This is a test of LZ4 compression.";
    let compressed = compress_lz4(data).expect("compress should succeed");
    let decompressed = decompress_lz4(&compressed).expect("decompress should succeed");
    assert_eq!(decompressed, data);
}

#[test]
fn compress_lz4_reduces_size() {
    let data = vec![0xABu8; 4096];
    let compressed = compress_lz4(&data).expect("compress should succeed");
    assert!(
        compressed.len() < data.len(),
        "compressed size {} should be less than original {}",
        compressed.len(),
        data.len()
    );
}

#[test]
fn decompress_lz4_corrupted_data_returns_error() {
    let corrupted = vec![0xFFu8; 64];
    let result = decompress_lz4(&corrupted);
    assert!(result.is_err(), "corrupted data should produce an error");
}

#[test]
fn decompress_lz4_takes_a_size_that_is_too_large() {
    let mut block = compress_lz4(b"more is claimed than comes").unwrap();
    block[..4].copy_from_slice(&[0xFF; 4]);
    assert_eq!(decompress_lz4(&block).unwrap(), b"more is claimed than comes");
    block[..4].copy_from_slice(&[25, 0, 0, 0]);
    assert!(decompress_lz4(&block).is_err());
}

#[test]
fn decompress_lz4_gives_long_runs_back() {
    let data = vec![7u8; 1_000_000];
    let block = compress_lz4(&data).unwrap();
    assert!(block.len() * 255 >= data.len());
    assert_eq!(decompress_lz4(&block).unwrap(), data);
    assert_eq!(decompress_lz4(&compress_lz4(&[]).unwrap()).unwrap(), Vec::<u8>::new());
}

#[test]
fn decompress_lz4_refuses_a_corrupted_block() {
    let mut corrupted = vec![0xFFu8; 64];
    corrupted[2] = 0;
    corrupted[3] = 0;
    let result = decompress_lz4(&corrupted);
    assert!(matches!(result, Err(CompressionError::DecompressError(_))));
    assert_eq!(
        decompress_lz4(&[0, 0, 0]),
        Err(CompressionError::DecompressError("expected another byte, found none".to_string()))
    );
}

#[test]
fn compress_lz4_empty_input() {
    let data = b"";
    let compressed = compress_lz4(data).expect("compress should succeed");
    let decompressed = decompress_lz4(&compressed).expect("decompress should succeed");
    assert_eq!(decompressed, data);
}

#[test]
fn compress_lz4_roundtrip_various_sizes() {
    let sizes = [0, 1, 1024, 65537, 1_048_576];
    for &size in &sizes {
        let data: Vec<u8> = if size == 0 {
            vec![]
        } else {
            (0..size).map(|i| (i % 251) as u8).collect()
        };
        let compressed = compress_lz4(&data).expect("compress should succeed");
        let decompressed = decompress_lz4(&compressed).expect("decompress should succeed");
        assert_eq!(decompressed, data, "roundtrip failed for size {size}");
    }
}

#[test]
fn compression_error_display() {
    let err = CompressionError::CompressError("oops".into());
    assert_eq!(err.to_string(), "compress error: oops");

    let err = CompressionError::DecompressError("bad data".into());
    assert_eq!(err.to_string(), "decompress error: bad data");
}

#[test]
fn compressed_form_carries_its_length() {
    let data = vec![7u8; 300];
    let compressed = compress_lz4(&data).unwrap();
    assert_eq!(&compressed[..4], &[44, 1, 0, 0]);
    assert_ne!(compressed, data);
}

#[test]
fn compression_constants_have_correct_values() {
    assert_eq!(COMPRESSION_NONE, 0x00);
    assert_eq!(COMPRESSED_LZ4, 0x01);
    assert_eq!(COMPRESSED_ZSTD, 0x02);
}

#[test]
fn compression_constants_are_mutually_exclusive() {
    assert_eq!(COMPRESSION_NONE & COMPRESSED_LZ4, 0);
    assert_eq!(COMPRESSION_NONE & COMPRESSED_ZSTD, 0);
    assert_eq!(COMPRESSED_LZ4 & COMPRESSED_ZSTD, 0);
}

#[test]
fn fragment_crc_round_trip_known_data() {
    let data = b"braid crc32c";
    let crc = compute_fragment_crc(data);
    assert!(verify_fragment_crc(data, crc));
}

#[test]
fn fragment_crc_rejects_corruption() {
    let data = b"braid crc32c";
    let crc = compute_fragment_crc(data);
    let corrupted = b"braid crc32d";
    assert!(!verify_fragment_crc(corrupted, crc));
}

#[test]
fn chunk_crc_includes_sequence_number() {
    let data = b"payload";
    let crc1 = compute_chunk_crc(1, data);
    let crc2 = compute_chunk_crc(2, data);
    assert_ne!(crc1, crc2);
    assert!(verify_chunk_crc(1, data, crc1));
    assert!(!verify_chunk_crc(2, data, crc1));
}

#[test]
fn checksums_are_the_well_known_ones() {
    assert_eq!(compute_fragment_crc(b"123456789"), 0xCBF4_3926);
    assert_eq!(compute_fragment_crc(b""), 0);
    assert_eq!(compute_fragment_crc(b"hello"), 0x3610_A686);
    let mut image = 7u64.to_be_bytes().to_vec();
    image.extend_from_slice(b"abc");
    assert_eq!(compute_chunk_crc(7, b"abc"), compute_fragment_crc(&image));
}

#[test]
fn fragment_header_wire_format() {
    let header = FragmentHeader {
        chunk_id: 0x0102_0304,
        fragment_index: 0x0506,
        total_fragments: 0x0708,
        fragment_length: 0x090A,
        fragment_crc: 0x0B0C_0D0E,
    };
    assert_eq!(header.to_bytes(), (1..=14).collect::<Vec<u8>>());
    assert_eq!(FragmentHeader::try_from(&header.to_bytes()).unwrap(), header);
    assert!(FragmentHeader::try_from(&[0u8; 13]).is_err());
}

#[test]
fn chunk_header_wire_format() {
    let header = ChunkHeader::new(COMPRESSED_LZ4, 0x0203, 0x0405_0607_0809_0A0B, 0x0C0D_0E0F);
    let mut expected = vec![0x50, 0x01];
    expected.extend(2..=15);
    assert_eq!(header.to_bytes(), expected);
    assert_eq!(ChunkHeader::try_from(&expected[..]).unwrap(), header);
    assert!(ChunkHeader::try_from(&expected[..15]).is_err());
    expected[0] = 0x51;
    assert_eq!(ChunkHeader::try_from(&expected[..]), Err("invalid chunk magic"));
}

#[test]
fn test_file_start_round_trip() {
    let msg = ControlMessage::FileStart {
        filename: "example.bin".to_string(),
        filesize: 123456789,
        file_crc32c: 0xDEADBEEF,
    };
    let bytes = msg.to_bytes();
    let parsed = ControlMessage::try_from(bytes.as_slice()).unwrap();
    assert_eq!(parsed, msg);
    assert_eq!(msg.kind(), ControlMessageKind::FileStart);
    assert_eq!(
        msg.to_string(),
        "FILE_START(filename=example.bin, filesize=123456789, file_crc32c=3735928559)"
    );
}

#[test]
fn test_file_complete_round_trip() {
    let msg = ControlMessage::FileComplete {
        success: true,
        expected_hash: 0x11112222,
        computed_hash: 0x33334444,
    };
    let bytes = msg.to_bytes();
    let parsed = ControlMessage::try_from(bytes.as_slice()).unwrap();
    assert_eq!(parsed, msg);
    assert_eq!(msg.kind(), ControlMessageKind::FileComplete);
    assert_eq!(
        msg.to_string(),
        "FILE_COMPLETE(success=true, expected_hash=286335522, computed_hash=858997828)"
    );
}

#[test]
fn test_file_start_long_filename() {
    let filename = "a".repeat(65535);
    let msg = ControlMessage::FileStart {
        filename: filename.clone(),
        filesize: u64::MAX,
        file_crc32c: u32::MAX,
    };
    let bytes = msg.to_bytes();
    assert_eq!(bytes.len(), 1 + 2 + 65535 + 8 + 4);
    let parsed = ControlMessage::try_from(bytes.as_slice()).unwrap();
    assert_eq!(parsed, msg);
}

#[test]
fn test_file_start_empty_filename() {
    let msg = ControlMessage::FileStart {
        filename: String::new(),
        filesize: 0,
        file_crc32c: 0,
    };
    let bytes = msg.to_bytes();
    let parsed = ControlMessage::try_from(bytes.as_slice()).unwrap();
    assert_eq!(parsed, msg);
}

#[test]
fn every_message_survives_the_wire() {
    let messages = vec![
        ControlMessage::Hello { protocol_version: 1, features: 0xAABBCCDD },
        ControlMessage::Ack { sequence_number: 7 },
        ControlMessage::Nack { sequence_number: 8, reason: 9 },
        ControlMessage::DataReady { chunk_id: 1, payload_length: 2 },
        ControlMessage::Eos { sequence_number: u64::MAX },
        ControlMessage::Reconnect { last_sequence_number: 3 },
        ControlMessage::Stats { bytes_sent: 1, bytes_received: 2, active_channels: 3 },
        ControlMessage::QueueStatus { queued_chunks: 1, queued_bytes: 2, total_capacity: 3 },
        ControlMessage::ChannelOpened { channel_id: 1, port: 2 },
        ControlMessage::ChannelClosed { channel_id: 1, code: 2 },
        ControlMessage::FileStart { filename: "é".to_string(), filesize: 1, file_crc32c: 2 },
        ControlMessage::FileComplete { success: false, expected_hash: 1, computed_hash: 2 },
        ControlMessage::Error { code: 1, detail: 2 },
    ];
    for msg in messages {
        let bytes = msg.to_bytes();
        assert_eq!(ControlMessage::try_from(&bytes), Ok(msg));
    }
}

#[test]
fn undecodable_messages_are_refused() {
    assert!(ControlMessage::try_from(&[]).is_err());
    assert!(ControlMessage::try_from(&[0x77]).is_err());
    let mut bytes = vec![0x0B, 0, 1, 0xFF];
    bytes.extend_from_slice(&[0; 12]);
    assert!(ControlMessage::try_from(&bytes).is_err());
    assert_eq!(ControlMessageKind::try_from(0x05), Ok(ControlMessageKind::Eos));
    assert_eq!(ControlMessageKind::try_from(0x0D), Err("invalid control message kind"));
}
