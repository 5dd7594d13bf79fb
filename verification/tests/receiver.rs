use braid::channel::Outlet;
use braid::compress::lz4::compress_lz4;
use braid::protocol::crc::{compute_chunk_crc, compute_fragment_crc};
use braid::protocol::headers::{ChunkHeader, FragmentHeader, COMPRESSED_LZ4};
use braid::receiver::commit::{CommitGate, CommitGateInput, CommitGateStats};
use braid::receiver::ordering::{
    parse_sequence_number, ChunkOrderer, OrdererEvent, HEAP_HIGH_WATERMARK,
};
use braid::receiver::reassembly::FragmentReassembler;
use braid::sender::framing::frame_chunk;
use braid::session::receive::{Datagram, ReceiveWorker};

fn make_input(seq: u64, data: &[u8]) -> CommitGateInput {
    CommitGateInput {
        data: data.to_vec(),
        sequence_number: seq,
        chunk_crc: compute_chunk_crc(seq, data),
    }
}

/// Commits the inputs to `out` and returns the counters.
fn run_gate_with_inputs(inputs: Vec<CommitGateInput>, out: &mut Vec<u8>) -> CommitGateStats {
    let mut gate = CommitGate::new();
    for input in inputs {
        assert!(!gate.is_finished(false));
        out.extend_from_slice(&input.data);
        gate.process_chunk(&input, true).unwrap();
    }
    assert!(gate.is_finished(true));
    gate.stats()
}

#[test]
fn chunks_written_to_stdout_in_order() {
    let inputs = vec![
        make_input(0, b"hello "),
        make_input(1, b"world "),
        make_input(2, b"braid!"),
    ];
    let mut out = Vec::new();
    let stats = run_gate_with_inputs(inputs, &mut out);
    assert_eq!(out, b"hello world braid!");
    assert_eq!(stats.chunks_committed, 3);
    assert_eq!(stats.bytes_written, 18);
    assert_eq!(stats.crc_failures, 0);
    assert_eq!(stats.write_errors, 0);
}

#[test]
fn crc_mismatch_no_longer_rejected() {
    let inputs = vec![
        make_input(0, b"good data"),
        CommitGateInput {
            data: b"bad data".to_vec(),
            sequence_number: 1,
            chunk_crc: 0xDEADBEEF,
        },
        make_input(2, b"more good data"),
    ];
    let stats = run_gate_with_inputs(inputs, &mut Vec::new());
    assert_eq!(stats.chunks_committed, 3);
    assert_eq!(stats.crc_failures, 0);
    assert_eq!(stats.write_errors, 0);
}

#[test]
fn crc_mismatch_does_not_write_corrupt_data() {
    let inputs = vec![
        make_input(0, b"valid data"),
        CommitGateInput {
            data: b"corrupt data".to_vec(),
            sequence_number: 1,
            chunk_crc: 0xBADF00D,
        },
        make_input(2, b"more valid data"),
    ];
    let stats = run_gate_with_inputs(inputs, &mut Vec::new());
    assert_eq!(stats.chunks_committed, 3);
    assert_eq!(stats.crc_failures, 0);
}

#[test]
fn failed_write_stops_the_gate() {
    let mut gate = CommitGate::new();
    gate.set_progress_bytes(10);
    assert!(gate.process_chunk(&make_input(0, b"abc"), true).is_ok());
    assert!(gate.process_chunk(&make_input(1, b"defg"), false).is_err());
    assert!(gate.is_finished(false));
    let stats = gate.stats();
    assert_eq!(stats.chunks_committed, 1);
    assert_eq!(stats.bytes_written, 3);
    assert_eq!(stats.write_errors, 1);
    assert_eq!(gate.progress_bytes(), Some(13));
}

#[test]
fn commit_gate_creation() {
    let gate = CommitGate::new();
    let stats = gate.stats();
    assert_eq!(stats.bytes_written, 0);
    assert_eq!(stats.chunks_committed, 0);
    assert_eq!(stats.crc_failures, 0);
    assert_eq!(stats.write_errors, 0);
}

fn build_chunk(sequence_number: u64, data: &[u8]) -> Vec<u8> {
    let chunk_crc = compute_chunk_crc(sequence_number, data);
    let header = ChunkHeader::new(0, data.len() as u16, sequence_number, chunk_crc);
    let mut buf = header.to_bytes();
    buf.extend_from_slice(data);
    buf
}

fn build_chunks(start_seq: u64, count: u64, data_prefix: u8) -> Vec<Vec<u8>> {
    (0..count)
        .map(|i| build_chunk(start_seq + i, &vec![data_prefix + i as u8; 16]))
        .collect()
}

fn make_orderer(capacity: usize, initial_seq: u64) -> ChunkOrderer {
    ChunkOrderer::new(Outlet::new(capacity), initial_seq)
}

fn emitted(orderer: &mut ChunkOrderer) -> Vec<CommitGateInput> {
    let mut out = Vec::new();
    while let Some(input) = orderer.tx.try_recv() {
        out.push(input);
    }
    out
}

/// Hands the chunks to the orderer, then closes its input.
fn run_orderer(orderer: &mut ChunkOrderer, chunks: &[Vec<u8>]) {
    for chunk in chunks {
        assert!(orderer.handle(OrdererEvent::Chunk(chunk.clone()), 0));
    }
    assert!(!orderer.handle(OrdererEvent::InputClosed, 0));
}

#[test]
fn chunk_orderer_creation() {
    let orderer = make_orderer(16, 0);
    let stats = orderer.stats();
    assert_eq!(stats.chunks_received, 0);
    assert_eq!(stats.chunks_emitted, 0);
    assert_eq!(stats.chunks_waiting, 0);
}

#[test]
fn chunks_emitted_in_order() {
    let mut orderer = make_orderer(16, 0);
    for chunk in build_chunks(0, 5, 0xAA) {
        orderer.push_chunk(chunk);
    }
    let emitted = emitted(&mut orderer);
    assert_eq!(emitted.len(), 5);
    for (i, input) in emitted.iter().enumerate() {
        assert_eq!(input.data, vec![0xAA + i as u8; 16]);
        assert_eq!(input.sequence_number, i as u64);
    }
}

#[test]
fn out_of_order_emitted_in_order() {
    let mut orderer = make_orderer(16, 0);
    let chunks = build_chunks(0, 5, 0xBB);
    for i in [1usize, 2, 0, 4, 3] {
        orderer.push_chunk(chunks[i].clone());
    }
    let emitted = emitted(&mut orderer);
    assert_eq!(emitted.len(), 5);
    for (i, input) in emitted.iter().enumerate() {
        assert_eq!(input.data, vec![0xBB + i as u8; 16]);
        assert_eq!(input.sequence_number, i as u64);
    }
}

#[test]
fn gap_holds_chunks_until_filled() {
    let mut orderer = make_orderer(16, 0);
    let chunks = build_chunks(0, 4, 0xCC);

    orderer.push_chunk(chunks[1].clone());
    orderer.push_chunk(chunks[2].clone());
    orderer.push_chunk(chunks[3].clone());

    assert_eq!(orderer.stats().chunks_emitted, 0);
    assert_eq!(orderer.stats().chunks_waiting, 3);

    orderer.push_chunk(chunks[0].clone());

    let stats = orderer.stats();
    assert_eq!(stats.chunks_received, 4);
    assert_eq!(stats.chunks_emitted, 4);
    assert_eq!(stats.chunks_waiting, 0);

    let emitted = emitted(&mut orderer);
    assert_eq!(emitted.len(), 4);
    for (i, input) in emitted.iter().enumerate() {
        assert_eq!(input.data, vec![0xCC + i as u8; 16]);
        assert_eq!(input.sequence_number, i as u64);
    }
}

#[test]
fn burst_emission_on_gap_fill() {
    let mut orderer = make_orderer(16, 0);
    let chunks = build_chunks(0, 6, 0xDD);

    orderer.push_chunk(chunks[2].clone());
    orderer.push_chunk(chunks[3].clone());
    orderer.push_chunk(chunks[4].clone());
    orderer.push_chunk(chunks[5].clone());

    assert_eq!(orderer.stats().chunks_emitted, 0);
    assert_eq!(orderer.stats().chunks_waiting, 4);

    orderer.push_chunk(chunks[0].clone());

    let stats = orderer.stats();
    assert_eq!(stats.chunks_emitted, 1);
    assert_eq!(stats.chunks_waiting, 4);

    let emitted0 = orderer.tx.try_recv().unwrap();
    assert_eq!(emitted0.data, vec![0xDD; 16]);
    assert_eq!(emitted0.sequence_number, 0);

    orderer.push_chunk(chunks[1].clone());

    let stats = orderer.stats();
    assert_eq!(stats.chunks_emitted, 6);
    assert_eq!(stats.chunks_waiting, 0);

    for i in 1..6 {
        let input = orderer.tx.try_recv().unwrap();
        assert_eq!(input.data, vec![0xDD + i as u8; 16]);
        assert_eq!(input.sequence_number, i as u64);
    }
}

#[test]
fn stats_track_correctly() {
    let mut orderer = make_orderer(16, 0);
    let chunks = build_chunks(0, 2, 0xEE);

    let stats = orderer.push_chunk(chunks[1].clone());
    assert_eq!(stats.chunks_received, 1);
    assert_eq!(stats.chunks_emitted, 0);
    assert_eq!(stats.chunks_waiting, 1);

    let stats = orderer.push_chunk(chunks[0].clone());
    assert_eq!(stats.chunks_received, 2);
    assert_eq!(stats.chunks_emitted, 2);
    assert_eq!(stats.chunks_waiting, 0);
}

#[test]
fn empty_payload_handled() {
    let mut orderer = make_orderer(16, 0);
    orderer.push_chunk(build_chunk(0, b""));
    let emitted = orderer.tx.try_recv().unwrap();
    assert!(emitted.data.is_empty());
    assert_eq!(emitted.sequence_number, 0);
}

#[test]
fn non_zero_initial_seq() {
    let mut orderer = make_orderer(16, 100);
    for chunk in build_chunks(100, 3, 0x10) {
        orderer.push_chunk(chunk);
    }
    let emitted = emitted(&mut orderer);
    assert_eq!(emitted.len(), 3);
    for (i, input) in emitted.iter().enumerate() {
        assert_eq!(input.data, vec![0x10 + i as u8; 16]);
        assert_eq!(input.sequence_number, 100 + i as u64);
    }
}

#[test]
fn run_loop_processes_all_chunks() {
    let mut orderer = make_orderer(16, 0);
    run_orderer(&mut orderer, &build_chunks(0, 3, 0x11));
    let emitted = emitted(&mut orderer);
    assert_eq!(emitted.len(), 3);
    for (i, input) in emitted.iter().enumerate() {
        assert_eq!(input.data, vec![0x11 + i as u8; 16]);
        assert_eq!(input.sequence_number, i as u64);
    }
}

#[test]
fn run_loop_handles_out_of_order() {
    let mut orderer = make_orderer(16, 0);
    let chunks = build_chunks(0, 4, 0x22);
    let arrivals: Vec<Vec<u8>> = [2usize, 0, 1, 3].iter().map(|&i| chunks[i].clone()).collect();
    run_orderer(&mut orderer, &arrivals);
    let emitted = emitted(&mut orderer);
    assert_eq!(emitted.len(), 4);
    for (i, input) in emitted.iter().enumerate() {
        assert_eq!(input.data, vec![0x22 + i as u8; 16]);
        assert_eq!(input.sequence_number, i as u64);
    }
}

#[test]
fn run_loop_drains_heap_on_close() {
    let mut orderer = make_orderer(16, 0);
    let chunks = build_chunks(0, 3, 0x33);
    run_orderer(&mut orderer, &chunks[1..]);
    let emitted = emitted(&mut orderer);
    assert_eq!(emitted.len(), 2);
    assert_eq!(emitted[0].data, vec![0x33 + 1; 16]);
    assert_eq!(emitted[0].sequence_number, 1);
    assert_eq!(emitted[1].data, vec![0x33 + 2; 16]);
    assert_eq!(emitted[1].sequence_number, 2);
}

#[test]
fn non_blocking_send_accumulates_in_heap() {
    let mut orderer = make_orderer(1, 0);
    let chunks = build_chunks(0, 3, 0x7F);

    orderer.push_chunk(chunks[0].clone());
    let stats = orderer.stats();
    assert_eq!(stats.chunks_emitted, 1, "chunk 0 emitted");
    assert_eq!(stats.chunks_waiting, 0);

    orderer.push_chunk(chunks[1].clone());
    let stats = orderer.stats();
    assert_eq!(stats.chunks_emitted, 1, "chunk 1 blocked by full channel");
    assert_eq!(stats.chunks_waiting, 1, "chunk 1 stays in heap");

    orderer.push_chunk(chunks[2].clone());
    let stats = orderer.stats();
    assert_eq!(stats.chunks_emitted, 1, "chunk 2 also blocked");
    assert_eq!(stats.chunks_waiting, 2, "chunks 1 and 2 in heap");
}

#[test]
fn gap_is_given_up_after_the_timeout() {
    let mut orderer = make_orderer(16, 0);
    let chunks = build_chunks(0, 4, 0x40);
    orderer.handle(OrdererEvent::Chunk(chunks[2].clone()), 1_000);
    orderer.handle(OrdererEvent::GapCheck(500), 1_500);
    assert_eq!(orderer.stats().chunks_emitted, 0);
    orderer.handle(OrdererEvent::GapCheck(500), 1_501);
    assert_eq!(orderer.stats().chunks_emitted, 1);
    orderer.handle(OrdererEvent::Chunk(chunks[3].clone()), 1_600);
    let sequence: Vec<u64> = emitted(&mut orderer).iter().map(|c| c.sequence_number).collect();
    assert_eq!(sequence, vec![2, 3]);
}

#[test]
fn crowded_heap_hands_on_the_oldest() {
    let mut orderer = make_orderer(2 * HEAP_HIGH_WATERMARK, 0);
    let chunks: Vec<Vec<u8>> =
        (1..=HEAP_HIGH_WATERMARK as u64 + 1).map(|seq| build_chunk(seq, b"x")).collect();
    for chunk in &chunks[..HEAP_HIGH_WATERMARK] {
        orderer.push_chunk(chunk.clone());
    }
    assert_eq!(orderer.stats().chunks_emitted, 0);
    orderer.push_chunk(chunks[HEAP_HIGH_WATERMARK].clone());
    assert!(orderer.stats().chunks_emitted > 0);
    assert_eq!(orderer.tx.try_recv().unwrap().sequence_number, 1);
}

#[test]
fn sequence_number_of_a_short_payload_is_zero() {
    assert_eq!(parse_sequence_number(&build_chunk(77, b"abc")), 77);
    assert_eq!(parse_sequence_number(&[0x50, 0, 0, 0, 9, 9, 9]), 0);
}

fn fragments_of(chunk_id: u32, chunk_buf: &[u8], mtu: usize) -> Vec<Vec<u8>> {
    let fragment_payload_size = mtu - FragmentHeader::LEN;
    let total_fragments = chunk_buf.len().div_ceil(fragment_payload_size) as u16;
    chunk_buf
        .chunks(fragment_payload_size)
        .enumerate()
        .map(|(fi, fp)| {
            let header = FragmentHeader {
                chunk_id,
                fragment_index: fi as u16,
                total_fragments,
                fragment_length: fp.len() as u16,
                fragment_crc: compute_fragment_crc(fp),
            };
            let mut fragment = header.to_bytes();
            fragment.extend_from_slice(fp);
            fragment
        })
        .collect()
}

fn build_fragments(chunk_id: u32, chunk_data: &[u8], mtu: usize) -> Vec<Vec<u8>> {
    fragments_of(chunk_id, &build_chunk(chunk_id as u64, chunk_data), mtu)
}

fn build_compressed_fragments(chunk_id: u32, data: &[u8], mtu: usize) -> Vec<Vec<u8>> {
    let compressed = compress_lz4(data).expect("compress should succeed");
    let chunk_crc = compute_chunk_crc(chunk_id as u64, data);
    let header =
        ChunkHeader::new(COMPRESSED_LZ4, compressed.len() as u16, chunk_id as u64, chunk_crc);
    let mut chunk_buf = header.to_bytes();
    chunk_buf.extend_from_slice(&compressed);
    fragments_of(chunk_id, &chunk_buf, mtu)
}

fn make_reassembler(capacity: usize, max_inflight: usize, timeout: u64) -> FragmentReassembler {
    FragmentReassembler::new(Outlet::new(capacity), max_inflight, timeout)
}

fn strip_header(output: Vec<u8>) -> Vec<u8> {
    if output.len() > ChunkHeader::LEN {
        output[ChunkHeader::LEN..].to_vec()
    } else {
        Vec::new()
    }
}

#[test]
fn fragment_reassembler_creation() {
    let reassembler = make_reassembler(16, 1024 * 1024, 60);
    assert_eq!(reassembler.in_flight_count(), 0);
    assert_eq!(reassembler.inflight_bytes(), 0);
}

#[test]
fn reassemble_in_order() {
    let mut reassembler = make_reassembler(16, 1024 * 1024, 60);
    let chunk_data = b"hello braid reassembly test";
    for fragment in build_fragments(0, chunk_data, 1500) {
        if reassembler.add_fragment(fragment, 0).unwrap() {
            break;
        }
    }
    let output = reassembler.tx.try_recv();
    assert!(output.is_some());
    assert_eq!(strip_header(output.unwrap()), chunk_data);
}

#[test]
fn reassemble_out_of_order() {
    let mut reassembler = make_reassembler(16, 1024 * 1024, 60);
    let chunk_data: Vec<u8> = (0..200u8).collect();
    let mut fragments = build_fragments(0, &chunk_data, 50);
    fragments.reverse();
    for fragment in fragments {
        if reassembler.add_fragment(fragment, 0).unwrap() {
            break;
        }
    }
    let output = reassembler.tx.try_recv();
    assert!(output.is_some());
    assert_eq!(strip_header(output.unwrap()), chunk_data);
}

#[test]
fn duplicate_fragment_ignored() {
    let mut reassembler = make_reassembler(16, 1024 * 1024, 60);
    let chunk_data: Vec<u8> = (0..100u8).collect();
    let fragments = build_fragments(0, &chunk_data, 50);

    let result1 = reassembler.add_fragment(fragments[0].clone(), 0).unwrap();
    assert!(!result1, "first fragment should not complete chunk");

    let result2 = reassembler.add_fragment(fragments[0].clone(), 0).unwrap();
    assert!(!result2, "duplicate should not complete chunk");

    for fragment in &fragments[1..] {
        if reassembler.add_fragment(fragment.clone(), 0).unwrap() {
            break;
        }
    }
    let output = reassembler.tx.try_recv();
    assert!(output.is_some());
    assert_eq!(strip_header(output.unwrap()), chunk_data);
}

#[test]
fn crc_mismatch_detected() {
    let mut reassembler = make_reassembler(16, 1024 * 1024, 60);
    let chunk_data = b"crc test data";
    let mut fragments = build_fragments(0, chunk_data, 1500);
    let target = if fragments.len() > 1 { 1 } else { 0 };
    fragments[target][FragmentHeader::LEN] ^= 0xFF;
    for fragment in fragments {
        let _ = reassembler.add_fragment(fragment, 0);
    }
    let result = reassembler.assemble_chunk(0);
    assert!(result.is_err());
    assert_eq!(result.unwrap_err(), "invalid chunk magic");
}

#[test]
fn chunk_crc_mismatch_detected() {
    let mut reassembler = make_reassembler(16, 1024 * 1024, 60);
    let chunk_data = b"chunk crc test";
    let header = ChunkHeader::new(0, chunk_data.len() as u16, 0, 0xDEADBEEF);
    let mut chunk_buf = header.to_bytes();
    chunk_buf.extend_from_slice(chunk_data);
    for fragment in fragments_of(0, &chunk_buf, 1500) {
        if let Err(msg) = reassembler.add_fragment(fragment, 0) {
            assert_eq!(msg, "chunk CRC mismatch");
            return;
        }
    }
    panic!("expected chunk CRC mismatch error");
}

#[test]
fn multiple_chunks_reassembled() {
    let mut reassembler = make_reassembler(16, 1024 * 1024, 60);
    let data1 = b"chunk one data";
    let data2 = b"chunk two data";
    let frags1 = build_fragments(0, data1, 1500);
    let frags2 = build_fragments(1, data2, 1500);
    for i in 0..frags1.len().max(frags2.len()) {
        if i < frags1.len() {
            let _ = reassembler.add_fragment(frags1[i].clone(), 0);
        }
        if i < frags2.len() {
            let _ = reassembler.add_fragment(frags2[i].clone(), 0);
        }
    }
    let mut outputs = Vec::new();
    while let Some(data) = reassembler.tx.try_recv() {
        outputs.push(data);
    }
    assert_eq!(outputs.len(), 2);
    assert_eq!(strip_header(outputs[0].clone()), data1);
    assert_eq!(strip_header(outputs[1].clone()), data2);
}

#[test]
fn memory_bound_evicts_oldest() {
    let mut reassembler = make_reassembler(16, 50, 60);
    let data0: Vec<u8> = (0..100u8).collect();
    let frags0 = build_fragments(0, &data0, 50);
    let data1: Vec<u8> = (100..200u8).collect();
    let frags1 = build_fragments(1, &data1, 50);

    let _ = reassembler.add_fragment(frags0[0].clone(), 0);
    let _ = reassembler.add_fragment(frags1[0].clone(), 0);

    assert!(!reassembler.contains_chunk(0));
    assert!(reassembler.contains_chunk(1));
    assert_eq!(reassembler.inflight_bytes(), 36);
}

#[test]
fn fragment_too_short_rejected() {
    let mut reassembler = make_reassembler(16, 1024 * 1024, 60);
    let result = reassembler.add_fragment(vec![0u8; 5], 0);
    assert!(result.is_err());
    assert_eq!(result.unwrap_err(), "fragment too short: missing header");
}

#[test]
fn timeout_check_logs_warning() {
    let mut reassembler = make_reassembler(16, 1024 * 1024, 0);
    let data: Vec<u8> = (0..200u8).collect();
    let frags = build_fragments(0, &data, 50);
    let _ = reassembler.add_fragment(frags[0].clone(), 5);
    assert_eq!(reassembler.in_flight_count(), 1);
    reassembler.check_timeouts(5);
    assert_eq!(reassembler.in_flight_count(), 1);
    reassembler.check_timeouts(1_000_005);
    assert_eq!(reassembler.in_flight_count(), 0);
}

#[test]
fn test_non_blocking_try_send_on_full_channel() {
    let mut reassembler = make_reassembler(1, 1024 * 1024, 60);
    let chunk_data = b"backpressure test data";
    let fragments = build_fragments(0, chunk_data, 1500);
    assert_eq!(fragments.len(), 1, "test requires single-fragment chunks");

    let result = reassembler.add_fragment(fragments[0].clone(), 0);
    assert!(result.is_ok(), "first chunk should assemble and send");
    assert!(result.unwrap(), "first chunk should be emitted");

    let fragments2 = build_fragments(1, chunk_data, 1500);
    let result = reassembler.add_fragment(fragments2[0].clone(), 0);
    assert!(result.is_ok(), "second chunk should NOT error on full channel");
    assert!(!result.unwrap(), "second chunk should return Ok(false) (channel full)");
    assert!(reassembler.contains_chunk(1), "chunk should stay in HashMap");

    reassembler.tx.try_recv().unwrap();
    assert!(reassembler.try_emit_complete_chunks());
    assert!(!reassembler.contains_chunk(1));
    assert_eq!(strip_header(reassembler.tx.try_recv().unwrap()), chunk_data);
}

#[test]
fn compressed_chunk_decompresses_correctly() {
    let mut reassembler = make_reassembler(16, 1024 * 1024, 60);
    let data = b"Hello BRAID! This data should be compressed and decompressed.";
    for fragment in build_compressed_fragments(0, data, 1500) {
        if reassembler.add_fragment(fragment, 0).unwrap() {
            break;
        }
    }
    let output = reassembler.tx.try_recv();
    assert!(output.is_some());
    assert_eq!(strip_header(output.unwrap()), data);
}

#[test]
fn uncompressed_chunk_passes_through() {
    let mut reassembler = make_reassembler(16, 1024 * 1024, 60);
    let data = b"uncompressed data should pass through unchanged";
    for fragment in build_fragments(0, data, 1500) {
        if reassembler.add_fragment(fragment, 0).unwrap() {
            break;
        }
    }
    let output = reassembler.tx.try_recv();
    assert!(output.is_some());
    assert_eq!(strip_header(output.unwrap()), data);
}

#[test]
fn corrupted_compressed_data_returns_error() {
    let mut reassembler = make_reassembler(16, 1024 * 1024, 60);
    let data = b"this data will be corrupted after compression";
    let mut fragments = build_compressed_fragments(0, data, 1500);
    let compressed_start = FragmentHeader::LEN + ChunkHeader::LEN;
    assert!(fragments[0].len() > compressed_start + 16);
    fragments[0][compressed_start..compressed_start + 16].copy_from_slice(&[0xFF; 16]);
    for fragment in fragments {
        if let Err(msg) = reassembler.add_fragment(fragment, 0) {
            assert_eq!(msg, "decompression failed");
            return;
        }
    }
    panic!("expected decompression failure error");
}

#[test]
fn damaged_compressed_data_is_refused() {
    let mut reassembler = make_reassembler(16, 1024 * 1024, 60);
    let data = b"this data will be corrupted after compression";
    let mut fragments = build_compressed_fragments(0, data, 1500);
    let start = FragmentHeader::LEN + ChunkHeader::LEN;
    for byte in &mut fragments[0][start + 4..start + 16] {
        *byte = 0xFF;
    }
    assert_eq!(reassembler.add_fragment(fragments[0].clone(), 0), Err("decompression failed"));
}

#[test]
fn impossible_fragments_are_refused() {
    let mut reassembler = make_reassembler(16, 1024 * 1024, 60);
    let good = build_fragments(3, &[7; 100], 50);
    let mut index_too_large = good[0].clone();
    index_too_large[5] = 200;
    assert_eq!(reassembler.add_fragment(index_too_large, 0), Err("fragment_index out of range"));
    assert_eq!(reassembler.add_fragment(good[0].clone(), 0), Ok(false));
    let mut total_differs = good[1].clone();
    total_differs[7] += 1;
    assert_eq!(
        reassembler.add_fragment(total_differs, 0),
        Err("inconsistent total_fragments across fragments")
    );
    assert_eq!(reassembler.assemble_chunk(4), Err("chunk state not found"));
}

#[test]
fn closed_output_drops_the_chunk() {
    let mut reassembler = make_reassembler(16, 1024 * 1024, 60);
    reassembler.tx.close();
    let fragments = build_fragments(0, b"nobody listens", 1500);
    assert_eq!(reassembler.add_fragment(fragments[0].clone(), 0), Err("output channel closed"));
    assert!(!reassembler.contains_chunk(0));
}

#[test]
fn interleaved_chunks_arrive_whole_and_in_order() {
    let data: Vec<Vec<u8>> =
        (0..6u8).map(|i| (0..500u32).map(|j| (j * (i as u32 + 3) % 251) as u8).collect()).collect();
    let framed: Vec<Vec<Vec<u8>>> =
        data.iter().enumerate().map(|(i, d)| frame_chunk(i as u64, d, 37)).collect();
    let mut reassembler = make_reassembler(64, 1024 * 1024, 60);
    let mut orderer = make_orderer(64, 0);
    let longest = framed.iter().map(|f| f.len()).max().unwrap();
    for round in (0..longest).rev() {
        for chunk in framed.iter().rev() {
            if let Some(fragment) = chunk.get(round) {
                reassembler.add_fragment(fragment.clone(), 0).unwrap();
            }
        }
    }
    while let Some(chunk) = reassembler.tx.try_recv() {
        orderer.push_chunk(chunk);
    }
    let out: Vec<Vec<u8>> = emitted(&mut orderer).into_iter().map(|c| c.data).collect();
    assert_eq!(out, data);
}

#[test]
fn sharded_stream_arrives_whole_and_in_order() {
    let payloads: Vec<Vec<u8>> = (0..7u8).map(|i| vec![i; 3 * i as usize + 1]).collect();
    let mut router = ReceiveWorker::new(3);
    let mut shards = [
        make_reassembler(16, 1 << 20, 60),
        make_reassembler(16, 1 << 20, 60),
        make_reassembler(16, 1 << 20, 60),
    ];
    let mut fragments = Vec::new();
    for (i, payload) in payloads.iter().enumerate() {
        fragments.extend(frame_chunk(i as u64, payload, 10));
    }
    fragments.reverse();
    for fragment in &fragments {
        match router.on_datagram(fragment) {
            Datagram::Routed(shard) => assert!(shards[shard].add_fragment(fragment.clone(), 0).is_ok()),
            other => panic!("not routed: {other:?}"),
        }
    }
    let mut chunks = Vec::new();
    for shard in shards.iter_mut() {
        assert_eq!(shard.in_flight_count(), 0);
        while let Some(chunk) = shard.tx.try_recv() {
            chunks.push(chunk);
        }
    }
    assert_eq!(chunks.len(), 7);
    let mut orderer = make_orderer(16, 0);
    run_orderer(&mut orderer, &chunks);
    let mut out = Vec::new();
    run_gate_with_inputs(emitted(&mut orderer), &mut out);
    assert_eq!(out, payloads.concat());
}

#[test]
fn repeated_chunk_does_not_block_the_stream() {
    let chunks = build_chunks(0, 4, 7);
    let mut orderer = make_orderer(16, 0);
    orderer.push_chunk(chunks[0].clone());
    assert_eq!(orderer.push_chunk(chunks[0].clone()).chunks_emitted, 1);
    let stats = orderer.push_chunk(chunks[1].clone());
    assert_eq!((stats.chunks_received, stats.chunks_emitted, stats.chunks_waiting), (3, 2, 0));
    orderer.push_chunk(chunks[3].clone());
    let stats = orderer.push_chunk(chunks[3].clone());
    assert_eq!((stats.chunks_emitted, stats.chunks_waiting), (2, 1));
    let stats = orderer.push_chunk(chunks[2].clone());
    assert_eq!((stats.chunks_received, stats.chunks_emitted, stats.chunks_waiting), (6, 4, 0));
    let numbers: Vec<u64> = emitted(&mut orderer).iter().map(|c| c.sequence_number).collect();
    assert_eq!(numbers, vec![0, 1, 2, 3]);
}

#[test]
fn late_chunk_is_handed_on_at_the_end() {
    let chunks = build_chunks(0, 516, 0);
    let mut orderer = make_orderer(1024, 0);
    for chunk in &chunks[1..=512] {
        assert_eq!(orderer.push_chunk(chunk.clone()).chunks_emitted, 0);
    }
    let stats = orderer.push_chunk(chunks[513].clone());
    assert_eq!((stats.chunks_emitted, stats.chunks_waiting), (513, 0));
    let stats = orderer.push_chunk(chunks[0].clone());
    assert_eq!((stats.chunks_emitted, stats.chunks_waiting), (513, 1));
    // It stands in nobody's way, and is held once.
    let stats = orderer.push_chunk(chunks[514].clone());
    assert_eq!((stats.chunks_emitted, stats.chunks_waiting), (514, 1));
    assert_eq!(orderer.push_chunk(chunks[0].clone()).chunks_waiting, 1);
    assert!(!orderer.handle(OrdererEvent::InputClosed, 0));
    let out = emitted(&mut orderer);
    assert_eq!(out.len(), 515);
    assert_eq!(out[514].sequence_number, 0);
    assert_eq!(out[514].data, vec![0u8; 16]);
    assert_eq!(orderer.stats().chunks_waiting, 0);
}

#[test]
fn late_chunk_leaves_with_the_next_forced_emission() {
    let chunks = build_chunks(0, 8, 0);
    let mut orderer = make_orderer(16, 0);
    orderer.handle(OrdererEvent::Chunk(chunks[3].clone()), 1_000);
    orderer.handle(OrdererEvent::GapCheck(500), 1_501);
    assert_eq!(orderer.stats().chunks_emitted, 1);
    orderer.handle(OrdererEvent::Chunk(chunks[2].clone()), 2_000);
    orderer.handle(OrdererEvent::Chunk(chunks[0].clone()), 2_100);
    orderer.handle(OrdererEvent::Chunk(chunks[5].clone()), 2_200);
    assert_eq!(orderer.stats().chunks_waiting, 3);
    orderer.handle(OrdererEvent::GapCheck(500), 2_600);
    assert_eq!(orderer.stats().chunks_waiting, 3);
    orderer.handle(OrdererEvent::GapCheck(500), 2_601);
    orderer.handle(OrdererEvent::GapCheck(500), 2_601);
    assert_eq!(orderer.stats().chunks_waiting, 1);
    // What left by now is a repeat, the number between was never there.
    orderer.handle(OrdererEvent::Chunk(chunks[2].clone()), 2_700);
    orderer.handle(OrdererEvent::Chunk(chunks[1].clone()), 2_700);
    assert_eq!(orderer.stats().chunks_waiting, 2);
    orderer.handle(OrdererEvent::InputClosed, 2_800);
    let numbers: Vec<u64> = emitted(&mut orderer).iter().map(|c| c.sequence_number).collect();
    assert_eq!(numbers, vec![3, 0, 2, 1, 5]);
}

#[test]
fn chunk_before_the_first_number_is_handed_on() {
    let mut orderer = make_orderer(16, 5);
    assert_eq!(orderer.push_chunk(build_chunk(3, b"early")).chunks_waiting, 1);
    let stats = orderer.push_chunk(build_chunk(5, b"due"));
    assert_eq!((stats.chunks_emitted, stats.chunks_waiting), (1, 1));
    orderer.handle(OrdererEvent::InputClosed, 0);
    let numbers: Vec<u64> = emitted(&mut orderer).iter().map(|c| c.sequence_number).collect();
    assert_eq!(numbers, vec![5, 3]);
}

#[test]
fn numbers_start_over_after_the_largest() {
    let mut orderer = make_orderer(16, u64::MAX - 1);
    orderer.push_chunk(build_chunk(u64::MAX, b"b"));
    orderer.push_chunk(build_chunk(0, b"c"));
    assert_eq!(orderer.stats().chunks_waiting, 2);
    let stats = orderer.push_chunk(build_chunk(u64::MAX - 1, b"a"));
    assert_eq!((stats.chunks_emitted, stats.chunks_waiting), (3, 0));
    let data: Vec<Vec<u8>> = emitted(&mut orderer).into_iter().map(|c| c.data).collect();
    assert_eq!(data, vec![b"a".to_vec(), b"b".to_vec(), b"c".to_vec()]);
}

#[test]
fn chunks_are_emitted_up_to_the_gap() {
    let chunks = build_chunks(0, 6, 1);
    let mut orderer = make_orderer(16, 0);
    let expected = [(3, 0, 1), (0, 1, 1), (5, 1, 2), (1, 2, 2), (2, 4, 1), (4, 6, 0)];
    for (k, (n, emitted, waiting)) in expected.iter().enumerate() {
        let stats = orderer.push_chunk(chunks[*n as usize].clone());
        assert_eq!(stats.chunks_received, k as u64 + 1);
        assert_eq!((stats.chunks_emitted, stats.chunks_waiting), (*emitted, *waiting));
    }
}

#[test]
fn stream_that_is_sent_twice_arrives_once() {
    let payloads: Vec<Vec<u8>> = (0..5u8).map(|i| vec![i; 2 * i as usize + 1]).collect();
    let mut fragments = Vec::new();
    for (i, payload) in payloads.iter().enumerate() {
        fragments.extend(frame_chunk(i as u64, payload, 12));
    }
    let again = fragments.clone();
    fragments.extend(again);
    let mut reassembler = make_reassembler(64, 1 << 20, 60);
    let mut completed = 0;
    for fragment in fragments {
        if reassembler.add_fragment(fragment, 0).unwrap() {
            completed += 1;
        }
    }
    assert_eq!(completed, 10);
    let mut orderer = make_orderer(16, 0);
    while let Some(chunk) = reassembler.tx.try_recv() {
        orderer.push_chunk(chunk);
    }
    assert_eq!(orderer.stats().chunks_received, 10);
    assert_eq!(orderer.stats().chunks_waiting, 0);
    let out: Vec<Vec<u8>> = emitted(&mut orderer).into_iter().map(|c| c.data).collect();
    assert_eq!(out, payloads);
}

#[test]
fn only_the_last_fragment_completes_a_chunk() {
    let fragments = frame_chunk(0, &(0..100u8).collect::<Vec<u8>>(), 20);
    assert_eq!(fragments.len(), 6);
    let mut reassembler = make_reassembler(4, 116, 60);
    for (k, i) in [3, 0, 5, 1, 4, 2].iter().enumerate() {
        assert_eq!(reassembler.add_fragment(fragments[*i].clone(), 0), Ok(k == 5));
    }
    assert_eq!((reassembler.in_flight_count(), reassembler.inflight_bytes()), (0, 0));
    assert!(reassembler.tx.try_recv().is_some());
    assert!(reassembler.tx.try_recv().is_none());
}
