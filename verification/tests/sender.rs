use std::collections::BTreeMap;

use braid::channel::Outlet;
use braid::compress::lz4::{compress_lz4, decompress_lz4};
use braid::protocol::crc::{
    compute_chunk_crc, compute_fragment_crc, verify_chunk_crc, verify_fragment_crc,
};
use braid::protocol::headers::{ChunkHeader, FragmentHeader, COMPRESSED_LZ4, COMPRESSION_NONE};
use braid::sender::batching::DEFAULT_BATCH_SIZE;
use braid::sender::framing::frame_chunk;
use braid::sender::parallel_splitter::{chunker_worker, ChunkStats, Dispatcher, RawChunk};
use braid::sender::queue::{
    QueueManager, QueueManagerBuilder, QueueManagerStats, QueueWorkerStats,
};
use braid::sender::splitter::ChunkSplitter;

fn make_manager(worker_count: usize) -> QueueManager {
    QueueManagerBuilder::new(worker_count).channel_capacity(64).build(0)
}

fn make_manager_with_bp(worker_count: usize) -> QueueManager {
    QueueManagerBuilder::new(worker_count)
        .channel_capacity(64)
        .backpressure_tx(Outlet::new(16))
        .build(0)
}

fn next_signal(mgr: &mut QueueManager) -> Option<bool> {
    match &mut mgr.backpressure_tx {
        Some(tx) => tx.try_recv(),
        None => None,
    }
}

#[test]
fn dispatches_to_first_worker_when_all_empty() {
    let mut mgr = make_manager(3);
    let result = mgr.dispatch(vec![0u8; 100], 0);
    assert!(result.is_ok());
    assert_eq!(mgr.stats.fragments_dispatched, 1);
}

#[test]
fn dispatches_to_least_loaded_worker() {
    let mut mgr = make_manager(3);
    mgr.workers[0].stats.pending_bytes = 500;
    mgr.workers[1].stats.pending_bytes = 300;
    let result = mgr.dispatch(vec![0u8; 100], 0);
    assert!(result.is_ok());
    assert_eq!(result.unwrap(), 2);
}

#[test]
fn dispatch_returns_error_when_all_workers_down() {
    let mut mgr = make_manager(3);
    for i in 0..3 {
        mgr.workers[i].active = false;
    }
    let result = mgr.dispatch(vec![0u8; 100], 0);
    assert!(result.is_err());
    assert_eq!(result.unwrap_err(), "all workers are down");
    assert_eq!(mgr.stats.all_workers_down_events, 1);
}

#[test]
fn retransmit_pushes_to_head_of_worker_queue() {
    let mut mgr = QueueManagerBuilder::new(2).channel_capacity(1).build(0);
    mgr.dispatch(vec![1u8; 10], 0).ok();
    mgr.dispatch(vec![2u8; 10], 0).ok();
    let result = mgr.retransmit(0, vec![99u8; 10]);
    assert!(result.is_ok());
    let head = mgr.workers[0].queue.front().unwrap();
    assert_eq!(head[0], 99);
    assert_eq!(mgr.stats.fragments_retransmitted, 1);
}

#[test]
fn retransmit_to_invalid_worker_returns_error() {
    let mut mgr = make_manager(2);
    assert!(mgr.retransmit(5, vec![0u8; 10]).is_err());
}

#[test]
fn retransmit_to_failed_worker_returns_error() {
    let mut mgr = make_manager(2);
    mgr.workers[0].active = false;
    assert!(mgr.retransmit(0, vec![0u8; 10]).is_err());
}

#[test]
fn mark_worker_failed_redistributes_pending() {
    let mut mgr = QueueManagerBuilder::new(2).channel_capacity(1).build(0);
    mgr.workers[0].queue.push_back(vec![1u8; 10]);
    mgr.workers[0].queue.push_back(vec![2u8; 10]);
    mgr.workers[0].stats.record_enqueue(10);
    mgr.workers[0].stats.record_enqueue(10);

    let pending_before = mgr.workers[0].queue.len();
    assert_eq!(pending_before, 2);

    let redistributed = mgr.mark_worker_failed(0, 0);
    assert_eq!(redistributed, pending_before);
    assert!(!mgr.workers[0].active);
    assert_eq!(mgr.workers[0].queue.len(), 0);
    assert!(mgr.stats.fragments_redistributed >= pending_before as u64);
}

#[test]
fn mark_worker_failed_already_failed_returns_zero() {
    let mut mgr = make_manager(2);
    mgr.workers[0].active = false;
    assert_eq!(mgr.mark_worker_failed(0, 0), 0);
}

#[test]
fn mark_worker_failed_invalid_index_returns_zero() {
    let mut mgr = make_manager(2);
    assert_eq!(mgr.mark_worker_failed(10, 0), 0);
}

#[test]
fn last_failed_worker_redistributes_nothing() {
    let mut mgr = QueueManagerBuilder::new(1).channel_capacity(1).build(0);
    mgr.dispatch(vec![1u8; 10], 0).unwrap();
    mgr.dispatch(vec![2u8; 10], 0).unwrap();
    assert_eq!(mgr.mark_worker_failed(0, 0), 0);
    assert!(mgr.all_workers_down());
}

#[test]
fn all_workers_down_detected() {
    let mut mgr = make_manager(3);
    assert!(!mgr.all_workers_down());
    mgr.workers[0].active = false;
    mgr.workers[1].active = false;
    mgr.workers[2].active = false;
    assert!(mgr.all_workers_down());
    assert_eq!(mgr.active_worker_count(), 0);
}

#[test]
fn active_worker_count_tracks_failures() {
    let mut mgr = make_manager(4);
    assert_eq!(mgr.active_worker_count(), 4);
    mgr.workers[0].active = false;
    assert_eq!(mgr.active_worker_count(), 3);
    mgr.workers[2].active = false;
    assert_eq!(mgr.active_worker_count(), 2);
}

#[test]
fn backpressure_signalled_when_all_workers_exceed_watermark() {
    let mut mgr = make_manager_with_bp(2);
    mgr.high_watermark = 50;
    mgr.workers[0].stats.pending_bytes = 100;
    mgr.workers[1].stats.pending_bytes = 100;
    mgr.check_backpressure();
    assert_eq!(next_signal(&mut mgr), Some(true));
    assert!(mgr.stats.backpressure_events >= 1);
}

#[test]
fn check_backpressure_full_lifecycle_pause_and_resume() {
    let mut mgr = make_manager_with_bp(2);
    mgr.high_watermark = 100;

    mgr.workers[0].stats.pending_bytes = 50;
    mgr.workers[1].stats.pending_bytes = 50;
    mgr.check_backpressure();
    assert_eq!(next_signal(&mut mgr), Some(false), "phase 1");

    mgr.workers[0].stats.pending_bytes = 200;
    mgr.workers[1].stats.pending_bytes = 200;
    mgr.check_backpressure();
    assert_eq!(next_signal(&mut mgr), Some(true), "phase 2");

    mgr.workers[0].stats.pending_bytes = 50;
    mgr.workers[1].stats.pending_bytes = 50;
    mgr.check_backpressure();
    assert_eq!(next_signal(&mut mgr), Some(false), "phase 3");

    mgr.workers[0].stats.pending_bytes = 30;
    mgr.check_backpressure();
    assert_eq!(next_signal(&mut mgr), Some(false), "phase 4");
}

#[test]
fn backpressure_not_signalled_when_one_worker_below_watermark() {
    let mut mgr = make_manager_with_bp(2);
    mgr.high_watermark = 50;
    mgr.workers[0].stats.pending_bytes = 100;
    mgr.workers[1].stats.pending_bytes = 10;
    mgr.check_backpressure();
    assert_eq!(next_signal(&mut mgr), Some(false));
}

#[test]
fn signal_pause_and_resume() {
    let mut mgr = make_manager_with_bp(2);
    mgr.signal_pause();
    assert_eq!(next_signal(&mut mgr), Some(true));
    mgr.signal_resume();
    assert_eq!(next_signal(&mut mgr), Some(false));
}

#[test]
fn builder_creates_correct_worker_count() {
    let mgr = make_manager(5);
    assert_eq!(mgr.worker_count(), 5);
    assert_eq!(mgr.workers.len(), 5);
}

#[test]
fn builder_sets_high_watermark() {
    let mgr = QueueManagerBuilder::new(2).high_watermark(999).channel_capacity(64).build(0);
    assert_eq!(mgr.high_watermark, 999);
}

#[test]
fn dispatch_flushes_to_channel_when_space_available() {
    let mut mgr = make_manager(2);
    let data = vec![42u8; 64];
    let idx = mgr.dispatch(data.clone(), 0).expect("dispatch ok");
    assert_eq!(mgr.workers[idx].queue.len(), 0);
    assert_eq!(mgr.workers[idx].tx.try_recv(), Some(data));
}

#[test]
fn queue_worker_stats_track_enqueue_dequeue() {
    let mut stats = QueueWorkerStats::default();
    stats.record_enqueue(100);
    assert_eq!(stats.pending_bytes, 100);
    assert_eq!(stats.pending_fragments, 1);

    stats.record_dequeue(100);
    assert_eq!(stats.pending_bytes, 0);
    assert_eq!(stats.pending_fragments, 0);

    stats.record_error();
    assert_eq!(stats.errors, 1);
}

#[test]
fn queue_manager_stats_track_all_operations() {
    let mut stats = QueueManagerStats::default();
    stats.record_dispatch();
    stats.record_retransmit();
    stats.record_redistribution();
    stats.record_all_down();
    stats.record_backpressure();

    assert_eq!(stats.fragments_dispatched, 1);
    assert_eq!(stats.fragments_retransmitted, 1);
    assert_eq!(stats.fragments_redistributed, 1);
    assert_eq!(stats.all_workers_down_events, 1);
    assert_eq!(stats.backpressure_events, 1);
}

#[test]
fn dispatch_queues_locally_when_channel_full() {
    let mut mgr = QueueManagerBuilder::new(1).channel_capacity(1).build(0);
    mgr.dispatch(vec![1u8; 10], 0).ok();
    mgr.dispatch(vec![2u8; 10], 0).ok();
    assert_eq!(mgr.workers[0].queue.len(), 1);
}

#[test]
fn last_chunk_id_tracks_max_chunk_id_from_batch() {
    let mut mgr = make_manager(2);
    assert_eq!(mgr.last_chunk_id(), 0, "initial last_chunk_id should be 0");

    let fragment_1 = vec![0u8, 0u8, 0u8, 5u8, 0xAA, 0xBB];
    let fragment_2 = vec![0u8, 0u8, 0u8, 3u8, 0xCC, 0xDD];
    let _ = mgr.dispatch_batch(vec![fragment_1, fragment_2], 0).ok();
    assert_eq!(mgr.last_chunk_id(), 5, "should track max chunk_id=5");

    let _ = mgr.dispatch_batch(vec![vec![0u8, 0u8, 0u8, 10u8]], 0).ok();
    assert_eq!(mgr.last_chunk_id(), 10, "should update to chunk_id=10");
}

#[test]
fn extract_chunk_id_parses_big_endian_u32() {
    let fragment = vec![0x01, 0x02, 0x03, 0x04, 0xFF];
    assert_eq!(QueueManager::extract_chunk_id(&fragment), 0x01020304);
}

#[test]
fn extract_chunk_id_returns_zero_for_short_slice() {
    assert_eq!(QueueManager::extract_chunk_id(&[0x01, 0x02]), 0);
}

#[test]
fn extract_chunk_id_zero_for_empty() {
    assert_eq!(QueueManager::extract_chunk_id(&[]), 0);
}

#[test]
fn queue_manager_creates_workers() {
    let mgr = QueueManagerBuilder::new(4).channel_capacity(64).build(0);
    assert_eq!(mgr.worker_count(), 4);
    assert_eq!(mgr.active_worker_count(), 4);
}

#[test]
fn queue_manager_dispatch_to_worker() {
    let mut mgr = QueueManagerBuilder::new(2).channel_capacity(64).build(0);
    let result = mgr.dispatch(vec![0u8; 100], 0);
    assert!(result.is_ok());
    assert_eq!(mgr.stats.fragments_dispatched, 1);
}

#[test]
fn queue_manager_all_workers_down() {
    let mut mgr = QueueManagerBuilder::new(2).channel_capacity(64).build(0);
    mgr.mark_worker_failed(0, 0);
    mgr.mark_worker_failed(1, 0);
    assert!(mgr.all_workers_down());
    let result = mgr.dispatch(vec![0u8; 100], 0);
    assert!(result.is_err());
}

#[test]
fn batches_stay_together_and_go_round() {
    let mut mgr = make_manager(3);
    let batch: Vec<Vec<u8>> = (0..6u8).map(|i| vec![0, 0, 0, i]).collect();
    let mut chosen: Vec<usize> =
        (0..3).map(|_| mgr.dispatch_batch(batch.clone(), 0).unwrap()).collect();
    chosen.sort();
    assert_eq!(chosen, vec![0, 1, 2]);
    for worker in &mgr.workers {
        assert_eq!(worker.tx.queue, batch);
    }
}

#[test]
fn rate_limit_owes_sleep_for_the_excess() {
    let mut mgr = QueueManagerBuilder::new(1).channel_capacity(64).max_rate(1_000).build(0);
    mgr.set_max_rate(1_000, 0);
    mgr.check_rate_limit(400, 500_000_000);
    assert_eq!(mgr.sleep_due_ns, 0);
    assert_eq!(mgr.rate_bucket, 100);
    mgr.check_rate_limit(600, 500_000_000);
    assert_eq!(mgr.sleep_due_ns, 500_000_000);
    assert_eq!(mgr.stats.rate_limited_bytes, 600);
    assert_eq!(mgr.stats.rate_limit_ns, 500_000_000);
    mgr.finish_sleep(1_000_000_000);
    assert_eq!(mgr.sleep_due_ns, 0);
    assert_eq!(mgr.rate_bucket, 0);
    mgr.check_rate_limit(1_000, 9_000_000_000);
    assert_eq!(mgr.sleep_due_ns, 0);
}

#[test]
fn paced_sends_keep_to_the_rate() {
    let mut mgr = QueueManagerBuilder::new(1).channel_capacity(64).max_rate(1_000).build(0);
    mgr.set_max_rate(1_000, 0);
    let mut now_ns = 0;
    for bytes in [500, 1, 999, 2_000, 250] {
        mgr.check_rate_limit(bytes, now_ns);
        now_ns += mgr.sleep_due_ns;
        mgr.finish_sleep(now_ns);
    }
    assert_eq!(now_ns, 3_750_000_000);
}

fn test_splitter(chunk_size: usize, mtu: usize) -> ChunkSplitter {
    ChunkSplitter::new(chunk_size, chunk_size, mtu, false)
}

/// Chunks by number, each as its header and the plain data, from fragments.
fn reassembled(fragments: &[Vec<u8>]) -> Vec<(ChunkHeader, Vec<u8>)> {
    let mut chunks: BTreeMap<u32, Vec<(u16, Vec<u8>)>> = BTreeMap::new();
    for frag in fragments {
        assert!(frag.len() >= FragmentHeader::LEN, "fragment too short");
        let header = FragmentHeader::try_from(&frag[..FragmentHeader::LEN]).unwrap();
        let payload = frag[FragmentHeader::LEN..].to_vec();
        assert_eq!(header.fragment_length as usize, payload.len(), "fragment_length mismatch");
        assert!(verify_fragment_crc(&payload, header.fragment_crc), "fragment CRC mismatch");
        chunks.entry(header.chunk_id).or_default().push((header.fragment_index, payload));
    }
    let mut out = Vec::new();
    for (_chunk_id, mut fragments) in chunks {
        fragments.sort_by_key(|(idx, _)| *idx);
        let mut chunk_buf = Vec::new();
        for (_, payload) in &fragments {
            chunk_buf.extend_from_slice(payload);
        }
        assert!(chunk_buf.len() >= ChunkHeader::LEN, "chunk buffer too short for header");
        let header = ChunkHeader::try_from(&chunk_buf[..ChunkHeader::LEN]).unwrap();
        let wire_payload = &chunk_buf[ChunkHeader::LEN..];
        let data = if header.flags == COMPRESSED_LZ4 {
            decompress_lz4(wire_payload).expect("decompression should succeed")
        } else {
            wire_payload.to_vec()
        };
        assert!(
            verify_chunk_crc(header.sequence_number, &data, header.chunk_crc),
            "chunk CRC mismatch"
        );
        out.push((header, data));
    }
    out
}

fn content(fragments: &[Vec<u8>]) -> Vec<u8> {
    reassembled(fragments).into_iter().flat_map(|(_, data)| data).collect()
}

#[test]
fn splitter_fragment_payload_size_is_mtu_minus_header() {
    let s = test_splitter(4096, 1500);
    assert_eq!(s.fragment_payload_size(), 1500 - FragmentHeader::LEN);
}

#[test]
fn chunk_id_monotonically_increases() {
    let mut s = test_splitter(1024, 1500);
    assert_eq!(s.next_chunk_id(), 0);
    assert_eq!(s.next_chunk_id(), 1);
    assert_eq!(s.next_chunk_id(), 2);
}

#[test]
fn single_fragment_for_small_chunk() {
    let s = test_splitter(1024, 1500);
    let payload = b"hello world";
    let chunk_crc = compute_chunk_crc(0, payload);
    let mut chunk_buf = ChunkHeader::new(0, payload.len() as u16, 0, chunk_crc).to_bytes();
    chunk_buf.extend_from_slice(payload);

    let fragments = frame_chunk(0, payload, s.fragment_payload_size());
    assert_eq!(fragments.len(), 1);
    let parsed = FragmentHeader::try_from(&fragments[0][..FragmentHeader::LEN]).unwrap();
    assert_eq!(parsed.chunk_id, 0);
    assert_eq!(parsed.fragment_index, 0);
    assert_eq!(parsed.total_fragments, 1);
    assert_eq!(parsed.fragment_length, chunk_buf.len() as u16);
    assert!(verify_fragment_crc(&chunk_buf, parsed.fragment_crc));
    assert_eq!(&fragments[0][FragmentHeader::LEN..], &chunk_buf[..]);
}

#[test]
fn multiple_fragments_for_large_chunk() {
    let mtu = 50;
    let payload: Vec<u8> = (0..200u8).collect();
    let chunk_id = 42u32;
    let chunk_crc = compute_chunk_crc(chunk_id as u64, &payload);
    let mut chunk_buf =
        ChunkHeader::new(0, payload.len() as u16, chunk_id as u64, chunk_crc).to_bytes();
    chunk_buf.extend_from_slice(&payload);

    let frag_payload_size = mtu - FragmentHeader::LEN;
    let total_fragments = chunk_buf.len().div_ceil(frag_payload_size);
    assert!(total_fragments > 1, "test requires multiple fragments");

    let fragments = frame_chunk(chunk_id as u64, &payload, frag_payload_size);
    assert_eq!(fragments.len(), total_fragments);
    for (i, frag) in fragments.iter().enumerate() {
        let parsed = FragmentHeader::try_from(&frag[..FragmentHeader::LEN]).unwrap();
        assert_eq!(parsed.chunk_id, chunk_id);
        assert_eq!(parsed.fragment_index, i as u16);
        assert_eq!(parsed.total_fragments, total_fragments as u16);
        assert!(verify_fragment_crc(&frag[FragmentHeader::LEN..], parsed.fragment_crc));
    }
    let mut joined = Vec::new();
    for frag in &fragments {
        joined.extend_from_slice(&frag[FragmentHeader::LEN..]);
    }
    assert_eq!(joined, chunk_buf);
}

#[test]
fn chunk_crc_integrity() {
    let payload = b"important data";
    let seq = 7u64;
    let crc = compute_chunk_crc(seq, payload);
    assert!(verify_chunk_crc(seq, payload, crc));
    assert!(!verify_chunk_crc(seq, b"tampered data", crc));
}

#[test]
fn fragment_crc_integrity() {
    let data = b"fragment payload";
    let crc = compute_fragment_crc(data);
    assert!(verify_fragment_crc(data, crc));
    assert!(!verify_fragment_crc(b"corrupted", crc));
}

#[test]
fn fragment_payload_size_never_zero() {
    let s = ChunkSplitter::new(1024, 1024, FragmentHeader::LEN + 1, false);
    assert_eq!(s.fragment_payload_size(), 1);
}

#[test]
fn run_produces_fragments_then_eos() {
    let mut s = ChunkSplitter::new(1024, 1024, 1500, false);
    let batches = s.run(&vec![b"test data".to_vec(), vec![]]);
    let count: usize = batches.iter().map(|b| b.len()).sum();
    assert_eq!(count, 1);
    assert_eq!(content(&batches.concat()), b"test data");
}

#[test]
fn full_batches_leave_at_once() {
    let mut s = ChunkSplitter::new(10_000, 10_000, 15 + FragmentHeader::LEN, false);
    let mut state = 1u32;
    let noise: Vec<u8> = (0..10_000)
        .map(|_| {
            state = state.wrapping_mul(1103515245).wrapping_add(12345);
            (state >> 16) as u8
        })
        .collect();
    let batches = s.run(&vec![noise.clone()]);
    assert!(batches.len() > 1);
    for batch in &batches[..batches.len() - 1] {
        assert_eq!(batch.len(), DEFAULT_BATCH_SIZE);
    }
    assert_eq!(content(&batches.concat()), noise);
}

#[test]
fn compressed_chunk_has_correct_flags() {
    let compressible_payload = vec![0xABu8; 4096];
    let sent = reassembled(&frame_chunk(0, &compressible_payload, 1486));
    assert_eq!(sent.len(), 1);
    assert_eq!(sent[0].0.flags, COMPRESSED_LZ4, "repeating data should be compressible");
    let compressed = compress_lz4(&compressible_payload).unwrap();
    assert!(compressed.len() < compressible_payload.len());
    assert_eq!(sent[0].0.payload_length as usize, compressed.len());

    let mut rng_state = 12345u32;
    let incompressible_payload: Vec<u8> = (0..4096)
        .map(|_| {
            rng_state = rng_state.wrapping_mul(1103515245).wrapping_add(12345);
            (rng_state >> 16) as u8
        })
        .collect();
    let sent = reassembled(&frame_chunk(1, &incompressible_payload, 1486));
    assert_eq!(sent[0].0.flags, COMPRESSION_NONE, "random-ish data should not be compressible");
    assert_eq!(sent[0].0.payload_length as usize, incompressible_payload.len());
    assert_eq!(sent[0].1, incompressible_payload);
    assert_eq!(sent[0].0.chunk_crc, compute_chunk_crc(1, &incompressible_payload));
}

#[test]
fn test_splitter_pause_resume() {
    let mut splitter = ChunkSplitter::new(64, 64, 1500, true);
    assert!(splitter.may_read());
    splitter.on_pause_signal(Some(true));
    assert!(!splitter.may_read());
    splitter.on_pause_signal(Some(false));
    assert!(splitter.may_read());
    assert!(splitter.on_eof().is_none());
}

#[test]
fn pause_ends_when_nobody_can_resume() {
    let mut splitter = ChunkSplitter::new(64, 64, 1500, true);
    splitter.on_pause_signal(Some(true));
    splitter.on_pause_signal(None);
    assert!(splitter.may_read());
    assert!(!splitter.is_listening());
}

#[test]
fn splitter_works_with_file_reader() {
    let file_content: Vec<u8> = (0..200u8).collect();
    let mut splitter = ChunkSplitter::new(64, 64, 1500, false);
    let mut reads: Vec<Vec<u8>> = file_content.chunks(64).map(|c| c.to_vec()).collect();
    reads.push(vec![]);
    let all_fragments = splitter.run(&reads).concat();
    assert!(!all_fragments.is_empty(), "should produce at least one fragment");
    assert_eq!(content(&all_fragments), file_content, "reassembled content must match original");
}

fn test_dispatcher(chunk_size: usize, max: usize, mtu: usize, num_workers: usize) -> Dispatcher {
    let txs: Vec<Outlet<RawChunk>> = (0..num_workers).map(|_| Outlet::new(64)).collect();
    Dispatcher::new(chunk_size, max, mtu, num_workers, txs, false)
}

fn raw_chunks(input: &[u8], chunk_size: usize) -> Vec<RawChunk> {
    input
        .chunks(chunk_size)
        .enumerate()
        .map(|(i, data)| RawChunk { chunk_id: i as u64, data: data.to_vec(), is_last: false })
        .collect()
}

fn run_worker_and_collect(input: &[u8], chunk_size: usize, mtu: usize) -> Vec<Vec<u8>> {
    let mut stats = ChunkStats::default();
    chunker_worker(mtu, &raw_chunks(input, chunk_size), &mut stats).concat()
}

#[test]
fn parallel_splitter_fragment_payload_size_is_mtu_minus_header() {
    let d = test_dispatcher(4096, 4096, 1500, 2);
    assert_eq!(d.fragment_payload_size(), 1500 - FragmentHeader::LEN);
}

#[test]
fn dispatcher_work_txs_equals_num_workers() {
    let d = test_dispatcher(1024, 1024, 1500, 4);
    assert_eq!(d.work_txs.len(), 4);
}

#[test]
fn worker_produces_valid_fragments() {
    let input: Vec<u8> = (0..100u8).collect();
    let fragments = run_worker_and_collect(&input, 64, 1500);
    assert!(!fragments.is_empty(), "should produce fragments");
    for frag in &fragments {
        assert!(frag.len() >= FragmentHeader::LEN, "fragment too short");
        let header = FragmentHeader::try_from(&frag[..FragmentHeader::LEN])
            .expect("valid fragment header");
        let payload = &frag[FragmentHeader::LEN..];
        assert!(verify_fragment_crc(payload, header.fragment_crc), "fragment CRC mismatch");
        assert_eq!(header.fragment_length as usize, payload.len(), "fragment_length mismatch");
    }
}

#[test]
fn worker_handles_eos_cleanly() {
    let mut stats = ChunkStats::default();
    let chunks = vec![RawChunk { chunk_id: 0, data: vec![0u8; 10], is_last: false }];
    let batches = chunker_worker(1500, &chunks, &mut stats);
    let count: usize = batches.iter().map(|b| b.len()).sum();
    assert!(count > 0, "should produce at least one fragment");
}

#[test]
fn worker_reassembled_content_matches_input() {
    let input: Vec<u8> = (0..200u8).collect();
    let fragments = run_worker_and_collect(&input, 64, 50);
    assert_eq!(content(&fragments), input, "reassembled content must match original");
}

#[test]
fn round_robin_distributes_across_workers() {
    let num_workers = 4;
    let mut dispatcher = test_dispatcher(32, 32, 1500, num_workers);
    assert_eq!(dispatcher.work_txs.len(), num_workers);
    assert_eq!(dispatcher.num_workers(), num_workers);
    dispatcher.on_eof();
    for tx in &mut dispatcher.work_txs {
        while let Some(chunk) = tx.try_recv() {
            assert!(chunk.is_last && chunk.data.is_empty());
        }
        assert!(tx.try_recv().is_none());
    }
}

#[test]
fn chunks_go_to_the_workers_in_turn() {
    let mut dispatcher = test_dispatcher(8, 8, 1500, 3);
    assert_eq!(dispatcher.on_read(vec![0; 8]), None);
    for i in 1..7u8 {
        assert_eq!(dispatcher.on_read(vec![i; 8]), Some((i as usize - 1) % 3));
    }
    assert_eq!(dispatcher.on_eof(), Some(0));
    let first: Vec<u64> = dispatcher.work_txs[0].queue.iter().map(|c| c.chunk_id).collect();
    assert_eq!(first, vec![0, 3, 6]);
    let second: Vec<u64> = dispatcher.work_txs[1].queue.iter().map(|c| c.chunk_id).collect();
    assert_eq!(second, vec![1, 4]);
}

#[test]
fn only_the_last_chunk_is_marked() {
    let mut dispatcher = test_dispatcher(64, 64, 1500, 1);
    dispatcher.run(&vec![b"abc".to_vec()]);
    let chunk = dispatcher.work_txs[0].try_recv().unwrap();
    assert_eq!((chunk.chunk_id, chunk.data.as_slice(), chunk.is_last), (0, &b"abc"[..], true));
    assert!(dispatcher.work_txs[0].try_recv().is_none());
    assert!(dispatcher.work_txs[0].closed);

    let mut dispatcher = test_dispatcher(64, 64, 1500, 2);
    dispatcher.run(&vec![vec![1], vec![2], vec![3], vec![4], vec![], vec![5]]);
    for (w, ids) in [[0u64, 2], [1, 3]].iter().enumerate() {
        for id in ids {
            let chunk = dispatcher.work_txs[w].try_recv().unwrap();
            assert_eq!(chunk.chunk_id, *id);
            assert_eq!(chunk.data, vec![*id as u8 + 1]);
            assert_eq!(chunk.is_last, *id == 3);
        }
        assert!(dispatcher.work_txs[w].try_recv().is_none());
    }
}

#[test]
fn last_chunk_id_follows_single_dispatches() {
    let mut mgr = QueueManagerBuilder::new(1).channel_capacity(64).build(0);
    assert_eq!(mgr.dispatch(vec![0, 0, 0, 5], 0), Ok(0));
    assert_eq!(mgr.last_chunk_id(), 5);
    assert_eq!(mgr.dispatch(vec![0, 0, 0, 3], 0), Ok(0));
    assert_eq!(mgr.last_chunk_id(), 5);
}

#[test]
fn batch_signals_only_from_the_watermark_on() {
    let mut mgr = QueueManagerBuilder::new(1)
        .channel_capacity(1)
        .high_watermark(2)
        .backpressure_tx(Outlet::new(16))
        .build(0);
    mgr.dispatch_batch(vec![vec![1], vec![2]], 0).unwrap();
    assert_eq!(next_signal(&mut mgr), None);
    mgr.dispatch_batch(vec![vec![3]], 0).unwrap();
    assert_eq!(next_signal(&mut mgr), Some(true));
    mgr.workers[0].tx.set_capacity(8);
    mgr.dispatch_batch(vec![vec![4]], 0).unwrap();
    assert_eq!(next_signal(&mut mgr), None);
    mgr.check_backpressure();
    assert_eq!(next_signal(&mut mgr), Some(false));
}

#[test]
fn batch_signals_resume_where_another_worker_is_free() {
    let mut mgr = QueueManagerBuilder::new(2)
        .channel_capacity(1)
        .high_watermark(2)
        .backpressure_tx(Outlet::new(16))
        .build(0);
    mgr.dispatch_batch(vec![vec![0], vec![1, 2]], 0).unwrap();
    assert_eq!(next_signal(&mut mgr), Some(false));
    mgr.dispatch_batch(vec![vec![0], vec![3, 4]], 0).unwrap();
    assert_eq!(next_signal(&mut mgr), Some(true));
}

#[test]
fn worker_handles_large_chunk_with_compression() {
    let input = vec![0xABu8; 4096];
    let fragments = run_worker_and_collect(&input, 4096, 1500);
    assert!(!fragments.is_empty(), "should produce fragments");
    assert_eq!(
        content(&fragments),
        input,
        "reassembled content must equal original after decompression"
    );
}

#[test]
fn worker_stats_track_bytes() {
    let mut stats = ChunkStats::default();
    let chunks = vec![
        RawChunk { chunk_id: 0, data: vec![0u8; 100], is_last: false },
        RawChunk { chunk_id: 1, data: vec![0u8; 200], is_last: false },
        RawChunk { chunk_id: 2, data: vec![0u8; 300], is_last: false },
    ];
    chunker_worker(1500, &chunks, &mut stats);
    assert_eq!(stats.bytes_processed, 600, "should track total bytes processed");
}

#[test]
fn chunkers_and_splitter_frame_alike() {
    let input: Vec<u8> = (0..1000u32).map(|i| (i * 7 % 256) as u8).collect();
    let mut splitter = ChunkSplitter::new(64, 64, 60, false);
    let reads: Vec<Vec<u8>> = input.chunks(64).map(|c| c.to_vec()).collect();
    assert_eq!(splitter.run(&reads).concat(), run_worker_and_collect(&input, 64, 60));
}
