use std::time::Duration;

use braid::buffer::pool::BufferPool;
use braid::buffer::ring::RingBuffer;
use braid::control::client::ControlError;
use braid::channel::Outlet;
use braid::error::BraidError;
use braid::flow::FlowController;
use braid::progress::reporter::{
    format_duration, ProgressReporter, ProgressVerbosity,
};
use braid::protocol::control::ControlMessage;
use braid::protocol::crc::compute_fragment_crc;
use braid::protocol::headers::FragmentHeader;
use braid::sender::framing::frame_chunk;
use braid::sender::queue::QueueManagerBuilder;
use braid::sender::worker::WorkerResult;
use braid::session::receive::{
    accept_file, answer_reconnect, judge_file, more_may_come, next_wait, received_note, refuse_file,
    route_control, BraidReceive, Datagram, FileStartError, ReceiveRoute, ReceiveWorker, WaitStep,
};
use braid::session::send::{
    ceil_log2, end_message, file_result, outcome, verified_note, BraidSend, ControlRoute,
    ControlRouter, DispatchLoop, FileFailure, FlowLink, PauseRequests, PauseSource, QmExitReason,
    Reconnect, ReconnectError, ReconnectStep, RECONNECT_ACK_TIMEOUT_NS, RECONNECT_CHANNEL_TIMEOUT_NS,
};
use braid::session::{Awaited, Mode};
use braid::shutdown::manager::ShutdownManager;

#[test]
fn new_returns_not_shutting_down() {
    let mgr = ShutdownManager::new();
    assert!(!mgr.is_shutting_down());
    assert!(mgr.check().is_ok());
}

#[test]
fn default_returns_not_shutting_down() {
    let mgr = ShutdownManager::default();
    assert!(!mgr.is_shutting_down());
}

#[test]
fn initiate_sets_flag() {
    let mut mgr = ShutdownManager::new();
    mgr.initiate();
    assert!(mgr.is_shutting_down());
}

#[test]
fn initiate_causes_check_to_return_error() {
    let mut mgr = ShutdownManager::new();
    mgr.initiate();
    let result = mgr.check();
    assert!(result.is_err());
    assert!(matches!(result.unwrap_err(), BraidError::Shutdown));
}

#[test]
fn initiate_is_idempotent() {
    let mut mgr = ShutdownManager::new();
    assert!(mgr.initiate());
    assert!(!mgr.initiate());
    assert!(mgr.is_shutting_down());
}

#[test]
fn shutdown_manager_is_send() {
    fn assert_send<T: Send>() {}
    assert_send::<ShutdownManager>();
}

#[test]
fn shutdown_manager_is_sync() {
    fn assert_sync<T: Sync>() {}
    assert_sync::<ShutdownManager>();
}

#[test]
fn braid_receive_shutdown_manager_initial_state() {
    let mgr = ShutdownManager::new();
    assert!(!mgr.is_shutting_down());
    assert!(mgr.check().is_ok());
}

#[test]
fn braid_receive_shutdown_manager_initiate_sets_flag() {
    let mut mgr = ShutdownManager::new();
    mgr.initiate();
    assert!(mgr.is_shutting_down());
    assert!(mgr.check().is_err());
}

#[test]
fn braid_receive_shutdown_manager_is_idempotent() {
    let mut mgr = ShutdownManager::new();
    mgr.initiate();
    mgr.initiate();
    assert!(mgr.is_shutting_down());
}

#[test]
fn braid_send_shutdown_manager_initial_state() {
    let mgr = ShutdownManager::new();
    assert!(!mgr.is_shutting_down());
    assert!(mgr.check().is_ok());
}

#[test]
fn braid_send_shutdown_manager_initiate_sets_flag() {
    let mut mgr = ShutdownManager::new();
    mgr.initiate();
    assert!(mgr.is_shutting_down());
    assert!(mgr.check().is_err());
}

#[test]
fn braid_send_shutdown_manager_is_idempotent() {
    let mut mgr = ShutdownManager::new();
    mgr.initiate();
    mgr.initiate();
    assert!(mgr.is_shutting_down());
}

#[test]
fn acquire_blocks_when_empty() {
    let mut pool = BufferPool::new(1, 32);
    let buf1 = pool.acquire().unwrap();
    assert!(pool.acquire().is_none());
    pool.release(buf1);
    assert!(pool.acquire().is_some(), "acquire should unblock after buffer is returned");
}

#[test]
fn drop_returns_to_pool() {
    let mut pool = BufferPool::new(1, 16);
    assert_eq!(pool.used_count(), 0);
    let buf = pool.acquire().unwrap();
    assert_eq!(pool.used_count(), 1);
    pool.release(buf);
    assert_eq!(pool.used_count(), 0);
}

#[test]
fn used_count_tracks_in_use() {
    let mut pool = BufferPool::new(3, 32);
    assert_eq!(pool.used_count(), 0);
    let b1 = pool.acquire().unwrap();
    assert_eq!(pool.used_count(), 1);
    let b2 = pool.acquire().unwrap();
    assert_eq!(pool.used_count(), 2);
    pool.release(b1);
    assert_eq!(pool.used_count(), 1);
    pool.release(b2);
    assert_eq!(pool.used_count(), 0);
}

#[test]
fn split_to_returns_owned_slice() {
    let mut pool = BufferPool::new(1, 64);
    let mut buf = pool.acquire().unwrap();
    buf.buffer[0] = 10;
    buf.buffer[1] = 20;
    buf.buffer[2] = 30;
    let slice = buf.split_to(3);
    assert_eq!(slice.len(), 3);
    assert_eq!(slice[0], 10);
    assert_eq!(slice[1], 20);
    assert_eq!(slice[2], 30);
    assert_eq!(buf.buffer.len(), 61);
}

#[test]
fn as_bytes_mut_returns_ref() {
    let mut pool = BufferPool::new(1, 32);
    let mut buf = pool.acquire().unwrap();
    let bytes_ref = buf.as_bytes_mut();
    bytes_ref[0] = 99;
    assert_eq!(buf.buffer[0], 99);
    assert_eq!(buf.buffer.len(), 32);
}

#[test]
fn buffer_pool_creation() {
    let mut pool = BufferPool::new(10, 1024);
    let guard = pool.acquire().unwrap();
    assert_eq!(guard.buffer.len(), 1024);
    assert_eq!(pool.total_count(), 10);
}

#[test]
fn buffer_pool_reuses_buffers() {
    let mut pool = BufferPool::new(1, 8);
    let mut guard = pool.acquire().unwrap();
    guard.buffer[0] = 42;
    pool.release(guard);
    let guard = pool.acquire().unwrap();
    assert_eq!(guard.buffer.len(), 8);
    assert_eq!(guard.buffer[0], 0);
}

#[test]
fn many_buffers_come_together_or_not_at_all() {
    let mut pool = BufferPool::new(3, 8);
    let first = pool.acquire().unwrap();
    assert!(pool.acquire_many(3).is_none());
    assert_eq!(pool.used_count(), 1);
    pool.release(first);
    assert_eq!(pool.acquire_many(3).unwrap().len(), 3);
    assert_eq!(pool.used_count(), 3);
}

#[test]
fn concurrent_producer_consumer() {
    let mut ring = RingBuffer::new(4);
    let mut next = 0;
    let mut out = Vec::new();
    while out.len() < 32 {
        while next < 32 && ring.push(next).is_ok() {
            next += 1;
        }
        out.push(ring.pop().unwrap());
    }
    assert_eq!(out, (0..32).collect::<Vec<i32>>());
    assert!(ring.is_empty());
}

#[test]
fn near_capacity_signal_trips() {
    let mut ring = RingBuffer::new(4);
    ring.push(1).unwrap();
    ring.push(2).unwrap();
    ring.push(3).unwrap();
    assert!(ring.is_near_capacity(5, 10));
    assert!(!ring.is_near_capacity(9, 10));
    assert_eq!(ring.len(), 3);
    ring.push(4).unwrap();
    assert_eq!(ring.push(5), Err(5));
}

fn reporter() -> ProgressReporter {
    ProgressReporter::new(Duration::from_secs(5), ProgressVerbosity::Normal, 0)
}

#[test]
fn new_initializes_state() {
    assert_eq!(reporter().snapshot(Duration::from_secs(0)).total_bytes, 0);
}

#[test]
fn progress_reporter_creation() {
    let reporter = ProgressReporter::new(Duration::from_secs(1), ProgressVerbosity::Normal, 0);
    let snapshot = reporter.snapshot(Duration::from_secs(0));
    assert_eq!(snapshot.total_bytes, 0);
    assert!(snapshot.eta().is_none());
}

#[test]
fn records_bytes() {
    let mut r = reporter();
    r.record_bytes(1024);
    assert_eq!(r.snapshot(Duration::from_secs(1)).total_bytes, 1024);
}

#[test]
fn stores_chunk_size() {
    let mut r = reporter();
    r.set_chunk_size(2048);
    assert_eq!(r.snapshot(Duration::from_secs(1)).chunk_size, 2048);
}

#[test]
fn stores_channel_count() {
    let mut r = reporter();
    r.set_channel_count(4);
    assert_eq!(r.snapshot(Duration::from_secs(1)).channel_count, 4);
}

#[test]
fn stores_buffer_fullness() {
    let mut r = reporter();
    r.set_buffer_fullness(7350);
    let snapshot = r.snapshot(Duration::from_secs(1));
    assert_eq!(snapshot.buffer_fullness_basis_points as f64 / 100.0, 73.5);
    r.set_buffer_fullness(20_000);
    assert_eq!(r.snapshot(Duration::from_secs(1)).buffer_fullness_basis_points, 10_000);
}

#[test]
fn tracks_errors() {
    let mut r = reporter();
    r.increment_retransmits();
    r.increment_crc_errors();
    assert_eq!(r.snapshot(Duration::from_secs(1)).retransmit_count, 1);
    assert_eq!(r.snapshot(Duration::from_secs(1)).crc_errors, 1);
}

#[test]
fn formats_progress_line() {
    let mut r = reporter();
    r.record_bytes(5 * 1024 * 1024);
    r.set_chunk_size(4096);
    r.set_channel_count(4);
    let line = r.format_line(Duration::from_secs(5), "1.00", "0.0", false);
    assert!(line.contains("elapsed="));
    assert!(line.contains("throughput="));
    assert_eq!(
        line,
        "elapsed=00:00:05 total=5242880B throughput=1.00MB/s chunk=4096 channels=4 buffer=0.0% \
         retransmits=0 crc_errors=0 eta=--:--"
    );
}

#[test]
fn formats_final_summary() {
    let mut r = reporter();
    r.increment_retransmits();
    let summary = r.finalize_summary("0.00s", "0.00", "0.00");
    assert!(summary.contains("Completed"));
    assert_eq!(summary, "Completed in 0.00s; avg 0.00 MB/s; peak 0.00 MB/s; errors 1");
}

#[test]
fn durations_are_shown_as_a_clock() {
    assert_eq!(format_duration(Duration::from_secs(0)), "00:00:00");
    assert_eq!(format_duration(Duration::from_millis(3_661_999)), "01:01:01");
    assert_eq!(format_duration(Duration::from_secs(360_000)), "100:00:00");
}

#[test]
fn ticks_come_at_the_interval() {
    let mut r = reporter();
    r.record_bytes(10);
    assert_eq!(r.due(false, false, 4_999_999_999), None);
    let tick = r.due(false, false, 5_000_000_000).unwrap();
    assert_eq!(tick.delta_bytes, 10);
    assert_eq!(tick.elapsed_ns, 5_000_000_000);
    assert!(tick.shown);
    r.tick(tick);
    assert_eq!(r.peak_interval_bytes(), 10);
    assert_eq!(r.due(false, false, 6_000_000_000), None);
    assert!(r.due(true, false, 6_000_000_000).is_some());
    let quiet = ProgressReporter::new(Duration::from_secs(0), ProgressVerbosity::Quiet, 0);
    assert!(!quiet.due(true, false, 0).unwrap().shown);
    assert!(quiet.due(false, true, 0).unwrap().shown);
}

fn sender(chunk: usize, channels: usize, mtu: usize) -> BraidSend {
    BraidSend::new(
        "127.0.0.1:9000".to_string(),
        chunk,
        channels,
        mtu,
        0,
        ProgressVerbosity::Normal,
    )
}

#[test]
fn creates_braid_send_with_defaults() {
    let send = sender(0, 0, 1500);
    assert_eq!(send.destination, "127.0.0.1:9000");
    assert_eq!(send.chunk_size, 0);
    assert_eq!(send.channels, 0);
    assert_eq!(send.mtu, 1500);
}

#[test]
fn creates_braid_send_with_explicit_values() {
    let send = BraidSend::new(
        "[::1]:8080".to_string(),
        4096,
        8,
        9000,
        125000000,
        ProgressVerbosity::Quiet,
    );
    assert_eq!(send.destination, "[::1]:8080");
    assert_eq!(send.chunk_size, 4096);
    assert_eq!(send.channels, 8);
    assert_eq!(send.mtu, 9000);
    assert_eq!(send.max_rate, 125000000);
}

#[test]
fn creates_braid_send_verbose() {
    let send = BraidSend::new(
        "127.0.0.1:9000".to_string(),
        0,
        0,
        1500,
        0,
        ProgressVerbosity::Verbose,
    );
    assert_eq!(send.verbosity, ProgressVerbosity::Verbose);
}

#[test]
fn creates_braid_receive_with_defaults() {
    let recv = BraidReceive::new(
        "127.0.0.1:9000".to_string(),
        None,
        65536,
        1500,
        ProgressVerbosity::Normal,
    );
    assert_eq!(recv.bind, "127.0.0.1:9000");
    assert!(recv.output.is_none());
    assert_eq!(recv.buffer_size, 65536);
    assert_eq!(recv.mtu, 1500);
}

#[test]
fn creates_braid_receive_with_output() {
    let recv = BraidReceive::new(
        "[::1]:8080".to_string(),
        Some("output.bin".to_string()),
        8192,
        9000,
        ProgressVerbosity::Quiet,
    );
    assert_eq!(recv.bind, "[::1]:8080");
    assert_eq!(recv.output, Some("output.bin".to_string()));
    assert_eq!(recv.buffer_size, 8192);
    assert_eq!(recv.mtu, 9000);
}

#[test]
fn creates_braid_receive_verbose() {
    let recv = BraidReceive::new(
        "127.0.0.1:9000".to_string(),
        None,
        0,
        1500,
        ProgressVerbosity::Verbose,
    );
    assert_eq!(recv.verbosity, ProgressVerbosity::Verbose);
    assert_eq!(recv.max_inflight(), 64 * 1024 * 1024);
    assert_eq!(recv.pool_buffers(), 1024);
}

#[test]
fn sender_asks_for_what_it_was_told() {
    let config = sender(0, 0, 1500).negotiation_config();
    assert_eq!(config.channel_count, 4);
    assert_eq!((config.min_chunk, config.max_chunk, config.mtu), (10, 20, 11));
    assert!(config.compression_lz4);
    assert_eq!(sender(0, 300, 1500).negotiation_config().channel_count, 44);
    let logs: Vec<u32> = [0, 1, 2, 3, 1024, 1025].iter().map(|&n| ceil_log2(n)).collect();
    assert_eq!(logs, vec![0, 0, 1, 2, 10, 11]);
}

#[test]
fn work_is_laid_out_by_processors() {
    let plan = sender(0, 0, 1500).plan(Some(8));
    assert_eq!((plan.chunkers, plan.pool_buffers), (4, 8));
    assert_eq!((plan.chunk_size, plan.max_chunk_size), (65_535, 65_535));
    assert_eq!(plan.pool_buffer_size, 65_535);
    let plan = sender(100_000, 0, 1500).plan(None);
    assert_eq!((plan.chunkers, plan.pool_buffers), (1, 4));
    assert_eq!((plan.chunk_size, plan.max_chunk_size), (100_000, 100_000));
}

#[test]
fn file_mode_needs_a_file() {
    let mut send = sender(0, 0, 1500);
    assert_eq!(send.input_file(), Ok(None));
    send.mode = Mode::File;
    assert_eq!(send.input_file(), Err("file mode requires --input <PATH>"));
    send.input = Some("a".to_string());
    assert_eq!(send.input_file(), Ok(Some(&"a".to_string())));
}

#[test]
fn dispatch_loop_ends_with_its_workers() {
    let manager = QueueManagerBuilder::new(2).channel_capacity(4).build(0);
    let mut run = DispatchLoop::new(manager, 1);
    run.on_batch(Some(vec![vec![0, 0, 0, 9]]), false, 0);
    assert_eq!(run.exit, None);
    run.on_health(0, WorkerResult::Done, 0, 0);
    run.on_health(0, WorkerResult::Failed, 0, 0);
    assert_eq!(run.manager.active_worker_count(), 1);
    run.on_health(1, WorkerResult::Failed, 0, 0);
    run.on_health(2, WorkerResult::Failed, 0, 0);
    run.on_batch(Some(vec![vec![0, 0, 0, 10]]), false, 0);
    assert_eq!(run.exit, Some(QmExitReason::AllWorkersDown { last_chunk_id: 9 }));
    assert_eq!(end_message(run.exit.unwrap(), 9), None);
}

#[test]
fn channels_die_of_failures_in_a_row() {
    let manager = QueueManagerBuilder::new(2).channel_capacity(4).build(0);
    let mut run = DispatchLoop::new(manager, 3);
    for fragments_sent in [5, 6, 6] {
        run.on_health(0, WorkerResult::Failed, fragments_sent, 0);
        assert_eq!(run.manager.active_worker_count(), 2);
    }
    assert_eq!(run.health.consecutive_failures(0), 2);
    run.on_health(0, WorkerResult::Failed, 6, 0);
    assert_eq!(run.manager.active_worker_count(), 1);
    assert!(!run.health.is_alive(0));
    run.on_health(0, WorkerResult::Failed, 7, 0);
    assert!(!run.health.is_alive(0));
}

#[test]
fn latest_signal_is_passed_on() {
    let manager = QueueManagerBuilder::new(1)
        .channel_capacity(1)
        .high_watermark(2)
        .backpressure_tx(Outlet::new(16))
        .build(0);
    let mut run = DispatchLoop::new(manager, 1);
    assert_eq!(run.signal_to_pass_on(), None);
    assert!(!run.should_drain());
    run.on_batch(Some(vec![vec![1], vec![2], vec![3]]), false, 0);
    assert!(run.should_drain());
    assert_eq!(run.signal_to_pass_on(), Some(true));
    assert_eq!(run.signal_to_pass_on(), None);
    // What waits leaves with the next batch, which signals nothing. The pause is
    // reason enough to look again.
    run.manager.workers[0].tx.set_capacity(8);
    run.on_batch(Some(vec![vec![4]]), false, 0);
    assert_eq!(run.signal_to_pass_on(), None);
    assert!(run.paused && run.should_drain());
    run.drain();
    run.manager.signal_pause();
    run.drain();
    assert_eq!(run.signal_to_pass_on(), Some(false));
    assert!(!run.paused && !run.should_drain());
    // Without workers, the splitter is not kept waiting.
    run.manager.signal_pause();
    run.on_health(0, WorkerResult::Failed, 0, 0);
    assert_eq!(run.signal_to_pass_on(), Some(false));
    let mut silent = DispatchLoop::new(QueueManagerBuilder::new(1).build(0), 1);
    assert_eq!(silent.signal_to_pass_on(), None);
}

#[test]
fn new_channels_are_kept_ready_until_the_end() {
    assert!(more_may_come(&Awaited::TimedOut));
    let reconnect = ControlMessage::Reconnect { last_sequence_number: 3 };
    assert!(more_may_come(&Awaited::Message(reconnect)));
    let eos = ControlMessage::Eos { sequence_number: 3 };
    assert!(!more_may_come(&Awaited::Message(eos)));
    assert!(!more_may_come(&Awaited::Closed));
}

#[test]
fn end_of_stream_is_announced() {
    let manager = QueueManagerBuilder::new(1).channel_capacity(4).build(0);
    let mut run = DispatchLoop::new(manager, 3);
    run.on_batch(None, false, 0);
    assert_eq!(run.exit, Some(QmExitReason::Normal));
    assert_eq!(
        end_message(QmExitReason::Normal, 12),
        Some(ControlMessage::Eos { sequence_number: 12 })
    );
    let eos = Ok(ControlMessage::Eos { sequence_number: 12 });
    assert_eq!(route_control(&eos), ReceiveRoute::EndOfStream(12));
}

#[test]
fn control_messages_find_their_way() {
    let mut router = ControlRouter::new(Mode::File);
    let status = ControlMessage::QueueStatus { queued_chunks: 1, queued_bytes: 2, total_capacity: 3 };
    assert!(matches!(router.on_received(Ok(status)), ControlRoute::ToFlow(_)));
    let complete =
        ControlMessage::FileComplete { success: true, expected_hash: 1, computed_hash: 1 };
    assert!(matches!(router.on_received(Ok(complete)), ControlRoute::ToFileResult(_)));
    let ack = ControlMessage::Ack { sequence_number: 1 };
    assert!(matches!(router.on_received(Ok(ack)), ControlRoute::ToReconnect(_)));
    let error = ControlMessage::Error { code: 1, detail: 1 };
    assert!(matches!(router.on_received(Ok(error)), ControlRoute::Ignore));
    assert!(matches!(router.on_received(Err(ControlError::Timeout)), ControlRoute::Stop));
    assert!(matches!(router.on_outgoing(None), ControlRoute::Ignore));
    assert!(matches!(router.on_received(Err(ControlError::Timeout)), ControlRoute::Ignore));
    let mut pipe = ControlRouter::new(Mode::Pipe);
    assert!(matches!(pipe.on_outgoing(None), ControlRoute::Stop));
    let eos = ControlMessage::Eos { sequence_number: 1 };
    assert!(matches!(pipe.on_outgoing(Some(eos)), ControlRoute::Transmit(_)));
}

#[test]
fn reconnect_collects_the_channels() {
    let (mut reconnect, msg) = Reconnect::start(77);
    assert_eq!(msg, ControlMessage::Reconnect { last_sequence_number: 77 });
    assert_eq!(reconnect.timeout_ns(), RECONNECT_ACK_TIMEOUT_NS);
    for answer in answer_reconnect(&vec![None, Some(41), Some(42)]) {
        assert!(matches!(reconnect.on_awaited(Awaited::Message(answer)), ReconnectStep::Receive));
        assert_eq!(reconnect.timeout_ns(), RECONNECT_CHANNEL_TIMEOUT_NS);
    }
    match reconnect.on_awaited(Awaited::TimedOut) {
        ReconnectStep::Done(channels) => {
            let listed: Vec<(u16, u16)> = channels.iter().map(|c| (c.channel_id, c.port)).collect();
            assert_eq!(listed, vec![(1, 41), (2, 42)]);
        }
        other => panic!("expected channels, got {:?}", other),
    }
}

#[test]
fn reconnect_failures() {
    let failure = |awaited: Awaited| {
        let (mut reconnect, _) = Reconnect::start(1);
        match reconnect.on_awaited(awaited) {
            ReconnectStep::Failed(e) => e,
            other => panic!("expected a failure, got {:?}", other),
        }
    };
    assert_eq!(failure(Awaited::TimedOut).to_string(), "timeout waiting for Ack after Reconnect");
    assert!(matches!(failure(Awaited::Closed), ReconnectError::ChannelClosed));
    let nack = ControlMessage::Nack { sequence_number: 5, reason: 6 };
    assert_eq!(
        failure(Awaited::Message(nack)).to_string(),
        "receiver rejected reconnect: Nack(sequence_number=5, reason=6)"
    );
    let error = ControlMessage::Error { code: 1, detail: 2 };
    assert!(matches!(failure(Awaited::Message(error)), ReconnectError::Unexpected(_)));
    let (mut reconnect, _) = Reconnect::start(1);
    reconnect.on_awaited(Awaited::Message(ControlMessage::Ack { sequence_number: 0 }));
    assert!(matches!(
        reconnect.on_awaited(Awaited::Closed),
        ReconnectStep::Failed(ReconnectError::NoChannels)
    ));
}

#[test]
fn intact_file_is_accepted_on_both_sides() {
    let start = ControlMessage::FileStart {
        filename: " a.bin ".to_string(),
        filesize: 5,
        file_crc32c: 0x3610_a686,
    };
    let meta = accept_file(start).unwrap();
    assert_eq!((meta.filename.as_str(), meta.filesize), ("a.bin", 5));
    let (msg, keep) = judge_file(meta.file_crc32c, compute_fragment_crc(b"hello"));
    assert!(keep);
    let result = file_result(Awaited::Message(msg));
    assert!(matches!(result, Ok(0x3610_a686)));
    assert_eq!(verified_note(0x3610_a686), "file transfer verified (crc32c=3610a686)");
    assert_eq!(
        received_note(0x3610_a686),
        "file transferred successfully (crc32c=0x3610A686)"
    );
    assert!(outcome(false, result).is_ok());
    assert!(matches!(outcome(true, Ok(1)), Err(None)));
}

#[test]
fn damaged_file_is_refused_on_both_sides() {
    let (msg, keep) = judge_file(1, 2);
    assert!(!keep);
    let failure = file_result(Awaited::Message(msg)).unwrap_err();
    assert_eq!(
        failure.to_string(),
        "receiver reported file integrity failure: expected crc32c=00000001, computed \
         crc32c=00000002"
    );
    let refused = file_result(Awaited::Message(refuse_file()));
    assert!(matches!(refused, Err(FileFailure::Damaged { expected: 0, computed: 0 })));
    assert!(matches!(file_result(Awaited::TimedOut), Err(FileFailure::NotAcknowledged)));
    assert!(matches!(file_result(Awaited::Closed), Err(FileFailure::ChannelClosed)));
    let ack = ControlMessage::Ack { sequence_number: 0 };
    assert!(matches!(file_result(Awaited::Message(ack)), Err(FileFailure::Unexpected(_))));
}

#[test]
fn unsafe_file_names_are_refused() {
    let start = ControlMessage::FileStart {
        filename: "../x".to_string(),
        filesize: 5,
        file_crc32c: 0,
    };
    let error = accept_file(start).unwrap_err();
    assert_eq!(error.to_string(), "invalid filename from sender: invalid filename");
    assert_eq!(error.answer(), Some(refuse_file()));
    let other = accept_file(ControlMessage::Ack { sequence_number: 1 }).unwrap_err();
    assert!(matches!(other, FileStartError::Unexpected(_)));
    assert_eq!(other.answer(), None);
}

#[test]
fn datagrams_go_to_the_shard_of_their_chunk() {
    let mut worker = ReceiveWorker::new(3);
    for fragment in frame_chunk(7, &[1, 2, 3, 4, 5, 6, 7, 8], 10) {
        assert_eq!(worker.on_datagram(&fragment), Datagram::Routed(1));
        let mut damaged = fragment.clone();
        damaged[FragmentHeader::LEN] ^= 1;
        assert_eq!(worker.on_datagram(&damaged), Datagram::Damaged);
    }
    assert_eq!(worker.on_datagram(&[0; 13]), Datagram::TooShort);
}

#[test]
fn worker_stops_after_ten_timeouts_in_a_row() {
    let mut worker = ReceiveWorker::new(1);
    for _ in 0..9 {
        assert!(worker.on_timeout());
    }
    worker.on_datagram(&[]);
    for _ in 0..9 {
        assert!(worker.on_timeout());
    }
    assert!(!worker.on_timeout());
}

#[test]
fn wait_for_the_end_of_the_stream() {
    let reconnect = Awaited::Message(ControlMessage::Reconnect { last_sequence_number: 3 });
    assert_eq!(next_wait(&reconnect, true, true), WaitStep::Reconnect(3));
    assert_eq!(next_wait(&Awaited::TimedOut, true, true), WaitStep::Done);
    assert_eq!(next_wait(&Awaited::TimedOut, false, true), WaitStep::Interrupted);
    assert_eq!(next_wait(&Awaited::Closed, false, false), WaitStep::GoOn);
    let file = Ok(ControlMessage::FileStart {
        filename: String::new(),
        filesize: 0,
        file_crc32c: 0,
    });
    assert_eq!(route_control(&file), ReceiveRoute::Abort);
    assert_eq!(route_control(&Err(ControlError::Timeout)), ReceiveRoute::Stop);
}

#[test]
fn splitting_goes_on_when_nobody_wants_a_pause() {
    let mut requests = PauseRequests::new();
    assert!(requests.on_signal(PauseSource::Workers, true));
    assert!(requests.on_signal(PauseSource::Receiver, true));
    assert!(requests.on_signal(PauseSource::Workers, false));
    assert!(!requests.on_signal(PauseSource::Receiver, false));
}

#[test]
fn less_is_read_for_a_receiver_with_little_room() {
    let plan = sender(0, 0, 1500).plan(Some(4));
    let mut flow = FlowController::new(100);
    assert_eq!(plan.read_size(&flow, 1000), 1000);
    assert_eq!(plan.read_size(&flow, 0), 1);
    assert_eq!(plan.read_size(&flow, usize::MAX), plan.max_chunk_size);
    flow.update_occupancy(60);
    assert_eq!(plan.read_size(&flow, 1000), 750);
    flow.update_occupancy(99);
    assert_eq!(plan.read_size(&flow, 1000), 1);
}

#[test]
fn first_report_tells_the_capacity() {
    let status = |queued_chunks, total_capacity| ControlMessage::QueueStatus {
        queued_chunks,
        queued_bytes: queued_chunks,
        total_capacity,
    };
    let mut link = FlowLink::new(Outlet::new(4));
    assert!(link.on_message(&ControlMessage::Eos { sequence_number: 0 }).is_none());
    assert!(!link.reported);
    let refusal = link.on_message(&status(96, 100));
    assert_eq!(refusal, Some(ControlMessage::Nack { sequence_number: 0, reason: 0 }));
    assert!(link.reported);
    assert_eq!(link.reactor.controller().total_capacity(), 100);
    assert!(link.on_message(&status(10, 7)).is_none());
    assert_eq!(link.reactor.controller().total_capacity(), 100);
    let pauses = link.reactor.flow_pause_tx.as_mut().unwrap();
    assert_eq!(pauses.try_recv(), Some(true));
    assert_eq!(pauses.try_recv(), Some(false));
    assert_eq!(pauses.try_recv(), None);
}

#[test]
fn what_waits_at_the_end_is_drained() {
    let manager = QueueManagerBuilder::new(1).channel_capacity(1).build(0);
    let mut run = DispatchLoop::new(manager, 3);
    run.on_batch(Some(vec![vec![1], vec![2], vec![3]]), false, 0);
    assert!(!run.must_drain(false));
    run.on_batch(None, false, 0);
    assert!(run.must_drain(false));
    assert!(!run.must_drain(true));
    let mut sent = Vec::new();
    while run.must_drain(false) {
        sent.extend(run.manager.workers[0].tx.try_recv());
        run.drain();
    }
    sent.extend(run.manager.workers[0].tx.try_recv());
    assert_eq!(sent, vec![vec![1], vec![2], vec![3]]);
}
