use braid::channel::Outlet;
use braid::sender::worker::{
    BatchOutcome, BatchSendWorker, SendOutcome, UdpSendWorker, UdpSendWorkerStats, WorkerAction,
    WorkerResult, MAX_SEND_RETRIES,
};

fn make_worker() -> UdpSendWorker {
    UdpSendWorker::new(0, 65536, 1_000_000_000, UdpSendWorkerStats::default(), None)
}

/// Sends every fragment to `socket`, then ends.
fn run_worker(worker: &mut UdpSendWorker, fragments: &[Vec<u8>], socket: &mut Vec<Vec<u8>>) {
    for fragment in fragments {
        socket.push(fragment.clone());
        worker.on_send(Some(fragment.len()));
    }
    worker.on_closed();
}

fn make_batch_worker(batch_usec: u64) -> BatchSendWorker {
    BatchSendWorker::new(
        0,
        65536,
        1_000_000_000,
        16,
        batch_usec,
        UdpSendWorkerStats::default(),
        Some(Outlet::new(16)),
    )
}

/// Runs the worker on the fragments against a socket that takes everything.
fn run_batch_worker(worker: &mut BatchSendWorker, fragments: &[Vec<u8>], socket: &mut Vec<Vec<u8>>) {
    let mut next = 0;
    let mut now_ns = 0;
    loop {
        match worker.action() {
            WorkerAction::Receive | WorkerAction::TryReceive => {
                now_ns += 10_000;
                if next < fragments.len() {
                    worker.on_fragment(fragments[next].clone(), now_ns);
                    next += 1;
                    worker.poll(now_ns);
                } else {
                    worker.on_closed();
                }
            }
            WorkerAction::SendBatch(count) => {
                for i in 0..count {
                    socket.push(worker.pending(i).to_vec());
                }
                worker.on_batch(BatchOutcome::Sent(count));
            }
            WorkerAction::AwaitWritable => worker.on_writable(true),
            WorkerAction::TrySend => {
                let fragment = worker.pending(0).to_vec();
                worker.on_send(SendOutcome::Sent(fragment.len()));
                socket.push(fragment);
            }
            WorkerAction::Finish => break,
        }
    }
}

#[test]
fn worker_sends_datagram_to_listener() {
    let mut worker = make_worker();
    let fragment_data = vec![0x50, 0x00, 0x00, 0x0A, 0x01, 0x02, 0x03, 0x04];
    let mut socket = Vec::new();
    run_worker(&mut worker, &[fragment_data.clone()], &mut socket);
    assert_eq!(socket, vec![fragment_data.clone()]);
    assert_eq!(worker.stats.fragments_sent, 1);
    assert_eq!(worker.stats.bytes_sent, fragment_data.len() as u64);
    assert_eq!(worker.stats.errors, 0);
}

#[test]
fn worker_sends_multiple_fragments() {
    let mut worker = make_worker();
    let fragments: Vec<Vec<u8>> = (0..5).map(|i| vec![i as u8; 100]).collect();
    let mut socket = Vec::new();
    run_worker(&mut worker, &fragments, &mut socket);
    assert_eq!(socket, fragments);
    assert_eq!(worker.stats.fragments_sent, fragments.len() as u64);
    assert_eq!(worker.stats.errors, 0);
}

#[test]
fn worker_terminates_on_channel_close() {
    let mut worker = UdpSendWorker::new(
        0,
        65536,
        1_000_000_000,
        UdpSendWorkerStats::default(),
        Some(Outlet::new(4)),
    );
    worker.on_closed();
    let mut reports = worker.health_tx.take().unwrap();
    assert_eq!(reports.try_recv(), Some(WorkerResult::Done));
    assert_eq!(reports.try_recv(), None);
}

#[test]
fn worker_handles_unreachable_destination() {
    let mut worker = UdpSendWorker::new(
        0,
        65536,
        1_000_000_000,
        UdpSendWorkerStats::default(),
        Some(Outlet::new(4)),
    );
    worker.on_send(None);
    worker.on_closed();
    assert_eq!(worker.stats.fragments_sent, 0);
    assert_eq!(worker.stats.errors, 1);
    let mut reports = worker.health_tx.take().unwrap();
    assert_eq!(reports.try_recv(), Some(WorkerResult::Failed));
    assert_eq!(reports.try_recv(), Some(WorkerResult::Done));
}

#[test]
fn stats_accessible_via_arc() {
    let mut worker = make_worker();
    run_worker(&mut worker, &[vec![0u8; 50]], &mut Vec::new());
    assert_eq!(worker.stats.fragments_sent, 1);
    assert_eq!(worker.stats.bytes_sent, 50);
}

#[test]
fn worker_keeps_its_socket_settings() {
    let worker = UdpSendWorker::new(7, 65536, 5, UdpSendWorkerStats::default(), None);
    assert_eq!(worker.settings.local_port, 7);
    assert_eq!(worker.settings.so_sndbuf, 65536);
    assert_eq!(worker.settings.send_timeout_ns, 5);
    assert_eq!(make_batch_worker(100).settings().so_sndbuf, 65536);
}

#[test]
fn batch_worker_sends_datagram_to_listener() {
    let mut worker = make_batch_worker(100);
    let fragment_data = vec![0x50, 0x00, 0x00, 0x0A, 0x01, 0x02, 0x03, 0x04];
    let mut socket = Vec::new();
    run_batch_worker(&mut worker, &[fragment_data.clone()], &mut socket);
    assert_eq!(socket, vec![fragment_data.clone()]);
    assert_eq!(worker.stats().fragments_sent, 1);
    assert_eq!(worker.stats().bytes_sent, fragment_data.len() as u64);
    assert_eq!(worker.stats().errors, 0);
}

#[test]
fn batch_worker_sends_multiple_fragments() {
    let mut worker = make_batch_worker(100);
    let fragments: Vec<Vec<u8>> = (0..5).map(|i| vec![i as u8; 100]).collect();
    let mut socket = Vec::new();
    run_batch_worker(&mut worker, &fragments, &mut socket);
    assert_eq!(socket, fragments);
    assert_eq!(worker.stats().fragments_sent, fragments.len() as u64);
    assert_eq!(worker.stats().errors, 0);
}

#[test]
fn batch_worker_terminates_on_channel_close() {
    let mut worker = make_batch_worker(100);
    worker.on_closed();
    assert_eq!(worker.action(), WorkerAction::Finish);
    assert_eq!(worker.take_report(), Some(WorkerResult::Done));
    assert_eq!(worker.take_report(), None);
}

#[test]
fn batch_worker_handles_unreachable_destination() {
    let mut worker = make_batch_worker(100);
    let fragment_data = vec![0x50, 0x00, 0x00, 0x0A, 0x01, 0x02, 0x03, 0x04];
    worker.on_fragment(fragment_data, 0);
    worker.on_closed();
    assert_eq!(worker.action(), WorkerAction::SendBatch(1));
    worker.on_batch(BatchOutcome::Failed);
    assert_eq!(worker.action(), WorkerAction::Finish);
    assert_eq!(worker.stats().fragments_sent, 0);
}

#[test]
fn batch_worker_batch_accumulation() {
    let mut worker = make_batch_worker(200);
    let fragments: Vec<Vec<u8>> = (0..3).map(|i| vec![i as u8; 50]).collect();
    for (i, fragment) in fragments.iter().enumerate() {
        let now_ns = i as u64 * 10_000;
        worker.on_fragment(fragment.clone(), now_ns);
        assert!(!worker.poll(now_ns));
    }
    assert!(!worker.poll(199_999));
    assert!(worker.poll(200_000));
    assert_eq!(worker.action(), WorkerAction::SendBatch(3));
    worker.on_batch(BatchOutcome::Sent(3));
    assert_eq!(worker.action(), WorkerAction::Receive);
    assert_eq!(worker.stats().fragments_sent, fragments.len() as u64);
    assert_eq!(worker.stats().bytes_sent, 150);
}

#[test]
fn batch_worker_stats_accessible_via_arc() {
    let mut worker = make_batch_worker(100);
    run_batch_worker(&mut worker, &[vec![0u8; 50]], &mut Vec::new());
    assert_eq!(worker.stats().fragments_sent, 1);
    assert_eq!(worker.stats().bytes_sent, 50);
}

#[test]
fn full_batch_is_flushed_without_waiting() {
    let mut worker = make_batch_worker(1_000_000);
    for i in 0..16u8 {
        worker.on_fragment(vec![i], 0);
    }
    assert!(worker.poll(0));
    assert_eq!(worker.action(), WorkerAction::SendBatch(16));
}

#[test]
fn partial_batch_keeps_the_rest() {
    let mut worker = make_batch_worker(0);
    for i in 0..3u8 {
        worker.on_fragment(vec![i], 0);
    }
    worker.poll(0);
    worker.on_batch(BatchOutcome::Sent(1));
    assert_eq!(worker.action(), WorkerAction::Receive);
    assert_eq!(worker.pending_count(), 2);
    assert_eq!(worker.pending(0), &[1]);
}

#[test]
fn unsupported_batches_lead_to_single_sends_for_good() {
    let mut worker = make_batch_worker(0);
    worker.on_fragment(vec![1], 0);
    worker.poll(0);
    worker.on_batch(BatchOutcome::Unsupported);
    assert_eq!(worker.take_report(), Some(WorkerResult::Failed));
    assert_eq!(worker.action(), WorkerAction::AwaitWritable);
    worker.on_writable(true);
    assert_eq!(worker.action(), WorkerAction::TrySend);
    worker.on_send(SendOutcome::WouldBlock);
    assert_eq!(worker.action(), WorkerAction::AwaitWritable);
    worker.on_writable(true);
    worker.on_send(SendOutcome::Sent(1));
    assert_eq!(worker.action(), WorkerAction::Receive);
    worker.on_fragment(vec![2], 5);
    worker.poll(5);
    assert_eq!(worker.action(), WorkerAction::AwaitWritable);
    worker.on_writable(false);
    assert_eq!(worker.action(), WorkerAction::Receive);
    assert_eq!(worker.stats().errors, 2);
}

#[test]
fn too_many_failures_drop_the_batch() {
    let mut worker = BatchSendWorker::new(
        0,
        65536,
        1_000_000_000,
        2 * MAX_SEND_RETRIES,
        0,
        UdpSendWorkerStats::default(),
        Some(Outlet::new(16)),
    );
    for _ in 0..MAX_SEND_RETRIES + 5 {
        worker.on_fragment(vec![9], 0);
    }
    worker.poll(0);
    for _ in 0..MAX_SEND_RETRIES {
        worker.on_batch(BatchOutcome::Failed);
    }
    assert_eq!(worker.action(), WorkerAction::Receive);
    assert_eq!(worker.pending_count(), 0);
    assert_eq!(worker.stats().errors, 5);
    assert_eq!(worker.take_report(), Some(WorkerResult::Failed));
}
