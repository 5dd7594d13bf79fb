//! Distributes fragments over the send workers.

use crate::channel::{Outlet, TrySendError};
use crate::wire;
use std::collections::VecDeque;
use vstd::prelude::*;

verus! {

/// Counters of one worker's queue. They wrap around on overflow.
#[derive(Debug, Clone, Copy, PartialEq, Eq, Structural)]
pub struct QueueWorkerStats {
    /// Bytes of the fragments that wait.
    pub pending_bytes: u64,
    /// Number of the fragments that wait.
    pub pending_fragments: u64,
    /// Failures of the worker.
    pub errors: u64,
}

impl Default for QueueWorkerStats {
    fn default() -> (r: Self)
        ensures
            r == (QueueWorkerStats { pending_bytes: 0, pending_fragments: 0, errors: 0 }),
    {
        QueueWorkerStats { pending_bytes: 0, pending_fragments: 0, errors: 0 }
    }
}

impl QueueWorkerStats {
    /// With one more fragment of `bytes` bytes.
    pub open spec fn enqueued(self, bytes: nat) -> QueueWorkerStats {
        QueueWorkerStats {
            pending_bytes: self.pending_bytes.wrapping_add(bytes as u64),
            pending_fragments: self.pending_fragments.wrapping_add(1),
            ..self
        }
    }

    /// With one fragment of `bytes` bytes less.
    pub open spec fn dequeued(self, bytes: nat) -> QueueWorkerStats {
        QueueWorkerStats {
            pending_bytes: self.pending_bytes.wrapping_sub(bytes as u64),
            pending_fragments: self.pending_fragments.wrapping_sub(1),
            ..self
        }
    }

    /// Counts a fragment that came.
    pub fn record_enqueue(&mut self, bytes: usize)
        ensures
            *final(self) == old(self).enqueued(bytes as nat),
    {
        self.pending_bytes = self.pending_bytes.wrapping_add(bytes as u64);
        self.pending_fragments = self.pending_fragments.wrapping_add(1);
    }

    /// Counts a fragment that went.
    pub fn record_dequeue(&mut self, bytes: usize)
        ensures
            *final(self) == old(self).dequeued(bytes as nat),
    {
        self.pending_bytes = self.pending_bytes.wrapping_sub(bytes as u64);
        self.pending_fragments = self.pending_fragments.wrapping_sub(1);
    }

    /// Counts a failure.
    pub fn record_error(&mut self)
        ensures
            *final(self) == (QueueWorkerStats {
                errors: old(self).errors.wrapping_add(1),
                ..*old(self)
            }),
    {
        self.errors = self.errors.wrapping_add(1);
    }
}

/// Counters of a queue manager. They wrap around on overflow.
#[derive(Debug, Clone, Copy, PartialEq, Eq, Structural)]
pub struct QueueManagerStats {
    /// Fragments given to a worker.
    pub fragments_dispatched: u64,
    /// Fragments put at the head of a queue again.
    pub fragments_retransmitted: u64,
    /// Fragments taken over from failed workers.
    pub fragments_redistributed: u64,
    /// How often there was no worker left.
    pub all_workers_down_events: u64,
    /// How often the splitter was told to pause.
    pub backpressure_events: u64,
    /// Bytes that were held back by the rate limit.
    pub rate_limited_bytes: u64,
    /// Nanoseconds for which they were held back.
    pub rate_limit_ns: u64,
}

impl Default for QueueManagerStats {
    fn default() -> (r: Self)
        ensures
            r == (QueueManagerStats {
                fragments_dispatched: 0,
                fragments_retransmitted: 0,
                fragments_redistributed: 0,
                all_workers_down_events: 0,
                backpressure_events: 0,
                rate_limited_bytes: 0,
                rate_limit_ns: 0,
            }),
    {
        QueueManagerStats {
            fragments_dispatched: 0,
            fragments_retransmitted: 0,
            fragments_redistributed: 0,
            all_workers_down_events: 0,
            backpressure_events: 0,
            rate_limited_bytes: 0,
            rate_limit_ns: 0,
        }
    }
}

impl QueueManagerStats {
    /// Counts a fragment given to a worker.
    pub fn record_dispatch(&mut self)
        ensures
            *final(self) == (QueueManagerStats {
                fragments_dispatched: old(self).fragments_dispatched.wrapping_add(1),
                ..*old(self)
            }),
    {
        self.fragments_dispatched = self.fragments_dispatched.wrapping_add(1);
    }

    /// Counts a fragment put at the head of a queue again.
    pub fn record_retransmit(&mut self)
        ensures
            *final(self) == (QueueManagerStats {
                fragments_retransmitted: old(self).fragments_retransmitted.wrapping_add(1),
                ..*old(self)
            }),
    {
        self.fragments_retransmitted = self.fragments_retransmitted.wrapping_add(1);
    }

    /// Counts a fragment taken over from a failed worker.
    pub fn record_redistribution(&mut self)
        ensures
            *final(self) == (QueueManagerStats {
                fragments_redistributed: old(self).fragments_redistributed.wrapping_add(1),
                ..*old(self)
            }),
    {
        self.fragments_redistributed = self.fragments_redistributed.wrapping_add(1);
    }

    /// Counts that there was no worker left.
    pub fn record_all_down(&mut self)
        ensures
            *final(self) == (QueueManagerStats {
                all_workers_down_events: old(self).all_workers_down_events.wrapping_add(1),
                ..*old(self)
            }),
    {
        self.all_workers_down_events = self.all_workers_down_events.wrapping_add(1);
    }

    /// Counts that the splitter was told to pause.
    pub fn record_backpressure(&mut self)
        ensures
            *final(self) == (QueueManagerStats {
                backpressure_events: old(self).backpressure_events.wrapping_add(1),
                ..*old(self)
            }),
    {
        self.backpressure_events = self.backpressure_events.wrapping_add(1);
    }

    /// Counts bytes that were held back.
    pub fn record_rate_limited(&mut self, bytes: u64, nanos: u64)
        ensures
            *final(self) == (QueueManagerStats {
                rate_limited_bytes: old(self).rate_limited_bytes.wrapping_add(bytes),
                rate_limit_ns: old(self).rate_limit_ns.wrapping_add(nanos),
                ..*old(self)
            }),
    {
        self.rate_limited_bytes = self.rate_limited_bytes.wrapping_add(bytes);
        self.rate_limit_ns = self.rate_limit_ns.wrapping_add(nanos);
    }
}

/// What one worker's queue holds: the fragments that wait, and those handed to
/// the worker's channel.
#[verifier::ext_equal]
pub struct WorkerModel {
    pub queue: Seq<Seq<u8>>,
    pub active: bool,
    pub sent: Seq<Seq<u8>>,
    pub capacity: nat,
    pub closed: bool,
    pub stats: QueueWorkerStats,
}

impl WorkerModel {
    /// After as much as possible went from the queue to the channel. A worker
    /// whose channel is closed is down.
    pub open spec fn flushed(self) -> WorkerModel
        decreases self.queue.len(),
    {
        if self.queue.len() == 0 {
            self
        } else if self.closed {
            WorkerModel { active: false, ..self }
        } else if self.sent.len() >= self.capacity {
            self
        } else {
            (WorkerModel {
                queue: self.queue.drop_first(),
                sent: self.sent.push(self.queue[0]),
                stats: self.stats.dequeued(self.queue[0].len()),
                ..self
            }).flushed()
        }
    }

    /// With `fragment` at the end of the queue.
    pub open spec fn with_back(self, fragment: Seq<u8>) -> WorkerModel {
        WorkerModel {
            queue: self.queue.push(fragment),
            stats: self.stats.enqueued(fragment.len()),
            ..self
        }
    }

    /// With `fragment` at the head of the queue.
    pub open spec fn with_front(self, fragment: Seq<u8>) -> WorkerModel {
        WorkerModel {
            queue: seq![fragment] + self.queue,
            stats: self.stats.enqueued(fragment.len()),
            ..self
        }
    }

    /// With all of `batch` at the end of the queue.
    pub open spec fn with_batch(self, batch: Seq<Seq<u8>>) -> WorkerModel
        decreases batch.len(),
    {
        if batch.len() == 0 {
            self
        } else {
            self.with_batch(batch.drop_last()).with_back(batch.last())
        }
    }
}

/// One worker's queue.
pub struct WorkerQueue {
    pub queue: VecDeque<Vec<u8>>,
    pub active: bool,
    pub tx: Outlet<Vec<u8>>,
    pub stats: QueueWorkerStats,
}

impl WorkerQueue {
    /// What the queue holds.
    pub open spec fn model(self) -> WorkerModel {
        WorkerModel {
            queue: wire::views(self.queue@),
            active: self.active,
            sent: wire::views(self.tx.queue@),
            capacity: self.tx.capacity as nat,
            closed: self.tx.closed,
            stats: self.stats,
        }
    }

    /// Moves as much as possible from the queue to the channel.
    fn flush(&mut self)
        ensures
            final(self).model() == old(self).model().flushed(),
    {
        let ghost goal = self.model().flushed();
        while self.queue.len() > 0
            invariant
                self.model().flushed() == goal,
                self.model().queue.len() == self.queue@.len(),
            ensures
                self.model() == goal,
            decreases self.queue@.len(),
        {
            let ghost before = self.model();
            match self.queue.pop_front() {
                None => {},
                Some(fragment) => {
                    let bytes: usize = fragment.len();
                    assert(wire::views(self.queue@) =~= before.queue.drop_first());
                    proof {
                        wire::lemma_views_push(self.tx.queue@, fragment);
                    }
                    match self.tx.try_send(fragment) {
                        Ok(()) => {
                            self.stats.record_dequeue(bytes);
                        },
                        Err(TrySendError::Full(item)) => {
                            self.queue.push_front(item);
                            assert(wire::views(self.queue@) =~= before.queue);
                            break;
                        },
                        Err(TrySendError::Closed(item)) => {
                            self.active = false;
                            self.queue.push_front(item);
                            assert(wire::views(self.queue@) =~= before.queue);
                            break;
                        },
                    }
                },
            }
        }
    }
}

/// The bool signals to the splitter.
#[verifier::ext_equal]
pub struct SignalModel {
    pub sent: Seq<bool>,
    pub capacity: nat,
    pub closed: bool,
}

impl SignalModel {
    /// After `signal` was sent, if there was room.
    pub open spec fn signalled(self, signal: bool) -> SignalModel {
        if !self.closed && self.sent.len() < self.capacity {
            SignalModel { sent: self.sent.push(signal), ..self }
        } else {
            self
        }
    }
}

/// What a queue manager holds.
#[verifier::ext_equal]
pub struct ManagerModel {
    pub workers: Seq<WorkerModel>,
    pub last_worker: int,
    pub high_watermark: u64,
    pub signals: Option<SignalModel>,
    pub stats: QueueManagerStats,
    pub max_rate: u64,
    pub bucket: u64,
    pub last_check: u64,
    pub sleep_due: u64,
    pub progress: Option<u64>,
    pub last_chunk_id: u32,
}

/// The `k`-th worker after `last`, going round.
pub open spec fn in_turn(last: int, k: int, n: int) -> int {
    if last + 1 + k >= n {
        last + 1 + k - n
    } else {
        last + 1 + k
    }
}

/// The worker with the least waiting bytes among the first `k` after `last`
/// that are active; the one that comes first where several have as little.
pub open spec fn least_loaded(workers: Seq<WorkerModel>, last: int, k: int) -> Option<int>
    decreases k,
{
    if k <= 0 {
        None
    } else {
        let i = in_turn(last, k - 1, workers.len() as int);
        let load = workers[i].stats.pending_bytes;
        match least_loaded(workers, last, k - 1) {
            Some(best) => if workers[i].active && load < workers[best].stats.pending_bytes {
                Some(i)
            } else {
                Some(best)
            },
            None => if workers[i].active {
                Some(i)
            } else {
                None
            },
        }
    }
}

/// How many of the first `k` workers are active.
pub open spec fn active_among(workers: Seq<WorkerModel>, k: int) -> nat
    decreases k,
{
    if k <= 0 {
        0
    } else {
        active_among(workers, k - 1) + if workers[k - 1].active {
            1nat
        } else {
            0nat
        }
    }
}

/// The chunk that a fragment belongs to; 0 where it is too short to tell.
pub open spec fn chunk_id_of(fragment: Seq<u8>) -> u32 {
    if fragment.len() >= 4 {
        wire::un32(fragment, 0)
    } else {
        0
    }
}

/// The largest of `seen` and the chunks that the fragments belong to.
pub open spec fn max_chunk_id(seen: u32, batch: Seq<Seq<u8>>) -> u32
    decreases batch.len(),
{
    if batch.len() == 0 {
        seen
    } else {
        let before = max_chunk_id(seen, batch.drop_last());
        let id = chunk_id_of(batch.last());
        if id > before {
            id
        } else {
            before
        }
    }
}

impl ManagerModel {
    /// How many bytes may go at once at `now`: what was left, and what came in
    /// since the last look, at most one second's worth.
    pub open spec fn tokens(self, now: u64) -> u64 {
        let elapsed = now.saturating_sub(self.last_check);
        let fresh = (self.max_rate * elapsed / 1_000_000_000) as u64;
        let total = self.bucket.saturating_add(fresh);
        if total < self.max_rate {
            total
        } else {
            self.max_rate
        }
    }

    /// How long `bytes` bytes have to wait at `now`, in nanoseconds.
    pub open spec fn delay(self, bytes: nat, now: u64) -> u64 {
        if self.max_rate == 0 || bytes <= self.tokens(now) {
            0
        } else {
            let missing = (bytes - self.tokens(now)) * 1_000_000_000;
            ((if missing < u64::MAX {
                missing
            } else {
                u64::MAX as int
            }) / self.max_rate as int) as u64
        }
    }

    /// After `bytes` bytes were accounted for against the rate limit at `now`.
    pub open spec fn rate_limited(self, bytes: nat, now: u64) -> ManagerModel {
        if self.max_rate == 0 || bytes == 0 {
            self
        } else if bytes > self.tokens(now) {
            let delay = self.delay(bytes, now);
            ManagerModel {
                bucket: 0,
                last_check: now.saturating_add(delay),
                sleep_due: self.sleep_due.saturating_add(delay),
                stats: QueueManagerStats {
                    rate_limited_bytes: self.stats.rate_limited_bytes.wrapping_add(bytes as u64),
                    rate_limit_ns: self.stats.rate_limit_ns.wrapping_add(delay),
                    ..self.stats
                },
                ..self
            }
        } else {
            ManagerModel {
                bucket: (self.tokens(now) - bytes) as u64,
                last_check: now,
                ..self
            }
        }
    }

    /// The worker that gets the next fragment.
    pub open spec fn selected(self) -> Option<int> {
        least_loaded(self.workers, self.last_worker, self.workers.len() as int)
    }

    /// After it was found that no worker is left.
    pub open spec fn all_down(self) -> ManagerModel {
        ManagerModel {
            stats: QueueManagerStats {
                all_workers_down_events: self.stats.all_workers_down_events.wrapping_add(1),
                ..self.stats
            },
            ..self
        }
    }

    /// After the splitter was told to pause (`true`) or to resume.
    pub open spec fn signalled(self, pause: bool) -> ManagerModel {
        match self.signals {
            None => self,
            Some(s) => ManagerModel {
                signals: Some(s.signalled(pause)),
                stats: QueueManagerStats {
                    backpressure_events: if pause {
                        self.stats.backpressure_events.wrapping_add(1)
                    } else {
                        self.stats.backpressure_events
                    },
                    ..self.stats
                },
                ..self
            },
        }
    }

    /// Whether every active worker has too much waiting.
    pub open spec fn congested(self) -> bool {
        forall|i: int|
            0 <= i < self.workers.len() && (#[trigger] self.workers[i]).active
                ==> self.workers[i].stats.pending_bytes >= self.high_watermark
    }

    /// After the splitter was told whether to pause; nothing is told where no
    /// worker is active.
    pub open spec fn backpressured(self) -> ManagerModel {
        if active_among(self.workers, self.workers.len() as int) == 0 {
            self
        } else {
            self.signalled(self.congested())
        }
    }

    /// With `w` as the state of the worker at `i`.
    pub open spec fn with_worker(self, i: int, w: WorkerModel) -> ManagerModel {
        ManagerModel { workers: self.workers.update(i, w), ..self }
    }

    /// With `bytes` more on the progress counter.
    pub open spec fn progressed(self, bytes: nat) -> ManagerModel {
        ManagerModel {
            progress: match self.progress {
                Some(p) => Some(p.wrapping_add(bytes as u64)),
                None => None,
            },
            ..self
        }
    }

    /// With `count` more fragments dispatched.
    pub open spec fn dispatched(self, count: nat) -> ManagerModel {
        ManagerModel {
            stats: QueueManagerStats {
                fragments_dispatched: self.stats.fragments_dispatched.wrapping_add(count as u64),
                ..self.stats
            },
            ..self
        }
    }

    /// After `fragment` was dispatched at `now`, and the worker that got it.
    pub open spec fn dispatch(self, fragment: Seq<u8>, now: u64) -> (ManagerModel, Option<int>) {
        let m = self.rate_limited(fragment.len(), now);
        match m.selected() {
            None => (m.all_down(), None),
            Some(i) => (
                (ManagerModel {
                    last_worker: i,
                    last_chunk_id: max_chunk_id(m.last_chunk_id, seq![fragment]),
                    ..m
                }).with_worker(i, m.workers[i].with_back(fragment).flushed()).dispatched(1).progressed(fragment.len()).backpressured(),
                Some(i),
            ),
        }
    }

    /// After all of `batch` was dispatched to one worker, and that worker. The
    /// splitter is told whether to pause where that worker now has too much waiting.
    pub open spec fn dispatch_batch(self, batch: Seq<Seq<u8>>, now: u64) -> (
        ManagerModel,
        Option<int>,
    ) {
        let m = self.rate_limited(wire::total_len(batch), now);
        match m.selected() {
            None => (m.all_down(), None),
            Some(i) => {
                let given = (ManagerModel {
                    last_worker: i,
                    last_chunk_id: max_chunk_id(m.last_chunk_id, batch),
                    ..m
                }).with_worker(i, m.workers[i].with_batch(batch).flushed()).dispatched(
                    batch.len(),
                ).progressed(wire::total_len(batch));
                (
                    if given.workers[i].stats.pending_bytes >= given.high_watermark {
                        given.backpressured()
                    } else {
                        given
                    },
                    Some(i),
                )
            },
        }
    }

    /// After `fragment` was put at the head of the queue of the worker at `i`.
    pub open spec fn retransmit(self, i: int, fragment: Seq<u8>) -> ManagerModel {
        ManagerModel {
            stats: QueueManagerStats {
                fragments_retransmitted: self.stats.fragments_retransmitted.wrapping_add(1),
                ..self.stats
            },
            ..self.with_worker(i, self.workers[i].with_front(fragment).flushed())
        }
    }

    /// After `pending` was dispatched again, one fragment after the other, as
    /// long as there was a worker, and how many fragments were.
    pub open spec fn redistribute(self, pending: Seq<Seq<u8>>, now: u64) -> (ManagerModel, nat)
        decreases pending.len(),
    {
        if pending.len() == 0 {
            (self, 0)
        } else {
            let (m, worker) = self.dispatch(pending[0], now);
            if worker is None {
                (m, 0)
            } else {
                let (after, count) = (ManagerModel {
                    stats: QueueManagerStats {
                        fragments_redistributed: m.stats.fragments_redistributed.wrapping_add(1),
                        ..m.stats
                    },
                    ..m
                }).redistribute(pending.drop_first(), now);
                (after, count + 1)
            }
        }
    }

    /// After the worker at `i` failed, and how many of its fragments others took
    /// over.
    pub open spec fn failed(self, i: int, now: u64) -> (ManagerModel, nat) {
        let w = self.workers[i];
        self.with_worker(
            i,
            WorkerModel {
                queue: Seq::empty(),
                active: false,
                stats: QueueWorkerStats { errors: w.stats.errors.wrapping_add(1), ..w.stats },
                ..w
            },
        ).redistribute(w.queue, now)
    }
}

/// Distributes fragments over the workers: each goes to the active worker that
/// has the least waiting.
pub struct QueueManager {
    pub workers: Vec<WorkerQueue>,
    pub last_worker: usize,
    pub high_watermark: u64,
    pub backpressure_tx: Option<Outlet<bool>>,
    pub stats: QueueManagerStats,
    pub max_rate_bytes_per_sec: u64,
    pub rate_bucket: u64,
    pub rate_last_check_ns: u64,
    pub sleep_due_ns: u64,
    pub progress_bytes: Option<u64>,
    pub last_chunk_id: u32,
}

/// What the workers' queues hold.
pub open spec fn worker_models(workers: Seq<WorkerQueue>) -> Seq<WorkerModel> {
    Seq::new(workers.len(), |i: int| workers[i].model())
}

/// What the signal outlet holds.
pub open spec fn signal_model(tx: Option<Outlet<bool>>) -> Option<SignalModel> {
    match tx {
        None => None,
        Some(o) => Some(
            SignalModel { sent: o.queue@, capacity: o.capacity as nat, closed: o.closed },
        ),
    }
}

impl QueueManager {
    /// What the manager holds.
    pub open spec fn model(self) -> ManagerModel {
        ManagerModel {
            workers: worker_models(self.workers@),
            last_worker: self.last_worker as int,
            high_watermark: self.high_watermark,
            signals: signal_model(self.backpressure_tx),
            stats: self.stats,
            max_rate: self.max_rate_bytes_per_sec,
            bucket: self.rate_bucket,
            last_check: self.rate_last_check_ns,
            sleep_due: self.sleep_due_ns,
            progress: self.progress_bytes,
            last_chunk_id: self.last_chunk_id,
        }
    }

    /// The worker that was chosen last is one of the workers.
    pub open spec fn wf(self) -> bool {
        self.workers@.len() == 0 || self.last_worker < self.workers@.len()
    }

    /// A manager without workers, ready for `worker_count` of them.
    ///
    /// * `high_watermark`: from how many waiting bytes on a worker counts as
    ///   congested.
    /// * `backpressure_tx`: where the splitter is told to pause and resume.
    pub fn new(
        worker_count: usize,
        high_watermark: u64,
        backpressure_tx: Option<Outlet<bool>>,
        now_ns: u64,
    ) -> (r: Self)
        requires
            worker_count > 0,
        ensures
            r.wf(),
            r.model() == (ManagerModel {
                workers: Seq::empty(),
                last_worker: 0,
                high_watermark,
                signals: signal_model(backpressure_tx),
                stats: QueueManagerStats {
                    fragments_dispatched: 0,
                    fragments_retransmitted: 0,
                    fragments_redistributed: 0,
                    all_workers_down_events: 0,
                    backpressure_events: 0,
                    rate_limited_bytes: 0,
                    rate_limit_ns: 0,
                },
                max_rate: 0,
                bucket: 0,
                last_check: now_ns,
                sleep_due: 0,
                progress: None,
                last_chunk_id: 0,
            }),
    {
        let r = QueueManager {
            workers: Vec::with_capacity(worker_count),
            last_worker: 0,
            high_watermark,
            backpressure_tx,
            stats: QueueManagerStats::default(),
            max_rate_bytes_per_sec: 0,
            rate_bucket: 0,
            rate_last_check_ns: now_ns,
            sleep_due_ns: 0,
            progress_bytes: None,
            last_chunk_id: 0,
        };
        assert(worker_models(r.workers@) =~= Seq::empty());
        r
    }

    /// Wires up a progress counter that stands at `counter`.
    pub fn set_progress_bytes(&mut self, counter: u64)
        ensures
            final(self).model() == (ManagerModel { progress: Some(counter), ..old(self).model() }),
            final(self).wf() == old(self).wf(),
    {
        self.progress_bytes = Some(counter);
    }

    /// Adds to the progress counter, where there is one.
    fn report_progress(&mut self, bytes: usize)
        ensures
            final(self).model() == old(self).model().progressed(bytes as nat),
            final(self).wf() == old(self).wf(),
            final(self).workers == old(self).workers,
    {
        match self.progress_bytes {
            Some(p) => {
                self.progress_bytes = Some(p.wrapping_add(bytes as u64));
            },
            None => {},
        }
    }

    /// Sets how many bytes may be sent in a second; 0 for no limit.
    pub fn set_max_rate(&mut self, bytes_per_sec: u64, now_ns: u64)
        ensures
            final(self).model() == (ManagerModel {
                max_rate: bytes_per_sec,
                bucket: 0,
                last_check: now_ns,
                ..old(self).model()
            }),
            final(self).wf() == old(self).wf(),
    {
        self.max_rate_bytes_per_sec = bytes_per_sec;
        self.rate_bucket = 0;
        self.rate_last_check_ns = now_ns;
    }

    /// Registers a worker.
    pub fn add_worker(&mut self, tx: Outlet<Vec<u8>>, stats: QueueWorkerStats)
        requires
            old(self).wf(),
            old(self).workers@.len() == 0 ==> old(self).last_worker == 0,
        ensures
            final(self).wf(),
            final(self).last_worker == old(self).last_worker,
            final(self).model() == (ManagerModel {
                workers: old(self).model().workers.push(
                    WorkerModel {
                        queue: Seq::empty(),
                        active: true,
                        sent: wire::views(tx.queue@),
                        capacity: tx.capacity as nat,
                        closed: tx.closed,
                        stats,
                    },
                ),
                ..old(self).model()
            }),
    {
        let w = WorkerQueue { queue: VecDeque::new(), active: true, tx, stats };
        self.workers.push(w);
        assert(w.model().queue =~= Seq::empty());
        assert(self.model().workers =~= old(self).model().workers.push(w.model()));
    }

    /// Accounts for `bytes` bytes against the rate limit. Where they exceed it,
    /// the time for which to hold them back is added to `sleep_due_ns`; what is
    /// dispatched goes out after that.
    pub fn check_rate_limit(&mut self, bytes: usize, now_ns: u64)
        ensures
            final(self).model() == old(self).model().rate_limited(bytes as nat, now_ns),
            final(self).wf() == old(self).wf(),
            final(self).workers == old(self).workers,
            final(self).last_worker == old(self).last_worker,
    {
        let max_rate: u64 = self.max_rate_bytes_per_sec;
        if max_rate == 0 || bytes == 0 {
            return;
        }
        let elapsed: u64 = now_ns.saturating_sub(self.rate_last_check_ns);
        assert(max_rate * elapsed <= u64::MAX * u64::MAX) by (nonlinear_arith)
            requires
                max_rate <= u64::MAX,
                elapsed <= u64::MAX,
        ;
        let fresh: u64 = (max_rate as u128 * elapsed as u128 / 1_000_000_000) as u64;
        let total: u64 = self.rate_bucket.saturating_add(fresh);
        let bucket: u64 = if total < max_rate {
            total
        } else {
            max_rate
        };
        assert(bucket == self.model().tokens(now_ns));
        let wanted: u64 = bytes as u64;
        if wanted > bucket {
            let missing: u128 = (wanted - bucket) as u128 * 1_000_000_000;
            let capped: u128 = if missing < u64::MAX as u128 {
                missing
            } else {
                u64::MAX as u128
            };
            proof {
                assert(capped / max_rate as u128 <= capped) by (nonlinear_arith)
                    requires
                        max_rate > 0,
                        capped >= 0,
                ;
            }
            let delay: u64 = (capped / max_rate as u128) as u64;
            assert(delay == self.model().delay(bytes as nat, now_ns));
            self.stats.record_rate_limited(wanted, delay);
            self.sleep_due_ns = self.sleep_due_ns.saturating_add(delay);
            self.rate_bucket = 0;
            self.rate_last_check_ns = now_ns.saturating_add(delay);
        } else {
            self.rate_bucket = bucket - wanted;
            self.rate_last_check_ns = now_ns;
        }
    }

    /// Notes that the caller has slept for `sleep_due_ns`, until `now_ns`.
    pub fn finish_sleep(&mut self, now_ns: u64)
        ensures
            final(self).model() == (ManagerModel {
                sleep_due: 0,
                last_check: now_ns,
                ..old(self).model()
            }),
            final(self).wf() == old(self).wf(),
    {
        self.sleep_due_ns = 0;
        self.rate_last_check_ns = now_ns;
    }

    /// How many workers are active.
    pub fn active_worker_count(&self) -> (r: usize)
        ensures
            r == active_among(self.model().workers, self.model().workers.len() as int),
    {
        let ghost models = self.model().workers;
        let mut count: usize = 0;
        let mut i: usize = 0;
        while i < self.workers.len()
            invariant
                i <= self.workers@.len(),
                models == worker_models(self.workers@),
                count == active_among(models, i as int),
                count <= i,
            decreases self.workers@.len() - i,
        {
            assert(models[i as int] == self.workers@[i as int].model());
            if self.workers[i].active {
                count = count + 1;
            }
            i = i + 1;
        }
        count
    }

    /// How many workers there are, active or not.
    pub fn worker_count(&self) -> (r: usize)
        ensures
            r == self.model().workers.len(),
    {
        self.workers.len()
    }

    /// Whether no worker is active.
    pub fn all_workers_down(&self) -> (r: bool)
        ensures
            r == (forall|i: int|
                0 <= i < self.model().workers.len() ==> !(
                #[trigger] self.model().workers[i]).active),
    {
        proof {
            lemma_none_active(self.model().workers, self.model().workers.len() as int);
        }
        self.active_worker_count() == 0
    }

    /// The largest chunk number among the fragments dispatched.
    pub fn last_chunk_id(&self) -> (r: u32)
        ensures
            r == self.model().last_chunk_id,
    {
        self.last_chunk_id
    }

    /// The chunk that a fragment belongs to; 0 where it is too short to tell.
    pub fn extract_chunk_id(fragment: &[u8]) -> (r: u32)
        ensures
            r == chunk_id_of(fragment@),
            fragment@.len() >= 4 ==> r == wire::un32(fragment@, 0),
            fragment@.len() < 4 ==> r == 0,
    {
        if fragment.len() >= 4 {
            wire::get_u32(fragment, 0)
        } else {
            0
        }
    }

    /// The counters.
    pub fn stats(&self) -> (r: QueueManagerStats)
        ensures
            r == self.model().stats,
    {
        self.stats
    }

    /// Tells the splitter to pause.
    pub fn signal_pause(&mut self)
        ensures
            final(self).model() == old(self).model().signalled(true),
            final(self).wf() == old(self).wf(),
            final(self).workers == old(self).workers,
    {
        if self.send_signal(true) {
            self.stats.record_backpressure();
        }
    }

    /// Tells the splitter to resume.
    pub fn signal_resume(&mut self)
        ensures
            final(self).model() == old(self).model().signalled(false),
            final(self).wf() == old(self).wf(),
            final(self).workers == old(self).workers,
    {
        let _ = self.send_signal(false);
    }

    /// Sends a signal if there is room. Reports whether there is a channel.
    fn send_signal(&mut self, signal: bool) -> (r: bool)
        ensures
            r == (old(self).model().signals is Some),
            final(self).model() == (ManagerModel {
                signals: match old(self).model().signals {
                    Some(s) => Some(s.signalled(signal)),
                    None => None,
                },
                ..old(self).model()
            }),
            final(self).wf() == old(self).wf(),
            final(self).workers == old(self).workers,
            final(self).stats == old(self).stats,
    {
        match self.backpressure_tx.take() {
            Some(tx) => {
                let mut tx = tx;
                let _ = tx.try_send(signal);
                self.backpressure_tx = Some(tx);
                true
            },
            None => false,
        }
    }

    /// Chooses the active worker with the least waiting, the next in turn
    /// where several have as little.
    fn select_worker(&mut self) -> (r: Option<usize>)
        requires
            old(self).wf(),
        ensures
            final(self).wf(),
            final(self).workers == old(self).workers,
            match (r, old(self).model().selected()) {
                (Some(i), Some(j)) => i == j && i < old(self).workers@.len() && final(self).model()
                    == (ManagerModel { last_worker: j, ..old(self).model() }),
                (None, None) => final(self).model() == old(self).model(),
                _ => false,
            },
    {
        let n: usize = self.workers.len();
        let last: usize = self.last_worker;
        let ghost models = self.model().workers;
        let mut best: Option<usize> = None;
        let mut best_load: u64 = 0;
        let mut k: usize = 0;
        let mut idx: usize = if n == 0 || last + 1 >= n {
            0
        } else {
            last + 1
        };
        while k < n
            invariant
                n == self.workers@.len(),
                models == worker_models(self.workers@),
                n > 0 ==> last < n,
                k <= n,
                k < n ==> idx == in_turn(last as int, k as int, n as int) && idx < n,
                match (best, least_loaded(models, last as int, k as int)) {
                    (Some(b), Some(j)) => b == j && b < n && best_load
                        == models[j].stats.pending_bytes,
                    (None, None) => true,
                    _ => false,
                },
            decreases n - k,
        {
            assert(models[idx as int] == self.workers@[idx as int].model());
            if self.workers[idx].active {
                let load: u64 = self.workers[idx].stats.pending_bytes;
                if best.is_none() || load < best_load {
                    best_load = load;
                    best = Some(idx);
                }
            }
            k = k + 1;
            idx = if idx + 1 >= n {
                0
            } else {
                idx + 1
            };
        }
        match best {
            Some(b) => {
                self.last_worker = b;
            },
            None => {},
        }
        best
    }

    /// Tells the splitter to pause if every active worker has too much waiting,
    /// else to resume.
    pub fn check_backpressure(&mut self)
        ensures
            final(self).model() == old(self).model().backpressured(),
            final(self).wf() == old(self).wf(),
    {
        if self.active_worker_count() == 0 {
            return;
        }
        let ghost models = self.model().workers;
        let mut all_exceed: bool = true;
        let mut i: usize = 0;
        while i < self.workers.len()
            invariant
                i <= self.workers@.len(),
                models == worker_models(self.workers@),
                all_exceed == (forall|j: int|
                    0 <= j < i && (#[trigger] models[j]).active ==> models[j].stats.pending_bytes
                        >= self.high_watermark),
            decreases self.workers@.len() - i,
        {
            assert(models[i as int] == self.workers@[i as int].model());
            if self.workers[i].active && self.workers[i].stats.pending_bytes < self.high_watermark {
                all_exceed = false;
            }
            i = i + 1;
        }
        if all_exceed {
            self.signal_pause();
        } else {
            self.signal_resume();
        }
    }

    /// Moves as much as possible from a worker's queue to its channel.
    pub fn flush_worker(&mut self, idx: usize)
        requires
            idx < old(self).workers@.len(),
        ensures
            final(self).model() == old(self).model().with_worker(
                idx as int,
                old(self).model().workers[idx as int].flushed(),
            ),
            final(self).wf() == old(self).wf(),
            final(self).workers@.len() == old(self).workers@.len(),
    {
        self.workers[idx].flush();
        assert(self.model().workers =~= old(self).model().workers.update(
            idx as int,
            old(self).model().workers[idx as int].flushed(),
        ));
    }

    /// Gives a fragment to the active worker with the least waiting. Returns
    /// the worker, or an error where all are down.
    pub fn dispatch(&mut self, fragment: Vec<u8>, now_ns: u64) -> (r: Result<usize, &'static str>)
        requires
            old(self).wf(),
        ensures
            final(self).wf(),
            final(self).workers@.len() == old(self).workers@.len(),
            final(self).model() == old(self).model().dispatch(fragment@, now_ns).0,
            match (r, old(self).model().dispatch(fragment@, now_ns).1) {
                (Ok(i), Some(j)) => i == j,
                (Err(e), None) => e@ == "all workers are down"@,
                _ => false,
            },
    {
        let bytes: usize = fragment.len();
        self.check_rate_limit(bytes, now_ns);
        let ghost limited = self.model();
        let idx: usize = match self.select_worker() {
            Some(i) => i,
            None => {
                self.stats.record_all_down();
                return Err("all workers are down");
            },
        };
        let ghost w = self.model().workers[idx as int];
        let id: u32 = QueueManager::extract_chunk_id(fragment.as_slice());
        if id > self.last_chunk_id {
            self.last_chunk_id = id;
        }
        proof {
            reveal_with_fuel(max_chunk_id, 2);
            assert(seq![fragment@].drop_last() =~= Seq::empty());
            assert(w == self.workers@[idx as int].model());
            wire::lemma_views_push(self.workers@[idx as int].queue@, fragment);
        }
        self.workers[idx].queue.push_back(fragment);
        self.workers[idx].stats.record_enqueue(bytes);
        self.stats.record_dispatch();
        self.report_progress(bytes);
        proof {
            assert(self.workers@[idx as int].model() =~= w.with_back(fragment@));
            assert(self.model().workers =~= limited.workers.update(
                idx as int,
                w.with_back(fragment@),
            ));
        }
        self.flush_worker(idx);
        proof {
            let given = (ManagerModel {
                last_worker: idx as int,
                last_chunk_id: max_chunk_id(limited.last_chunk_id, seq![fragment@]),
                ..limited
            }).with_worker(idx as int, w.with_back(fragment@).flushed()).dispatched(1).progressed(fragment@.len());
            assert(self.model().workers =~= given.workers);
            assert(self.model() == given);
        }
        self.check_backpressure();
        Ok(idx)
    }

    /// Gives a whole batch to the active worker with the least waiting. If that
    /// worker then has too much waiting, the splitter is told whether to pause.
    /// Returns the worker, or an error where all are down.
    pub fn dispatch_batch(&mut self, batch: Vec<Vec<u8>>, now_ns: u64) -> (r: Result<
        usize,
        &'static str,
    >)
        requires
            old(self).wf(),
            wire::total_len(wire::views(batch@)) <= usize::MAX,
        ensures
            final(self).wf(),
            final(self).workers@.len() == old(self).workers@.len(),
            final(self).model() == old(self).model().dispatch_batch(
                wire::views(batch@),
                now_ns,
            ).0,
            match (r, old(self).model().dispatch_batch(wire::views(batch@), now_ns).1) {
                (Ok(i), Some(j)) => i == j,
                (Err(e), None) => e@ == "all workers are down"@,
                _ => false,
            },
    {
        let ghost fragments = wire::views(batch@);
        let mut bytes: usize = 0;
        let mut i: usize = 0;
        assert(fragments.take(0) =~= Seq::empty());
        while i < batch.len()
            invariant
                i <= batch@.len(),
                fragments == wire::views(batch@),
                wire::total_len(fragments) <= usize::MAX,
                bytes == wire::total_len(fragments.take(i as int)),
            decreases batch@.len() - i,
        {
            proof {
                assert(fragments.take(i + 1).drop_last() =~= fragments.take(i as int));
                wire::lemma_total_len_grows(fragments, i + 1);
            }
            bytes = bytes + batch[i].len();
            i = i + 1;
        }
        assert(fragments.take(i as int) =~= fragments);
        self.check_rate_limit(bytes, now_ns);
        let ghost limited = self.model();
        let idx: usize = match self.select_worker() {
            Some(i) => i,
            None => {
                self.stats.record_all_down();
                return Err("all workers are down");
            },
        };
        let ghost w = self.model().workers[idx as int];
        assert(w == self.workers@[idx as int].model());
        self.report_progress(bytes);
        let ghost chosen = self.model();
        proof {
            assert(chosen == (ManagerModel { last_worker: idx as int, ..limited }).progressed(
                bytes as nat,
            ));
            assert(chosen.workers.update(idx as int, w) =~= chosen.workers);
            assert(fragments.take(0) =~= Seq::empty());
        }
        let total: usize = batch.len();
        for fragment in iter: batch
            invariant
                self.wf(),
                self.workers@.len() == old(self).workers@.len(),
                idx < self.workers@.len(),
                fragments == wire::views(batch@),
                iter.seq() == batch@,
                w == chosen.workers[idx as int],
                chosen.workers.len() == self.workers@.len(),
                self.model() == (ManagerModel {
                    last_chunk_id: max_chunk_id(
                        chosen.last_chunk_id,
                        fragments.take(iter.index() as int),
                    ),
                    ..chosen
                }).with_worker(
                    idx as int,
                    w.with_batch(fragments.take(iter.index() as int)),
                ).dispatched(iter.index() as nat),
                batch@.len() == total,
        {
            let ghost k = iter.index() as int;
            let ghost before = self.model();
            proof {
                assert(fragment == batch@[k]);
                assert(fragments[k] == fragment@);
                assert(fragments.take(k + 1).drop_last() =~= fragments.take(k));
                assert(before.workers[idx as int] == self.workers@[idx as int].model());
                wire::lemma_views_push(self.workers@[idx as int].queue@, fragment);
            }
            let id: u32 = QueueManager::extract_chunk_id(fragment.as_slice());
            if id > self.last_chunk_id {
                self.last_chunk_id = id;
            }
            let len: usize = fragment.len();
            self.workers[idx].queue.push_back(fragment);
            self.workers[idx].stats.record_enqueue(len);
            self.stats.record_dispatch();
            proof {
                let next = w.with_batch(fragments.take(k + 1));
                assert(self.workers@[idx as int].model() =~= next);
                assert(self.model().workers =~= before.workers.update(idx as int, next));
                assert(before.workers.update(idx as int, next) =~= chosen.workers.update(
                    idx as int,
                    next,
                ));
            }
        }
        assert(fragments.take(fragments.len() as int) =~= fragments);
        let ghost queued = self.model();
        self.flush_worker(idx);
        proof {
            let given = (ManagerModel {
                last_worker: idx as int,
                last_chunk_id: max_chunk_id(limited.last_chunk_id, fragments),
                ..limited
            }).with_worker(idx as int, w.with_batch(fragments).flushed()).dispatched(
                fragments.len(),
            ).progressed(wire::total_len(fragments));
            assert(self.model().workers =~= given.workers);
            assert(self.model() == given);
            assert(given.workers[idx as int] == self.workers@[idx as int].model());
        }
        if self.workers[idx].stats.pending_bytes >= self.high_watermark {
            self.check_backpressure();
        }
        Ok(idx)
    }

    /// Puts a fragment at the head of a worker's queue.
    pub fn retransmit(&mut self, worker_index: usize, fragment: Vec<u8>) -> (r: Result<
        (),
        &'static str,
    >)
        ensures
            final(self).wf() == old(self).wf(),
            ({
                let m = old(self).model();
                if worker_index >= m.workers.len() {
                    &&& r is Err && r->Err_0@ == "worker index out of bounds"@
                    &&& final(self).model() == m
                } else if !m.workers[worker_index as int].active {
                    &&& r is Err && r->Err_0@ == "worker is down"@
                    &&& final(self).model() == m
                } else {
                    &&& r is Ok
                    &&& final(self).model() == m.retransmit(worker_index as int, fragment@)
                }
            }),
    {
        if worker_index >= self.workers.len() {
            return Err("worker index out of bounds");
        }
        let ghost m = self.model();
        let ghost w = m.workers[worker_index as int];
        assert(w == self.workers@[worker_index as int].model());
        if !self.workers[worker_index].active {
            return Err("worker is down");
        }
        let bytes: usize = fragment.len();
        self.workers[worker_index].queue.push_front(fragment);
        self.workers[worker_index].stats.record_enqueue(bytes);
        self.stats.record_retransmit();
        proof {
            assert(self.workers@[worker_index as int].model().queue =~= w.with_front(
                fragment@,
            ).queue);
            assert(self.model().workers =~= m.workers.update(
                worker_index as int,
                w.with_front(fragment@),
            ));
        }
        self.flush_worker(worker_index);
        assert(self.model().workers =~= m.retransmit(worker_index as int, fragment@).workers);
        Ok(())
    }

    /// Takes a worker out of service and dispatches what waited in its queue
    /// to the others. Returns how many fragments they took over; what is left
    /// when all workers are down is lost.
    pub fn mark_worker_failed(&mut self, worker_index: usize, now_ns: u64) -> (r: usize)
        requires
            old(self).wf(),
        ensures
            final(self).wf(),
            ({
                let m = old(self).model();
                if worker_index >= m.workers.len() || !m.workers[worker_index as int].active {
                    &&& r == 0
                    &&& final(self).model() == m
                } else {
                    &&& r == m.failed(worker_index as int, now_ns).1
                    &&& final(self).model() == m.failed(worker_index as int, now_ns).0
                }
            }),
    {
        if worker_index >= self.workers.len() {
            return 0;
        }
        let ghost m = self.model();
        let ghost w = m.workers[worker_index as int];
        assert(w == self.workers@[worker_index as int].model());
        if !self.workers[worker_index].active {
            return 0;
        }
        self.workers[worker_index].active = false;
        self.workers[worker_index].stats.record_error();
        let mut pending: VecDeque<Vec<u8>> = VecDeque::new();
        pending.append(&mut self.workers[worker_index].queue);
        let count: usize = pending.len();
        let mut redistributed: usize = 0;
        let ghost goal = m.failed(worker_index as int, now_ns);
        proof {
            let idle = WorkerModel {
                queue: Seq::empty(),
                active: false,
                stats: QueueWorkerStats { errors: w.stats.errors.wrapping_add(1), ..w.stats },
                ..w
            };
            assert(wire::views(pending@) =~= w.queue);
            assert(self.workers@[worker_index as int].model() =~= idle);
            assert(self.model().workers =~= m.workers.update(worker_index as int, idle));
        }
        while pending.len() > 0
            invariant_except_break
                self.wf(),
                redistributed + pending@.len() == count,
                ({
                    let (after, more) = self.model().redistribute(wire::views(pending@), now_ns);
                    after == goal.0 && redistributed + more == goal.1
                }),
            ensures
                self.wf(),
                self.model() == goal.0,
                redistributed == goal.1,
            decreases pending@.len(),
        {
            let ghost waiting = wire::views(pending@);
            match pending.pop_front() {
                None => {},
                Some(fragment) => {
                    assert(wire::views(pending@) =~= waiting.drop_first());
                    match self.dispatch(fragment, now_ns) {
                        Ok(_) => {
                            self.stats.record_redistribution();
                            redistributed = redistributed + 1;
                        },
                        Err(_) => {
                            break;
                        },
                    }
                },
            }
        }
        redistributed
    }
}

/// No worker is counted exactly where none is active.
proof fn lemma_none_active(workers: Seq<WorkerModel>, k: int)
    requires
        0 <= k <= workers.len(),
    ensures
        active_among(workers, k) == 0 <==> (forall|i: int|
            0 <= i < k ==> !(#[trigger] workers[i]).active),
    decreases k,
{
    if k > 0 {
        lemma_none_active(workers, k - 1);
        if forall|i: int| 0 <= i < k ==> !(#[trigger] workers[i]).active {
            assert(!workers[k - 1].active);
        }
    }
}

/// Makes a queue manager together with its workers' queues.
pub struct QueueManagerBuilder {
    pub worker_count: usize,
    pub high_watermark: u64,
    pub channel_capacity: usize,
    pub backpressure_tx: Option<Outlet<bool>>,
    pub max_rate_bytes_per_sec: u64,
}

/// A new worker whose channel has room for `capacity` fragments.
pub open spec fn fresh_worker(capacity: nat) -> WorkerModel {
    WorkerModel {
        queue: Seq::empty(),
        active: true,
        sent: Seq::empty(),
        capacity,
        closed: false,
        stats: QueueWorkerStats { pending_bytes: 0, pending_fragments: 0, errors: 0 },
    }
}

impl QueueManagerBuilder {
    /// A builder for `worker_count` workers: one megabyte may wait for a worker
    /// before it counts as congested, a worker's channel has room for 1024
    /// fragments, and there is no rate limit.
    pub fn new(worker_count: usize) -> (r: Self)
        ensures
            r == (QueueManagerBuilder {
                worker_count,
                high_watermark: 1_048_576,
                channel_capacity: 1024,
                backpressure_tx: None,
                max_rate_bytes_per_sec: 0,
            }),
    {
        QueueManagerBuilder {
            worker_count,
            high_watermark: 1_048_576,
            channel_capacity: 1024,
            backpressure_tx: None,
            max_rate_bytes_per_sec: 0,
        }
    }

    /// Sets from how many waiting bytes on a worker counts as congested.
    pub fn high_watermark(self, bytes: u64) -> (r: Self)
        ensures
            r == (QueueManagerBuilder { high_watermark: bytes, ..self }),
    {
        QueueManagerBuilder { high_watermark: bytes, ..self }
    }

    /// Sets how many fragments a worker's channel has room for.
    pub fn channel_capacity(self, capacity: usize) -> (r: Self)
        ensures
            r == (QueueManagerBuilder { channel_capacity: capacity, ..self }),
    {
        QueueManagerBuilder { channel_capacity: capacity, ..self }
    }

    /// Sets where the splitter is told to pause and resume.
    pub fn backpressure_tx(self, tx: Outlet<bool>) -> (r: Self)
        ensures
            r == (QueueManagerBuilder { backpressure_tx: Some(tx), ..self }),
    {
        QueueManagerBuilder { backpressure_tx: Some(tx), ..self }
    }

    /// Sets how many bytes may be sent in a second; 0 for no limit.
    pub fn max_rate(self, bytes_per_sec: u64) -> (r: Self)
        ensures
            r == (QueueManagerBuilder { max_rate_bytes_per_sec: bytes_per_sec, ..self }),
    {
        QueueManagerBuilder { max_rate_bytes_per_sec: bytes_per_sec, ..self }
    }

    /// Makes the manager with all its workers.
    pub fn build(self, now_ns: u64) -> (r: QueueManager)
        requires
            self.worker_count > 0,
        ensures
            r.wf(),
            r.workers@.len() == self.worker_count,
            forall|i: int|
                0 <= i < self.worker_count ==> {
                    let w = (#[trigger] r.workers@[i]).model();
                    &&& w.active && !w.closed
                    &&& w.queue.len() == 0 && w.sent.len() == 0
                    &&& w.capacity == self.channel_capacity
                    &&& w.stats.pending_bytes == 0 && w.stats.pending_fragments == 0
                    &&& w.stats.errors == 0
                },
            r.model() == (ManagerModel {
                workers: Seq::new(
                    self.worker_count as nat,
                    |i: int| fresh_worker(self.channel_capacity as nat),
                ),
                last_worker: 0,
                high_watermark: self.high_watermark,
                signals: signal_model(self.backpressure_tx),
                stats: QueueManagerStats {
                    fragments_dispatched: 0,
                    fragments_retransmitted: 0,
                    fragments_redistributed: 0,
                    all_workers_down_events: 0,
                    backpressure_events: 0,
                    rate_limited_bytes: 0,
                    rate_limit_ns: 0,
                },
                max_rate: self.max_rate_bytes_per_sec,
                bucket: 0,
                last_check: now_ns,
                sleep_due: 0,
                progress: None,
                last_chunk_id: 0,
            }),
    {
        let count: usize = self.worker_count;
        let capacity: usize = self.channel_capacity;
        let mut manager = QueueManager::new(
            count,
            self.high_watermark,
            self.backpressure_tx,
            now_ns,
        );
        if self.max_rate_bytes_per_sec > 0 {
            manager.set_max_rate(self.max_rate_bytes_per_sec, now_ns);
        }
        let ghost empty = manager.model();
        let ghost worker = fresh_worker(capacity as nat);
        let mut i: usize = 0;
        assert(empty.workers =~= Seq::new(0, |j: int| worker));
        while i < count
            invariant
                0 <= i <= count,
                worker == fresh_worker(capacity as nat),
                manager.wf(),
                manager.last_worker == 0,
                manager.model() == (ManagerModel {
                    workers: Seq::new(i as nat, |j: int| worker),
                    ..empty
                }),
            decreases count - i,
        {
            let tx: Outlet<Vec<u8>> = Outlet::new(capacity);
            assert(wire::views(tx.queue@) =~= Seq::empty());
            let ghost before = manager.model();
            manager.add_worker(tx, QueueWorkerStats::default());
            i = i + 1;
            assert(manager.model().workers =~= Seq::new(i as nat, |j: int| worker));
        }
        assert(manager.model().workers.len() == manager.workers@.len());
        assert forall|j: int| 0 <= j < count implies (#[trigger] manager.workers@[j]).model()
            == worker by {
            assert(manager.model().workers[j] == manager.workers@[j].model());
        }
        manager
    }
}

} // verus!
