//! The workers that put fragments on the wire.
//!
//! A worker decides what to do next and is told how it went: waiting for
//! fragments and the system calls themselves are up to the caller.

use crate::channel::Outlet;
use crate::wire;
use vstd::prelude::*;

verus! {

/// Size of the kernel's send buffer: 64 MiB.
pub const DEFAULT_SO_SNDBUF: usize = 67_108_864;

/// How long one datagram may take to be sent, in nanoseconds.
pub const DEFAULT_SEND_TIMEOUT_NS: u64 = 2_000_000_000;

/// How many batch sends in a row may fail before the batch is given up.
pub const MAX_SEND_RETRIES: usize = 1024;

/// What a worker has done so far.
#[derive(Debug, Clone, Copy, PartialEq, Eq, Structural)]
pub struct UdpSendWorkerStats {
    pub bytes_sent: u64,
    pub fragments_sent: u64,
    pub errors: u64,
}

impl Default for UdpSendWorkerStats {
    fn default() -> (r: Self)
        ensures
            r == (UdpSendWorkerStats { bytes_sent: 0, fragments_sent: 0, errors: 0 }),
    {
        UdpSendWorkerStats { bytes_sent: 0, fragments_sent: 0, errors: 0 }
    }
}

impl UdpSendWorkerStats {
    /// After a datagram of `bytes` bytes was sent.
    pub open spec fn with_send(self, bytes: usize) -> UdpSendWorkerStats {
        UdpSendWorkerStats {
            bytes_sent: self.bytes_sent.wrapping_add(bytes as u64),
            fragments_sent: self.fragments_sent.wrapping_add(1),
            ..self
        }
    }

    /// After the datagrams were sent, one after the other.
    pub open spec fn with_sends(self, datagrams: Seq<Seq<u8>>) -> UdpSendWorkerStats
        decreases datagrams.len(),
    {
        if datagrams.len() == 0 {
            self
        } else {
            self.with_sends(datagrams.drop_last()).with_send(datagrams.last().len() as usize)
        }
    }

    /// After `count` errors.
    pub open spec fn with_errors(self, count: u64) -> UdpSendWorkerStats {
        UdpSendWorkerStats { errors: self.errors.wrapping_add(count), ..self }
    }

    fn record_send(&mut self, bytes: usize)
        ensures
            *final(self) == old(self).with_send(bytes),
    {
        self.bytes_sent = self.bytes_sent.wrapping_add(bytes as u64);
        self.fragments_sent = self.fragments_sent.wrapping_add(1);
    }

    fn record_errors(&mut self, count: u64)
        ensures
            *final(self) == old(self).with_errors(count),
    {
        self.errors = self.errors.wrapping_add(count);
    }
}

/// What a worker tells about itself.
#[derive(Debug, Clone, Copy, PartialEq, Eq, Structural)]
pub enum WorkerResult {
    /// Nothing more will be sent.
    Done,
    /// A send failed.
    Failed,
}

/// The reports of a worker: those not collected yet, how many may wait, and
/// whether anyone still collects them. `None` where there are no reports.
pub struct HealthModel(pub Option<(Seq<WorkerResult>, usize, bool)>);

impl HealthModel {
    /// After a report, which is lost where there is no room for it.
    pub open spec fn with(self, report: WorkerResult) -> HealthModel {
        match self.0 {
            None => self,
            Some((reports, capacity, closed)) => if !closed && reports.len() < capacity {
                HealthModel(Some((reports.push(report), capacity, closed)))
            } else {
                self
            },
        }
    }
}

/// The reports that an outlet holds.
pub open spec fn health_of(outlet: Option<Outlet<WorkerResult>>) -> HealthModel {
    match outlet {
        None => HealthModel(None),
        Some(o) => HealthModel(Some((o.queue@, o.capacity, o.closed))),
    }
}

/// Reports where there is someone to report to, and room.
fn report(outlet: &mut Option<Outlet<WorkerResult>>, result: WorkerResult)
    ensures
        health_of(*final(outlet)) == health_of(*old(outlet)).with(result),
{
    if let Some(mut o) = outlet.take() {
        let _ = o.try_send(result);
        *outlet = Some(o);
    }
}

/// What the socket of a worker is set to.
#[derive(Debug, Clone, Copy, PartialEq, Eq, Structural)]
pub struct SocketSettings {
    /// Where the socket is bound; 0 for any port.
    pub local_port: u16,
    /// Size of the kernel's send buffer.
    pub so_sndbuf: usize,
    /// How long one datagram may take to be sent.
    pub send_timeout_ns: u64,
}

/// A worker that sends each fragment by itself.
pub struct UdpSendWorker {
    pub settings: SocketSettings,
    pub stats: UdpSendWorkerStats,
    pub health_tx: Option<Outlet<WorkerResult>>,
}

impl UdpSendWorker {
    /// A worker that has sent nothing yet.
    pub fn new(
        local_port: u16,
        so_sndbuf: usize,
        send_timeout_ns: u64,
        stats: UdpSendWorkerStats,
        health_tx: Option<Outlet<WorkerResult>>,
    ) -> (r: Self)
        ensures
            r.settings == (SocketSettings { local_port, so_sndbuf, send_timeout_ns }),
            r.stats == stats,
            r.health_tx == health_tx,
    {
        let settings = SocketSettings { local_port, so_sndbuf, send_timeout_ns };
        UdpSendWorker { settings, stats, health_tx }
    }

    /// Takes note of how one send went: of the number of bytes sent, or of a
    /// failure or a timeout (`None`).
    pub fn on_send(&mut self, sent: Option<usize>)
        ensures
            final(self).settings == old(self).settings,
            match sent {
                Some(n) => {
                    &&& final(self).stats == old(self).stats.with_send(n)
                    &&& health_of(final(self).health_tx) == health_of(old(self).health_tx)
                },
                None => {
                    &&& final(self).stats == old(self).stats.with_errors(1)
                    &&& health_of(final(self).health_tx) == health_of(old(self).health_tx).with(
                        WorkerResult::Failed,
                    )
                },
            },
    {
        match sent {
            Some(n) => {
                self.stats.record_send(n);
            },
            None => {
                self.stats.record_errors(1);
                report(&mut self.health_tx, WorkerResult::Failed);
            },
        }
    }

    /// Takes note that no more fragments will come.
    pub fn on_closed(&mut self)
        ensures
            final(self).settings == old(self).settings,
            final(self).stats == old(self).stats,
            health_of(final(self).health_tx) == health_of(old(self).health_tx).with(
                WorkerResult::Done,
            ),
    {
        report(&mut self.health_tx, WorkerResult::Done);
    }
}

/// How one batch send went.
#[derive(Debug, Clone, Copy, PartialEq, Eq, Structural)]
pub enum BatchOutcome {
    /// So many datagrams were sent, from the first on.
    Sent(usize),
    /// The system does not know batch sends.
    Unsupported,
    /// The socket takes nothing at the moment.
    WouldBlock,
    /// Any other failure.
    Failed,
}

/// How one single send went.
#[derive(Debug, Clone, Copy, PartialEq, Eq, Structural)]
pub enum SendOutcome {
    /// So many bytes were sent.
    Sent(usize),
    /// The socket takes nothing at the moment.
    WouldBlock,
    /// Any other failure.
    Failed,
}

/// Where a batching worker stands.
#[derive(Debug, Clone, Copy, PartialEq, Eq, Structural)]
pub enum WorkerPhase {
    /// Waits for a fragment.
    Waiting,
    /// Gathers fragments that come soon after the first, which came at this
    /// time in nanoseconds.
    Gathering(u64),
    /// Sends batches, after so many failures in a row.
    Batching(usize),
    /// Waits until the socket can take the first fragment.
    AwaitingWritable,
    /// Sends the first fragment by itself.
    SendingOne,
    /// Is done.
    Finished,
}

/// What a batching worker needs done.
#[derive(Debug, Clone, Copy, PartialEq, Eq, Structural)]
pub enum WorkerAction {
    /// Wait for a fragment, or the end of input.
    Receive,
    /// Look for a fragment without waiting.
    TryReceive,
    /// Send the first so many fragments at once.
    SendBatch(usize),
    /// Wait until the socket can be written to.
    AwaitWritable,
    /// Try to send the first fragment.
    TrySend,
    /// Nothing more.
    Finish,
}

/// A batching worker, as far as its decisions depend on it.
#[verifier::ext_equal]
pub struct BatchWorkerModel {
    pub settings: SocketSettings,
    /// Fragments that came and were not sent yet.
    pub batch: Seq<Seq<u8>>,
    pub batch_size: usize,
    pub batch_usec: u64,
    pub stats: UdpSendWorkerStats,
    pub health: HealthModel,
    /// Whether batch sends are still tried.
    pub support_batch: bool,
    /// Whether the end of input was seen.
    pub input_closed: bool,
    pub phase: WorkerPhase,
}

impl BatchWorkerModel {
    /// Where the worker sends, there is something to send.
    pub open spec fn wf(self) -> bool {
        match self.phase {
            WorkerPhase::Gathering(_) | WorkerPhase::AwaitingWritable | WorkerPhase::SendingOne =>
                self.batch.len() > 0,
            WorkerPhase::Batching(retries) => self.batch.len() > 0 && retries < MAX_SEND_RETRIES
                && self.batch_size > 1,
            _ => true,
        }
    }

    /// How many fragments go into the next batch send.
    pub open spec fn next_batch_len(self) -> nat {
        if self.batch.len() <= self.batch_size {
            self.batch.len()
        } else {
            self.batch_size as nat
        }
    }

    /// After a flush: the worker waits for more, or is done.
    pub open spec fn flushed(self) -> BatchWorkerModel {
        if self.input_closed {
            BatchWorkerModel {
                health: self.health.with(WorkerResult::Done),
                phase: WorkerPhase::Finished,
                ..self
            }
        } else {
            BatchWorkerModel { phase: WorkerPhase::Waiting, ..self }
        }
    }

    /// At the start of a flush.
    pub open spec fn flushing(self) -> BatchWorkerModel {
        if self.batch.len() == 0 {
            self.flushed()
        } else if !self.support_batch || self.batch_size <= 1 {
            BatchWorkerModel { phase: WorkerPhase::AwaitingWritable, ..self }
        } else {
            BatchWorkerModel { phase: WorkerPhase::Batching(0), ..self }
        }
    }

    /// After a fragment came.
    pub open spec fn received(self, fragment: Seq<u8>, now_ns: u64) -> BatchWorkerModel {
        BatchWorkerModel {
            batch: self.batch.push(fragment),
            phase: match self.phase {
                WorkerPhase::Waiting => WorkerPhase::Gathering(now_ns),
                other => other,
            },
            ..self
        }
    }

    /// After the end of input.
    pub open spec fn closed(self) -> BatchWorkerModel {
        (BatchWorkerModel { input_closed: true, ..self }).flushing()
    }

    /// Whether the worker has gathered enough, or for long enough.
    pub open spec fn has_gathered(self, now_ns: u64) -> bool {
        self.phase matches WorkerPhase::Gathering(since_ns) && (self.batch.len() >= self.batch_size
            || now_ns >= since_ns + self.batch_usec * 1000)
    }

    /// After a look at the clock.
    pub open spec fn polled(self, now_ns: u64) -> BatchWorkerModel {
        if self.has_gathered(now_ns) {
            self.flushing()
        } else {
            self
        }
    }

    /// Without the first `count` fragments.
    pub open spec fn without_first(self, count: int) -> BatchWorkerModel {
        BatchWorkerModel { batch: self.batch.skip(count), ..self }
    }

    /// Goes on with batches, after `retries` failures in a row.
    pub open spec fn batch_on(self, retries: usize) -> BatchWorkerModel {
        if self.batch.len() == 0 {
            self.flushed()
        } else if retries >= MAX_SEND_RETRIES {
            (BatchWorkerModel {
                batch: Seq::empty(),
                stats: self.stats.with_errors(self.batch.len() as u64),
                health: self.health.with(WorkerResult::Failed),
                ..self
            }).flushed()
        } else {
            BatchWorkerModel { phase: WorkerPhase::Batching(retries), ..self }
        }
    }

    /// After a batch send. What was sent leaves the batch. After a partial
    /// send, or where the socket takes nothing, the rest stays for the next
    /// flush. A failure costs the first fragment. A system that does not know
    /// batch sends gets single ones from then on.
    pub open spec fn batch_sent(self, outcome: BatchOutcome) -> BatchWorkerModel {
        let retries = match self.phase {
            WorkerPhase::Batching(retries) => retries,
            _ => 0,
        };
        match outcome {
            BatchOutcome::Sent(count) => {
                let next = (BatchWorkerModel {
                    stats: self.stats.with_sends(self.batch.take(count as int)),
                    ..self
                }).without_first(count as int);
                if count < self.next_batch_len() {
                    next.flushed()
                } else {
                    next.batch_on(0)
                }
            },
            BatchOutcome::Unsupported => BatchWorkerModel {
                support_batch: false,
                stats: self.stats.with_errors(1),
                health: self.health.with(WorkerResult::Failed),
                phase: WorkerPhase::AwaitingWritable,
                ..self
            },
            BatchOutcome::WouldBlock => (BatchWorkerModel {
                stats: self.stats.with_errors(1),
                ..self
            }).flushed(),
            BatchOutcome::Failed => self.without_first(1).batch_on((retries + 1) as usize),
        }
    }

    /// Goes on with single sends.
    pub open spec fn single_on(self) -> BatchWorkerModel {
        if self.batch.len() == 0 {
            self.flushed()
        } else {
            BatchWorkerModel { phase: WorkerPhase::AwaitingWritable, ..self }
        }
    }

    /// After the wait for the socket. An error or a timeout costs the first
    /// fragment.
    pub open spec fn writable(self, ready: bool) -> BatchWorkerModel {
        if ready {
            BatchWorkerModel { phase: WorkerPhase::SendingOne, ..self }
        } else {
            (BatchWorkerModel { stats: self.stats.with_errors(1), ..self }).without_first(
                1,
            ).single_on()
        }
    }

    /// After a single send.
    pub open spec fn one_sent(self, outcome: SendOutcome) -> BatchWorkerModel {
        match outcome {
            SendOutcome::Sent(bytes) => (BatchWorkerModel {
                stats: self.stats.with_send(bytes),
                ..self
            }).without_first(1).single_on(),
            SendOutcome::WouldBlock => self.single_on(),
            SendOutcome::Failed => (BatchWorkerModel {
                stats: self.stats.with_errors(1),
                health: self.health.with(WorkerResult::Failed),
                ..self
            }).without_first(1).single_on(),
        }
    }

    /// What the worker needs done next.
    pub open spec fn action(self) -> WorkerAction {
        match self.phase {
            WorkerPhase::Waiting => WorkerAction::Receive,
            WorkerPhase::Gathering(_) => WorkerAction::TryReceive,
            WorkerPhase::Batching(_) => WorkerAction::SendBatch(self.next_batch_len() as usize),
            WorkerPhase::AwaitingWritable => WorkerAction::AwaitWritable,
            WorkerPhase::SendingOne => WorkerAction::TrySend,
            WorkerPhase::Finished => WorkerAction::Finish,
        }
    }
}

/// A worker that gathers fragments and sends several at once, where the system
/// knows how to.
pub struct BatchSendWorker {
    settings: SocketSettings,
    batch_size: usize,
    batch_usec: u64,
    stats: UdpSendWorkerStats,
    health_tx: Option<Outlet<WorkerResult>>,
    support_batch: bool,
    batch: Vec<Vec<u8>>,
    input_closed: bool,
    phase: WorkerPhase,
}

impl BatchSendWorker {
    /// The worker as its decisions see it.
    pub closed spec fn model(self) -> BatchWorkerModel {
        BatchWorkerModel {
            settings: self.settings,
            batch: wire::views(self.batch@),
            batch_size: self.batch_size,
            batch_usec: self.batch_usec,
            stats: self.stats,
            health: health_of(self.health_tx),
            support_batch: self.support_batch,
            input_closed: self.input_closed,
            phase: self.phase,
        }
    }

    /// Where the worker sends, there is something to send.
    pub open spec fn wf(self) -> bool {
        self.model().wf()
    }

    /// A worker that waits for its first fragment and will try batch sends.
    pub fn new(
        local_port: u16,
        so_sndbuf: usize,
        send_timeout_ns: u64,
        batch_size: usize,
        batch_usec: u64,
        stats: UdpSendWorkerStats,
        health_tx: Option<Outlet<WorkerResult>>,
    ) -> (r: Self)
        ensures
            r.wf(),
            r.model() == (BatchWorkerModel {
                settings: SocketSettings { local_port, so_sndbuf, send_timeout_ns },
                batch: Seq::empty(),
                batch_size,
                batch_usec,
                stats,
                health: health_of(health_tx),
                support_batch: true,
                input_closed: false,
                phase: WorkerPhase::Waiting,
            }),
    {
        let r = BatchSendWorker {
            settings: SocketSettings { local_port, so_sndbuf, send_timeout_ns },
            batch_size,
            batch_usec,
            stats,
            health_tx,
            support_batch: true,
            batch: Vec::new(),
            input_closed: false,
            phase: WorkerPhase::Waiting,
        };
        assert(wire::views(r.batch@) =~= Seq::empty());
        r
    }

    /// What the worker's socket is set to.
    pub fn settings(&self) -> (r: SocketSettings)
        ensures
            r == self.model().settings,
    {
        self.settings
    }

    /// What to do next.
    pub fn action(&self) -> (r: WorkerAction)
        requires
            self.wf(),
        ensures
            r == self.model().action(),
    {
        match self.phase {
            WorkerPhase::Waiting => WorkerAction::Receive,
            WorkerPhase::Gathering(_) => WorkerAction::TryReceive,
            WorkerPhase::Batching(_) => {
                if self.batch.len() <= self.batch_size {
                    WorkerAction::SendBatch(self.batch.len())
                } else {
                    WorkerAction::SendBatch(self.batch_size)
                }
            },
            WorkerPhase::AwaitingWritable => WorkerAction::AwaitWritable,
            WorkerPhase::SendingOne => WorkerAction::TrySend,
            WorkerPhase::Finished => WorkerAction::Finish,
        }
    }

    /// The fragment at `index` among those not sent yet.
    pub fn pending(&self, index: usize) -> (r: &[u8])
        requires
            index < self.model().batch.len(),
        ensures
            r@ == self.model().batch[index as int],
    {
        self.batch[index].as_slice()
    }

    /// How many fragments are not sent yet.
    pub fn pending_count(&self) -> (r: usize)
        ensures
            r == self.model().batch.len(),
    {
        self.batch.len()
    }

    /// What the worker has done so far.
    pub fn stats(&self) -> (r: UdpSendWorkerStats)
        ensures
            r == self.model().stats,
    {
        self.stats
    }

    /// Hands over the reports made so far, oldest first.
    pub fn take_report(&mut self) -> (r: Option<WorkerResult>)
        requires
            old(self).wf(),
        ensures
            final(self).wf(),
            match old(self).model().health.0 {
                Some((reports, capacity, closed)) if reports.len() > 0 => {
                    &&& r == Some(reports[0])
                    &&& final(self).model() == (BatchWorkerModel {
                        health: HealthModel(Some((reports.drop_first(), capacity, closed))),
                        ..old(self).model()
                    })
                },
                _ => r is None && final(self).model() == old(self).model(),
            },
    {
        match self.health_tx.take() {
            None => None,
            Some(mut o) => {
                let r = o.try_recv();
                self.health_tx = Some(o);
                r
            },
        }
    }

    fn finish_flush(&mut self)
        ensures
            final(self).model() == old(self).model().flushed(),
    {
        if self.input_closed {
            report(&mut self.health_tx, WorkerResult::Done);
            self.phase = WorkerPhase::Finished;
        } else {
            self.phase = WorkerPhase::Waiting;
        }
    }

    fn begin_flush(&mut self)
        ensures
            final(self).model() == old(self).model().flushing(),
    {
        if self.batch.len() == 0 {
            self.finish_flush();
        } else if !self.support_batch || self.batch_size <= 1 {
            self.phase = WorkerPhase::AwaitingWritable;
        } else {
            self.phase = WorkerPhase::Batching(0);
        }
    }

    /// Drops the first `count` fragments.
    fn drop_front(&mut self, count: usize)
        requires
            count <= old(self).model().batch.len(),
        ensures
            final(self).model() == old(self).model().without_first(count as int),
    {
        let mut left: usize = count;
        let ghost before = self.model();
        assert(before.batch.skip(0) =~= before.batch);
        while left > 0
            invariant
                left <= count <= before.batch.len(),
                self.model() == before.without_first(count - left),
            decreases left,
        {
            let ghost was = self.model().batch;
            assert(was.len() == self.batch@.len());
            self.batch.remove(0);
            left -= 1;
            proof {
                assert(wire::views(self.batch@) =~= was.skip(1));
                assert(was.skip(1) =~= before.batch.skip(count - left));
            }
        }
    }

    /// Takes in a fragment that came at `now_ns`.
    pub fn on_fragment(&mut self, fragment: Vec<u8>, now_ns: u64)
        requires
            old(self).wf(),
            old(self).model().phase is Waiting || old(self).model().phase is Gathering,
        ensures
            final(self).wf(),
            final(self).model() == old(self).model().received(fragment@, now_ns),
    {
        proof {
            wire::lemma_views_push(self.batch@, fragment);
        }
        self.batch.push(fragment);
        match self.phase {
            WorkerPhase::Waiting => {
                self.phase = WorkerPhase::Gathering(now_ns);
            },
            _ => {},
        }
    }

    /// Takes note of the end of input.
    pub fn on_closed(&mut self)
        requires
            old(self).wf(),
            old(self).model().phase is Waiting || old(self).model().phase is Gathering,
        ensures
            final(self).wf(),
            final(self).model() == old(self).model().closed(),
    {
        self.input_closed = true;
        self.begin_flush();
    }

    /// Looks at the clock: has enough been gathered, or for long enough?
    pub fn poll(&mut self, now_ns: u64) -> (r: bool)
        requires
            old(self).wf(),
        ensures
            final(self).wf(),
            r == old(self).model().has_gathered(now_ns),
            final(self).model() == old(self).model().polled(now_ns),
    {
        match self.phase {
            WorkerPhase::Gathering(since_ns) => {
                let due_ns: u128 = since_ns as u128 + self.batch_usec as u128 * 1000;
                if self.batch.len() >= self.batch_size || now_ns as u128 >= due_ns {
                    self.begin_flush();
                    true
                } else {
                    false
                }
            },
            _ => false,
        }
    }

    fn go_on_batching(&mut self, retries: usize)
        requires
            retries <= MAX_SEND_RETRIES,
        ensures
            final(self).model() == old(self).model().batch_on(retries),
    {
        if self.batch.len() == 0 {
            self.finish_flush();
        } else if retries >= MAX_SEND_RETRIES {
            let lost: u64 = self.batch.len() as u64;
            self.batch.clear();
            assert(wire::views(self.batch@) =~= Seq::empty());
            self.stats.record_errors(lost);
            report(&mut self.health_tx, WorkerResult::Failed);
            self.finish_flush();
        } else {
            self.phase = WorkerPhase::Batching(retries);
        }
    }

    /// Takes note of how a batch send went.
    pub fn on_batch(&mut self, outcome: BatchOutcome)
        requires
            old(self).wf(),
            old(self).model().phase is Batching,
            outcome matches BatchOutcome::Sent(count) ==> count
                <= old(self).model().next_batch_len(),
        ensures
            final(self).wf(),
            final(self).model() == old(self).model().batch_sent(outcome),
    {
        let retries: usize = match self.phase {
            WorkerPhase::Batching(retries) => retries,
            _ => 0,
        };
        match outcome {
            BatchOutcome::Sent(count) => {
                let full: usize = if self.batch.len() <= self.batch_size {
                    self.batch.len()
                } else {
                    self.batch_size
                };
                self.record_sends(count);
                self.drop_front(count);
                if count < full {
                    self.finish_flush();
                } else {
                    self.go_on_batching(0);
                }
            },
            BatchOutcome::Unsupported => {
                self.support_batch = false;
                self.stats.record_errors(1);
                report(&mut self.health_tx, WorkerResult::Failed);
                self.phase = WorkerPhase::AwaitingWritable;
            },
            BatchOutcome::WouldBlock => {
                self.stats.record_errors(1);
                self.finish_flush();
            },
            BatchOutcome::Failed => {
                self.drop_front(1);
                self.go_on_batching(retries + 1);
            },
        }
    }

    /// Counts the first `count` fragments as sent.
    fn record_sends(&mut self, count: usize)
        requires
            count <= old(self).model().batch.len(),
        ensures
            final(self).model() == (BatchWorkerModel {
                stats: old(self).model().stats.with_sends(
                    old(self).model().batch.take(count as int),
                ),
                ..old(self).model()
            }),
    {
        let ghost before = self.model();
        let mut i: usize = 0;
        while i < count
            invariant
                i <= count <= before.batch.len(),
                self.model() == (BatchWorkerModel {
                    stats: before.stats.with_sends(before.batch.take(i as int)),
                    ..before
                }),
            decreases count - i,
        {
            let bytes: usize = self.batch[i].len();
            self.stats.record_send(bytes);
            proof {
                let longer = before.batch.take(i + 1);
                assert(longer.drop_last() =~= before.batch.take(i as int));
                assert(longer.last() == before.batch[i as int]);
            }
            i += 1;
        }
    }

    fn go_on_singly(&mut self)
        ensures
            final(self).model() == old(self).model().single_on(),
    {
        if self.batch.len() == 0 {
            self.finish_flush();
        } else {
            self.phase = WorkerPhase::AwaitingWritable;
        }
    }

    /// Takes note of how the wait for the socket went.
    pub fn on_writable(&mut self, ready: bool)
        requires
            old(self).wf(),
            old(self).model().phase is AwaitingWritable,
        ensures
            final(self).wf(),
            final(self).model() == old(self).model().writable(ready),
    {
        if ready {
            self.phase = WorkerPhase::SendingOne;
        } else {
            self.stats.record_errors(1);
            self.drop_front(1);
            self.go_on_singly();
        }
    }

    /// Takes note of how a single send went.
    pub fn on_send(&mut self, outcome: SendOutcome)
        requires
            old(self).wf(),
            old(self).model().phase is SendingOne,
        ensures
            final(self).wf(),
            final(self).model() == old(self).model().one_sent(outcome),
    {
        match outcome {
            SendOutcome::Sent(bytes) => {
                self.stats.record_send(bytes);
                self.drop_front(1);
            },
            SendOutcome::WouldBlock => {},
            SendOutcome::Failed => {
                self.stats.record_errors(1);
                report(&mut self.health_tx, WorkerResult::Failed);
                self.drop_front(1);
            },
        }
        self.go_on_singly();
    }
}

/// Once a batch send turned out not to be supported, or for batches of one,
/// fragments are sent one at a time, whatever happens later.
pub proof fn lemma_single_sends_for_good(
    m: BatchWorkerModel,
    fragment: Seq<u8>,
    now_ns: u64,
    ready: bool,
    outcome: SendOutcome,
)
    requires
        !m.support_batch || m.batch_size <= 1,
        !(m.phase is Batching),
    ensures
        ({
            let next = m.received(fragment, now_ns);
            (!next.support_batch || next.batch_size <= 1) && !(next.phase is Batching)
        }),
        ({
            let next = m.closed();
            (!next.support_batch || next.batch_size <= 1) && !(next.phase is Batching)
        }),
        ({
            let next = m.polled(now_ns);
            (!next.support_batch || next.batch_size <= 1) && !(next.phase is Batching)
        }),
        ({
            let next = m.writable(ready);
            (!next.support_batch || next.batch_size <= 1) && !(next.phase is Batching)
        }),
        ({
            let next = m.one_sent(outcome);
            (!next.support_batch || next.batch_size <= 1) && !(next.phase is Batching)
        }),
{
}

/// Fragments leave a batch in the order in which they came: whatever a batch
/// send did, what is left is the batch without its first fragments. All that
/// were sent are gone, and unless a send failed, no others.
pub proof fn lemma_batch_leaves_in_order(m: BatchWorkerModel, outcome: BatchOutcome) -> (gone: int)
    requires
        m.wf(),
        m.phase is Batching,
        outcome matches BatchOutcome::Sent(count) ==> count <= m.next_batch_len(),
    ensures
        0 <= gone <= m.batch.len(),
        m.batch_sent(outcome).batch == m.batch.skip(gone),
        outcome matches BatchOutcome::Sent(count) ==> gone == count,
        outcome is Unsupported || outcome is WouldBlock ==> gone == 0,
{
    match outcome {
        BatchOutcome::Sent(count) => {
            assert(m.batch_sent(outcome).batch == m.batch.skip(count as int));
            count as int
        },
        BatchOutcome::Failed => {
            let next = m.batch_sent(outcome).batch;
            if next =~= m.batch.skip(1) {
                1
            } else {
                assert(next =~= m.batch.skip(m.batch.len() as int));
                m.batch.len() as int
            }
        },
        _ => {
            assert(m.batch.skip(0) =~= m.batch);
            0
        },
    }
}

/// Fragments that are sent one at a time leave in the order in which they came.
pub proof fn lemma_singles_leave_in_order(m: BatchWorkerModel, ready: bool, outcome: SendOutcome)
    requires
        m.batch.len() > 0,
    ensures
        m.writable(ready).batch == (if ready {
            m.batch
        } else {
            m.batch.skip(1)
        }),
        m.one_sent(outcome).batch == (if outcome is WouldBlock {
            m.batch
        } else {
            m.batch.skip(1)
        }),
{
}

/// Every fragment and every byte that was sent is counted, as long as the
/// counts do not run over.
pub proof fn lemma_sends_are_counted(stats: UdpSendWorkerStats, datagrams: Seq<Seq<u8>>)
    requires
        stats.fragments_sent + datagrams.len() <= u64::MAX,
        stats.bytes_sent + wire::total_len(datagrams) <= u64::MAX,
        forall|i: int| 0 <= i < datagrams.len() ==> (#[trigger] datagrams[i]).len() <= usize::MAX,
    ensures
        stats.with_sends(datagrams) == (UdpSendWorkerStats {
            fragments_sent: (stats.fragments_sent + datagrams.len()) as u64,
            bytes_sent: (stats.bytes_sent + wire::total_len(datagrams)) as u64,
            ..stats
        }),
    decreases datagrams.len(),
{
    if datagrams.len() > 0 {
        lemma_sends_are_counted(stats, datagrams.drop_last());
    }
}

} // verus!
