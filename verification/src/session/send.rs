//! What the sending program decides.

use crate::adaptive::chunk_size::{DEFAULT_INITIAL_CHUNK, MAX_CHUNK};
use crate::channel::Outlet;
use crate::control::client::ControlError;
use crate::control::negotiation::{ChannelInfo, NegotiationConfig};
use crate::flow;
use crate::flow::{FlowController, FullnessLevel, ReactorModel, SenderReactor};
use crate::progress::reporter::ProgressVerbosity;
use crate::protocol::control::{ControlMessage, MessageModel};
use crate::sender::health;
use crate::sender::health::ChannelHealth;
use crate::sender::queue;
use crate::sender::queue::{ManagerModel, QueueManager, SignalModel};
use crate::sender::worker::WorkerResult;
use crate::session::transfer;
use crate::session::{Awaited, Mode};
use crate::text;
use crate::time;
use crate::text::{push_decimal, push_hex};
use crate::wire;
use std::time::Duration;
use vstd::arithmetic::power2::*;
use vstd::prelude::*;
use vstd::string::*;

verus! {

/// From how many waiting bytes on a worker counts as congested: 1 MiB.
pub const DEFAULT_HIGH_WATERMARK: u64 = 1_048_576;

/// How many items a channel between two stages has room for.
pub const DEFAULT_CHANNEL_CAPACITY: usize = 1024;

/// Time between two progress lines, in nanoseconds.
pub const DEFAULT_PROGRESS_INTERVAL_NS: u64 = 1_000_000_000;

/// How many datagrams go into one batch send.
pub const DEFAULT_BATCH_SIZE: usize = 16;

/// How long a batch may wait to fill up, in microseconds.
pub const DEFAULT_BATCH_USEC: u64 = 100;

/// How many channels are asked for where the number is left open.
pub const DEFAULT_INITIAL_CHANNELS: u8 = 4;

/// Smallest chunk size to agree on, as a power of two.
pub const DEFAULT_MIN_CHUNK_LOG2: u32 = 10;

/// Largest chunk size to agree on, as a power of two.
pub const DEFAULT_MAX_CHUNK_LOG2: u32 = 20;

/// How long the receiver has to answer a request to reconnect.
pub const RECONNECT_ACK_TIMEOUT_NS: u64 = 10_000_000_000;

/// How long to wait for another channel after a reconnect.
pub const RECONNECT_CHANNEL_TIMEOUT_NS: u64 = 5_000_000_000;

/// How long to wait for the receiver's verdict on a file.
pub const FILE_COMPLETE_TIMEOUT_NS: u64 = 30_000_000_000;

/// How long a channel may go without a success, in seconds.
pub const ACTIVITY_TIMEOUT_SECS: u64 = 30;

/// What the sending program was asked to do.
#[derive(Debug)]
pub struct BraidSend {
    /// Address of the receiver.
    pub destination: String,
    /// Bytes in a chunk; 0 where it is left open.
    pub chunk_size: usize,
    /// Number of channels; 0 where it is left open.
    pub channels: usize,
    /// Size of a datagram.
    pub mtu: usize,
    /// Bytes per second; 0 for no limit.
    pub max_rate: u64,
    pub verbosity: ProgressVerbosity,
    pub mode: Mode,
    /// The file to send.
    pub input: Option<String>,
    pub compress_lz4: bool,
    pub compress_zstd: bool,
    /// Whether to try again where the receiver is not there yet.
    pub retry: bool,
    pub max_retries: u32,
    /// First delay between two attempts, in milliseconds.
    pub retry_delay: u64,
    /// After how many failures in a row a channel counts as dead.
    pub channel_failure_threshold: u32,
    pub batch_size: usize,
    pub batch_usec: u64,
    /// Whether each datagram is sent by itself.
    pub no_batch: bool,
    /// How many chunkers work at a time; 0 where it is left open.
    pub chunker_threads: usize,
}

/// Whether `k` is the least power of two, as an exponent, that is no less than
/// `n`.
pub open spec fn is_ceil_log2(n: nat, k: nat) -> bool {
    &&& n <= pow2(k)
    &&& forall|j: nat| j < k ==> #[trigger] pow2(j) < n
}

/// The least exponent whose power of two is no less than `n`.
pub fn ceil_log2(n: usize) -> (r: u32)
    ensures
        is_ceil_log2(n as nat, r as nat),
        r <= 64,
{
    let mut k: u32 = 0;
    let mut power: u128 = 1;
    proof {
        lemma2_to64();
    }
    while power < n as u128
        invariant
            k <= 64,
            power == pow2(k as nat),
            power <= 0x1_0000_0000_0000_0000,
            n <= 0xffff_ffff_ffff_ffff,
            forall|j: nat| j < k ==> #[trigger] pow2(j) < n,
        decreases 64 - k,
    {
        proof {
            lemma2_to64();
            if k == 64 {
                assert(power == 0x1_0000_0000_0000_0000);
            }
            lemma_pow2_unfold((k + 1) as nat);
            assert forall|j: nat| j < k + 1 implies #[trigger] pow2(j) < n by {
                if j == k {
                    assert(pow2(j) == power);
                }
            }
            if k < 64 {
                if k + 1 < 64 {
                    lemma_pow2_strictly_increases((k + 1) as nat, 64);
                }
            }
        }
        power = power * 2;
        k = k + 1;
    }
    k
}

/// How the work is laid out.
#[derive(Debug, Clone, Copy, PartialEq, Eq, Structural)]
pub struct SendPlan {
    /// How many chunkers work at a time.
    pub chunkers: usize,
    /// Bytes in a chunk at the start.
    pub chunk_size: usize,
    /// Bytes in a chunk at most.
    pub max_chunk_size: usize,
    /// How many buffers the chunkers share.
    pub pool_buffers: usize,
    /// Size of such a buffer.
    pub pool_buffer_size: usize,
}

impl BraidSend {
    /// A sender for a stream, with what is usual for all else.
    pub fn new(
        destination: String,
        chunk_size: usize,
        channels: usize,
        mtu: usize,
        max_rate: u64,
        verbosity: ProgressVerbosity,
    ) -> (r: Self)
        ensures
            r == (BraidSend {
                destination,
                chunk_size,
                channels,
                mtu,
                max_rate,
                verbosity,
                mode: Mode::Pipe,
                input: None,
                compress_lz4: true,
                compress_zstd: false,
                retry: false,
                max_retries: 3,
                retry_delay: 1000,
                channel_failure_threshold: 3,
                batch_size: DEFAULT_BATCH_SIZE,
                batch_usec: DEFAULT_BATCH_USEC,
                no_batch: false,
                chunker_threads: 0,
            }),
            r.batch_size == 16 && r.batch_usec == 100,
    {
        Self::new_with_mode(
            destination,
            chunk_size,
            channels,
            mtu,
            max_rate,
            verbosity,
            Mode::Pipe,
            None,
            true,
            false,
            DEFAULT_BATCH_SIZE,
            DEFAULT_BATCH_USEC,
            false,
            0,
        )
    }

    /// A sender that does not try again.
    pub fn new_with_mode(
        destination: String,
        chunk_size: usize,
        channels: usize,
        mtu: usize,
        max_rate: u64,
        verbosity: ProgressVerbosity,
        mode: Mode,
        input: Option<String>,
        compress_lz4: bool,
        compress_zstd: bool,
        batch_size: usize,
        batch_usec: u64,
        no_batch: bool,
        chunker_threads: usize,
    ) -> (r: Self)
        ensures
            r == (BraidSend {
                destination,
                chunk_size,
                channels,
                mtu,
                max_rate,
                verbosity,
                mode,
                input,
                compress_lz4,
                compress_zstd,
                retry: false,
                max_retries: 3,
                retry_delay: 1000,
                channel_failure_threshold: 3,
                batch_size,
                batch_usec,
                no_batch,
                chunker_threads,
            }),
    {
        BraidSend {
            destination,
            chunk_size,
            channels,
            mtu,
            max_rate,
            verbosity,
            mode,
            input,
            compress_lz4,
            compress_zstd,
            retry: false,
            max_retries: 3,
            retry_delay: 1000,
            channel_failure_threshold: 3,
            batch_size,
            batch_usec,
            no_batch,
            chunker_threads,
        }
    }

    /// A sender with everything given.
    pub fn new_with_retry(
        destination: String,
        chunk_size: usize,
        channels: usize,
        mtu: usize,
        max_rate: u64,
        verbosity: ProgressVerbosity,
        mode: Mode,
        input: Option<String>,
        compress_lz4: bool,
        compress_zstd: bool,
        retry: bool,
        max_retries: u32,
        retry_delay: u64,
        channel_failure_threshold: u32,
        batch_size: usize,
        batch_usec: u64,
        no_batch: bool,
        chunker_threads: usize,
    ) -> (r: Self)
        ensures
            r == (BraidSend {
                destination,
                chunk_size,
                channels,
                mtu,
                max_rate,
                verbosity,
                mode,
                input,
                compress_lz4,
                compress_zstd,
                retry,
                max_retries,
                retry_delay,
                channel_failure_threshold,
                batch_size,
                batch_usec,
                no_batch,
                chunker_threads,
            }),
    {
        BraidSend {
            destination,
            chunk_size,
            channels,
            mtu,
            max_rate,
            verbosity,
            mode,
            input,
            compress_lz4,
            compress_zstd,
            retry,
            max_retries,
            retry_delay,
            channel_failure_threshold,
            batch_size,
            batch_usec,
            no_batch,
            chunker_threads,
        }
    }

    /// What to ask the receiver for. A number of channels counts modulo 256, as
    /// the request has one byte for it.
    pub fn negotiation_config(&self) -> (r: NegotiationConfig)
        ensures
            r.channel_count == (if self.channels > 0 {
                (self.channels % 256) as u8
            } else {
                DEFAULT_INITIAL_CHANNELS
            }),
            r.min_chunk == DEFAULT_MIN_CHUNK_LOG2,
            r.max_chunk == DEFAULT_MAX_CHUNK_LOG2,
            is_ceil_log2(self.mtu as nat, r.mtu as nat),
            r.compression_lz4 == self.compress_lz4,
            r.compression_zstd == self.compress_zstd,
            self.channels == 0 ==> r.channel_count == 4,
            r.min_chunk == 10 && r.max_chunk == 20,
    {
        let channel_count: u8 = if self.channels > 0 {
            (self.channels % 256) as u8
        } else {
            DEFAULT_INITIAL_CHANNELS
        };
        NegotiationConfig {
            channel_count,
            min_chunk: DEFAULT_MIN_CHUNK_LOG2,
            max_chunk: DEFAULT_MAX_CHUNK_LOG2,
            mtu: ceil_log2(self.mtu),
            compression_lz4: self.compress_lz4,
            compression_zstd: self.compress_zstd,
        }
    }

    /// How many chunkers work at a time, on a machine with so many processors:
    /// as many as asked for, else half as many as processors, but at least one.
    pub open spec fn chunkers(self, processors: Option<usize>) -> usize {
        if self.chunker_threads > 0 {
            self.chunker_threads
        } else {
            match processors {
                Some(n) if n >= 2 => n / 2,
                _ => 1,
            }
        }
    }

    /// How the work is laid out.
    pub open spec fn plan_for(self, processors: Option<usize>) -> SendPlan {
        let chunkers = self.chunkers(processors);
        let chunk_size = if self.chunk_size > 0 {
            self.chunk_size
        } else {
            DEFAULT_INITIAL_CHUNK
        };
        let max_chunk_size = if chunk_size > MAX_CHUNK {
            chunk_size
        } else {
            MAX_CHUNK
        };
        SendPlan {
            chunkers,
            chunk_size,
            max_chunk_size,
            pool_buffers: if chunkers <= 1 {
                4
            } else {
                (chunkers * 2) as usize
            },
            pool_buffer_size: if max_chunk_size > self.mtu {
                max_chunk_size
            } else {
                self.mtu
            },
        }
    }

    /// Lays out the work.
    pub fn plan(&self, processors: Option<usize>) -> (r: SendPlan)
        requires
            self.chunker_threads * 2 <= usize::MAX,
        ensures
            r == self.plan_for(processors),
    {
        let chunkers: usize = if self.chunker_threads > 0 {
            self.chunker_threads
        } else {
            match processors {
                Some(n) if n >= 2 => n / 2,
                _ => 1,
            }
        };
        let chunk_size: usize = if self.chunk_size > 0 {
            self.chunk_size
        } else {
            DEFAULT_INITIAL_CHUNK
        };
        let max_chunk_size: usize = if chunk_size > MAX_CHUNK {
            chunk_size
        } else {
            MAX_CHUNK
        };
        SendPlan {
            chunkers,
            chunk_size,
            max_chunk_size,
            pool_buffers: if chunkers <= 1 {
                4
            } else {
                chunkers * 2
            },
            pool_buffer_size: if max_chunk_size > self.mtu {
                max_chunk_size
            } else {
                self.mtu
            },
        }
    }

    /// The file to send, in file mode.
    pub fn input_file(&self) -> (r: Result<Option<&String>, &'static str>)
        ensures
            match (self.mode, self.input) {
                (Mode::Pipe, _) => r is Ok && r->Ok_0 is None,
                (Mode::File, Some(path)) => r is Ok && r->Ok_0 == Some(&path),
                (Mode::File, None) => r is Err && r->Err_0@ == "file mode requires --input <PATH>"@,
            },
    {
        match self.mode {
            Mode::Pipe => Ok(None),
            Mode::File => match &self.input {
                Some(path) => Ok(Some(path)),
                None => Err("file mode requires --input <PATH>"),
            },
        }
    }
}

impl SendPlan {
    /// How many bytes to read for the next chunk at the level `level`, where chunks
    /// have `full` bytes while the receiver has room.
    pub open spec fn reads(self, level: FullnessLevel, full: usize) -> int {
        let wanted = flow::sized(level, full);
        if wanted < 1 {
            1
        } else if wanted > self.max_chunk_size && self.max_chunk_size >= 1 {
            self.max_chunk_size as int
        } else {
            wanted
        }
    }

    /// How many bytes to read for the next chunk, where chunks have `full` bytes
    /// while the receiver has room: fewer where it has little, but at least one
    /// and no more than a chunk may have.
    pub fn read_size(&self, flow: &FlowController, full: usize) -> (r: usize)
        ensures
            ({
                let wanted = match flow.current_level {
                    FullnessLevel::Green => full as int,
                    FullnessLevel::Yellow => full * 75 / 100,
                    _ => 0,
                };
                r == if wanted < 1 {
                    1
                } else if wanted > self.max_chunk_size && self.max_chunk_size >= 1 {
                    self.max_chunk_size as int
                } else {
                    wanted
                }
            }),
            r == self.reads(flow.current_level, full),
    {
        let wanted: usize = flow.chunk_size(full);
        if wanted < 1 {
            1
        } else if wanted > self.max_chunk_size && self.max_chunk_size >= 1 {
            self.max_chunk_size
        } else {
            wanted
        }
    }
}

/// Who may ask for a pause of the splitting.
#[derive(Debug, Clone, Copy, PartialEq, Eq, Structural)]
pub enum PauseSource {
    /// The workers, as their queues are long.
    Workers,
    /// The receiver, as it is full.
    Receiver,
}

/// Who wants splitting to pause.
#[derive(Debug, Clone, Copy, PartialEq, Eq, Structural)]
pub struct PauseRequests {
    pub workers: bool,
    pub receiver: bool,
}

impl PauseRequests {
    /// After one side asked for a pause, or for its end.
    pub open spec fn after(self, source: PauseSource, pause: bool) -> PauseRequests {
        match source {
            PauseSource::Workers => PauseRequests { workers: pause, ..self },
            PauseSource::Receiver => PauseRequests { receiver: pause, ..self },
        }
    }

    /// Whether splitting is paused.
    pub open spec fn is_paused(self) -> bool {
        self.workers || self.receiver
    }

    /// Nobody does.
    pub fn new() -> (r: Self)
        ensures
            r == (PauseRequests { workers: false, receiver: false }),
    {
        PauseRequests { workers: false, receiver: false }
    }

    /// One side asks for a pause, or for its end. Returns whether splitting is
    /// paused now: it goes on only when no side wants it paused.
    pub fn on_signal(&mut self, source: PauseSource, pause: bool) -> (r: bool)
        ensures
            *final(self) == match source {
                PauseSource::Workers => PauseRequests { workers: pause, ..*old(self) },
                PauseSource::Receiver => PauseRequests { receiver: pause, ..*old(self) },
            },
            r == (final(self).workers || final(self).receiver),
            *final(self) == old(self).after(source, pause),
            r == final(self).is_paused(),
    {
        match source {
            PauseSource::Workers => {
                self.workers = pause;
            },
            PauseSource::Receiver => {
                self.receiver = pause;
            },
        }
        self.workers || self.receiver
    }
}

/// What the sender knows of how full the receiver is. How much the receiver can
/// hold is told by its first report.
pub struct FlowLink {
    pub reactor: SenderReactor,
    /// Whether a report has come.
    pub reported: bool,
}

impl FlowLink {
    /// The reactor that acts on a message.
    pub open spec fn acting(self, msg: MessageModel) -> ReactorModel {
        match msg {
            MessageModel::QueueStatus { total_capacity, .. } if !self.reported => flow::unreported(
                total_capacity as usize,
                self.reactor.model().signals,
            ),
            _ => self.reactor.model(),
        }
    }

    /// A link without a report yet, which signals pauses to `pauses`.
    pub fn new(pauses: Outlet<bool>) -> (r: Self)
        ensures
            r.reactor.model() == flow::unreported(0, queue::signal_model(Some(pauses))),
            !r.reported,
    {
        FlowLink { reactor: SenderReactor::new(0, Some(pauses)), reported: false }
    }

    /// Acts on a message. Returned is the refusal to send to a receiver that has
    /// just become full.
    pub fn on_message(&mut self, msg: &ControlMessage) -> (r: Option<ControlMessage>)
        ensures
            final(self).reactor.model() == old(self).acting(msg@).on_message(msg@),
            final(self).reported == (old(self).reported || msg@ is QueueStatus),
            r is Some <==> old(self).acting(msg@).turns_red(msg@),
            r is Some ==> r->Some_0@ == flow::refusal(),
    {
        match msg {
            ControlMessage::QueueStatus { total_capacity, .. } => {
                if !self.reported {
                    let pauses = self.reactor.flow_pause_tx.take();
                    self.reactor = SenderReactor::new(*total_capacity as usize, pauses);
                    self.reported = true;
                }
            },
            _ => {},
        }
        self.reactor.process_message(msg)
    }
}

/// Why fragments are not dispatched any more.
#[derive(Debug, Clone, Copy, PartialEq, Eq, Structural)]
pub enum QmExitReason {
    /// The stream has ended, or a shutdown was asked for.
    Normal,
    /// No worker is left.
    AllWorkersDown { last_chunk_id: u32 },
}

/// Hands the batches of fragments to the workers.
pub struct DispatchLoop {
    pub manager: QueueManager,
    /// Which workers' channels still work.
    pub health: ChannelHealth,
    /// How many fragments each worker had sent when it last reported a failure.
    pub sent: Vec<u64>,
    /// Why the loop has ended; `None` while it runs.
    pub exit: Option<QmExitReason>,
    /// Whether the splitter was last told to pause.
    pub paused: bool,
}

impl DispatchLoop {
    /// The manager is sound, each worker has a record, and a channel that is
    /// alive has had too few failures in a row to be dead.
    pub open spec fn wf(self) -> bool {
        &&& self.manager.wf()
        &&& self.sent@.len() == self.health.channels@.len()
        &&& forall|i: int|
            0 <= i < self.health.channels@.len() && (#[trigger] self.health.channels@[i]).alive
                ==> self.health.channels@[i].consecutive_failures == 0
                || self.health.channels@[i].consecutive_failures
                < self.health.max_consecutive_failures
    }

    /// How many failures in a row there are after one more, of a worker that has
    /// sent so many fragments: if it has sent any since the failure before, it is
    /// the first.
    pub open spec fn failures_in_a_row(self, worker: int, fragments_sent: u64) -> int {
        if fragments_sent != self.sent@[worker] {
            1
        } else {
            self.health.channels@[worker].consecutive_failures + 1
        }
    }

    /// A loop that has handed out nothing yet. After so many failures in a row a
    /// channel counts as dead.
    pub fn new(manager: QueueManager, channel_failure_threshold: u32) -> (r: Self)
        requires
            manager.wf(),
        ensures
            r.wf(),
            r.manager == manager,
            r.health.channels@ == Seq::new(manager.model().workers.len(), |i: int| health::fresh_channel()),
            r.health.max_consecutive_failures == channel_failure_threshold,
            time::nanos_of(r.health.activity_timeout) == 30_000_000_000,
            r.sent@ == Seq::new(manager.model().workers.len(), |i: int| 0u64),
            r.exit is None,
            !r.paused,
    {
        let count: usize = manager.worker_count();
        let health = ChannelHealth::new(
            count,
            channel_failure_threshold,
            Duration::from_secs(ACTIVITY_TIMEOUT_SECS),
        );
        let mut sent: Vec<u64> = Vec::new();
        let mut i: usize = 0;
        while i < count
            invariant
                i <= count,
                sent@ == Seq::new(i as nat, |j: int| 0u64),
            decreases count - i,
        {
            sent.push(0);
            i = i + 1;
            assert(sent@ =~= Seq::new(i as nat, |j: int| 0u64));
        }
        DispatchLoop { manager, health, sent, exit: None, paused: false }
    }

    /// Takes in the next batch, or the end of the stream.
    pub fn on_batch(&mut self, batch: Option<Vec<Vec<u8>>>, shutting_down: bool, now_ns: u64)
        requires
            old(self).wf(),
            old(self).exit is None,
            batch matches Some(b) ==> wire::total_len(wire::views(b@)) <= usize::MAX,
        ensures
            final(self).wf(),
            final(self).health == old(self).health,
            final(self).sent == old(self).sent,
            final(self).paused == old(self).paused,
            match batch {
                Some(b) if !shutting_down => {
                    let (after, worker) = old(self).manager.model().dispatch_batch(
                        wire::views(b@),
                        now_ns,
                    );
                    &&& final(self).manager.model() == after
                    &&& final(self).exit == exit_after(after, worker is Some)
                    &&& final(self).exit == (if worker is Some {
                        None
                    } else if all_down(after) {
                        Some(QmExitReason::AllWorkersDown { last_chunk_id: after.last_chunk_id })
                    } else {
                        Some(QmExitReason::Normal)
                    })
                },
                _ => {
                    &&& final(self).manager == old(self).manager
                    &&& final(self).exit == Some(QmExitReason::Normal)
                },
            },
    {
        match batch {
            Some(b) => {
                if shutting_down {
                    self.exit = Some(QmExitReason::Normal);
                    return;
                }
                match self.manager.dispatch_batch(b, now_ns) {
                    Ok(_) => {},
                    Err(_) => {
                        self.exit = if self.manager.all_workers_down() {
                            Some(
                                QmExitReason::AllWorkersDown {
                                    last_chunk_id: self.manager.last_chunk_id(),
                                },
                            )
                        } else {
                            Some(QmExitReason::Normal)
                        };
                    },
                }
            },
            None => {
                self.exit = Some(QmExitReason::Normal);
            },
        }
    }

    /// Takes in what a worker reports of itself, with the number of fragments
    /// that it has sent so far. A worker with too many failures in a row is taken
    /// out of service.
    pub fn on_health(
        &mut self,
        worker: usize,
        report: WorkerResult,
        fragments_sent: u64,
        now_ns: u64,
    )
        requires
            old(self).wf(),
            worker < old(self).health.channels@.len() ==> old(
                self,
            ).health.channels@[worker as int].total_failures < u64::MAX,
        ensures
            final(self).wf(),
            final(self).exit == old(self).exit,
            final(self).paused == old(self).paused,
            final(self).health.same_but(old(self).health, worker as int),
            ({
                let m = old(self).manager.model();
                if report is Done || worker >= old(self).sent@.len() || !old(
                    self,
                ).health.channels@[worker as int].alive {
                    &&& final(self).manager.model() == m
                    &&& final(self).health == old(self).health
                    &&& final(self).sent == old(self).sent
                } else {
                    let row = old(self).failures_in_a_row(worker as int, fragments_sent);
                    let dead = row >= old(self).health.max_consecutive_failures;
                    let after = final(self).health.channels@[worker as int];
                    &&& after.consecutive_failures == row
                    &&& after.total_failures == old(
                        self,
                    ).health.channels@[worker as int].total_failures + 1
                    &&& after.last_failure is Some
                    &&& if fragments_sent != old(self).sent@[worker as int] {
                        after.last_success is Some
                    } else {
                        after.last_success == old(
                            self,
                        ).health.channels@[worker as int].last_success
                    }
                    &&& after.alive == !dead
                    &&& final(self).sent@ == old(self).sent@.update(worker as int, fragments_sent)
                    &&& final(self).manager.model() == (if dead && worker < m.workers.len()
                        && m.workers[worker as int].active {
                        m.failed(worker as int, now_ns).0
                    } else {
                        m
                    })
                }
            }),
    {
        match report {
            WorkerResult::Failed => {
                if self.health.is_alive(worker) {
                    if fragments_sent != self.sent[worker] {
                        self.health.record_success(worker);
                        self.sent[worker] = fragments_sent;
                    }
                    assert(self.sent@ =~= old(self).sent@.update(worker as int, fragments_sent));
                    if self.health.record_failure(worker) {
                        let _ = self.manager.mark_worker_failed(worker, now_ns);
                    }
                }
            },
            WorkerResult::Done => {},
        }
    }

    /// Whether fragments wait for a worker that is in service.
    fn has_waiting(&self) -> (r: bool)
        ensures
            r == anything_waits(self.manager.model()),
    {
        let mut i: usize = 0;
        while i < self.manager.workers.len()
            invariant
                i <= self.manager.workers@.len(),
                forall|j: int|
                    0 <= j < i ==> !(#[trigger] self.manager.model().workers[j]).active
                        || self.manager.model().workers[j].queue.len() == 0,
            decreases self.manager.workers@.len() - i,
        {
            let worker = &self.manager.workers[i];
            assert(worker.model() == self.manager.model().workers[i as int]);
            if worker.active && worker.queue.len() > 0 {
                return true;
            }
            i = i + 1;
        }
        false
    }

    /// Whether to drain soon: fragments wait for a worker, or the splitter waits for
    /// a sign to go on.
    pub fn should_drain(&self) -> (r: bool)
        ensures
            r == (self.paused || anything_waits(self.manager.model())),
    {
        self.paused || self.has_waiting()
    }

    /// Whether fragments still wait for a worker after the end of the stream.
    pub fn must_drain(&self, shutting_down: bool) -> (r: bool)
        ensures
            r == (self.exit == Some(QmExitReason::Normal) && !shutting_down && anything_waits(
                self.manager.model(),
            )),
    {
        match self.exit {
            Some(QmExitReason::Normal) => !shutting_down && self.has_waiting(),
            _ => false,
        }
    }

    /// Moves as much as possible from all queues to the workers, and tells the
    /// splitter whether to pause.
    pub fn drain(&mut self)
        requires
            old(self).wf(),
        ensures
            final(self).wf(),
            final(self).manager.model() == all_flushed(old(self).manager.model()).backpressured(),
            final(self).health == old(self).health,
            final(self).sent == old(self).sent,
            final(self).exit == old(self).exit,
            final(self).paused == old(self).paused,
    {
        let ghost m = self.manager.model();
        let mut i: usize = 0;
        while i < self.manager.workers.len()
            invariant
                i <= self.manager.workers@.len(),
                self.wf(),
                self.manager.workers@.len() == m.workers.len(),
                self.manager.model() == (ManagerModel {
                    workers: Seq::new(
                        m.workers.len(),
                        |j: int|
                            if j < i {
                                m.workers[j].flushed()
                            } else {
                                m.workers[j]
                            },
                    ),
                    ..m
                }),
                self.health == old(self).health,
                self.sent == old(self).sent,
                self.exit == old(self).exit,
                self.paused == old(self).paused,
            decreases m.workers.len() - i,
        {
            self.manager.flush_worker(i);
            i = i + 1;
            assert(self.manager.model().workers =~= Seq::new(
                m.workers.len(),
                |j: int|
                    if j < i {
                        m.workers[j].flushed()
                    } else {
                        m.workers[j]
                    },
            ));
        }
        assert(self.manager.model().workers =~= all_flushed(m).workers);
        self.manager.check_backpressure();
    }

    /// What the splitter is to be told, after the signals that came up: to go on
    /// where no worker is in service, as nothing will relieve them; else the last
    /// signal. The signals are used up.
    pub fn signal_to_pass_on(&mut self) -> (r: Option<bool>)
        requires
            old(self).wf(),
        ensures
            final(self).wf(),
            r == signal_due(old(self).manager.model()),
            final(self).manager.model() == without_signals(old(self).manager.model()),
            final(self).health == old(self).health,
            final(self).sent == old(self).sent,
            final(self).exit == old(self).exit,
            final(self).paused == (match r {
                Some(signal) => signal,
                None => old(self).paused,
            }),
    {
        let ghost m = self.manager.model();
        let mut latest: Option<bool> = None;
        match self.manager.backpressure_tx.take() {
            Some(mut signals) => {
                let ghost sent = signals.queue@;
                let ghost mut taken: int = 0;
                while signals.queue.len() > 0
                    invariant
                        0 <= taken <= sent.len(),
                        signals.queue@ == sent.skip(taken),
                        Some(signals.capacity as nat) == (match m.signals {
                            Some(s) => Some(s.capacity),
                            None => None,
                        }),
                        Some(signals.closed) == (match m.signals {
                            Some(s) => Some(s.closed),
                            None => None,
                        }),
                        latest == (if taken > 0 {
                            Some(sent[taken - 1])
                        } else {
                            None
                        }),
                    decreases signals.queue@.len(),
                {
                    latest = signals.try_recv();
                    proof {
                        assert(sent.skip(taken).drop_first() =~= sent.skip(taken + 1));
                        taken = taken + 1;
                    }
                }
                self.manager.backpressure_tx = Some(signals);
                assert(signals.queue@ =~= Seq::empty());
            },
            None => {},
        }
        assert(self.manager.model() =~= without_signals(m));
        if self.manager.all_workers_down() {
            latest = Some(false);
        }
        match latest {
            Some(signal) => {
                self.paused = signal;
            },
            None => {},
        }
        latest
    }
}

/// What the splitter is to be told: to go on where no worker is in service, else
/// the last signal, if there is one.
pub open spec fn signal_due(m: ManagerModel) -> Option<bool> {
    if all_down(m) {
        Some(false)
    } else {
        match m.signals {
            Some(s) if s.sent.len() > 0 => Some(s.sent.last()),
            _ => None,
        }
    }
}

/// With the signals used up.
pub open spec fn without_signals(m: ManagerModel) -> ManagerModel {
    ManagerModel {
        signals: match m.signals {
            Some(s) => Some(SignalModel { sent: Seq::empty(), ..s }),
            None => None,
        },
        ..m
    }
}

/// Whether a worker that is in service has fragments waiting.
pub open spec fn anything_waits(m: ManagerModel) -> bool {
    exists|i: int|
        0 <= i < m.workers.len() && (#[trigger] m.workers[i]).active && m.workers[i].queue.len() > 0
}

/// After as much as possible went from the queues to the workers.
pub open spec fn all_flushed(m: ManagerModel) -> ManagerModel {
    ManagerModel { workers: Seq::new(m.workers.len(), |i: int| m.workers[i].flushed()), ..m }
}

/// Why the loop ends after a batch: not at all where a worker took it, else because no
/// worker is left.
pub open spec fn exit_after(m: ManagerModel, taken: bool) -> Option<QmExitReason> {
    if taken {
        None
    } else if all_down(m) {
        Some(QmExitReason::AllWorkersDown { last_chunk_id: m.last_chunk_id })
    } else {
        Some(QmExitReason::Normal)
    }
}

/// What the receiver is told when the loop has ended: after the end of the
/// stream, that there is no more, with the last chunk; else nothing, as another
/// loop follows.
pub fn end_message(exit: QmExitReason, last_chunk_id: u32) -> (r: Option<ControlMessage>)
    ensures
        match exit {
            QmExitReason::Normal => r is Some && r->Some_0@ == (MessageModel::Eos {
                sequence_number: last_chunk_id as u64,
            }),
            QmExitReason::AllWorkersDown { .. } => r is None,
        },
{
    match exit {
        QmExitReason::Normal => Some(ControlMessage::Eos { sequence_number: last_chunk_id as u64 }),
        QmExitReason::AllWorkersDown { .. } => None,
    }
}

/// Whether no worker is in service.
pub open spec fn all_down(m: ManagerModel) -> bool {
    forall|i: int| 0 <= i < m.workers.len() ==> !(#[trigger] m.workers[i]).active
}

/// Where a control message goes, or what follows from there being none.
#[derive(Debug)]
pub enum ControlRoute {
    /// To flow control.
    ToFlow(ControlMessage),
    /// To whoever waits for the verdict on a file; control ends here.
    ToFileResult(ControlMessage),
    /// To whoever reconnects.
    ToReconnect(ControlMessage),
    /// On to the receiver.
    Transmit(ControlMessage),
    /// Nowhere.
    Ignore,
    /// Control ends here.
    Stop,
}

/// Where a message from the receiver goes.
pub open spec fn is_route_of(r: ControlRoute, msg: ControlMessage) -> bool {
    match msg@ {
        MessageModel::QueueStatus { .. } => r is ToFlow && r->ToFlow_0@ == msg@,
        MessageModel::FileComplete { .. } => r is ToFileResult && r->ToFileResult_0@ == msg@,
        MessageModel::Ack { .. } | MessageModel::ChannelOpened { .. } => r is ToReconnect
            && r->ToReconnect_0@ == msg@,
        _ => r is Ignore,
    }
}

/// Passes control messages on while data flows.
#[derive(Debug, Clone, Copy, PartialEq, Eq, Structural)]
pub struct ControlRouter {
    pub mode: Mode,
    /// Whether nothing more will be sent to the receiver.
    pub send_closed: bool,
}

impl ControlRouter {
    /// Whether control goes on after the error: while only the verdict on a file is
    /// waited for, nothing in time is no reason to stop.
    pub open spec fn tolerates(self, e: ControlError) -> bool {
        e is Timeout && self.send_closed
    }

    /// After the last message for the receiver.
    pub open spec fn ended(self) -> ControlRouter {
        ControlRouter { send_closed: self.send_closed || self.mode == Mode::File, ..self }
    }

    /// A router at the start of the transfer.
    pub fn new(mode: Mode) -> (r: Self)
        ensures
            r == (ControlRouter { mode, send_closed: false }),
    {
        ControlRouter { mode, send_closed: false }
    }

    /// A message came from the receiver, or an error. While only the verdict on
    /// a file is waited for, a timeout is no reason to stop.
    pub fn on_received(&self, received: Result<ControlMessage, ControlError>) -> (r: ControlRoute)
        ensures
            match received {
                Ok(msg) => is_route_of(r, msg),
                Err(ControlError::Timeout) => if self.send_closed {
                    r is Ignore
                } else {
                    r is Stop
                },
                Err(_) => r is Stop,
            },
            received matches Err(e) ==> r == (if self.tolerates(e) {
                ControlRoute::Ignore
            } else {
                ControlRoute::Stop
            }),
    {
        match received {
            Ok(msg) => match &msg {
                ControlMessage::QueueStatus { .. } => ControlRoute::ToFlow(msg),
                ControlMessage::FileComplete { .. } => ControlRoute::ToFileResult(msg),
                ControlMessage::Ack { .. } | ControlMessage::ChannelOpened { .. } => {
                    ControlRoute::ToReconnect(msg)
                },
                _ => ControlRoute::Ignore,
            },
            Err(ControlError::Timeout) => {
                if self.send_closed {
                    ControlRoute::Ignore
                } else {
                    ControlRoute::Stop
                }
            },
            Err(_) => ControlRoute::Stop,
        }
    }

    /// There is a message for the receiver, or there will be none any more. Then
    /// a stream has no use for control; of a file the verdict is still to come.
    pub fn on_outgoing(&mut self, outgoing: Option<ControlMessage>) -> (r: ControlRoute)
        ensures
            final(self).mode == old(self).mode,
            match outgoing {
                Some(msg) => r is Transmit && r->Transmit_0 == msg && *final(self) == *old(self),
                None => if old(self).mode == Mode::File {
                    r is Ignore && final(self).send_closed
                } else {
                    r is Stop && *final(self) == *old(self)
                },
            },
            outgoing is None ==> *final(self) == old(self).ended(),
    {
        match outgoing {
            Some(msg) => ControlRoute::Transmit(msg),
            None => match self.mode {
                Mode::File => {
                    self.send_closed = true;
                    ControlRoute::Ignore
                },
                Mode::Pipe => ControlRoute::Stop,
            },
        }
    }
}

/// Why a reconnect failed.
#[derive(Debug)]
pub enum ReconnectError {
    AckTimeout,
    ChannelClosed,
    Rejected { sequence_number: u64, reason: u16 },
    Unexpected(ControlMessage),
    NoChannels,
}

impl ReconnectError {
    /// The message for the error, and what to put behind it.
    pub open spec fn shown(self) -> Seq<char> {
        match self {
            ReconnectError::AckTimeout => "timeout waiting for Ack after Reconnect"@,
            ReconnectError::ChannelClosed =>
                "reconnect_resp channel closed while waiting for Ack"@,
            ReconnectError::Rejected { sequence_number, reason } =>
                "receiver rejected reconnect: Nack(sequence_number="@ + text::decimal(
                sequence_number as nat,
            ) + ", reason="@ + text::decimal(reason as nat) + ")"@,
            ReconnectError::Unexpected(_) => "unexpected control message after Reconnect: "@,
            ReconnectError::NoChannels =>
                "reconnect failed: no new channels received from receiver"@,
        }
    }

    /// The message for the error. A message that was not expected is to be shown
    /// behind it.
    pub fn to_string(&self) -> (r: String)
        ensures
            r@ == self.shown(),
    {
        match self {
            ReconnectError::AckTimeout => "timeout waiting for Ack after Reconnect".to_owned(),
            ReconnectError::ChannelClosed => {
                "reconnect_resp channel closed while waiting for Ack".to_owned()
            },
            ReconnectError::Rejected { sequence_number, reason } => {
                let mut s = "receiver rejected reconnect: Nack(sequence_number=".to_owned();
                push_decimal(&mut s, *sequence_number);
                s.append(", reason=");
                push_decimal(&mut s, *reason as u64);
                s.append(")");
                s
            },
            ReconnectError::Unexpected(_) => {
                "unexpected control message after Reconnect: ".to_owned()
            },
            ReconnectError::NoChannels => {
                "reconnect failed: no new channels received from receiver".to_owned()
            },
        }
    }
}

/// Where a reconnect stands.
#[derive(Debug)]
pub enum ReconnectStep {
    /// Wait for a message.
    Receive,
    /// Go on with these channels.
    Done(Vec<ChannelInfo>),
    /// Report the error.
    Failed(ReconnectError),
}

/// A request for new channels after all workers failed.
pub struct Reconnect {
    pub acknowledged: bool,
    pub channels: Vec<ChannelInfo>,
}

impl Reconnect {
    /// Starts a reconnect from the given chunk on. Returned with it is the
    /// message to send.
    pub fn start(last_chunk_id: u32) -> (r: (Self, ControlMessage))
        ensures
            !r.0.acknowledged,
            r.0.channels@ == Seq::<ChannelInfo>::empty(),
            r.1@ == (MessageModel::Reconnect { last_sequence_number: last_chunk_id as u64 }),
    {
        let msg = ControlMessage::Reconnect { last_sequence_number: last_chunk_id as u64 };
        (Reconnect { acknowledged: false, channels: Vec::new() }, msg)
    }

    /// How long to wait for the next message, in nanoseconds.
    pub fn timeout_ns(&self) -> (r: u64)
        ensures
            r == (if self.acknowledged {
                RECONNECT_CHANNEL_TIMEOUT_NS
            } else {
                RECONNECT_ACK_TIMEOUT_NS
            }),
            self.acknowledged ==> r == 5_000_000_000,
            !self.acknowledged ==> r == 10_000_000_000,
    {
        if self.acknowledged {
            RECONNECT_CHANNEL_TIMEOUT_NS
        } else {
            RECONNECT_ACK_TIMEOUT_NS
        }
    }

    /// Takes in what came: first the answer, then the open channels, until no
    /// more of them come.
    pub fn on_awaited(&mut self, awaited: Awaited) -> (r: ReconnectStep)
        ensures
            if !old(self).acknowledged {
                &&& final(self).channels@ == old(self).channels@
                &&& final(self).acknowledged == (awaited matches Awaited::Message(msg) && msg@
                    is Ack)
                &&& match awaited {
                    Awaited::Message(msg) => match msg@ {
                        MessageModel::Ack { .. } => r is Receive,
                        MessageModel::Nack { sequence_number, reason } => r is Failed
                            && r->Failed_0 == (ReconnectError::Rejected {
                            sequence_number,
                            reason,
                        }),
                        _ => r is Failed && r->Failed_0 == ReconnectError::Unexpected(msg),
                    },
                    Awaited::TimedOut => r is Failed && r->Failed_0 is AckTimeout,
                    Awaited::Closed => r is Failed && r->Failed_0 is ChannelClosed,
                }
            } else {
                &&& final(self).acknowledged
                &&& match awaited {
                    Awaited::Message(msg) => {
                        &&& r is Receive
                        &&& final(self).channels@ == match msg@ {
                            MessageModel::ChannelOpened { channel_id, port } => old(
                                self,
                            ).channels@.push(ChannelInfo { channel_id, port }),
                            _ => old(self).channels@,
                        }
                    },
                    _ => if old(self).channels@.len() == 0 {
                        r is Failed && r->Failed_0 is NoChannels
                    } else {
                        r is Done && r->Done_0@ == old(self).channels@
                    },
                }
            },
            old(self).acknowledged ==> (awaited matches Awaited::Message(msg)
                ==> final(self).channels@ == old(self).channels@ + transfer::collected_channels(
                seq![msg@],
            )),
    {
        proof {
            transfer::lemma_collects_one();
        }
        if !self.acknowledged {
            return match awaited {
                Awaited::Message(msg) => match &msg {
                    ControlMessage::Ack { .. } => {
                        self.acknowledged = true;
                        ReconnectStep::Receive
                    },
                    ControlMessage::Nack { sequence_number, reason } => ReconnectStep::Failed(
                        ReconnectError::Rejected {
                            sequence_number: *sequence_number,
                            reason: *reason,
                        },
                    ),
                    _ => ReconnectStep::Failed(ReconnectError::Unexpected(msg)),
                },
                Awaited::TimedOut => ReconnectStep::Failed(ReconnectError::AckTimeout),
                Awaited::Closed => ReconnectStep::Failed(ReconnectError::ChannelClosed),
            };
        }
        match awaited {
            Awaited::Message(msg) => {
                match &msg {
                    ControlMessage::ChannelOpened { channel_id, port } => {
                        self.channels.push(ChannelInfo { channel_id: *channel_id, port: *port });
                    },
                    _ => {},
                }
                ReconnectStep::Receive
            },
            _ => {
                if self.channels.len() == 0 {
                    ReconnectStep::Failed(ReconnectError::NoChannels)
                } else {
                    let mut channels: Vec<ChannelInfo> = Vec::new();
                    channels.append(&mut self.channels);
                    ReconnectStep::Done(channels)
                }
            },
        }
    }
}

/// Why a file did not arrive, as far as the sender knows.
#[derive(Debug)]
pub enum FileFailure {
    NotAcknowledged,
    ChannelClosed,
    Damaged { expected: u32, computed: u32 },
    Unexpected(ControlMessage),
}

impl FileFailure {
    /// The message for the failure, and what to put behind it.
    pub open spec fn shown(self) -> Seq<char> {
        match self {
            FileFailure::NotAcknowledged => "receiver did not acknowledge file completion"@,
            FileFailure::ChannelClosed => "file complete channel closed unexpectedly"@,
            FileFailure::Damaged { expected, computed } =>
                "receiver reported file integrity failure: expected crc32c="@ + text::hex(
                expected as nat,
                8,
                false,
            ) + ", computed crc32c="@ + text::hex(computed as nat, 8, false),
            FileFailure::Unexpected(_) =>
                "unexpected control message while waiting for FileComplete: "@,
        }
    }

    /// The message for the failure. A message that was not expected is to be
    /// shown behind it.
    pub fn to_string(&self) -> (r: String)
        ensures
            r@ == self.shown(),
    {
        match self {
            FileFailure::NotAcknowledged => {
                "receiver did not acknowledge file completion".to_owned()
            },
            FileFailure::ChannelClosed => "file complete channel closed unexpectedly".to_owned(),
            FileFailure::Damaged { expected, computed } => {
                let mut s =
                    "receiver reported file integrity failure: expected crc32c=".to_owned();
                push_hex(&mut s, *expected, 8, false);
                s.append(", computed crc32c=");
                push_hex(&mut s, *computed, 8, false);
                s
            },
            FileFailure::Unexpected(_) => {
                "unexpected control message while waiting for FileComplete: ".to_owned()
            },
        }
    }
}

/// The checksum with which the receiver accepts the file; none where the message
/// says anything else.
pub open spec fn accepted_hash(msg: MessageModel) -> Option<u32> {
    match msg {
        MessageModel::FileComplete { success: true, computed_hash, .. } => Some(computed_hash),
        _ => None,
    }
}

/// How the transfer of a file ended, given what came of the wait for the receiver:
/// the checksum that both sides agree on, or why there is none.
pub fn file_result(verdict: Awaited) -> (r: Result<u32, FileFailure>)
    ensures
        r is Ok <==> (verdict matches Awaited::Message(msg) && accepted_hash(msg@) is Some),
        verdict matches Awaited::Message(msg) ==> (r matches Ok(hash) ==> accepted_hash(msg@)
            == Some(hash)),
        match verdict {
            Awaited::TimedOut => r is Err && r->Err_0 is NotAcknowledged,
            Awaited::Closed => r is Err && r->Err_0 is ChannelClosed,
            Awaited::Message(msg) => match msg@ {
                MessageModel::FileComplete { success, expected_hash, computed_hash } => if success {
                    r is Ok && r->Ok_0 == computed_hash
                } else {
                    r is Err && r->Err_0 == (FileFailure::Damaged {
                        expected: expected_hash,
                        computed: computed_hash,
                    })
                },
                _ => r is Err && r->Err_0 == FileFailure::Unexpected(msg),
            },
        },
{
    match verdict {
        Awaited::TimedOut => Err(FileFailure::NotAcknowledged),
        Awaited::Closed => Err(FileFailure::ChannelClosed),
        Awaited::Message(msg) => match &msg {
            ControlMessage::FileComplete { success, expected_hash, computed_hash } => {
                if *success {
                    Ok(*computed_hash)
                } else {
                    Err(
                        FileFailure::Damaged {
                            expected: *expected_hash,
                            computed: *computed_hash,
                        },
                    )
                }
            },
            _ => Err(FileFailure::Unexpected(msg)),
        },
    }
}

/// What the user is told of a file that arrived.
pub fn verified_note(hash: u32) -> (r: String)
    ensures
        r@ == "file transfer verified (crc32c="@ + text::hex(hash as nat, 8, false) + ")"@,
{
    let mut s = "file transfer verified (crc32c=".to_owned();
    push_hex(&mut s, hash, 8, false);
    s.append(")");
    s
}

/// How the program ends: a signal outweighs all else.
pub fn outcome(signalled: bool, file: Result<u32, FileFailure>) -> (r: Result<(), Option<
    FileFailure,
>>)
    ensures
        r == (if signalled {
            Err(None)
        } else {
            match file {
                Ok(_) => Ok(()),
                Err(e) => Err(Some(e)),
            }
        }),
{
    if signalled {
        return Err(None);
    }
    match file {
        Ok(_) => Ok(()),
        Err(e) => Err(Some(e)),
    }
}

} // verus!
