//! What the two programs do about what they measure and hear.

use crate::control::negotiation;
use crate::control::client::ControlError;
use crate::flow;
use crate::flow::{FlowController, FullnessLevel};
use crate::protocol::control::{ControlMessage, MessageModel};
use crate::protocol::crc;
use crate::sender::queue::ManagerModel;
use crate::session::receive;
use crate::session::receive::{Datagram, FileStartError, ReceiveRoute, ReceiveWorker, WaitStep};
use crate::session::send;
use crate::session::send::{
    BraidSend, ControlRoute, ControlRouter, DispatchLoop, FileFailure, FlowLink, PauseRequests,
    PauseSource, QmExitReason, ReconnectError, SendPlan,
};
use crate::session::{Awaited, Mode};
use crate::text;
use crate::wire;
use vstd::arithmetic::power2::{lemma2_to64, lemma_pow2_strictly_increases, pow2};
use vstd::prelude::*;

verus! {

/// The exponent asked for is that of the one power of two that is large enough while
/// its half is not.
pub proof fn lemma_exponent_is_the_least(n: nat, k: nat, other: nat)
    ensures
        send::is_ceil_log2(n, k) <==> n <= pow2(k) && (k == 0 || pow2((k - 1) as nat) < n),
        send::is_ceil_log2(n, k) && send::is_ceil_log2(n, other) ==> k == other,
{
    lemma2_to64();
    if n <= pow2(k) && (k == 0 || pow2((k - 1) as nat) < n) {
        assert forall|j: nat| j < k implies #[trigger] pow2(j) < n by {
            if j < k - 1 {
                lemma_pow2_strictly_increases(j, (k - 1) as nat);
            }
        }
    }
    if send::is_ceil_log2(n, k) && send::is_ceil_log2(n, other) {
        if k < other {
            assert(pow2(k) < n);
        }
        if other < k {
            assert(pow2(other) < n);
        }
    }
}

/// How the work is laid out: as many chunkers as asked for, else one for every two
/// processors and at least one. The chunk size is the one asked for, else 65535. Buffers
/// hold the largest chunk and the largest datagram, and there are two of them for each
/// chunker, or four for a single one.
pub proof fn lemma_work_is_laid_out(s: BraidSend, processors: Option<usize>)
    requires
        s.chunker_threads * 2 <= usize::MAX,
    ensures
        ({
            let plan = s.plan_for(processors);
            &&& s.chunker_threads > 0 ==> plan.chunkers == s.chunker_threads
            &&& s.chunker_threads == 0 && processors is None ==> plan.chunkers == 1
            &&& s.chunker_threads == 0 && (processors matches Some(n) && n < 2) ==> plan.chunkers
                == 1
            &&& s.chunker_threads == 0 && (processors matches Some(n) && n >= 2) ==> 2
                * plan.chunkers <= processors->0 <= 2 * plan.chunkers + 1
            &&& s.chunk_size > 0 ==> plan.chunk_size == s.chunk_size
            &&& s.chunk_size == 0 ==> plan.chunk_size == 65535
            &&& plan.max_chunk_size >= plan.chunk_size && plan.max_chunk_size >= 65535
            &&& plan.max_chunk_size == plan.chunk_size || plan.max_chunk_size == 65535
            &&& plan.pool_buffer_size >= plan.max_chunk_size && plan.pool_buffer_size >= s.mtu
            &&& plan.pool_buffer_size == plan.max_chunk_size || plan.pool_buffer_size == s.mtu
            &&& plan.chunkers == 1 ==> plan.pool_buffers == 4
            &&& plan.chunkers > 1 ==> plan.pool_buffers == 2 * plan.chunkers
        }),
{
}

/// The first report of the receiver tells how much it can hold, and starts the link
/// anew. Every other message is acted on by the link as it is.
pub proof fn lemma_first_report_sets_the_capacity(link: FlowLink, msg: MessageModel)
    ensures
        msg is QueueStatus && !link.reported ==> link.acting(msg) == flow::unreported(
            msg->QueueStatus_total_capacity as usize,
            link.reactor.model().signals,
        ),
        !(msg is QueueStatus) || link.reported ==> link.acting(msg) == link.reactor.model(),
{
}

/// Failures count as being in a row while the worker sent nothing in between.
pub proof fn lemma_a_send_ends_the_row(l: DispatchLoop, worker: int, fragments_sent: u64)
    ensures
        fragments_sent == l.sent@[worker] ==> l.failures_in_a_row(worker, fragments_sent)
            == l.health.channels@[worker].consecutive_failures + 1,
        fragments_sent != l.sent@[worker] ==> l.failures_in_a_row(worker, fragments_sent) == 1,
{
}

/// The splitter is told the last signal of the workers. Where no worker is in service
/// it is told to go on, and where there was no signal, nothing.
pub proof fn lemma_last_signal_counts(m: ManagerModel)
    ensures
        ({
            let some_work = exists|i: int|
                0 <= i < m.workers.len() && (#[trigger] m.workers[i]).active;
            let waiting = match m.signals {
                Some(s) => s.sent,
                None => Seq::empty(),
            };
            &&& send::all_down(m) == !some_work
            &&& !some_work ==> send::signal_due(m) == Some(false)
            &&& some_work && waiting.len() == 0 ==> send::signal_due(m) is None
            &&& some_work && waiting.len() > 0 ==> send::signal_due(m) == Some(
                waiting[waiting.len() - 1],
            )
        }),
{
}

/// Signals that were passed on are gone, and nothing else is.
pub proof fn lemma_signals_are_used_up(m: ManagerModel)
    ensures
        ({
            let after = send::without_signals(m);
            &&& after == (ManagerModel { signals: after.signals, ..m })
            &&& m.signals is None <==> after.signals is None
            &&& m.signals matches Some(s) ==> {
                &&& after.signals->0.sent.len() == 0
                &&& after.signals->0.capacity == s.capacity
                &&& after.signals->0.closed == s.closed
            }
        }),
{
}

/// Something waits where a worker in service has a fragment in its queue.
pub proof fn lemma_waiting_fragments(m: ManagerModel)
    ensures
        !send::anything_waits(m) <==> forall|i: int|
            0 <= i < m.workers.len() && (#[trigger] m.workers[i]).active ==> m.workers[i].queue.len()
                == 0,
        send::all_down(m) ==> !send::anything_waits(m),
{
}

/// A drain reaches every worker, and each on its own.
pub proof fn lemma_drain_reaches_every_worker(m: ManagerModel)
    ensures
        send::all_flushed(m).workers.len() == m.workers.len(),
        forall|i: int|
            0 <= i < m.workers.len() ==> (#[trigger] send::all_flushed(m).workers[i])
                == m.workers[i].flushed(),
        send::all_flushed(m) == (ManagerModel { workers: send::all_flushed(m).workers, ..m }),
{
}

/// Messages of the receiver go where they are waited for: reports on its queue to flow
/// control, results of a file to whoever waits for them, confirmations and open channels
/// to whoever reconnects. All others go nowhere.
pub proof fn lemma_messages_find_their_way(r: ControlRoute, msg: ControlMessage)
    requires
        send::is_route_of(r, msg),
    ensures
        msg is QueueStatus <==> r is ToFlow,
        msg is FileComplete <==> r is ToFileResult,
        msg is Ack || msg is ChannelOpened <==> r is ToReconnect,
        !(r is Transmit) && !(r is Stop),
        r matches ControlRoute::ToFlow(m) ==> m@ == msg@,
        r matches ControlRoute::ToFileResult(m) ==> m@ == msg@,
        r matches ControlRoute::ToReconnect(m) ==> m@ == msg@,
{
}

/// A file counts as sent exactly where the receiver reports a success, with the
/// checksum that it computed.
pub proof fn lemma_success_is_accepted(success: bool, expected_hash: u32, computed_hash: u32)
    ensures
        ({
            let msg = MessageModel::FileComplete { success, expected_hash, computed_hash };
            &&& success ==> send::accepted_hash(msg) == Some(computed_hash)
            &&& !success ==> send::accepted_hash(msg) is None
        }),
        forall|msg: MessageModel|
            !(msg is FileComplete) ==> (#[trigger] send::accepted_hash(msg)) is None,
{
}

/// The receiver reports both checksums, and a success exactly where they are equal. A
/// refusal is a failure without checksums.
pub proof fn lemma_result_of_a_file(expected: u32, computed: u32)
    ensures
        receive::file_verdict(expected, computed) == (MessageModel::FileComplete {
            success: expected == computed,
            expected_hash: expected,
            computed_hash: computed,
        }),
        receive::refusal() == (MessageModel::FileComplete {
            success: false,
            expected_hash: 0,
            computed_hash: 0,
        }),
{
}

/// A datagram of 14 bytes or more is a fragment. It is damaged where the checksum of what
/// follows the header is not the one in the header's last four bytes. Else it goes to the
/// reassembler whose number is the remainder of its first four bytes.
pub proof fn lemma_datagrams_by_their_bytes(datagram: Seq<u8>, shards: usize)
    requires
        shards > 0,
    ensures
        ({
            let intact = crc::crc32_of(datagram.skip(14)) == wire::un32(datagram, 10);
            let r = receive::verdict_on(datagram, shards);
            &&& datagram.len() < 14 <==> r is TooShort
            &&& r is Damaged <==> datagram.len() >= 14 && !intact
            &&& r is Routed <==> datagram.len() >= 14 && intact
            &&& r matches Datagram::Routed(shard) ==> {
                &&& shard < shards
                &&& shard == wire::un32(datagram, 0) as int % shards as int
            }
        }),
{
    if datagram.len() >= 14 {
        assert(datagram.skip(14) =~= datagram.subrange(14, datagram.len() as int));
    }
}

/// The wait goes on until all is done or a shutdown is asked for. A request to reconnect
/// comes before both, and being done comes before a shutdown.
pub proof fn lemma_wait_by_cases(awaited: Awaited, all_done: bool, shutting_down: bool)
    ensures
        ({
            let step = receive::wait_step(awaited, all_done, shutting_down);
            let asked = awaited matches Awaited::Message(m) && m is Reconnect;
            &&& step is Reconnect <==> asked
            &&& step matches WaitStep::Reconnect(number)
                ==> awaited->Message_0->Reconnect_last_sequence_number == number
            &&& step is Done <==> !asked && all_done
            &&& step is Interrupted <==> !asked && !all_done && shutting_down
            &&& step is GoOn <==> !asked && !all_done && !shutting_down
        }),
{
}

/// The answer to a request to reconnect: a confirmation with the first open port, or
/// with 0 where there is none, then each open channel in turn.
pub proof fn lemma_reconnect_answers(ports: Seq<Option<u16>>)
    ensures
        ({
            let channels = negotiation::opened_channels(ports);
            let msgs = receive::reconnect_replies(ports);
            &&& msgs.len() == channels.len() + 1
            &&& msgs[0] is Ack
            &&& channels.len() == 0 ==> msgs[0]->Ack_sequence_number == 0
            &&& channels.len() > 0 ==> msgs[0]->Ack_sequence_number == channels[0].port
            &&& forall|k: int|
                0 <= k < channels.len() ==> (#[trigger] msgs[k + 1]
                    == MessageModel::ChannelOpened {
                    channel_id: channels[k].channel_id,
                    port: channels[k].port,
                })
        }),
{
}

/// What the user is told where a reconnect or a file failed.
pub proof fn lemma_failures_are_named(r: ReconnectError, f: FileFailure, s: FileStartError)
    ensures
        match r {
            ReconnectError::AckTimeout => r.shown() == "timeout waiting for Ack after Reconnect"@,
            ReconnectError::ChannelClosed => r.shown()
                == "reconnect_resp channel closed while waiting for Ack"@,
            ReconnectError::Rejected { sequence_number, reason } => r.shown()
                == "receiver rejected reconnect: Nack(sequence_number="@ + text::decimal(
                sequence_number as nat,
            ) + ", reason="@ + text::decimal(reason as nat) + ")"@,
            ReconnectError::Unexpected(_) => r.shown()
                == "unexpected control message after Reconnect: "@,
            ReconnectError::NoChannels => r.shown()
                == "reconnect failed: no new channels received from receiver"@,
        },
        match f {
            FileFailure::NotAcknowledged => f.shown()
                == "receiver did not acknowledge file completion"@,
            FileFailure::ChannelClosed => f.shown() == "file complete channel closed unexpectedly"@,
            FileFailure::Damaged { expected, computed } => f.shown()
                == "receiver reported file integrity failure: expected crc32c="@ + text::hex(
                expected as nat,
                8,
                false,
            ) + ", computed crc32c="@ + text::hex(computed as nat, 8, false),
            FileFailure::Unexpected(_) => f.shown()
                == "unexpected control message while waiting for FileComplete: "@,
        },
        match s {
            FileStartError::InvalidName(why) => s.shown() == "invalid filename from sender: "@
                + why@,
            FileStartError::Unexpected(_) => s.shown() == "expected FileStart in file mode, got "@,
        },
{
}

/// After the signals, one after the other.
pub open spec fn after_signals(
    requests: PauseRequests,
    signals: Seq<(PauseSource, bool)>,
) -> PauseRequests
    decreases signals.len(),
{
    if signals.len() == 0 {
        requests
    } else {
        after_signals(requests, signals.drop_last()).after(signals.last().0, signals.last().1)
    }
}

/// Splitting is paused while either side wants it to be: the last word of a side holds,
/// whatever the other side says. `w` and `v` are where the workers and the receiver
/// had their last word.
pub proof fn lemma_pause_lasts_until_lifted(
    requests: PauseRequests,
    signals: Seq<(PauseSource, bool)>,
    w: int,
    v: int,
)
    requires
        0 <= w < signals.len(),
        0 <= v < signals.len(),
        signals[w].0 is Workers,
        signals[v].0 is Receiver,
        forall|k: int| w < k < signals.len() ==> (#[trigger] signals[k]).0 is Receiver,
        forall|k: int| v < k < signals.len() ==> (#[trigger] signals[k]).0 is Workers,
    ensures
        after_signals(requests, signals).is_paused() == (signals[w].1 || signals[v].1),
{
    lemma_last_word(requests, signals, w);
    lemma_last_word(requests, signals, v);
}

proof fn lemma_last_word(requests: PauseRequests, signals: Seq<(PauseSource, bool)>, w: int)
    requires
        0 <= w < signals.len(),
        forall|k: int| w < k < signals.len() ==> (#[trigger] signals[k]).0 != signals[w].0,
    ensures
        signals[w].0 is Workers ==> after_signals(requests, signals).workers == signals[w].1,
        signals[w].0 is Receiver ==> after_signals(requests, signals).receiver == signals[w].1,
    decreases signals.len(),
{
    let fewer = signals.drop_last();
    if w < fewer.len() {
        assert(fewer[w] == signals[w]);
        assert forall|k: int| w < k < fewer.len() implies (#[trigger] fewer[k]).0 != fewer[w].0 by {
            assert(fewer[k] == signals[k]);
        }
        lemma_last_word(requests, fewer, w);
        assert(signals[signals.len() - 1].0 != signals[w].0);
    }
}

/// Reads are as large as a chunk, three quarters of it while the receiver is half full,
/// and a single byte while it is nearly full. They are never larger than a chunk may be.
pub proof fn lemma_reads_follow_the_receiver(plan: SendPlan, level: FullnessLevel, full: usize)
    requires
        0 < full <= plan.max_chunk_size,
    ensures
        level is Green ==> plan.reads(level, full) == full,
        level is Yellow && full > 1 ==> 4 * plan.reads(level, full) <= 3 * full < 4 * plan.reads(
            level,
            full,
        ) + 4,
        level is Orange || level is Red ==> plan.reads(level, full) == 1,
        1 <= plan.reads(level, full) <= full,
{
}

/// Whatever is wanted, a read asks for a byte at least, and for no more than a chunk may
/// have.
pub proof fn lemma_reads_are_bounded(plan: SendPlan, level: FullnessLevel, full: usize)
    requires
        plan.max_chunk_size >= 1,
    ensures
        1 <= plan.reads(level, full) <= plan.max_chunk_size,
        level is Green && full >= plan.max_chunk_size ==> plan.reads(level, full)
            == plan.max_chunk_size,
{
}

/// A stream has no use for control after the last message to the receiver, so every
/// error ends it. Of a file the result is still to come: until then nothing in time is no
/// error, but all else is.
pub proof fn lemma_only_a_file_waits(mode: Mode, e: ControlError)
    ensures
        ({
            let start = ControlRouter { mode, send_closed: false };
            &&& !start.tolerates(e)
            &&& start.ended().mode == mode
            &&& start.ended().tolerates(e) <==> mode == Mode::File && e is Timeout
            &&& start.ended().ended() == start.ended()
        }),
{
}

/// The loop goes on while batches are taken. It ends for want of workers exactly where
/// none is in service, with the last chunk that was given out.
pub proof fn lemma_loop_ends_without_workers(m: ManagerModel, taken: bool)
    ensures
        ({
            let exit = send::exit_after(m, taken);
            let none_left = forall|i: int|
                0 <= i < m.workers.len() ==> !(#[trigger] m.workers[i]).active;
            &&& exit is None <==> taken
            &&& !taken && none_left ==> exit == Some(
                QmExitReason::AllWorkersDown { last_chunk_id: m.last_chunk_id },
            )
            &&& !taken && !none_left ==> exit == Some(QmExitReason::Normal)
        }),
{
}

/// While a stream is received, the start of a file ends the program, a request to
/// reconnect and the end of the stream are heard with their numbers, and all else is
/// ignored.
pub proof fn lemma_stream_hears_three_messages(msg: ControlMessage)
    ensures
        ({
            let r = receive::route_of(msg@);
            &&& r is Abort <==> msg is FileStart
            &&& r is Reconnect <==> msg is Reconnect
            &&& r is EndOfStream <==> msg is Eos
            &&& !(r is Stop)
            &&& msg matches ControlMessage::Reconnect { last_sequence_number } ==> r
                == ReceiveRoute::Reconnect(last_sequence_number)
            &&& msg matches ControlMessage::Eos { sequence_number } ==> r
                == ReceiveRoute::EndOfStream(sequence_number)
        }),
{
}

/// After `count` timeouts, one after the other.
pub open spec fn after_timeouts(worker: ReceiveWorker, count: nat) -> ReceiveWorker
    decreases count,
{
    if count == 0 {
        worker
    } else {
        after_timeouts(worker, (count - 1) as nat).timed_out()
    }
}

/// A worker goes on through nine timeouts in a row, and stops with the tenth.
pub proof fn lemma_ten_timeouts_end_a_worker(shards: usize, count: nat)
    ensures
        after_timeouts(ReceiveWorker { shards, timeouts: 0 }, count).goes_on() <==> count < 10,
        after_timeouts(ReceiveWorker { shards, timeouts: 0 }, count).timeouts == (if count < 10 {
            count
        } else {
            10
        }),
    decreases count,
{
    if count > 0 {
        lemma_ten_timeouts_end_a_worker(shards, (count - 1) as nat);
    }
}

/// Both sides see the same level: what the sender makes of a report is what the receiver
/// made of its own occupancy, at the first report and at every later one.
pub proof fn lemma_both_sides_see_the_same_level(
    link: FlowLink,
    monitor: FlowController,
    occupancy: usize,
    queued_bytes: u32,
)
    requires
        occupancy <= u32::MAX,
        monitor.capacity <= u32::MAX,
        link.reported ==> link.reactor.model().controller.capacity == monitor.capacity,
    ensures
        ({
            let msg = flow::status_report(occupancy, queued_bytes, monitor.capacity);
            let after = link.acting(msg).on_message(msg).controller;
            &&& after.current_level == monitor.updated(occupancy).current_level
            &&& after.capacity == monitor.capacity
            &&& after.current_occupancy == occupancy
        }),
{
}

} // verus!
