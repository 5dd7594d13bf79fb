//! What a batching worker does about each event.

use crate::sender::worker::{
    BatchOutcome, BatchWorkerModel, HealthModel, SendOutcome, UdpSendWorkerStats, WorkerAction,
    WorkerPhase, WorkerResult,
};
use vstd::prelude::*;

verus! {

/// A report joins those that wait, where someone collects them and there is room; else
/// it is lost.
pub proof fn lemma_report_joins(h: HealthModel, report: WorkerResult)
    ensures
        h.0 is None ==> h.with(report) == h,
        h.0 matches Some((reports, capacity, closed)) ==> {
            &&& !closed && reports.len() < capacity ==> h.with(report) == HealthModel(
                Some((reports.push(report), capacity, closed)),
            )
            &&& closed || reports.len() >= capacity ==> h.with(report) == h
        },
{
}

/// A send counts for one fragment and its bytes, an error for an error.
pub proof fn lemma_counters_go_up(s: UdpSendWorkerStats, bytes: usize, count: u64)
    ensures
        s.with_send(bytes).fragments_sent == s.fragments_sent.wrapping_add(1),
        s.with_send(bytes).bytes_sent == s.bytes_sent.wrapping_add(bytes as u64),
        s.with_send(bytes).errors == s.errors,
        s.with_errors(count).errors == s.errors.wrapping_add(count),
        s.with_errors(count).fragments_sent == s.fragments_sent,
        s.with_errors(count).bytes_sent == s.bytes_sent,
{
}

/// What stays as it is in every step: the settings, how large a batch may be and how
/// long it may be gathered.
pub open spec fn same_setup(a: BatchWorkerModel, b: BatchWorkerModel) -> bool {
    &&& a.settings == b.settings
    &&& a.batch_size == b.batch_size
    &&& a.batch_usec == b.batch_usec
}

/// A fragment that comes joins those that wait to be sent, behind them. The first one
/// starts the time of gathering.
pub proof fn lemma_fragment_joins(m: BatchWorkerModel, fragment: Seq<u8>, now_ns: u64)
    ensures
        ({
            let after = m.received(fragment, now_ns);
            &&& same_setup(m, after)
            &&& after.batch == m.batch.push(fragment)
            &&& after.stats == m.stats && after.health == m.health
            &&& after.support_batch == m.support_batch && after.input_closed == m.input_closed
            &&& m.phase is Waiting ==> after.phase == WorkerPhase::Gathering(now_ns)
            &&& !(m.phase is Waiting) ==> after.phase == m.phase
        }),
{
}

/// Sending starts once a full batch was gathered, or for as many microseconds as may be
/// since its first fragment came, and not before: with batches where the system knows
/// them and they may have more than one fragment, else one by one.
pub proof fn lemma_gathering_ends(m: BatchWorkerModel, now_ns: u64)
    requires
        m.wf(),
    ensures
        ({
            let after = m.polled(now_ns);
            let due = m.phase matches WorkerPhase::Gathering(since_ns) && (m.batch.len()
                >= m.batch_size || now_ns >= since_ns + m.batch_usec * 1000);
            &&& m.has_gathered(now_ns) == due
            &&& !due ==> after == m
            &&& due ==> {
                &&& same_setup(m, after)
                &&& after.batch == m.batch && after.stats == m.stats && after.health == m.health
                &&& after.support_batch == m.support_batch && after.input_closed == m.input_closed
                &&& after.phase == (if m.support_batch && m.batch_size > 1 {
                    WorkerPhase::Batching(0)
                } else {
                    WorkerPhase::AwaitingWritable
                })
            }
        }),
{
}

/// At the end of the input, what was gathered is still sent; where nothing was, the
/// worker reports that it is done, and is.
pub proof fn lemma_end_is_reported(m: BatchWorkerModel)
    ensures
        ({
            let after = m.closed();
            &&& same_setup(m, after)
            &&& after.input_closed
            &&& after.batch == m.batch && after.stats == m.stats
            &&& after.support_batch == m.support_batch
            &&& m.batch.len() == 0 ==> after.phase is Finished && after.health == m.health.with(
                WorkerResult::Done,
            )
            &&& m.batch.len() > 0 ==> after.health == m.health && after.phase == (
            if m.support_batch && m.batch_size > 1 {
                WorkerPhase::Batching(0)
            } else {
                WorkerPhase::AwaitingWritable
            })
        }),
{
}

/// Whether `after` is done with sending for now: it waits for more, or, after the end
/// of the input, has reported that it is done, and is.
pub open spec fn rests(before: HealthModel, after: BatchWorkerModel) -> bool {
    if after.input_closed {
        after.phase is Finished && after.health == before.with(WorkerResult::Done)
    } else {
        after.phase is Waiting && after.health == before
    }
}

/// What a batch send does. What was sent leaves and is counted. If all that was asked
/// for was sent, the next batch follows while there is one. If not, or if the socket
/// takes nothing, the rest is left for later. A failure costs the first fragment, and
/// after 1024 of them in a row all. Where batches are not known, the worker goes on one
/// by one, and keeps to that.
pub proof fn lemma_batch_send_is_acted_on(m: BatchWorkerModel, outcome: BatchOutcome, retries: usize)
    requires
        m.wf(),
        m.phase == WorkerPhase::Batching(retries),
        outcome matches BatchOutcome::Sent(count) ==> count <= m.batch.len() && count
            <= m.batch_size,
    ensures
        ({
            let after = m.batch_sent(outcome);
            let asked = if m.batch.len() <= m.batch_size {
                m.batch.len() as int
            } else {
                m.batch_size as int
            };
            &&& same_setup(m, after)
            &&& after.input_closed == m.input_closed
            &&& after.support_batch == (m.support_batch && !(outcome is Unsupported))
            &&& match outcome {
                BatchOutcome::Sent(count) => {
                    &&& after.batch == m.batch.skip(count as int)
                    &&& after.stats == m.stats.with_sends(m.batch.take(count as int))
                    &&& count == asked && m.batch.len() > count ==> after.phase
                        == WorkerPhase::Batching(0) && after.health == m.health
                    &&& count < asked || m.batch.len() == count ==> rests(m.health, after)
                },
                BatchOutcome::Unsupported => {
                    &&& after.batch == m.batch
                    &&& after.stats == m.stats.with_errors(1)
                    &&& after.health == m.health.with(WorkerResult::Failed)
                    &&& after.phase is AwaitingWritable
                },
                BatchOutcome::WouldBlock => {
                    &&& after.batch == m.batch
                    &&& after.stats == m.stats.with_errors(1)
                    &&& rests(m.health, after)
                },
                BatchOutcome::Failed => {
                    if m.batch.len() == 1 {
                        &&& after.batch.len() == 0
                        &&& after.stats == m.stats
                        &&& rests(m.health, after)
                    } else if retries < 1023 {
                        &&& after.batch == m.batch.skip(1)
                        &&& after.stats == m.stats
                        &&& after.health == m.health
                        &&& after.phase == WorkerPhase::Batching((retries + 1) as usize)
                    } else {
                        &&& after.batch.len() == 0
                        &&& after.stats == m.stats.with_errors((m.batch.len() - 1) as u64)
                        &&& rests(m.health.with(WorkerResult::Failed), after)
                    }
                },
            }
        }),
{
}

/// What happens one by one: the socket is waited for, then the first fragment is sent.
/// If the wait fails, that fragment is given up and an error counted; if the send
/// fails, that is reported as well. If the socket takes nothing after all, it is waited
/// for again. Then the next one follows, while there is one.
pub proof fn lemma_single_send_is_acted_on(m: BatchWorkerModel, ready: bool, outcome: SendOutcome)
    requires
        m.batch.len() > 0,
    ensures
        ({
            let after = m.writable(ready);
            &&& same_setup(m, after)
            &&& after.support_batch == m.support_batch && after.input_closed == m.input_closed
            &&& ready ==> after.phase is SendingOne && after.batch == m.batch && after.stats
                == m.stats && after.health == m.health
            &&& !ready ==> {
                &&& after.batch == m.batch.skip(1)
                &&& after.stats == m.stats.with_errors(1)
                &&& m.batch.len() > 1 ==> after.phase is AwaitingWritable && after.health
                    == m.health
                &&& m.batch.len() == 1 ==> rests(m.health, after)
            }
        }),
        ({
            let after = m.one_sent(outcome);
            &&& same_setup(m, after)
            &&& after.support_batch == m.support_batch && after.input_closed == m.input_closed
            &&& match outcome {
                SendOutcome::Sent(bytes) => {
                    &&& after.batch == m.batch.skip(1)
                    &&& after.stats == m.stats.with_send(bytes)
                    &&& m.batch.len() > 1 ==> after.phase is AwaitingWritable && after.health
                        == m.health
                    &&& m.batch.len() == 1 ==> rests(m.health, after)
                },
                SendOutcome::WouldBlock => {
                    &&& after.batch == m.batch && after.stats == m.stats
                    &&& after.phase is AwaitingWritable && after.health == m.health
                },
                SendOutcome::Failed => {
                    &&& after.batch == m.batch.skip(1)
                    &&& after.stats == m.stats.with_errors(1)
                    &&& m.batch.len() > 1 ==> after.phase is AwaitingWritable && after.health
                        == m.health.with(WorkerResult::Failed)
                    &&& m.batch.len() == 1 ==> rests(m.health.with(WorkerResult::Failed), after)
                },
            }
        }),
{
}

/// What the worker asks for: in a batch, all that waits up to the size of a batch.
pub proof fn lemma_action_fits_the_phase(m: BatchWorkerModel)
    ensures
        m.phase is Waiting <==> m.action() is Receive,
        m.phase is Gathering <==> m.action() is TryReceive,
        m.phase is AwaitingWritable <==> m.action() is AwaitWritable,
        m.phase is SendingOne <==> m.action() is TrySend,
        m.phase is Finished <==> m.action() is Finish,
        m.phase is Batching ==> m.action() == WorkerAction::SendBatch(
            if m.batch.len() <= m.batch_size {
                m.batch.len() as usize
            } else {
                m.batch_size
            },
        ),
{
}

/// However a batch is cut up, the counters come to the same.
pub proof fn lemma_sends_add_up(s: UdpSendWorkerStats, datagrams: Seq<Seq<u8>>, one: Seq<u8>)
    requires
        one.len() <= usize::MAX,
    ensures
        s.with_sends(Seq::empty()) == s,
        s.with_sends(datagrams.push(one)).fragments_sent
            == s.with_sends(datagrams).fragments_sent.wrapping_add(1),
        s.with_sends(datagrams.push(one)).bytes_sent == s.with_sends(
            datagrams,
        ).bytes_sent.wrapping_add(one.len() as u64),
        s.with_sends(datagrams.push(one)).errors == s.with_sends(datagrams).errors,
{
    assert(datagrams.push(one).drop_last() =~= datagrams);
}

} // verus!
