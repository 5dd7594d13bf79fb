//! What dispatching does with each fragment, and what it counts.

use crate::sender::fairness;
use crate::sender::queue;
use crate::sender::queue::{ManagerModel, QueueManagerStats, QueueWorkerStats, WorkerModel};
use crate::wire;
use vstd::multiset::Multiset;
use vstd::prelude::*;

verus! {

/// A batch at the end of a queue stands there as a whole and in order.
proof fn lemma_with_batch(w: WorkerModel, batch: Seq<Seq<u8>>)
    ensures
        w.with_batch(batch).queue == w.queue + batch,
        w.with_batch(batch).sent == w.sent,
        w.with_batch(batch).active == w.active,
        w.with_batch(batch).capacity == w.capacity,
        w.with_batch(batch).closed == w.closed,
        w.with_batch(batch).stats.errors == w.stats.errors,
    decreases batch.len(),
{
    if batch.len() > 0 {
        lemma_with_batch(w, batch.drop_last());
        assert(w.with_batch(batch).queue =~= w.queue + batch);
    } else {
        assert(w.queue + batch =~= w.queue);
    }
}

/// Flushing changes nothing about the channel but what was handed to it. A worker
/// goes down exactly where something waits and its channel is closed. What waits
/// stays as it is only where the channel is full or closed.
pub proof fn lemma_flush_leaves_the_rest(w: WorkerModel)
    ensures
        w.flushed().capacity == w.capacity,
        w.flushed().closed == w.closed,
        w.flushed().stats.errors == w.stats.errors,
        w.flushed().active == (w.active && !(w.closed && w.queue.len() > 0)),
        w.closed ==> w.flushed().queue == w.queue && w.flushed().sent == w.sent,
        !w.closed && w.flushed().queue.len() > 0 ==> w.flushed().sent.len() >= w.capacity,
        w.sent.len() <= w.capacity ==> w.flushed().sent.len() <= w.capacity,
    decreases w.queue.len(),
{
    if w.queue.len() > 0 && !w.closed && w.sent.len() < w.capacity {
        lemma_flush_leaves_the_rest(
            WorkerModel {
                queue: w.queue.drop_first(),
                sent: w.sent.push(w.queue[0]),
                stats: w.stats.dequeued(w.queue[0].len()),
                ..w
            },
        );
    }
}

/// What the rate limit touches: its own account and counters, nothing of the
/// workers, the signals and the other counters.
pub proof fn lemma_rate_limit_moves_nothing(m: ManagerModel, bytes: nat, now: u64)
    ensures
        ({
            let after = m.rate_limited(bytes, now);
            &&& after.workers == m.workers
            &&& after.last_worker == m.last_worker
            &&& after.high_watermark == m.high_watermark
            &&& after.signals == m.signals
            &&& after.max_rate == m.max_rate
            &&& after.progress == m.progress
            &&& after.last_chunk_id == m.last_chunk_id
            &&& after.stats.fragments_dispatched == m.stats.fragments_dispatched
            &&& after.stats.fragments_retransmitted == m.stats.fragments_retransmitted
            &&& after.stats.fragments_redistributed == m.stats.fragments_redistributed
            &&& after.stats.all_workers_down_events == m.stats.all_workers_down_events
            &&& after.stats.backpressure_events == m.stats.backpressure_events
            &&& m.max_rate == 0 ==> after == m
        }),
{
}

/// What is told to the splitter: nothing where no worker is active; else to pause
/// exactly where all active workers have at least the high watermark waiting. The
/// signal goes out where there is room for it; only pauses are counted, where there
/// is a channel.
pub proof fn lemma_backpressure_is_told(m: ManagerModel)
    ensures
        ({
            let after = m.backpressured();
            let any = exists|i: int| 0 <= i < m.workers.len() && (#[trigger] m.workers[i]).active;
            let pause = forall|i: int|
                0 <= i < m.workers.len() && (#[trigger] m.workers[i]).active
                    ==> m.workers[i].stats.pending_bytes >= m.high_watermark;
            &&& after.workers == m.workers
            &&& after.last_worker == m.last_worker
            &&& after.last_chunk_id == m.last_chunk_id
            &&& after.progress == m.progress
            &&& after.stats.fragments_dispatched == m.stats.fragments_dispatched
            &&& after.stats.fragments_redistributed == m.stats.fragments_redistributed
            &&& after.stats.all_workers_down_events == m.stats.all_workers_down_events
            &&& !any || m.signals is None ==> after == m
            &&& after.signals is None <==> m.signals is None
            &&& m.signals matches Some(s) ==> {
                let t = after.signals->Some_0;
                &&& t.capacity == s.capacity && t.closed == s.closed
                &&& t.sent == (if any && !s.closed && s.sent.len() < s.capacity {
                    s.sent.push(pause)
                } else {
                    s.sent
                })
                &&& after.stats.backpressure_events == (if any && pause {
                    m.stats.backpressure_events.wrapping_add(1)
                } else {
                    m.stats.backpressure_events
                })
            }
        }),
{
    lemma_active_among(m.workers, m.workers.len() as int);
}

/// The count of active workers is 0 exactly where none is active, and goes up by one
/// with each active worker.
pub proof fn lemma_active_among(workers: Seq<WorkerModel>, k: int)
    requires
        0 <= k <= workers.len(),
    ensures
        queue::active_among(workers, k) == 0 <==> forall|i: int|
            0 <= i < k ==> !(#[trigger] workers[i]).active,
        queue::active_among(workers, k) <= k,
        queue::active_among(workers, k) == k <==> forall|i: int|
            0 <= i < k ==> (#[trigger] workers[i]).active,
        k > 0 ==> queue::active_among(workers, k) == queue::active_among(workers, k - 1) + (
        if workers[k - 1].active {
            1int
        } else {
            0
        }),
    decreases k,
{
    if k > 0 {
        lemma_active_among(workers, k - 1);
    }
}

/// The number that is kept is the largest of the one before and the chunk numbers of
/// the fragments, which stand in their first four bytes.
pub proof fn lemma_largest_chunk_number(seen: u32, batch: Seq<Seq<u8>>)
    ensures
        ({
            let most = queue::max_chunk_id(seen, batch);
            &&& most >= seen
            &&& forall|i: int|
                0 <= i < batch.len() && (#[trigger] batch[i]).len() >= 4 ==> wire::un32(batch[i], 0)
                    <= most
            &&& most == seen || exists|i: int|
                0 <= i < batch.len() && (#[trigger] batch[i]).len() >= 4 && wire::un32(batch[i], 0)
                    == most
        }),
    decreases batch.len(),
{
    if batch.len() > 0 {
        let rest = batch.drop_last();
        let most = queue::max_chunk_id(seen, batch);
        lemma_largest_chunk_number(seen, rest);
        assert forall|i: int|
            0 <= i < batch.len() && (#[trigger] batch[i]).len() >= 4 implies wire::un32(batch[i], 0)
            <= most by {
            if i < rest.len() {
                assert(rest[i] == batch[i]);
            }
        }
        if most != seen {
            if most == queue::max_chunk_id(seen, rest) {
                let i = choose|i: int|
                    0 <= i < rest.len() && (#[trigger] rest[i]).len() >= 4 && wire::un32(rest[i], 0)
                        == most;
                assert(batch[i] == rest[i]);
            } else {
                assert(batch[batch.len() - 1] == batch.last());
            }
        }
    }
}

/// A dispatched batch goes as a whole and in order behind everything that one active
/// worker had, one that has no more waiting than any other active worker; of several
/// with as little it is the next in turn. No other worker changes. It is refused only
/// where all workers are down, and then nothing moves.
pub proof fn lemma_batch_stays_together(m: ManagerModel, batch: Seq<Seq<u8>>, now: u64)
    requires
        0 <= m.last_worker < m.workers.len(),
    ensures
        ({
            let (after, worker) = m.dispatch_batch(batch, now);
            let n = m.workers.len() as int;
            match worker {
                Some(i) => {
                    &&& 0 <= i < n
                    &&& m.workers[i].active
                    &&& forall|j: int|
                        0 <= j < n && (#[trigger] m.workers[j]).active ==> {
                            ||| m.workers[i].stats.pending_bytes < m.workers[j].stats.pending_bytes
                            ||| m.workers[i].stats.pending_bytes == m.workers[j].stats.pending_bytes
                                && (i - m.last_worker - 1) % n <= (j - m.last_worker - 1) % n
                        }
                    &&& after.last_worker == i
                    &&& after.workers.len() == n
                    &&& after.workers[i].sent + after.workers[i].queue == m.workers[i].sent
                        + m.workers[i].queue + batch
                    &&& after.workers[i].sent.len() >= m.workers[i].sent.len()
                    &&& after.workers[i].queue.len() > 0 ==> m.workers[i].closed
                        || after.workers[i].sent.len() >= m.workers[i].capacity
                    &&& after.workers[i].active == !(m.workers[i].closed
                        && after.workers[i].queue.len() > 0)
                    &&& after.workers[i].capacity == m.workers[i].capacity
                    &&& after.workers[i].closed == m.workers[i].closed
                    &&& forall|j: int| 0 <= j < n && j != i ==> #[trigger] after.workers[j]
                        == m.workers[j]
                    &&& after.stats.fragments_dispatched == m.stats.fragments_dispatched.wrapping_add(
                        batch.len() as u64,
                    )
                    &&& after.stats.all_workers_down_events == m.stats.all_workers_down_events
                    &&& after.last_chunk_id == queue::max_chunk_id(m.last_chunk_id, batch)
                    &&& m.progress matches Some(p) ==> after.progress == Some(
                        p.wrapping_add(wire::total_len(batch) as u64),
                    )
                    &&& m.progress is None ==> after.progress is None
                    &&& after.workers[i].stats.pending_bytes < m.high_watermark ==> after.signals
                        == m.signals && after.stats.backpressure_events
                        == m.stats.backpressure_events
                    &&& after.workers[i].stats.pending_bytes >= m.high_watermark ==> (
                    m.signals matches Some(s) ==> {
                        let any = exists|j: int|
                            0 <= j < n && (#[trigger] after.workers[j]).active;
                        let pause = forall|j: int|
                            0 <= j < n && (#[trigger] after.workers[j]).active
                                ==> after.workers[j].stats.pending_bytes >= m.high_watermark;
                        any && !s.closed && s.sent.len() < s.capacity ==> after.signals is Some
                            && after.signals->Some_0.sent == s.sent.push(pause)
                    })
                },
                None => {
                    &&& after.workers == m.workers
                    &&& after.signals == m.signals
                    &&& after.last_chunk_id == m.last_chunk_id
                    &&& after.progress == m.progress
                    &&& after.stats.fragments_dispatched == m.stats.fragments_dispatched
                    &&& after.stats.all_workers_down_events
                        == m.stats.all_workers_down_events.wrapping_add(1)
                    &&& forall|j: int| 0 <= j < n ==> !(#[trigger] m.workers[j]).active
                },
            }
        }),
{
    let n = m.workers.len() as int;
    let last = m.last_worker;
    lemma_rate_limit_moves_nothing(m, wire::total_len(batch), now);
    let limited = m.rate_limited(wire::total_len(batch), now);
    fairness::lemma_least_loaded_is_chosen(limited.workers, limited.last_worker);
    match limited.selected() {
        Some(i) => {
            let w = m.workers[i];
            lemma_with_batch(w, batch);
            fairness::lemma_flush_keeps_order(w.with_batch(batch));
            lemma_flush_leaves_the_rest(w.with_batch(batch));
            assert(w.sent + (w.queue + batch) =~= w.sent + w.queue + batch);
            assert forall|j: int| 0 <= j < n implies #[trigger] fairness::turn_of(last, j, n) == (j
                - last - 1) % n by {
                lemma_turn(last, j, n);
            }
            let given = (ManagerModel {
                last_worker: i,
                last_chunk_id: queue::max_chunk_id(limited.last_chunk_id, batch),
                ..limited
            }).with_worker(i, w.with_batch(batch).flushed()).dispatched(batch.len()).progressed(
                wire::total_len(batch),
            );
            lemma_backpressure_is_told(given);
            assert forall|j: int| 0 <= j < n && (#[trigger] m.workers[j]).active implies {
                ||| m.workers[i].stats.pending_bytes < m.workers[j].stats.pending_bytes
                ||| m.workers[i].stats.pending_bytes == m.workers[j].stats.pending_bytes && (i - last
                    - 1) % n <= (j - last - 1) % n
            } by {
                assert(fairness::turn_of(last, i, n) == (i - last - 1) % n);
                assert(fairness::turn_of(last, j, n) == (j - last - 1) % n);
            }
        },
        None => {},
    }
}

/// The turn of a worker is its distance after the last one, going round.
proof fn lemma_turn(last: int, i: int, n: int)
    requires
        0 <= last < n,
        0 <= i < n,
    ensures
        fairness::turn_of(last, i, n) == (i - last - 1) % n,
{
    let d = i - last - 1;
    if i > last {
        vstd::arithmetic::div_mod::lemma_small_mod(d as nat, n as nat);
    } else {
        vstd::arithmetic::div_mod::lemma_mod_add_multiples_vanish(d, n);
        vstd::arithmetic::div_mod::lemma_small_mod((d + n) as nat, n as nat);
    }
}

/// A single fragment is counted and placed as a batch of one is, and the splitter is
/// always told whether to pause.
pub proof fn lemma_dispatch_is_counted(m: ManagerModel, fragment: Seq<u8>, now: u64)
    requires
        0 <= m.last_worker < m.workers.len(),
    ensures
        ({
            let (after, worker) = m.dispatch(fragment, now);
            let n = m.workers.len() as int;
            match worker {
                Some(i) => {
                    &&& 0 <= i < n
                    &&& m.workers[i].active
                    &&& forall|j: int|
                        0 <= j < n && (#[trigger] m.workers[j]).active ==> {
                            ||| m.workers[i].stats.pending_bytes < m.workers[j].stats.pending_bytes
                            ||| m.workers[i].stats.pending_bytes == m.workers[j].stats.pending_bytes
                                && (i - m.last_worker - 1) % n <= (j - m.last_worker - 1) % n
                        }
                    &&& after.last_worker == i
                    &&& after.workers[i].sent + after.workers[i].queue == (m.workers[i].sent
                        + m.workers[i].queue).push(fragment)
                    &&& after.workers[i].queue.len() > 0 ==> m.workers[i].closed
                        || after.workers[i].sent.len() >= m.workers[i].capacity
                    &&& after.workers[i].active == !m.workers[i].closed
                    &&& after.workers[i].capacity == m.workers[i].capacity
                    &&& after.workers[i].closed == m.workers[i].closed
                    &&& forall|j: int| 0 <= j < n && j != i ==> #[trigger] after.workers[j]
                        == m.workers[j]
                    &&& after.stats.fragments_dispatched == m.stats.fragments_dispatched.wrapping_add(
                        1,
                    )
                    &&& after.stats.all_workers_down_events == m.stats.all_workers_down_events
                    &&& after.stats.fragments_redistributed == m.stats.fragments_redistributed
                    &&& after.last_chunk_id >= m.last_chunk_id
                    &&& fragment.len() >= 4 ==> after.last_chunk_id >= wire::un32(fragment, 0)
                    &&& after.last_chunk_id == m.last_chunk_id || fragment.len() >= 4
                        && after.last_chunk_id == wire::un32(fragment, 0)
                    &&& m.progress matches Some(p) ==> after.progress == Some(
                        p.wrapping_add(fragment.len() as u64),
                    )
                    &&& m.progress is None ==> after.progress is None
                    &&& m.signals matches Some(s) ==> {
                        let any = exists|j: int|
                            0 <= j < n && (#[trigger] after.workers[j]).active;
                        let pause = forall|j: int|
                            0 <= j < n && (#[trigger] after.workers[j]).active
                                ==> after.workers[j].stats.pending_bytes >= m.high_watermark;
                        after.signals is Some && after.signals->Some_0.sent == (if any && !s.closed
                            && s.sent.len() < s.capacity {
                            s.sent.push(pause)
                        } else {
                            s.sent
                        })
                    }
                },
                None => {
                    &&& after.workers == m.workers
                    &&& after.signals == m.signals
                    &&& after.last_chunk_id == m.last_chunk_id
                    &&& after.progress == m.progress
                    &&& after.stats.fragments_dispatched == m.stats.fragments_dispatched
                    &&& after.stats.all_workers_down_events
                        == m.stats.all_workers_down_events.wrapping_add(1)
                    &&& forall|j: int| 0 <= j < n ==> !(#[trigger] m.workers[j]).active
                },
            }
        }),
{
    let n = m.workers.len() as int;
    let last = m.last_worker;
    lemma_rate_limit_moves_nothing(m, fragment.len(), now);
    fairness::lemma_dispatch_keeps_everything(m, fragment, now);
    let limited = m.rate_limited(fragment.len(), now);
    fairness::lemma_least_loaded_is_chosen(limited.workers, limited.last_worker);
    lemma_largest_chunk_number(limited.last_chunk_id, seq![fragment]);
    assert(seq![fragment][0] == fragment);
    match limited.selected() {
        Some(i) => {
            let w = m.workers[i];
            fairness::lemma_flush_keeps_order(w.with_back(fragment));
            lemma_flush_leaves_the_rest(w.with_back(fragment));
            let given = (ManagerModel {
                last_worker: i,
                last_chunk_id: queue::max_chunk_id(limited.last_chunk_id, seq![fragment]),
                ..limited
            }).with_worker(i, w.with_back(fragment).flushed()).dispatched(1).progressed(
                fragment.len(),
            );
            lemma_backpressure_is_told(given);
            assert forall|j: int| 0 <= j < n && (#[trigger] m.workers[j]).active implies {
                ||| m.workers[i].stats.pending_bytes < m.workers[j].stats.pending_bytes
                ||| m.workers[i].stats.pending_bytes == m.workers[j].stats.pending_bytes && (i - last
                    - 1) % n <= (j - last - 1) % n
            } by {
                lemma_turn(last, i, n);
                lemma_turn(last, j, n);
            }
        },
        None => {},
    }
}

/// A retransmitted fragment is counted as such, and what it does to its worker is
/// only to make it send that fragment next.
pub proof fn lemma_retransmit_is_counted(m: ManagerModel, i: int, fragment: Seq<u8>)
    requires
        0 <= i < m.workers.len(),
    ensures
        ({
            let after = m.retransmit(i, fragment);
            &&& after.workers.len() == m.workers.len()
            &&& after.workers[i].queue.len() > 0 ==> m.workers[i].closed
                || after.workers[i].sent.len() >= m.workers[i].capacity
            &&& after.workers[i].active == (m.workers[i].active && !m.workers[i].closed)
            &&& after.workers[i].capacity == m.workers[i].capacity
            &&& after.workers[i].closed == m.workers[i].closed
            &&& after.stats.fragments_retransmitted
                == m.stats.fragments_retransmitted.wrapping_add(1)
            &&& after.stats.fragments_dispatched == m.stats.fragments_dispatched
            &&& after.signals == m.signals
            &&& after.last_worker == m.last_worker
            &&& after.last_chunk_id == m.last_chunk_id
            &&& after.progress == m.progress
        }),
{
    fairness::lemma_flush_keeps_order(m.workers[i].with_front(fragment));
    lemma_flush_leaves_the_rest(m.workers[i].with_front(fragment));
}

/// All fragments that the workers have, waiting or handed to their channels.
pub open spec fn everything(workers: Seq<WorkerModel>) -> Multiset<Seq<u8>>
    decreases workers.len(),
{
    if workers.len() == 0 {
        Multiset::empty()
    } else {
        everything(workers.drop_last()).add(
            (workers.last().sent + workers.last().queue).to_multiset(),
        )
    }
}

/// Replacing a worker replaces what it has.
proof fn lemma_everything_update(workers: Seq<WorkerModel>, i: int, w: WorkerModel)
    requires
        0 <= i < workers.len(),
    ensures
        everything(workers.update(i, w)).add((workers[i].sent + workers[i].queue).to_multiset())
            == everything(workers).add((w.sent + w.queue).to_multiset()),
    decreases workers.len(),
{
    let after = workers.update(i, w);
    let old_has = (workers[i].sent + workers[i].queue).to_multiset();
    let new_has = (w.sent + w.queue).to_multiset();
    if i == workers.len() - 1 {
        assert(after.drop_last() =~= workers.drop_last());
        assert(everything(after).add(old_has) =~= everything(workers).add(new_has));
    } else {
        assert(after.drop_last() =~= workers.drop_last().update(i, w));
        lemma_everything_update(workers.drop_last(), i, w);
        let rest = (workers.last().sent + workers.last().queue).to_multiset();
        assert(after.last() == workers.last());
        assert(everything(after).add(old_has) =~= everything(after.drop_last()).add(old_has).add(
            rest,
        ));
        assert(everything(workers).add(new_has) =~= everything(workers.drop_last()).add(
            new_has,
        ).add(rest));
    }
}

/// Whether a worker has all that it had before, in the same order, and maybe more.
pub open spec fn goes_on(before: WorkerModel, after: WorkerModel) -> bool {
    (before.sent + before.queue).is_prefix_of(after.sent + after.queue)
}

/// Dispatching again places the fragments one after the other: the first ones, as
/// many as are reported, join what the workers have, each behind what its worker had.
proof fn lemma_redistribute_places_each(m: ManagerModel, pending: Seq<Seq<u8>>, now: u64)
    requires
        0 <= m.last_worker < m.workers.len(),
    ensures
        ({
            let (after, count) = m.redistribute(pending, now);
            &&& count <= pending.len()
            &&& after.workers.len() == m.workers.len()
            &&& everything(after.workers) == everything(m.workers).add(
                pending.take(count as int).to_multiset(),
            )
            &&& forall|j: int|
                0 <= j < m.workers.len() ==> goes_on(m.workers[j], #[trigger] after.workers[j])
            &&& forall|j: int|
                0 <= j < m.workers.len() && !m.workers[j].active ==> #[trigger] after.workers[j]
                    == m.workers[j]
            &&& count < pending.len() ==> forall|j: int|
                0 <= j < after.workers.len() ==> !(#[trigger] after.workers[j]).active
            &&& after.stats.fragments_redistributed as int == (m.stats.fragments_redistributed
                + count) % 0x1_0000_0000_0000_0000
        }),
    decreases pending.len(),
{
    broadcast use vstd::seq_lib::group_to_multiset_ensures;

    if pending.len() == 0 {
        assert(pending.take(0) =~= Seq::empty());
        assert(everything(m.workers).add(pending.take(0).to_multiset()) =~= everything(m.workers));
        assert forall|j: int| 0 <= j < m.workers.len() implies goes_on(
            m.workers[j],
            #[trigger] m.workers[j],
        ) by {}
    } else {
        lemma_dispatch_is_counted(m, pending[0], now);
        let (next, worker) = m.dispatch(pending[0], now);
        let (after, count) = m.redistribute(pending, now);
        match worker {
            Some(i) => {
                let counted = ManagerModel {
                    stats: QueueManagerStats {
                        fragments_redistributed: next.stats.fragments_redistributed.wrapping_add(1),
                        ..next.stats
                    },
                    ..next
                };
                lemma_redistribute_places_each(counted, pending.drop_first(), now);
                let rest = (count - 1) as nat;
                let had = m.workers[i].sent + m.workers[i].queue;
                let has = next.workers[i].sent + next.workers[i].queue;
                assert(next.workers =~= m.workers.update(i, next.workers[i]));
                lemma_everything_update(m.workers, i, next.workers[i]);
                assert(has.to_multiset() =~= had.to_multiset().insert(pending[0]));
                assert(everything(next.workers) =~= everything(m.workers).insert(pending[0])) by {
                    let a = everything(next.workers).add(had.to_multiset());
                    assert(a == everything(m.workers).add(has.to_multiset()));
                    assert forall|x: Seq<u8>| everything(next.workers).count(x) == everything(
                        m.workers,
                    ).insert(pending[0]).count(x) by {
                        assert(a.count(x) == everything(next.workers).count(x)
                            + had.to_multiset().count(x));
                    }
                }
                let placed = pending.take(count as int);
                assert(placed =~= seq![pending[0]] + pending.drop_first().take(rest as int));
                vstd::seq_lib::lemma_multiset_commutative(
                    seq![pending[0]],
                    pending.drop_first().take(rest as int),
                );
                assert(seq![pending[0]] =~= Seq::empty().push(pending[0]));
                assert(everything(after.workers) =~= everything(m.workers).add(
                    placed.to_multiset(),
                ));
                assert forall|j: int| 0 <= j < m.workers.len() implies goes_on(
                    m.workers[j],
                    #[trigger] after.workers[j],
                ) by {
                    assert(goes_on(next.workers[j], after.workers[j]));
                    let a = m.workers[j].sent + m.workers[j].queue;
                    let b = next.workers[j].sent + next.workers[j].queue;
                    let c = after.workers[j].sent + after.workers[j].queue;
                    assert(a =~= b.take(a.len() as int));
                    assert(a =~= c.take(a.len() as int)) by {
                        assert(b =~= c.take(b.len() as int));
                    }
                }
            },
            None => {
                assert(pending.take(0) =~= Seq::empty());
                assert(everything(m.workers).add(pending.take(0).to_multiset()) =~= everything(
                    m.workers,
                ));
                assert forall|j: int| 0 <= j < m.workers.len() implies goes_on(
                    m.workers[j],
                    #[trigger] after.workers[j],
                ) by {}
            },
        }
    }
}

/// When a worker fails, it is out of service and keeps nothing waiting, and its
/// failure is counted. The others have all they had, in the same order, and behind
/// that what it had waiting: the workers together have the very same fragments as
/// before, each as often as before. Only where no worker is left, the last ones of
/// those that waited are not placed. As many are reported as were placed.
pub proof fn lemma_failure_keeps_the_fragments(m: ManagerModel, i: int, now: u64)
    requires
        0 <= m.last_worker < m.workers.len(),
        0 <= i < m.workers.len(),
    ensures
        ({
            let (after, count) = m.failed(i, now);
            let waiting = m.workers[i].queue;
            &&& count <= waiting.len()
            &&& after.workers.len() == m.workers.len()
            &&& everything(after.workers).add(waiting.skip(count as int).to_multiset())
                == everything(m.workers)
            &&& count < waiting.len() ==> forall|j: int|
                0 <= j < after.workers.len() ==> !(#[trigger] after.workers[j]).active
            &&& !after.workers[i].active
            &&& after.workers[i].queue.len() == 0
            &&& after.workers[i].sent == m.workers[i].sent
            &&& after.workers[i].stats.errors == m.workers[i].stats.errors.wrapping_add(1)
            &&& forall|j: int|
                0 <= j < m.workers.len() && j != i ==> goes_on(
                    m.workers[j],
                    #[trigger] after.workers[j],
                )
            &&& forall|j: int|
                0 <= j < m.workers.len() && j != i && !m.workers[j].active
                    ==> #[trigger] after.workers[j] == m.workers[j]
            &&& after.stats.fragments_redistributed as int == (m.stats.fragments_redistributed
                + count) % 0x1_0000_0000_0000_0000
        }),
{
    broadcast use vstd::seq_lib::group_to_multiset_ensures;

    let w = m.workers[i];
    let idle = WorkerModel {
        queue: Seq::empty(),
        active: false,
        stats: QueueWorkerStats { errors: w.stats.errors.wrapping_add(1), ..w.stats },
        ..w
    };
    let without = m.with_worker(i, idle);
    let (after, count) = m.failed(i, now);
    lemma_redistribute_places_each(without, w.queue, now);
    lemma_everything_update(m.workers, i, idle);
    assert(idle.sent + idle.queue =~= w.sent);
    vstd::seq_lib::lemma_multiset_commutative(w.sent, w.queue);
    let placed = w.queue.take(count as int);
    let left = w.queue.skip(count as int);
    assert(placed + left =~= w.queue);
    vstd::seq_lib::lemma_multiset_commutative(placed, left);
    let a = everything(without.workers);
    assert forall|x: Seq<u8>| everything(after.workers).add(left.to_multiset()).count(x)
        == everything(m.workers).count(x) by {
        let lhs = a.add((w.sent + w.queue).to_multiset());
        assert(lhs == everything(m.workers).add(w.sent.to_multiset()));
        assert(lhs.count(x) == a.count(x) + w.sent.to_multiset().count(x)
            + w.queue.to_multiset().count(x));
    }
    assert(everything(after.workers).add(left.to_multiset()) =~= everything(m.workers));
    assert forall|j: int| 0 <= j < m.workers.len() && j != i implies goes_on(
        m.workers[j],
        #[trigger] after.workers[j],
    ) by {
        assert(without.workers[j] == m.workers[j]);
    }
}

/// Whatever is dispatched is held to the rate with all its bytes: the account, the wait
/// and the counters of the limit are what they are after the limit alone.
pub proof fn lemma_dispatch_pays_for_its_bytes(
    m: ManagerModel,
    batch: Seq<Seq<u8>>,
    fragment: Seq<u8>,
    now: u64,
)
    ensures
        ({
            let after = m.dispatch_batch(batch, now).0;
            let paid = m.rate_limited(wire::total_len(batch), now);
            &&& after.bucket == paid.bucket
            &&& after.last_check == paid.last_check
            &&& after.sleep_due == paid.sleep_due
            &&& after.stats.rate_limited_bytes == paid.stats.rate_limited_bytes
            &&& after.stats.rate_limit_ns == paid.stats.rate_limit_ns
            &&& after.max_rate == m.max_rate && after.high_watermark == m.high_watermark
        }),
        ({
            let after = m.dispatch(fragment, now).0;
            let paid = m.rate_limited(fragment.len(), now);
            &&& after.bucket == paid.bucket
            &&& after.last_check == paid.last_check
            &&& after.sleep_due == paid.sleep_due
            &&& after.stats.rate_limited_bytes == paid.stats.rate_limited_bytes
            &&& after.stats.rate_limit_ns == paid.stats.rate_limit_ns
            &&& after.max_rate == m.max_rate && after.high_watermark == m.high_watermark
        }),
{
}

/// The counters of a worker go on saying what waits for it when a batch is queued.
pub proof fn lemma_batch_is_accounted(w: WorkerModel, batch: Seq<Seq<u8>>)
    requires
        w.stats.pending_bytes == wire::total_len(w.queue),
        w.stats.pending_fragments == w.queue.len(),
        wire::total_len(w.queue) + wire::total_len(batch) <= u64::MAX,
        w.queue.len() + batch.len() <= u64::MAX,
    ensures
        w.with_batch(batch).queue == w.queue + batch,
        w.with_batch(batch).stats.pending_bytes == wire::total_len(w.queue + batch),
        w.with_batch(batch).stats.pending_fragments == w.queue.len() + batch.len(),
        w.with_batch(batch).stats.errors == w.stats.errors,
        w.with_batch(batch).sent == w.sent,
        w.with_batch(batch).active == w.active,
    decreases batch.len(),
{
    wire::lemma_concat_joins(w.queue, batch, Seq::empty());
    if batch.len() > 0 {
        let fewer = batch.drop_last();
        lemma_batch_is_accounted(w, fewer);
        wire::lemma_concat_joins(w.queue, fewer, Seq::empty());
        assert((w.queue + fewer).push(batch.last()) =~= w.queue + batch);
    } else {
        assert(w.queue + batch =~= w.queue);
    }
}

} // verus!
