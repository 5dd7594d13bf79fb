//! What the queue manager promises of the fragments it is given.

use crate::sender::queue;
use crate::sender::queue::{ManagerModel, WorkerModel};
use crate::wire;
use vstd::prelude::*;

verus! {

/// How many steps after `last` the turn comes to the worker at `i`.
pub open spec fn turn_of(last: int, i: int, n: int) -> int {
    if i > last {
        i - last - 1
    } else {
        i + n - last - 1
    }
}

/// What holds of the choice among the first `k` workers in turn.
proof fn lemma_least_loaded_among(workers: Seq<WorkerModel>, last: int, k: int)
    requires
        0 <= last < workers.len(),
        0 <= k <= workers.len(),
    ensures
        ({
            let n = workers.len() as int;
            match queue::least_loaded(workers, last, k) {
                Some(i) => {
                    &&& 0 <= i < n
                    &&& turn_of(last, i, n) < k
                    &&& workers[i].active
                    &&& forall|j: int|
                        0 <= j < n && turn_of(last, j, n) < k && (#[trigger] workers[j]).active ==> {
                            ||| workers[i].stats.pending_bytes < workers[j].stats.pending_bytes
                            ||| workers[i].stats.pending_bytes == workers[j].stats.pending_bytes
                                && turn_of(last, i, n) <= turn_of(last, j, n)
                        }
                },
                None => forall|j: int|
                    0 <= j < n && turn_of(last, j, n) < k ==> !(#[trigger] workers[j]).active,
            }
        }),
    decreases k,
{
    if k > 0 {
        lemma_least_loaded_among(workers, last, k - 1);
        let n = workers.len() as int;
        let here = queue::in_turn(last, k - 1, n);
        assert(turn_of(last, here, n) == k - 1);
        assert forall|j: int| 0 <= j < n && turn_of(last, j, n) == k - 1 implies j == here by {}
    }
}

/// The worker that is chosen is active and has the least waiting of all active
/// workers; of several with as little, it is the next in turn. None is chosen
/// only where no worker is active.
pub proof fn lemma_least_loaded_is_chosen(workers: Seq<WorkerModel>, last: int)
    requires
        0 <= last < workers.len(),
    ensures
        ({
            let n = workers.len() as int;
            match queue::least_loaded(workers, last, n) {
                Some(i) => {
                    &&& 0 <= i < n
                    &&& workers[i].active
                    &&& forall|j: int|
                        0 <= j < n && (#[trigger] workers[j]).active ==> {
                            ||| workers[i].stats.pending_bytes < workers[j].stats.pending_bytes
                            ||| workers[i].stats.pending_bytes == workers[j].stats.pending_bytes
                                && turn_of(last, i, n) <= turn_of(last, j, n)
                        }
                },
                None => forall|j: int| 0 <= j < n ==> !(#[trigger] workers[j]).active,
            }
        }),
{
    lemma_least_loaded_among(workers, last, workers.len() as int);
}

/// Flushing moves fragments from the front of the queue to the channel: none
/// is lost or repeated, and their order stays. What stays behind found no room.
pub proof fn lemma_flush_keeps_order(w: WorkerModel)
    ensures
        w.flushed().sent + w.flushed().queue == w.sent + w.queue,
        w.flushed().sent.len() >= w.sent.len(),
        w.flushed().queue.len() > 0 ==> w.closed || w.flushed().sent.len() >= w.capacity,
        w.flushed().active == (w.active && !(w.closed && w.queue.len() > 0)),
    decreases w.queue.len(),
{
    if w.queue.len() > 0 && !w.closed && w.sent.len() < w.capacity {
        let next = WorkerModel {
            queue: w.queue.drop_first(),
            sent: w.sent.push(w.queue[0]),
            stats: w.stats.dequeued(w.queue[0].len()),
            ..w
        };
        lemma_flush_keeps_order(next);
        assert(next.sent + next.queue =~= w.sent + w.queue);
    }
}

/// Whether the counters say what waits in the queue.
pub open spec fn accounted(w: WorkerModel) -> bool {
    &&& w.stats.pending_bytes == wire::total_len(w.queue)
    &&& w.stats.pending_fragments == w.queue.len()
}

/// The bytes of the first fragment and of the rest are the bytes of all.
proof fn lemma_total_len_first(batch: Seq<Seq<u8>>)
    requires
        batch.len() > 0,
    ensures
        wire::total_len(batch) == batch[0].len() + wire::total_len(batch.drop_first()),
    decreases batch.len(),
{
    if batch.len() > 1 {
        lemma_total_len_first(batch.drop_last());
        assert(batch.drop_last().drop_first() =~= batch.drop_first().drop_last());
    } else {
        assert(batch.drop_last() =~= batch.drop_first());
    }
}

/// The counters go on saying what waits, whether a fragment is queued at the
/// end or at the head, or the queue is flushed.
pub proof fn lemma_counters_match_the_queue(w: WorkerModel, fragment: Seq<u8>)
    requires
        accounted(w),
        wire::total_len(w.queue) + fragment.len() <= u64::MAX,
        w.queue.len() < u64::MAX,
    ensures
        accounted(w.with_back(fragment)),
        accounted(w.with_front(fragment)),
        accounted(w.flushed()),
    decreases w.queue.len(),
{
    assert(w.with_back(fragment).queue.drop_last() =~= w.queue);
    lemma_total_len_first(w.with_front(fragment).queue);
    assert(w.with_front(fragment).queue.drop_first() =~= w.queue);
    if w.queue.len() > 0 && !w.closed && w.sent.len() < w.capacity {
        lemma_total_len_first(w.queue);
        let next = WorkerModel {
            queue: w.queue.drop_first(),
            sent: w.sent.push(w.queue[0]),
            stats: w.stats.dequeued(w.queue[0].len()),
            ..w
        };
        lemma_counters_match_the_queue(next, Seq::empty());
    }
}

/// A dispatched fragment goes behind everything that the chosen worker had
/// before, and nothing else moves. It is refused only where all workers are
/// down.
pub proof fn lemma_dispatch_keeps_everything(m: ManagerModel, fragment: Seq<u8>, now: u64)
    requires
        0 <= m.last_worker < m.workers.len(),
    ensures
        ({
            let (after, worker) = m.dispatch(fragment, now);
            match worker {
                Some(i) => {
                    &&& 0 <= i < m.workers.len()
                    &&& m.workers[i].active
                    &&& after.workers.len() == m.workers.len()
                    &&& after.workers[i].sent + after.workers[i].queue == (m.workers[i].sent
                        + m.workers[i].queue).push(fragment)
                    &&& forall|j: int|
                        0 <= j < m.workers.len() && j != i ==> #[trigger] after.workers[j]
                            == m.workers[j]
                },
                None => {
                    &&& after.workers == m.workers
                    &&& forall|j: int|
                        0 <= j < m.workers.len() ==> !(#[trigger] m.workers[j]).active
                },
            }
        }),
{
    let limited = m.rate_limited(fragment.len(), now);
    lemma_least_loaded_is_chosen(limited.workers, limited.last_worker);
    match limited.selected() {
        Some(i) => {
            let w = m.workers[i];
            lemma_flush_keeps_order(w.with_back(fragment));
            assert(w.sent + w.queue.push(fragment) =~= (w.sent + w.queue).push(fragment));
        },
        None => {},
    }
}

/// A retransmitted fragment goes in front of everything that waits.
pub proof fn lemma_retransmit_goes_first(m: ManagerModel, i: int, fragment: Seq<u8>)
    requires
        0 <= i < m.workers.len(),
    ensures
        ({
            let after = m.retransmit(i, fragment);
            &&& after.workers[i].sent + after.workers[i].queue == m.workers[i].sent.push(fragment)
                + m.workers[i].queue
            &&& forall|j: int|
                0 <= j < m.workers.len() && j != i ==> #[trigger] after.workers[j] == m.workers[j]
        }),
{
    let w = m.workers[i];
    lemma_flush_keeps_order(w.with_front(fragment));
    assert(w.sent + (seq![fragment] + w.queue) =~= w.sent.push(fragment) + w.queue);
}

/// How many fragments the workers have, waiting or handed to their channels.
pub open spec fn held(workers: Seq<WorkerModel>) -> nat
    decreases workers.len(),
{
    if workers.len() == 0 {
        0
    } else {
        held(workers.drop_last()) + workers.last().sent.len() + workers.last().queue.len()
    }
}

/// Replacing a worker replaces what it has.
proof fn lemma_held_update(workers: Seq<WorkerModel>, i: int, w: WorkerModel)
    requires
        0 <= i < workers.len(),
    ensures
        held(workers.update(i, w)) == held(workers) - workers[i].sent.len()
            - workers[i].queue.len() + w.sent.len() + w.queue.len(),
    decreases workers.len(),
{
    if i == workers.len() - 1 {
        assert(workers.update(i, w).drop_last() =~= workers.drop_last());
    } else {
        assert(workers.update(i, w).drop_last() =~= workers.drop_last().update(i, w));
        lemma_held_update(workers.drop_last(), i, w);
    }
}

/// Dispatching again places every fragment, or ends with all workers down; as
/// many fragments are placed as are reported.
proof fn lemma_redistribute_keeps_everything(m: ManagerModel, pending: Seq<Seq<u8>>, now: u64)
    requires
        0 <= m.last_worker < m.workers.len(),
    ensures
        ({
            let (after, count) = m.redistribute(pending, now);
            &&& count <= pending.len()
            &&& held(after.workers) == held(m.workers) + count
            &&& count < pending.len() ==> forall|j: int|
                0 <= j < after.workers.len() ==> !(#[trigger] after.workers[j]).active
        }),
    decreases pending.len(),
{
    if pending.len() > 0 {
        lemma_dispatch_keeps_everything(m, pending[0], now);
        let (next, worker) = m.dispatch(pending[0], now);
        match worker {
            Some(i) => {
                let limited = m.rate_limited(pending[0].len(), now);
                lemma_least_loaded_is_chosen(limited.workers, limited.last_worker);
                assert(next.workers =~= m.workers.update(i, next.workers[i]));
                lemma_held_update(m.workers, i, next.workers[i]);
                let w = next.workers[i];
                assert((w.sent + w.queue).len() == w.sent.len() + w.queue.len());
                assert((m.workers[i].sent + m.workers[i].queue).len() == m.workers[i].sent.len()
                    + m.workers[i].queue.len());
                let counted = ManagerModel {
                    stats: queue::QueueManagerStats {
                        fragments_redistributed: next.stats.fragments_redistributed.wrapping_add(1),
                        ..next.stats
                    },
                    ..next
                };
                lemma_redistribute_keeps_everything(counted, pending.drop_first(), now);
            },
            None => {},
        }
    }
}

/// When a worker fails, no fragment is lost as long as another worker is left:
/// the others take over everything that it had waiting, or all are down then.
pub proof fn lemma_failure_loses_nothing(m: ManagerModel, i: int, now: u64)
    requires
        0 <= m.last_worker < m.workers.len(),
        0 <= i < m.workers.len(),
    ensures
        ({
            let (after, count) = m.failed(i, now);
            ||| count == m.workers[i].queue.len() && held(after.workers) == held(m.workers)
            ||| forall|j: int|
                0 <= j < after.workers.len() ==> !(#[trigger] after.workers[j]).active
        }),
{
    let w = m.workers[i];
    let idle = WorkerModel {
        queue: Seq::empty(),
        active: false,
        stats: queue::QueueWorkerStats { errors: w.stats.errors.wrapping_add(1), ..w.stats },
        ..w
    };
    lemma_held_update(m.workers, i, idle);
    lemma_redistribute_keeps_everything(m.with_worker(i, idle), w.queue, now);
}

} // verus!
