//! The order in which chunks leave the orderer.

use crate::protocol::crc;
use crate::protocol::headers;
use crate::receiver::commit::CommitModel;
use crate::receiver::delivery;
use crate::receiver::ordering;
use crate::receiver::ordering::{OrdererModel, HEAP_HIGH_WATERMARK};
use crate::sender::framing;
use vstd::prelude::*;

verus! {

/// What is handed on for each of the chunks.
pub open spec fn commits_of(chunks: Seq<Seq<u8>>) -> Seq<CommitModel> {
    Seq::new(chunks.len(), |i: int| ordering::commit_of(chunks[i]))
}

/// The chunks that leave in one run bear the sequence numbers that were due,
/// one after the other, and the run goes on as long as there is room and the
/// next chunk is there. Returned is the length of the run. This is stated of
/// numbers below the largest one, after which they start over.
pub proof fn lemma_run_is_consecutive(m: OrdererModel) -> (k: int)
    requires
        m.wf(),
        forall|i: int|
            0 <= i < m.waiting.len() ==> ordering::sequence_of(#[trigger] m.waiting[i]) < u64::MAX,
    ensures
        0 <= k <= m.waiting.len(),
        m.next + k <= u64::MAX,
        m.emit_run() == (OrdererModel {
            waiting: m.waiting.skip(k),
            since: m.since.skip(k),
            next: (m.next + k) as u64,
            emitted: (m.emitted + k) as nat,
            sent: m.sent + commits_of(m.waiting.take(k)),
            ..m
        }),
        forall|i: int|
            0 <= i < k ==> ordering::sequence_of(#[trigger] m.waiting[i]) == m.next + i,
        ({
            let after = m.emit_run();
            after.has_room() && after.waiting.len() > 0 ==> ordering::sequence_of(after.waiting[0])
                != after.next
        }),
    decreases m.waiting.len(),
{
    if m.waiting.len() > 0 && ordering::sequence_of(m.waiting[0]) == m.next && m.has_room() {
        let step = m.emit_first();
        ordering::lemma_emit_keeps_order(m);
        assert(step.missed =~= m.missed);
        let k = lemma_run_is_consecutive(step) + 1;
        assert(m.waiting.skip(k) =~= step.waiting.skip(k - 1));
        assert(m.since.skip(k) =~= step.since.skip(k - 1));
        assert(m.sent + commits_of(m.waiting.take(k)) =~= step.sent + commits_of(
            step.waiting.take(k - 1),
        ));
        assert forall|i: int| 0 <= i < k implies ordering::sequence_of(#[trigger] m.waiting[i])
            == m.next + i by {
            if i > 0 {
                assert(m.waiting[i] == step.waiting[i - 1]);
            }
        }
        k
    } else {
        assert(m.waiting.skip(0) =~= m.waiting);
        assert(m.since.skip(0) =~= m.since);
        assert(m.sent + commits_of(m.waiting.take(0)) =~= m.sent);
        0
    }
}

/// After the chunks came, one after the other.
pub open spec fn after_pushes(m: OrdererModel, payloads: Seq<Seq<u8>>) -> OrdererModel
    decreases payloads.len(),
{
    if payloads.len() == 0 {
        m
    } else {
        after_pushes(m, payloads.drop_last()).push(payloads.last())
    }
}

/// Whether no more chunks are held than may be, once the `k`-th came and those whose turn
/// it was were handed on.
pub open spec fn is_uncrowded(m: OrdererModel, payloads: Seq<Seq<u8>>, k: int) -> bool {
    after_pushes(m, payloads.take(k)).insert(payloads[k]).emit_run().held() <= HEAP_HIGH_WATERMARK
}

/// The chunks in the order in which they come.
pub open spec fn arranged(chunks: Seq<Seq<u8>>, order: Seq<int>) -> Seq<Seq<u8>> {
    Seq::new(order.len(), |j: int| chunks[order[j]])
}

/// Whether the chunks bear consecutive sequence numbers from `first` on.
pub open spec fn numbered_from(chunks: Seq<Seq<u8>>, first: u64) -> bool {
    &&& first + chunks.len() <= u64::MAX + 1
    &&& forall|i: int|
        0 <= i < chunks.len() ==> ordering::sequence_of(#[trigger] chunks[i]) == first + i
}

/// The first number from `i` on that is not listed; `n` where all below it are.
pub open spec fn first_missing(came: Seq<int>, n: int, i: int) -> int
    decreases n - i,
{
    if i >= n || !came.contains(i) {
        i
    } else {
        first_missing(came, n, i + 1)
    }
}

/// All numbers before the first missing one are listed, and it is not.
pub proof fn lemma_first_missing(came: Seq<int>, n: int, i: int)
    requires
        i <= n,
    ensures
        i <= first_missing(came, n, i) <= n,
        forall|j: int| i <= j < first_missing(came, n, i) ==> #[trigger] came.contains(j),
        first_missing(came, n, i) < n ==> !came.contains(first_missing(came, n, i)),
    decreases n - i,
{
    if i < n && came.contains(i) {
        lemma_first_missing(came, n, i + 1);
    }
}

/// Whether `w` is one of the chunks from `e` on that came.
spec fn listed(chunks: Seq<Seq<u8>>, came: Seq<int>, e: int, w: Seq<u8>) -> bool {
    exists|i: int| e <= i < chunks.len() && #[trigger] came.contains(i) && w == chunks[i]
}

/// What holds while the chunks listed in `came` are in, `e` of them handed on: those
/// are the first ones, and the others wait, each once.
spec fn progress(
    m0: OrdererModel,
    chunks: Seq<Seq<u8>>,
    came: Seq<int>,
    m: OrdererModel,
    e: int,
) -> bool {
    &&& 0 <= e <= chunks.len()
    &&& if m0.next + e <= u64::MAX {
        m.next == m0.next + e && m.missed == m0.missed
    } else {
        m.next == 0 && e == chunks.len()
    }
    &&& m.emitted == m0.emitted + e
    &&& m.received == m0.received + came.len()
    &&& m.sent == m0.sent + commits_of(chunks.take(e))
    &&& m.capacity == m0.capacity
    &&& m.closed == m0.closed
    &&& m.clock == m0.clock
    &&& m.wf()
    &&& m.late.len() == 0
    &&& m.waiting.len() + e == came.to_set().len()
    &&& forall|j: int|
        0 <= j < m.waiting.len() ==> listed(chunks, came, e, #[trigger] m.waiting[j])
    &&& forall|i: int|
        0 <= i < chunks.len() && #[trigger] came.contains(i) ==> i < e || m.waiting.contains(
            chunks[i],
        )
    &&& forall|i: int| 0 <= i < e ==> #[trigger] came.contains(i)
}

/// A run keeps what holds, and ends where the next chunk is missing.
proof fn lemma_progress_run(
    m0: OrdererModel,
    chunks: Seq<Seq<u8>>,
    came: Seq<int>,
    m: OrdererModel,
    e: int,
)
    requires
        numbered_from(chunks, m0.next),
        m0.sent.len() + first_missing(came, chunks.len() as int, 0) <= m0.capacity,
        !m0.closed,
        progress(m0, chunks, came, m, e),
    ensures
        progress(
            m0,
            chunks,
            came,
            m.emit_run(),
            first_missing(came, chunks.len() as int, 0),
        ),
    decreases m.waiting.len(),
{
    let n = chunks.len() as int;
    lemma_first_missing(came, n, 0);
    assert(e <= first_missing(came, n, 0)) by {
        if first_missing(came, n, 0) < e {
            assert(came.contains(first_missing(came, n, 0)));
        }
    }
    assert(m.sent.len() == m0.sent.len() + e);
    if m.waiting.len() > 0 && ordering::sequence_of(m.waiting[0]) == m.next {
        assert(listed(chunks, came, e, m.waiting[0]));
        let i0 = choose|i: int|
            e <= i < chunks.len() && #[trigger] came.contains(i) && m.waiting[0] == chunks[i];
        assert(ordering::sequence_of(chunks[i0]) == m0.next + i0);
        assert(i0 == e);
        assert(e != first_missing(came, n, 0));
        assert(m.has_room());
        let step = m.emit_first();
        assert(step.sent =~= m0.sent + commits_of(chunks.take(e + 1)));
        ordering::lemma_emit_keeps_order(m);
        if m.next < u64::MAX {
            assert(step.missed =~= m0.missed);
        } else if m.waiting.len() > 1 {
            assert(ordering::sequence_of(m.waiting[0]) < ordering::sequence_of(m.waiting[1]));
        }
        assert forall|j: int| 0 <= j < step.waiting.len() implies listed(
            chunks,
            came,
            e + 1,
            #[trigger] step.waiting[j],
        ) by {
            assert(step.waiting[j] == m.waiting[j + 1]);
            assert(listed(chunks, came, e, m.waiting[j + 1]));
            let i = choose|i: int|
                e <= i < chunks.len() && #[trigger] came.contains(i) && m.waiting[j + 1]
                    == chunks[i];
            assert(ordering::sequence_of(m.waiting[0]) < ordering::sequence_of(m.waiting[j + 1]));
            assert(ordering::sequence_of(chunks[i]) == m0.next + i);
        }
        assert forall|i: int| 0 <= i < chunks.len() && #[trigger] came.contains(i) implies i < e + 1
            || step.waiting.contains(chunks[i]) by {
            if i > e {
                let j = choose|j: int| 0 <= j < m.waiting.len() && m.waiting[j] == chunks[i];
                assert(ordering::sequence_of(chunks[i]) == m0.next + i);
                assert(j > 0);
                assert(step.waiting[j - 1] == chunks[i]);
            }
        }
        lemma_progress_run(m0, chunks, came, step, e + 1);
    } else if e < n && came.contains(e) {
        let j = choose|j: int| 0 <= j < m.waiting.len() && m.waiting[j] == chunks[e];
        assert(ordering::sequence_of(chunks[e]) == m0.next + e);
        assert(ordering::sequence_of(m.waiting[0]) >= m.next);
        if j > 0 {
            assert(ordering::sequence_of(m.waiting[0]) < ordering::sequence_of(m.waiting[j]));
        }
        assert(false);
    }
}

/// One more entry adds itself to the set of entries, and nothing else.
proof fn lemma_one_more(came: Seq<int>, x: int)
    ensures
        came.push(x).to_set() == came.to_set().insert(x),
        forall|i: int|
            #[trigger] came.push(x).contains(i) <==> (came.contains(i) || i == x),
{
    let more = came.push(x);
    assert forall|i: int| #[trigger] more.contains(i) <==> (came.contains(i) || i == x) by {
        if more.contains(i) {
            let j = choose|j: int| 0 <= j < more.len() && more[j] == i;
            if j < came.len() {
                assert(came[j] == i);
            }
        }
        if came.contains(i) {
            let j = choose|j: int| 0 <= j < came.len() && came[j] == i;
            assert(more[j] == i);
        }
        assert(more[came.len() as int] == x);
    }
    assert(more.to_set() =~= came.to_set().insert(x));
}

/// Putting one more chunk among the waiting ones keeps what holds. If it came
/// before, it is dropped.
proof fn lemma_progress_insert(
    m0: OrdererModel,
    chunks: Seq<Seq<u8>>,
    came: Seq<int>,
    x: int,
    m: OrdererModel,
    e: int,
)
    requires
        numbered_from(chunks, m0.next),
        0 <= x < chunks.len(),
        m0.wf(),
        m0.next + e <= u64::MAX || !came.contains(x),
        progress(m0, chunks, came, m, e),
    ensures
        progress(m0, chunks, came.push(x), m.insert(chunks[x]), e),
{
    let more = came.push(x);
    let payload = chunks[x];
    lemma_one_more(came, x);
    assert(ordering::sequence_of(payload) == m0.next + x);
    let seq = ordering::sequence_of(payload);
    let r = ordering::rank(m.waiting, seq);
    let next = m.insert(payload);
    if came.contains(x) {
        assert(came.to_set().insert(x) =~= came.to_set());
        if x >= e {
            let j = choose|j: int| 0 <= j < m.waiting.len() && m.waiting[j] == chunks[x];
            assert(ordering::sequence_of(m.waiting[j]) == seq);
        }
        assert(m.is_repeat(payload));
    } else {
        assert(x >= e);
        assert(!came.to_set().contains(x));
        assert forall|j: int| 0 <= j < m.waiting.len() implies ordering::sequence_of(
            #[trigger] m.waiting[j],
        ) != seq by {
            assert(listed(chunks, came, e, m.waiting[j]));
            let i = choose|i: int|
                e <= i < chunks.len() && #[trigger] came.contains(i) && m.waiting[j] == chunks[i];
            assert(ordering::sequence_of(chunks[i]) == m0.next + i);
        }
        assert(!m.is_repeat(payload));
        ordering::lemma_insert_keeps_order(m, payload);
        ordering::lemma_rank(m.waiting, seq);
        assert forall|j: int| 0 <= j < next.waiting.len() implies #[trigger] next.waiting[j] == (if j
            < r {
            m.waiting[j]
        } else if j == r {
            payload
        } else {
            m.waiting[j - 1]
        }) by {}
    }
    assert forall|j: int| 0 <= j < next.waiting.len() implies listed(
        chunks,
        more,
        e,
        #[trigger] next.waiting[j],
    ) by {
        if !came.contains(x) && j == r {
            assert(more.contains(x));
        } else {
            let j0 = if came.contains(x) || j < r {
                j
            } else {
                j - 1
            };
            assert(next.waiting[j] == m.waiting[j0]);
            assert(listed(chunks, came, e, m.waiting[j0]));
            let i = choose|i: int|
                e <= i < chunks.len() && #[trigger] came.contains(i) && m.waiting[j0] == chunks[i];
            assert(more.contains(i));
        }
    }
    assert forall|i: int| 0 <= i < chunks.len() && #[trigger] more.contains(i) implies i < e
        || next.waiting.contains(chunks[i]) by {
        if !came.contains(i) {
            assert(next.waiting[r] == chunks[i]);
        } else if i >= e {
            let j = choose|j: int| 0 <= j < m.waiting.len() && m.waiting[j] == chunks[i];
            assert(next.waiting[if came.contains(x) || j < r {
                j
            } else {
                j + 1
            }] == chunks[i]);
        }
    }
}

/// What came first is among what came in all, so what is missing of all comes no
/// earlier.
proof fn lemma_missing_moves_on(order: Seq<int>, n: int, k: int)
    requires
        0 <= k <= order.len(),
        0 <= n,
    ensures
        first_missing(order.take(k), n, 0) <= first_missing(order, n, 0),
{
    let came = order.take(k);
    lemma_first_missing(came, n, 0);
    lemma_first_missing(order, n, 0);
    let e = first_missing(order, n, 0);
    if e < first_missing(came, n, 0) {
        assert(came.contains(e));
        let j = choose|j: int| 0 <= j < came.len() && came[j] == e;
        assert(order[j] == e);
    }
}

/// What holds after each push: the chunks listed so far that follow each other
/// from the first one on without a gap were handed on, the others wait. A chunk
/// may come more than once.
proof fn lemma_progress(
    m0: OrdererModel,
    chunks: Seq<Seq<u8>>,
    order: Seq<int>,
    k: int,
)
    requires
        numbered_from(chunks, m0.next),
        m0.sent.len() + first_missing(order, chunks.len() as int, 0) <= m0.capacity,
        !m0.closed,
        m0.wf(),
        m0.is_idle(),
        m0.next + chunks.len() <= u64::MAX || order.no_duplicates(),
        forall|j: int| 0 <= j < order.len() ==> 0 <= (#[trigger] order[j]) < chunks.len(),
        0 <= k <= order.len(),
        forall|i: int|
            0 <= i < order.len() ==> #[trigger] is_uncrowded(m0, arranged(chunks, order), i),
    ensures
        progress(
            m0,
            chunks,
            order.take(k),
            after_pushes(m0, arranged(chunks, order).take(k)),
            first_missing(order.take(k), chunks.len() as int, 0),
        ),
    decreases k,
{
    let payloads = arranged(chunks, order);
    let n = chunks.len() as int;
    if k == 0 {
        assert(m0.sent + commits_of(chunks.take(0)) =~= m0.sent);
        assert(order.take(0) =~= Seq::<int>::empty());
        assert(order.take(0).to_set() =~= Set::<int>::empty());
        assert(!order.take(0).contains(0));
    } else {
        let came = order.take(k - 1);
        let x = order[k - 1];
        lemma_progress(m0, chunks, order, k - 1);
        assert(payloads.take(k).drop_last() =~= payloads.take(k - 1));
        assert(payloads.take(k).last() == chunks[x]);
        assert(is_uncrowded(m0, payloads, k - 1));
        assert(order.take(k) =~= came.push(x));
        let m = after_pushes(m0, payloads.take(k - 1));
        let e = first_missing(came, n, 0);
        lemma_progress_insert(m0, chunks, came, x, m, e);
        lemma_missing_moves_on(order, n, k);
        lemma_progress_run(m0, chunks, order.take(k), m.insert(chunks[x]), e);
    }
}

/// After each push, with the least number that was not pushed yet: exactly the
/// chunks with the numbers before it were handed on, in that order, each with its
/// own data and checksum, and the others that were pushed wait. Pushed is counted
/// each time, a chunk that comes again is handed on once.
///
/// The chunks are numbered from the one that is due first on; which of them are
/// pushed, in which order and how often is left open. This holds where never more
/// chunks wait than may, and where there is room to hand them on. Where they reach
/// up to the largest number, each is taken to be pushed once at most: the numbers
/// then start over.
pub proof fn lemma_emitted_up_to_the_gap(
    m: OrdererModel,
    chunks: Seq<Seq<u8>>,
    order: Seq<int>,
    k: int,
)
    requires
        m.wf(),
        m.is_idle(),
        !m.closed,
        numbered_from(chunks, m.next),
        m.next + chunks.len() <= u64::MAX || order.no_duplicates(),
        m.sent.len() + first_missing(order, chunks.len() as int, 0) <= m.capacity,
        forall|j: int| 0 <= j < order.len() ==> 0 <= (#[trigger] order[j]) < chunks.len(),
        0 <= k <= order.len(),
        forall|i: int|
            0 <= i < order.len() ==> #[trigger] is_uncrowded(m, arranged(chunks, order), i),
    ensures
        ({
            let out = after_pushes(m, arranged(chunks, order).take(k));
            let came = order.take(k);
            let e = first_missing(came, chunks.len() as int, 0);
            &&& 0 <= e <= chunks.len()
            &&& out.next == (if m.next + e <= u64::MAX {
                m.next + e
            } else {
                0
            })
            &&& out.sent == m.sent + commits_of(chunks.take(e))
            &&& out.emitted == m.emitted + e
            &&& out.received == m.received + k
            &&& out.wf()
            &&& out.late.len() == 0
            &&& forall|i: int|
                0 <= i < chunks.len() ==> (#[trigger] out.waiting.contains(chunks[i])
                    <==> came.contains(i) && i > e)
            &&& out.waiting.len() + e == came.to_set().len()
            &&& order.no_duplicates() ==> out.waiting.len() + e == k
        }),
{
    let out = after_pushes(m, arranged(chunks, order).take(k));
    let came = order.take(k);
    let n = chunks.len() as int;
    let e = first_missing(came, n, 0);
    lemma_progress(m, chunks, order, k);
    lemma_first_missing(came, n, 0);
    assert forall|i: int| 0 <= i < chunks.len() implies (#[trigger] out.waiting.contains(chunks[i])
        <==> came.contains(i) && i > e) by {
        assert(ordering::sequence_of(chunks[i]) == m.next + i);
        if out.waiting.contains(chunks[i]) {
            let j = choose|j: int| 0 <= j < out.waiting.len() && out.waiting[j] == chunks[i];
            assert(listed(chunks, came, e, out.waiting[j]));
            let i0 = choose|i0: int|
                e <= i0 < chunks.len() && #[trigger] came.contains(i0) && out.waiting[j]
                    == chunks[i0];
            assert(ordering::sequence_of(chunks[i0]) == m.next + i0);
        }
    }
    if order.no_duplicates() {
        assert(came.no_duplicates());
        came.unique_seq_to_set();
    }
}

/// Whatever the order in which chunks with consecutive sequence numbers come, and
/// however often, once all of them came they have been handed on in sequence
/// order, each once, and none waits. This holds where never more chunks wait than
/// may, and where there is room to hand them on.
pub proof fn lemma_order_restored(m: OrdererModel, chunks: Seq<Seq<u8>>, order: Seq<int>)
    requires
        m.wf(),
        m.is_idle(),
        !m.closed,
        m.sent.len() + chunks.len() <= m.capacity,
        numbered_from(chunks, m.next),
        m.next + chunks.len() <= u64::MAX,
        delivery::covers(order, chunks.len()),
        forall|i: int|
            0 <= i < order.len() ==> #[trigger] is_uncrowded(m, arranged(chunks, order), i),
    ensures
        after_pushes(m, arranged(chunks, order)) == (OrdererModel {
            next: (m.next + chunks.len()) as u64,
            received: m.received + order.len(),
            emitted: m.emitted + chunks.len(),
            sent: m.sent + commits_of(chunks),
            ..m
        }),
{
    let n = chunks.len() as int;
    let k = order.len() as int;
    let payloads = arranged(chunks, order);
    lemma_first_missing(order, n, 0);
    lemma_progress(m, chunks, order, k);
    assert(payloads.take(k) =~= payloads);
    assert(order.take(k) =~= order);
    let after = after_pushes(m, payloads);
    assert(first_missing(order, n, 0) == n) by {
        if first_missing(order, n, 0) < n {
            assert(order.contains(first_missing(order, n, 0)));
        }
    }
    assert(after.waiting.len() == 0) by {
        if after.waiting.len() > 0 {
            assert(listed(chunks, order, n, after.waiting[0]));
        }
    }
    assert(chunks.take(n) =~= chunks);
    assert(after.waiting =~= m.waiting);
    assert(after.since =~= m.since);
    assert(after.late =~= m.late);
    assert(after.late_since =~= m.late_since);
}

/// What is handed on for a chunk that was framed and reassembled is the payload
/// it was made from, with its sequence number and checksum.
pub proof fn lemma_commit_recovers_payload(sequence_number: u64, data: Seq<u8>)
    ensures
        ordering::commit_of(delivery::delivered(sequence_number, data)) == (CommitModel {
            data,
            sequence_number,
            chunk_crc: crc::chunk_crc_of(sequence_number, data),
        }),
{
    let header = framing::chunk_header(sequence_number, data);
    let payload = delivery::delivered(sequence_number, data);
    headers::lemma_chunk_header_round_trip(header, data);
    assert(ordering::commit_of(payload).data =~= data);
}

} // verus!
