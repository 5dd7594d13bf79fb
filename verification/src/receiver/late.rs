//! Whatever gaps are given up, every chunk that comes is handed on.

use crate::receiver::commit::CommitModel;
use crate::receiver::gaps;
use crate::receiver::ordering;
use crate::receiver::ordering::OrdererModel;
use crate::wire;
use vstd::prelude::*;

verus! {

/// What happens to an orderer before its input ends.
pub enum OrdererStep {
    /// A chunk comes.
    Push { payload: Seq<u8>, now_ns: u64 },
    /// Gaps are looked at.
    Look { timeout_ns: u64, now_ns: u64 },
}

/// After one step.
pub open spec fn after_step(m: OrdererModel, step: OrdererStep) -> OrdererModel {
    match step {
        OrdererStep::Push { payload, now_ns } => (OrdererModel { clock: now_ns, ..m }).push(payload),
        OrdererStep::Look { timeout_ns, now_ns } => (OrdererModel { clock: now_ns, ..m }).check_gap(
            timeout_ns,
        ),
    }
}

/// After the steps, one after the other.
pub open spec fn after_steps(m: OrdererModel, steps: Seq<OrdererStep>) -> OrdererModel
    decreases steps.len(),
{
    if steps.len() == 0 {
        m
    } else {
        after_step(after_steps(m, steps.drop_last()), steps.last())
    }
}

/// Whether `payload` came in one of the steps.
pub open spec fn came(steps: Seq<OrdererStep>, payload: Seq<u8>) -> bool {
    exists|k: int|
        0 <= k < steps.len() && (#[trigger] steps[k] matches OrdererStep::Push { payload: p, .. }
            && p == payload)
}

/// Whether a chunk with the number `n` is among what was handed on.
pub open spec fn handed_on(sent: Seq<CommitModel>, n: u64) -> bool {
    exists|i: int| 0 <= i < sent.len() && (#[trigger] sent[i]).sequence_number == n
}

/// Whether no number was handed on twice.
pub open spec fn handed_on_once(sent: Seq<CommitModel>) -> bool {
    forall|i: int, j: int|
        0 <= i < j < sent.len() ==> (#[trigger] sent[i]).sequence_number != (
        #[trigger] sent[j]).sequence_number
}

/// Whether `c` was made of one of the chunks that came.
pub open spec fn made_of(steps: Seq<OrdererStep>, c: CommitModel) -> bool {
    exists|payload: Seq<u8>| #[trigger]
        came(steps, payload) && c == ordering::commit_of(payload)
}

/// What holds at any time: every number that came was handed on or is held, those
/// before the one that is due were handed on unless they were passed over, and
/// whatever is there came.
spec fn kept(m: OrdererModel, steps: Seq<OrdererStep>) -> bool {
    &&& m.wf()
    &&& !m.closed
    &&& forall|n: u64|
        n < m.next ==> (#[trigger] m.missed.contains(n) || handed_on(m.sent, n))
    &&& forall|p: Seq<u8>| #[trigger]
        came(steps, p) ==> {
            let n = ordering::sequence_of(p);
            handed_on(m.sent, n) || ordering::bears(m.late, n) || ordering::bears(m.waiting, n)
        }
    &&& forall|i: int| 0 <= i < m.sent.len() ==> made_of(steps, #[trigger] m.sent[i])
    &&& forall|i: int| 0 <= i < m.late.len() ==> came(steps, #[trigger] m.late[i])
    &&& forall|i: int| 0 <= i < m.waiting.len() ==> came(steps, #[trigger] m.waiting[i])
}

/// What holds besides where the largest number does not come: what was handed on
/// lies before the number that is due, was not passed over, and left once.
spec fn kept_once(m: OrdererModel) -> bool {
    &&& handed_on_once(m.sent)
    &&& forall|i: int|
        0 <= i < m.sent.len() ==> {
            let n = (#[trigger] m.sent[i]).sequence_number;
            n < m.next && !m.missed.contains(n)
        }
    &&& forall|i: int|
        0 <= i < m.waiting.len() ==> ordering::sequence_of(#[trigger] m.waiting[i]) < u64::MAX
}

/// One more entry is there, and the others stay.
proof fn lemma_one_more_handed_on(sent: Seq<CommitModel>, c: CommitModel)
    ensures
        forall|n: u64| #[trigger]
            handed_on(sent.push(c), n) <==> (handed_on(sent, n) || n == c.sequence_number),
{
    let more = sent.push(c);
    assert forall|n: u64| #[trigger]
        handed_on(more, n) <==> (handed_on(sent, n) || n == c.sequence_number) by {
        if handed_on(sent, n) {
            let i = choose|i: int| 0 <= i < sent.len() && (#[trigger] sent[i]).sequence_number == n;
            assert(more[i] == sent[i]);
        }
        assert(more[sent.len() as int] == c);
        if handed_on(more, n) {
            let i = choose|i: int| 0 <= i < more.len() && (#[trigger] more[i]).sequence_number == n;
            if i < sent.len() {
                assert(more[i] == sent[i]);
            }
        }
    }
}

/// What the chunks without the first one bear.
proof fn lemma_bears_rest(chunks: Seq<Seq<u8>>)
    requires
        chunks.len() > 0,
    ensures
        forall|n: u64| #[trigger]
            ordering::bears(chunks, n) ==> n == ordering::sequence_of(chunks[0])
                || ordering::bears(chunks.drop_first(), n),
{
    assert forall|n: u64| #[trigger] ordering::bears(chunks, n) implies n == ordering::sequence_of(
        chunks[0],
    ) || ordering::bears(chunks.drop_first(), n) by {
        let i = choose|i: int|
            0 <= i < chunks.len() && ordering::sequence_of(#[trigger] chunks[i]) == n;
        if i > 0 {
            assert(chunks.drop_first()[i - 1] == chunks[i]);
        }
    }
}

/// Handing the first waiting chunk on keeps what holds.
proof fn lemma_kept_emit(m: OrdererModel, steps: Seq<OrdererStep>)
    requires
        kept(m, steps),
        m.waiting.len() > 0,
    ensures
        kept(m.emit_first(), steps),
        kept_once(m) ==> kept_once(m.emit_first()),
{
    let after = m.emit_first();
    let first = m.waiting[0];
    let seq = ordering::sequence_of(first);
    ordering::lemma_emit_keeps_order(m);
    lemma_one_more_handed_on(m.sent, ordering::commit_of(first));
    lemma_bears_rest(m.waiting);
    assert(came(steps, first));
    if seq == u64::MAX {
        if m.waiting.len() > 1 {
            assert(ordering::sequence_of(m.waiting[0]) < ordering::sequence_of(m.waiting[1]));
        }
    } else {
        assert forall|n: u64| n < after.next implies (#[trigger] after.missed.contains(n)
            || handed_on(after.sent, n)) by {
            if n < m.next {
                assert(m.missed.contains(n) || handed_on(m.sent, n));
            } else if n < seq {
                assert(gaps::between(m.next, seq).contains(n));
            }
        }
        assert forall|i: int| 0 <= i < after.waiting.len() implies came(
            steps,
            #[trigger] after.waiting[i],
        ) by {
            assert(after.waiting[i] == m.waiting[i + 1]);
        }
    }
    assert forall|i: int| 0 <= i < after.sent.len() implies made_of(
        steps,
        #[trigger] after.sent[i],
    ) by {
        if i < m.sent.len() {
            assert(after.sent[i] == m.sent[i]);
        }
    }
    assert forall|p: Seq<u8>| #[trigger] came(steps, p) implies {
        let n = ordering::sequence_of(p);
        handed_on(after.sent, n) || ordering::bears(after.late, n) || ordering::bears(
            after.waiting,
            n,
        )
    } by {
        let n = ordering::sequence_of(p);
        assert(handed_on(m.sent, n) || ordering::bears(m.late, n) || ordering::bears(m.waiting, n));
        assert(handed_on(after.sent, n) <==> (handed_on(m.sent, n) || n == seq));
        if seq == u64::MAX {
            assert(!ordering::bears(m.waiting.drop_first(), n));
        }
    }
    if kept_once(m) {
        assert forall|i: int| 0 <= i < after.sent.len() implies {
            let n = (#[trigger] after.sent[i]).sequence_number;
            n < after.next && !after.missed.contains(n)
        } by {
            if i < m.sent.len() {
                assert(after.sent[i] == m.sent[i]);
            } else if m.missed.contains(seq) {
                assert(seq < m.next);
            }
        }
        assert forall|i: int, j: int| 0 <= i < j < after.sent.len() implies (
        #[trigger] after.sent[i]).sequence_number != (#[trigger] after.sent[j]).sequence_number by {
            assert(after.sent[i] == m.sent[i]);
            if j < m.sent.len() {
                assert(after.sent[j] == m.sent[j]);
            }
        }
        assert forall|i: int| 0 <= i < after.waiting.len() implies ordering::sequence_of(
            #[trigger] after.waiting[i],
        ) < u64::MAX by {
            assert(after.waiting[i] == m.waiting[i + 1]);
        }
    }
}

/// Handing the first late chunk on keeps what holds.
proof fn lemma_kept_late(m: OrdererModel, steps: Seq<OrdererStep>)
    requires
        kept(m, steps),
        m.late.len() > 0,
    ensures
        kept(m.emit_late(), steps),
        kept_once(m) ==> kept_once(m.emit_late()),
{
    let after = m.emit_late();
    let first = m.late[0];
    let seq = ordering::sequence_of(first);
    ordering::lemma_late_keeps_order(m);
    lemma_one_more_handed_on(m.sent, ordering::commit_of(first));
    lemma_bears_rest(m.late);
    assert(came(steps, first));
    assert forall|n: u64| n < after.next implies (#[trigger] after.missed.contains(n) || handed_on(
        after.sent,
        n,
    )) by {
        assert(m.missed.contains(n) || handed_on(m.sent, n));
    }
    assert forall|i: int| 0 <= i < after.sent.len() implies made_of(
        steps,
        #[trigger] after.sent[i],
    ) by {
        if i < m.sent.len() {
            assert(after.sent[i] == m.sent[i]);
        }
    }
    assert forall|i: int| 0 <= i < after.late.len() implies came(steps, #[trigger] after.late[i]) by {
        assert(after.late[i] == m.late[i + 1]);
    }
    if kept_once(m) {
        assert forall|i: int| 0 <= i < after.sent.len() implies {
            let n = (#[trigger] after.sent[i]).sequence_number;
            n < after.next && !after.missed.contains(n)
        } by {
            if i < m.sent.len() {
                assert(after.sent[i] == m.sent[i]);
            }
        }
        assert forall|i: int, j: int| 0 <= i < j < after.sent.len() implies (
        #[trigger] after.sent[i]).sequence_number != (#[trigger] after.sent[j]).sequence_number by {
            assert(after.sent[i] == m.sent[i]);
            if j < m.sent.len() {
                assert(after.sent[j] == m.sent[j]);
            }
        }
    }
}

/// A run keeps what holds.
proof fn lemma_kept_run(m: OrdererModel, steps: Seq<OrdererStep>)
    requires
        kept(m, steps),
    ensures
        kept(m.emit_run(), steps),
        kept_once(m) ==> kept_once(m.emit_run()),
    decreases m.held(),
{
    if m.waiting.len() > 0 && ordering::sequence_of(m.waiting[0]) == m.next && m.has_room() {
        lemma_kept_emit(m, steps);
        lemma_kept_run(m.emit_first(), steps);
    }
}

/// Handing a chunk on out of turn keeps what holds.
proof fn lemma_kept_force(m: OrdererModel, steps: Seq<OrdererStep>)
    requires
        kept(m, steps),
    ensures
        kept(m.force_emit(), steps),
        kept_once(m) ==> kept_once(m.force_emit()),
{
    if m.held() > 0 && m.has_room() {
        if m.late.len() > 0 {
            lemma_kept_late(m, steps);
            lemma_kept_run(m.emit_late(), steps);
        } else {
            lemma_kept_emit(m, steps);
            lemma_kept_run(m.emit_first(), steps);
        }
    }
}

/// What came in the earlier steps, and in one more.
proof fn lemma_came_more(steps: Seq<OrdererStep>, step: OrdererStep)
    ensures
        forall|p: Seq<u8>| #[trigger]
            came(steps.push(step), p) <==> (came(steps, p) || (step matches OrdererStep::Push {
                payload,
                ..
            } && payload == p)),
{
    let more = steps.push(step);
    assert forall|p: Seq<u8>| #[trigger]
        came(more, p) <==> (came(steps, p) || (step matches OrdererStep::Push { payload, .. }
            && payload == p)) by {
        if came(steps, p) {
            let k = choose|k: int|
                0 <= k < steps.len() && (#[trigger] steps[k] matches OrdererStep::Push {
                    payload: q,
                    ..
                } && q == p);
            assert(more[k] == steps[k]);
        }
        assert(more[steps.len() as int] == step);
        if came(more, p) {
            let k = choose|k: int|
                0 <= k < more.len() && (#[trigger] more[k] matches OrdererStep::Push {
                    payload: q,
                    ..
                } && q == p);
            if k < steps.len() {
                assert(more[k] == steps[k]);
            }
        }
    }
}

/// A chunk that is put in its place is there, beside the others.
proof fn lemma_bears_inserted(chunks: Seq<Seq<u8>>, k: int, payload: Seq<u8>)
    requires
        0 <= k <= chunks.len(),
    ensures
        ordering::bears(chunks.insert(k, payload), ordering::sequence_of(payload)),
        forall|n: u64| #[trigger]
            ordering::bears(chunks, n) ==> ordering::bears(chunks.insert(k, payload), n),
{
    let after = chunks.insert(k, payload);
    assert(after[k] == payload);
    assert forall|n: u64| #[trigger] ordering::bears(chunks, n) implies ordering::bears(
        after,
        n,
    ) by {
        let i = choose|i: int|
            0 <= i < chunks.len() && ordering::sequence_of(#[trigger] chunks[i]) == n;
        assert(after[if i < k {
            i
        } else {
            i + 1
        }] == chunks[i]);
    }
}

/// Taking a chunk in keeps what holds.
#[verifier::spinoff_prover]
#[verifier::rlimit(40)]
proof fn lemma_kept_insert(
    m: OrdererModel,
    steps: Seq<OrdererStep>,
    payload: Seq<u8>,
    now_ns: u64,
)
    requires
        kept(m, steps),
    ensures
        kept(m.insert(payload), steps.push(OrdererStep::Push { payload, now_ns })),
        kept_once(m) && ordering::sequence_of(payload) < u64::MAX ==> kept_once(m.insert(payload)),
{
    let step = OrdererStep::Push { payload, now_ns };
    let more = steps.push(step);
    let after = m.insert(payload);
    let seq = ordering::sequence_of(payload);
    ordering::lemma_insert_keeps_order(m, payload);
    lemma_came_more(steps, step);
    if !m.is_repeat(payload) {
        if seq < m.next {
            ordering::lemma_rank(m.late, seq);
            lemma_bears_inserted(m.late, ordering::rank(m.late, seq), payload);
        } else {
            ordering::lemma_rank(m.waiting, seq);
            lemma_bears_inserted(m.waiting, ordering::rank(m.waiting, seq), payload);
        }
    } else if seq < m.next {
        assert(m.missed.contains(seq) || handed_on(m.sent, seq));
    }
    assert forall|i: int| 0 <= i < after.sent.len() implies made_of(
        more,
        #[trigger] after.sent[i],
    ) by {
        assert(made_of(steps, m.sent[i]));
        let p = choose|p: Seq<u8>| #[trigger]
            came(steps, p) && m.sent[i] == ordering::commit_of(p);
        assert(came(more, p));
    }
    assert forall|i: int| 0 <= i < after.late.len() implies came(more, #[trigger] after.late[i]) by {
        let k = ordering::rank(m.late, seq);
        if !m.is_repeat(payload) && seq < m.next {
            assert(after.late[i] == (if i < k {
                m.late[i]
            } else if i == k {
                payload
            } else {
                m.late[i - 1]
            }));
        } else {
            assert(after.late[i] == m.late[i]);
        }
    }
    assert forall|i: int| 0 <= i < after.waiting.len() implies came(
        more,
        #[trigger] after.waiting[i],
    ) && (kept_once(m) && seq < u64::MAX ==> ordering::sequence_of(after.waiting[i])
        < u64::MAX) by {
        let k = ordering::rank(m.waiting, seq);
        if !m.is_repeat(payload) && seq >= m.next {
            assert(after.waiting[i] == (if i < k {
                m.waiting[i]
            } else if i == k {
                payload
            } else {
                m.waiting[i - 1]
            }));
        } else {
            assert(after.waiting[i] == m.waiting[i]);
        }
    }
}

/// A step keeps what holds.
proof fn lemma_kept_step(m: OrdererModel, steps: Seq<OrdererStep>, step: OrdererStep)
    requires
        kept(m, steps),
    ensures
        kept(after_step(m, step), steps.push(step)),
        kept_once(m) && !(step matches OrdererStep::Push { payload, .. }
            && ordering::sequence_of(payload) == u64::MAX) ==> kept_once(after_step(m, step)),
{
    match step {
        OrdererStep::Push { payload, now_ns } => {
            let here = OrdererModel { clock: now_ns, ..m };
            assert(kept(here, steps));
            lemma_kept_insert(here, steps, payload, now_ns);
            lemma_kept_run(here.insert(payload), steps.push(step));
            lemma_kept_force(here.insert(payload).emit_run(), steps.push(step));
        },
        OrdererStep::Look { timeout_ns, now_ns } => {
            let here = OrdererModel { clock: now_ns, ..m };
            lemma_came_more(steps, step);
            assert forall|i: int| 0 <= i < here.sent.len() implies made_of(
                steps.push(step),
                #[trigger] here.sent[i],
            ) by {
                assert(made_of(steps, m.sent[i]));
                let p = choose|p: Seq<u8>| #[trigger]
                    came(steps, p) && m.sent[i] == ordering::commit_of(p);
                assert(came(steps.push(step), p));
            }
            assert(kept(here, steps.push(step)));
            lemma_kept_force(here, steps.push(step));
        },
    }
}

/// Whether the largest number does not come in the steps.
pub open spec fn largest_stays_out(steps: Seq<OrdererStep>) -> bool {
    forall|k: int|
        0 <= k < steps.len() ==> !(#[trigger] steps[k] matches OrdererStep::Push { payload, .. }
            && ordering::sequence_of(payload) == u64::MAX)
}

/// What holds before the first step.
proof fn lemma_kept_at_first(m: OrdererModel, steps: Seq<OrdererStep>)
    requires
        m.is_idle(),
        m.wf(),
        !m.closed,
        m.missed == gaps::between(0, m.next),
        m.sent.len() == 0,
        steps.len() == 0,
    ensures
        kept(m, steps),
        kept_once(m),
{
}

/// What holds after all the steps.
proof fn lemma_kept(m: OrdererModel, steps: Seq<OrdererStep>)
    requires
        m.is_idle(),
        m.wf(),
        !m.closed,
        m.missed == gaps::between(0, m.next),
        m.sent.len() == 0,
    ensures
        kept(after_steps(m, steps), steps),
        largest_stays_out(steps) ==> kept_once(after_steps(m, steps)),
    decreases steps.len(),
{
    if steps.len() == 0 {
        lemma_kept_at_first(m, steps);
    } else {
        let rest = steps.drop_last();
        lemma_kept(m, rest);
        lemma_kept_step(after_steps(m, rest), rest, steps.last());
        assert(rest.push(steps.last()) =~= steps);
        if largest_stays_out(steps) {
            assert forall|k: int| 0 <= k < rest.len() implies !(
            #[trigger] rest[k] matches OrdererStep::Push { payload, .. }
                && ordering::sequence_of(payload) == u64::MAX) by {
                assert(rest[k] == steps[k]);
            }
            assert(largest_stays_out(rest));
            assert(steps.last() == steps[steps.len() - 1]);
        }
    }
}

/// No chunk is lost. Chunks come in any order and however often, and gaps are given
/// up in between, be it for their age or because too many chunks are held. Once the
/// input ended and what was held was handed on, every number that came was handed
/// on, each with a chunk that came with it, and nothing is held any more. So a chunk
/// that comes after its number was passed over is handed on, too.
///
/// No number is handed on twice, where the largest one does not come, after which
/// the numbers start over.
pub proof fn lemma_nothing_is_lost(m: OrdererModel, steps: Seq<OrdererStep>)
    requires
        m.is_idle(),
        m.wf(),
        !m.closed,
        m.missed == gaps::between(0, m.next),
        m.sent.len() == 0,
    ensures
        ({
            let end = after_steps(m, steps).drain();
            &&& end.is_idle()
            &&& forall|p: Seq<u8>| #[trigger]
                came(steps, p) ==> handed_on(end.sent, ordering::sequence_of(p))
            &&& forall|i: int| 0 <= i < end.sent.len() ==> made_of(steps, #[trigger] end.sent[i])
            &&& largest_stays_out(steps) ==> handed_on_once(end.sent)
        }),
{
    let before = after_steps(m, steps);
    let end = before.drain();
    let all = before.late + before.waiting;
    let held = all.map_values(|p: Seq<u8>| ordering::commit_of(p));
    let sent = before.sent;
    lemma_kept(m, steps);
    ordering::lemma_all_ascending(before, all);
    let done = sent.len() as int;
    let first = before.late.len() as int;
    assert(end.sent == sent + held);
    assert forall|i: int| 0 <= i < all.len() implies #[trigger] end.sent[done + i]
        == ordering::commit_of(all[i]) && came(steps, all[i]) by {
        if i < first {
            assert(all[i] == before.late[i]);
        } else {
            assert(all[i] == before.waiting[i - first]);
        }
    }
    assert forall|p: Seq<u8>| #[trigger] came(steps, p) implies handed_on(
        end.sent,
        ordering::sequence_of(p),
    ) by {
        let n = ordering::sequence_of(p);
        if handed_on(sent, n) {
            let i = choose|i: int| 0 <= i < sent.len() && (#[trigger] sent[i]).sequence_number == n;
            assert(end.sent[i] == sent[i]);
        } else if ordering::bears(before.late, n) {
            let i = choose|i: int|
                0 <= i < first && ordering::sequence_of(#[trigger] before.late[i]) == n;
            assert(all[i] == before.late[i]);
            assert(end.sent[done + i].sequence_number == n);
        } else {
            let i = choose|i: int|
                0 <= i < before.waiting.len() && ordering::sequence_of(
                    #[trigger] before.waiting[i],
                ) == n;
            assert(all[first + i] == before.waiting[i]);
            assert(end.sent[done + (first + i)].sequence_number == n);
        }
    }
    assert forall|i: int| 0 <= i < end.sent.len() implies made_of(steps, #[trigger] end.sent[i]) by {
        if i < done {
            assert(end.sent[i] == sent[i]);
        } else {
            assert(end.sent[done + (i - done)] == ordering::commit_of(all[i - done]));
            assert(came(steps, all[i - done]));
        }
    }
    if largest_stays_out(steps) {
        assert forall|i: int, j: int| 0 <= i < j < end.sent.len() implies (
        #[trigger] end.sent[i]).sequence_number != (#[trigger] end.sent[j]).sequence_number by {
            if i < done {
                assert(end.sent[i] == sent[i]);
            } else {
                assert(end.sent[done + (i - done)] == ordering::commit_of(all[i - done]));
            }
            if j < done {
                assert(end.sent[j] == sent[j]);
            } else {
                let k = j - done;
                assert(end.sent[done + k] == ordering::commit_of(all[k]));
                if k < first {
                    assert(all[k] == before.late[k]);
                    assert(before.missed.contains(ordering::sequence_of(before.late[k])));
                } else {
                    assert(all[k] == before.waiting[k - first]);
                }
                if i >= done {
                    assert(ordering::sequence_of(all[i - done]) < ordering::sequence_of(all[k]));
                }
            }
        }
    }
}

/// The sequence number of the chunk that comes in a step, and when.
pub open spec fn pushes(step: OrdererStep, n: u64, now_ns: u64) -> bool {
    step matches OrdererStep::Push { payload, now_ns: t } && ordering::sequence_of(payload) == n && t
        == now_ns
}

/// Whether the `k`-th step is the first in which a chunk with the number `n` comes,
/// and it comes at `at_ns`.
pub open spec fn first_comes(steps: Seq<OrdererStep>, n: u64, k: int, at_ns: u64) -> bool {
    &&& 0 <= k < steps.len()
    &&& pushes(steps[k], n, at_ns)
    &&& forall|j: int, t: u64| 0 <= j < k ==> !#[trigger] pushes(steps[j], n, t)
}

/// Whether every chunk that is held counts as waiting since its number first came.
spec fn timed(m: OrdererModel, steps: Seq<OrdererStep>) -> bool {
    &&& forall|i: int, k: int, t: u64|
        0 <= i < m.waiting.len() && #[trigger] first_comes(
            steps,
            ordering::sequence_of(#[trigger] m.waiting[i]),
            k,
            t,
        ) ==> m.since[i] == t
    &&& forall|i: int, k: int, t: u64|
        0 <= i < m.late.len() && #[trigger] first_comes(
            steps,
            ordering::sequence_of(#[trigger] m.late[i]),
            k,
            t,
        ) ==> m.late_since[i] == t
}

/// Handing the first waiting chunk on keeps the times of the others.
proof fn lemma_timed_emit(m: OrdererModel, steps: Seq<OrdererStep>)
    requires
        m.wf(),
        timed(m, steps),
        m.waiting.len() > 0,
        ordering::sequence_of(m.waiting[0]) < u64::MAX,
    ensures
        timed(m.emit_first(), steps),
{
    let after = m.emit_first();
    assert forall|i: int, k: int, t: u64|
        0 <= i < after.waiting.len() && #[trigger] first_comes(
            steps,
            ordering::sequence_of(#[trigger] after.waiting[i]),
            k,
            t,
        ) implies after.since[i] == t by {
        assert(after.waiting[i] == m.waiting[i + 1]);
        assert(after.since[i] == m.since[i + 1]);
    }
}

/// Handing the first late chunk on keeps the times of the others.
proof fn lemma_timed_late(m: OrdererModel, steps: Seq<OrdererStep>)
    requires
        m.wf(),
        timed(m, steps),
        m.late.len() > 0,
    ensures
        timed(m.emit_late(), steps),
{
    let after = m.emit_late();
    assert forall|i: int, k: int, t: u64|
        0 <= i < after.late.len() && #[trigger] first_comes(
            steps,
            ordering::sequence_of(#[trigger] after.late[i]),
            k,
            t,
        ) implies after.late_since[i] == t by {
        assert(after.late[i] == m.late[i + 1]);
        assert(after.late_since[i] == m.late_since[i + 1]);
    }
}

/// A run keeps the times.
proof fn lemma_timed_run(m: OrdererModel, steps: Seq<OrdererStep>)
    requires
        kept(m, steps),
        kept_once(m),
        timed(m, steps),
    ensures
        timed(m.emit_run(), steps),
    decreases m.held(),
{
    if m.waiting.len() > 0 && ordering::sequence_of(m.waiting[0]) == m.next && m.has_room() {
        lemma_kept_emit(m, steps);
        lemma_timed_emit(m, steps);
        lemma_timed_run(m.emit_first(), steps);
    }
}

/// Handing a chunk on out of turn keeps the times.
proof fn lemma_timed_force(m: OrdererModel, steps: Seq<OrdererStep>)
    requires
        kept(m, steps),
        kept_once(m),
        timed(m, steps),
    ensures
        timed(m.force_emit(), steps),
{
    if m.held() > 0 && m.has_room() {
        if m.late.len() > 0 {
            lemma_kept_late(m, steps);
            lemma_timed_late(m, steps);
            lemma_timed_run(m.emit_late(), steps);
        } else {
            lemma_kept_emit(m, steps);
            lemma_timed_emit(m, steps);
            lemma_timed_run(m.emit_first(), steps);
        }
    }
}

/// What came first among more steps came first among fewer, if it was there.
proof fn lemma_first_comes_more(
    steps: Seq<OrdererStep>,
    step: OrdererStep,
    n: u64,
    k: int,
    t: u64,
)
    requires
        first_comes(steps.push(step), n, k, t),
    ensures
        k < steps.len() ==> first_comes(steps, n, k, t),
        k == steps.len() ==> pushes(step, n, t) && forall|p: Seq<u8>| #[trigger]
            came(steps, p) ==> ordering::sequence_of(p) != n,
{
    let more = steps.push(step);
    if k < steps.len() {
        assert(more[k] == steps[k]);
        assert forall|j: int, t2: u64| 0 <= j < k implies !#[trigger] pushes(steps[j], n, t2) by {
            assert(more[j] == steps[j]);
            assert(!pushes(more[j], n, t2));
        }
    } else {
        assert(more[k] == step);
        assert forall|p: Seq<u8>| #[trigger] came(steps, p) implies ordering::sequence_of(p)
            != n by {
            let j = choose|j: int|
                0 <= j < steps.len() && (#[trigger] steps[j] matches OrdererStep::Push {
                    payload: q,
                    ..
                } && q == p);
            assert(more[j] == steps[j]);
            match steps[j] {
                OrdererStep::Push { payload, now_ns } => {
                    assert(!pushes(more[j], n, now_ns));
                },
                OrdererStep::Look { .. } => {},
            }
        }
    }
}

/// Taking a chunk in at the time of the step keeps the times.
#[verifier::spinoff_prover]
#[verifier::rlimit(50)]
proof fn lemma_timed_insert(
    m: OrdererModel,
    steps: Seq<OrdererStep>,
    payload: Seq<u8>,
    now_ns: u64,
)
    requires
        kept(m, steps),
        kept_once(m),
        timed(m, steps),
        m.clock == now_ns,
    ensures
        timed(m.insert(payload), steps.push(OrdererStep::Push { payload, now_ns })),
{
    let step = OrdererStep::Push { payload, now_ns };
    let more = steps.push(step);
    let after = m.insert(payload);
    let seq = ordering::sequence_of(payload);
    ordering::lemma_rank(m.waiting, seq);
    ordering::lemma_rank(m.late, seq);
    let fresh = !m.is_repeat(payload);
    assert(fresh ==> forall|p: Seq<u8>| #[trigger]
        came(steps, p) ==> ordering::sequence_of(p) != seq) by {
        if fresh {
            assert forall|p: Seq<u8>| #[trigger] came(steps, p) implies ordering::sequence_of(p)
                != seq by {
                if ordering::sequence_of(p) == seq {
                    if handed_on(m.sent, seq) {
                        let i = choose|i: int|
                            0 <= i < m.sent.len() && (#[trigger] m.sent[i]).sequence_number == seq;
                        assert(m.sent[i].sequence_number < m.next);
                    } else if ordering::bears(m.late, seq) {
                        let i = choose|i: int|
                            0 <= i < m.late.len() && ordering::sequence_of(#[trigger] m.late[i])
                                == seq;
                        assert(m.missed.contains(ordering::sequence_of(m.late[i])));
                    } else {
                        let i = choose|i: int|
                            0 <= i < m.waiting.len() && ordering::sequence_of(
                                #[trigger] m.waiting[i],
                            ) == seq;
                        assert(ordering::sequence_of(m.waiting[i]) >= m.next);
                    }
                }
            }
        }
    }
    assert forall|i: int, k: int, t: u64|
        0 <= i < after.waiting.len() && #[trigger] first_comes(
            more,
            ordering::sequence_of(#[trigger] after.waiting[i]),
            k,
            t,
        ) implies after.since[i] == t by {
        let r = ordering::rank(m.waiting, seq);
        let n = ordering::sequence_of(after.waiting[i]);
        lemma_first_comes_more(steps, step, n, k, t);
        let inserted = fresh && seq >= m.next;
        if inserted && i == r {
            lemma_no_earlier(steps, step, n, k, t);
        } else {
            let i0 = if inserted && i > r {
                i - 1
            } else {
                i
            };
            assert(after.waiting[i] == m.waiting[i0]);
            assert(after.since[i] == m.since[i0]);
            assert(came(steps, m.waiting[i0]));
        }
    }
    assert forall|i: int, k: int, t: u64|
        0 <= i < after.late.len() && #[trigger] first_comes(
            more,
            ordering::sequence_of(#[trigger] after.late[i]),
            k,
            t,
        ) implies after.late_since[i] == t by {
        let r = ordering::rank(m.late, seq);
        let n = ordering::sequence_of(after.late[i]);
        lemma_first_comes_more(steps, step, n, k, t);
        let inserted = fresh && seq < m.next;
        if inserted && i == r {
            lemma_no_earlier(steps, step, n, k, t);
        } else {
            let i0 = if inserted && i > r {
                i - 1
            } else {
                i
            };
            assert(after.late[i] == m.late[i0]);
            assert(after.late_since[i] == m.late_since[i0]);
            assert(came(steps, m.late[i0]));
        }
    }
}

/// Where nothing with the number came before, it first comes now.
proof fn lemma_no_earlier(steps: Seq<OrdererStep>, step: OrdererStep, n: u64, k: int, t: u64)
    requires
        first_comes(steps.push(step), n, k, t),
        forall|p: Seq<u8>| #[trigger] came(steps, p) ==> ordering::sequence_of(p) != n,
    ensures
        k == steps.len(),
        pushes(step, n, t),
{
    let more = steps.push(step);
    if k < steps.len() {
        assert(more[k] == steps[k]);
        match steps[k] {
            OrdererStep::Push { payload, now_ns } => {
                assert(came(steps, payload));
            },
            OrdererStep::Look { .. } => {},
        }
    } else {
        assert(more[k] == step);
    }
}

/// The times are right after all the steps.
#[verifier::spinoff_prover]
#[verifier::rlimit(50)]
proof fn lemma_timed(m: OrdererModel, steps: Seq<OrdererStep>)
    requires
        m.is_idle(),
        m.wf(),
        !m.closed,
        m.missed == gaps::between(0, m.next),
        m.sent.len() == 0,
        largest_stays_out(steps),
    ensures
        timed(after_steps(m, steps), steps),
    decreases steps.len(),
{
    if steps.len() > 0 {
        let rest = steps.drop_last();
        let step = steps.last();
        assert(rest.push(step) =~= steps);
        assert(largest_stays_out(rest)) by {
            assert forall|k: int| 0 <= k < rest.len() implies !(
            #[trigger] rest[k] matches OrdererStep::Push { payload, .. }
                && ordering::sequence_of(payload) == u64::MAX) by {
                assert(rest[k] == steps[k]);
            }
        }
        assert(step == steps[steps.len() - 1]);
        lemma_timed(m, rest);
        lemma_kept(m, rest);
        let before = after_steps(m, rest);
        match step {
            OrdererStep::Push { payload, now_ns } => {
                let here = OrdererModel { clock: now_ns, ..before };
                assert(kept(here, rest));
                lemma_timed_insert(here, rest, payload, now_ns);
                lemma_kept_insert(here, rest, payload, now_ns);
                let taken = here.insert(payload);
                lemma_timed_run(taken, steps);
                lemma_kept_run(taken, steps);
                lemma_timed_force(taken.emit_run(), steps);
            },
            OrdererStep::Look { timeout_ns, now_ns } => {
                let here = OrdererModel { clock: now_ns, ..before };
                assert forall|i: int, k: int, t: u64|
                    0 <= i < here.waiting.len() && #[trigger] first_comes(
                        steps,
                        ordering::sequence_of(#[trigger] here.waiting[i]),
                        k,
                        t,
                    ) implies here.since[i] == t by {
                    lemma_first_comes_more(
                        rest,
                        step,
                        ordering::sequence_of(here.waiting[i]),
                        k,
                        t,
                    );
                }
                assert forall|i: int, k: int, t: u64|
                    0 <= i < here.late.len() && #[trigger] first_comes(
                        steps,
                        ordering::sequence_of(#[trigger] here.late[i]),
                        k,
                        t,
                    ) implies here.late_since[i] == t by {
                    lemma_first_comes_more(rest, step, ordering::sequence_of(here.late[i]), k, t);
                }
                assert(kept(here, steps)) by {
                    lemma_look_keeps(before, rest, timeout_ns, now_ns);
                }
                lemma_timed_force(here, steps);
            },
        }
    }
}

/// What holds stays when time goes by.
proof fn lemma_look_keeps(
    m: OrdererModel,
    steps: Seq<OrdererStep>,
    timeout_ns: u64,
    now_ns: u64,
)
    requires
        kept(m, steps),
    ensures
        kept(
            OrdererModel { clock: now_ns, ..m },
            steps.push(OrdererStep::Look { timeout_ns, now_ns }),
        ),
{
    let step = OrdererStep::Look { timeout_ns, now_ns };
    let here = OrdererModel { clock: now_ns, ..m };
    lemma_came_more(steps, step);
    assert forall|i: int| 0 <= i < here.sent.len() implies made_of(
        steps.push(step),
        #[trigger] here.sent[i],
    ) by {
        assert(made_of(steps, m.sent[i]));
        let p = choose|p: Seq<u8>| #[trigger] came(steps, p) && m.sent[i] == ordering::commit_of(p);
        assert(came(steps.push(step), p));
    }
}

/// A gap is given up for the age of the chunk behind it. When gaps are looked at, the
/// chunk with the lowest number of those that are held decides: if it first came more
/// than the timeout ago, and there is room, it is handed on, and chunks that follow it
/// may leave with it; if it came later than that, or there is no room, nothing is
/// handed on. However many chunks came since does not matter.
///
/// `n` is that lowest number, which first came in the `k`-th step at `at_ns`. This is
/// stated of numbers below the largest one, after which they start over.
pub proof fn lemma_gap_is_given_up_in_time(
    m: OrdererModel,
    steps: Seq<OrdererStep>,
    n: u64,
    k: int,
    at_ns: u64,
    timeout_ns: u64,
    now_ns: u64,
)
    requires
        m.is_idle(),
        m.wf(),
        !m.closed,
        m.missed == gaps::between(0, m.next),
        m.sent.len() == 0,
        largest_stays_out(steps),
        ({
            let before = after_steps(m, steps);
            let all = before.late + before.waiting;
            &&& exists|i: int| 0 <= i < all.len() && ordering::sequence_of(#[trigger] all[i]) == n
            &&& forall|i: int|
                0 <= i < all.len() ==> ordering::sequence_of(#[trigger] all[i]) >= n
        }),
        first_comes(steps, n, k, at_ns),
    ensures
        ({
            let before = after_steps(m, steps);
            let after = after_step(before, OrdererStep::Look { timeout_ns, now_ns });
            let room = before.sent.len() < before.capacity;
            if at_ns + timeout_ns < now_ns && room {
                &&& after.sent.len() > before.sent.len()
                &&& after.sent.take(before.sent.len() as int) == before.sent
                &&& after.sent[before.sent.len() as int].sequence_number == n
            } else {
                &&& after.sent == before.sent
                &&& after.waiting == before.waiting
                &&& after.late == before.late
                &&& after.next == before.next
            }
        }),
{
    let before = after_steps(m, steps);
    let all = before.late + before.waiting;
    let here = OrdererModel { clock: now_ns, ..before };
    lemma_kept(m, steps);
    lemma_timed(m, steps);
    ordering::lemma_all_ascending(before, all);
    let i = choose|i: int| 0 <= i < all.len() && ordering::sequence_of(#[trigger] all[i]) == n;
    if i > 0 {
        assert(ordering::sequence_of(all[0]) < ordering::sequence_of(all[i]));
    }
    assert(ordering::sequence_of(all[0]) == n);
    if before.late.len() > 0 {
        assert(all[0] == before.late[0]);
        assert(first_comes(steps, ordering::sequence_of(before.late[0]), k, at_ns));
        assert(before.late_since[0] == at_ns);
    } else {
        assert(all[0] == before.waiting[0]);
        assert(first_comes(steps, ordering::sequence_of(before.waiting[0]), k, at_ns));
        assert(before.since[0] == at_ns);
    }
    if at_ns + timeout_ns < now_ns && before.sent.len() < before.capacity {
        let first = if before.late.len() > 0 {
            here.emit_late()
        } else {
            here.emit_first()
        };
        lemma_run_adds(first);
        let after = first.emit_run();
        assert(first.sent == before.sent.push(ordering::commit_of(all[0])));
        assert(after.sent.take(before.sent.len() as int) =~= before.sent) by {
            assert(after.sent.take(first.sent.len() as int).take(before.sent.len() as int)
                =~= after.sent.take(before.sent.len() as int));
            assert(first.sent.take(before.sent.len() as int) =~= before.sent);
        }
        assert(after.sent.take(first.sent.len() as int)[before.sent.len() as int]
            == first.sent[before.sent.len() as int]);
    }
}

/// A run adds to what was handed on, and counts what it adds.
proof fn lemma_run_adds(m: OrdererModel)
    ensures
        m.emit_run().sent.len() >= m.sent.len(),
        m.emit_run().sent.take(m.sent.len() as int) == m.sent,
        m.emit_run().emitted - m.emitted == m.emit_run().sent.len() - m.sent.len(),
        m.emit_run().received == m.received,
        m.emit_run().closed == m.closed,
        m.emit_run().capacity == m.capacity,
        m.emit_run().held() <= m.held(),
    decreases m.held(),
{
    if m.waiting.len() > 0 && ordering::sequence_of(m.waiting[0]) == m.next && m.has_room() {
        let next = m.emit_first();
        lemma_run_adds(next);
        let after = m.emit_run();
        assert(after.sent.take(next.sent.len() as int).take(m.sent.len() as int) =~= after.sent.take(
            m.sent.len() as int,
        ));
        assert(next.sent.take(m.sent.len() as int) =~= m.sent);
    } else {
        assert(m.sent.take(m.sent.len() as int) =~= m.sent);
    }
}

/// Handing a chunk on out of turn adds to what was handed on, and counts what it adds.
proof fn lemma_force_adds(m: OrdererModel)
    ensures
        m.force_emit().sent.len() >= m.sent.len(),
        m.force_emit().sent.take(m.sent.len() as int) == m.sent,
        m.force_emit().emitted - m.emitted == m.force_emit().sent.len() - m.sent.len(),
        m.force_emit().received == m.received,
        m.force_emit().closed == m.closed,
        m.force_emit().capacity == m.capacity,
        m.held() > 0 && m.has_room() ==> m.force_emit().held() < m.held(),
        m.held() == 0 || !m.has_room() ==> m.force_emit() == m,
{
    assert(m.sent.take(m.sent.len() as int) =~= m.sent);
    if m.held() > 0 && m.has_room() {
        let first = if m.late.len() > 0 {
            m.emit_late()
        } else {
            m.emit_first()
        };
        lemma_run_adds(first);
        let after = m.force_emit();
        assert(after.sent.take(first.sent.len() as int).take(m.sent.len() as int)
            =~= after.sent.take(m.sent.len() as int));
        assert(first.sent.take(m.sent.len() as int) =~= m.sent);
    }
}

/// What a push counts, and what it may hold: each chunk that comes counts as received,
/// each that is handed on as emitted. Never more than 512 chunks are held where there
/// is room to hand them on. What was handed on stays handed on.
pub proof fn lemma_pushes_are_counted(m: OrdererModel, payload: Seq<u8>)
    ensures
        ({
            let after = m.push(payload);
            &&& after.received == m.received + 1
            &&& after.sent.len() >= m.sent.len()
            &&& after.sent.take(m.sent.len() as int) == m.sent
            &&& after.emitted - m.emitted == after.sent.len() - m.sent.len()
            &&& after.closed == m.closed && after.capacity == m.capacity
            &&& m.wf() && m.held() <= 512 && !m.closed && after.sent.len() < m.capacity
                ==> after.held() <= 512
            &&& m.wf() && m.closed ==> after.sent == m.sent
        }),
{
    let taken = m.insert(payload);
    let run = taken.emit_run();
    let after = m.push(payload);
    lemma_run_adds(taken);
    lemma_force_adds(run);
    assert(run.sent.take(m.sent.len() as int) == m.sent);
    assert(after.sent.take(run.sent.len() as int).take(m.sent.len() as int) =~= after.sent.take(
        m.sent.len() as int,
    ));
    assert(after.sent.take(m.sent.len() as int) =~= m.sent);
    if m.wf() {
        ordering::lemma_rank(m.waiting, ordering::sequence_of(payload));
        ordering::lemma_rank(m.late, ordering::sequence_of(payload));
        assert(taken.held() <= m.held() + 1);
        if m.closed {
            assert(run == taken);
            assert(after.sent == m.sent);
        }
    }
}

/// At the end, what is held is handed on by sequence number, behind what was handed
/// on before, and counted. Without a receiver it is dropped.
pub proof fn lemma_drain_goes_by_number(m: OrdererModel)
    requires
        m.wf(),
    ensures
        ({
            let end = m.drain();
            let all = m.late + m.waiting;
            &&& end.is_idle()
            &&& end.received == m.received
            &&& m.closed ==> end.sent == m.sent && end.emitted == m.emitted
            &&& !m.closed ==> {
                &&& end.emitted == m.emitted + all.len()
                &&& end.sent.len() == m.sent.len() + all.len()
                &&& end.sent.take(m.sent.len() as int) == m.sent
                &&& forall|i: int|
                    0 <= i < all.len() ==> #[trigger] end.sent[m.sent.len() + i]
                        == ordering::commit_of(all[i])
                &&& forall|i: int, j: int|
                    m.sent.len() <= i < j < end.sent.len() ==> (
                    #[trigger] end.sent[i]).sequence_number < (
                    #[trigger] end.sent[j]).sequence_number
            }
        }),
{
    let end = m.drain();
    let all = m.late + m.waiting;
    ordering::lemma_all_ascending(m, all);
    if !m.closed {
        assert(end.sent.take(m.sent.len() as int) =~= m.sent);
        assert forall|i: int, j: int| m.sent.len() <= i < j < end.sent.len() implies (
        #[trigger] end.sent[i]).sequence_number < (#[trigger] end.sent[j]).sequence_number by {
            let a = i - m.sent.len();
            let b = j - m.sent.len();
            assert(end.sent[i] == ordering::commit_of(all[a]));
            assert(end.sent[j] == ordering::commit_of(all[b]));
            assert(ordering::sequence_of(all[a]) < ordering::sequence_of(all[b]));
        }
    }
}

/// What is handed on of a chunk: what follows the 16 bytes of its header, with the
/// sequence number and the checksum that stand there.
pub proof fn lemma_header_is_taken_off(payload: Seq<u8>)
    ensures
        ({
            let c = ordering::commit_of(payload);
            &&& payload.len() >= 16 ==> {
                &&& c.data == payload.skip(16)
                &&& c.sequence_number == wire::un64(payload, 4)
                &&& c.chunk_crc == wire::un32(payload, 12)
            }
            &&& payload.len() < 16 ==> c.data.len() == 0 && c.chunk_crc == 0
            &&& payload.len() < 12 ==> c.sequence_number == 0
            &&& payload.len() >= 12 ==> c.sequence_number == wire::un64(payload, 4)
        }),
{
    if payload.len() >= 16 {
        assert(ordering::commit_of(payload).data =~= payload.skip(16));
    }
}

/// Counting on from the next number is counting one further.
proof fn lemma_next_number(n: u64, d: int)
    requires
        d >= 1,
    ensures
        ((n + 1) % 0x1_0000_0000_0000_0000 + (d - 1)) % 0x1_0000_0000_0000_0000 == (n + d)
            % 0x1_0000_0000_0000_0000,
{
}

/// A run hands on consecutive numbers, from the one that is due on; after the largest
/// one they start over.
#[verifier::spinoff_prover]
#[verifier::rlimit(50)]
proof fn lemma_run_is_consecutive(m: OrdererModel)
    ensures
        ({
            let after = m.emit_run();
            forall|i: int|
                m.sent.len() <= i < after.sent.len() ==> (#[trigger] after.sent[i]).sequence_number
                    == (m.next + (i - m.sent.len())) % 0x1_0000_0000_0000_0000
        }),
    decreases m.held(),
{
    if m.waiting.len() > 0 && ordering::sequence_of(m.waiting[0]) == m.next && m.has_room() {
        let first = m.emit_first();
        let after = m.emit_run();
        lemma_run_is_consecutive(first);
        lemma_run_adds(first);
        assert(first.next == (m.next + 1) % 0x1_0000_0000_0000_0000);
        assert forall|i: int| m.sent.len() <= i < after.sent.len() implies (
        #[trigger] after.sent[i]).sequence_number == (m.next + (i - m.sent.len()))
            % 0x1_0000_0000_0000_0000 by {
            if i == m.sent.len() {
                assert(after.sent.take(first.sent.len() as int)[i] == first.sent[i]);
            } else {
                assert(first.sent.len() <= i);
                lemma_next_number(m.next, i - m.sent.len());
            }
        }
    }
}

/// Nothing leaves out of turn while at most 512 chunks are held: what a push hands on
/// bears the number that is due, then the one after it, and so on. A chunk whose number
/// was passed over stays until a gap is given up.
pub proof fn lemma_only_due_chunks_leave(m: OrdererModel, payload: Seq<u8>)
    requires
        m.wf(),
        m.held() < 512,
    ensures
        ({
            let after = m.push(payload);
            forall|i: int|
                m.sent.len() <= i < after.sent.len() ==> (#[trigger] after.sent[i]).sequence_number
                    == (m.next + (i - m.sent.len())) % 0x1_0000_0000_0000_0000
        }),
{
    let taken = m.insert(payload);
    ordering::lemma_rank(m.waiting, ordering::sequence_of(payload));
    ordering::lemma_rank(m.late, ordering::sequence_of(payload));
    assert(taken.held() <= m.held() + 1);
    lemma_run_adds(taken);
    lemma_run_is_consecutive(taken);
}

/// Where 512 chunks are held and none of them is due, one more makes the chunk with the
/// lowest number leave, be it the one that came or one that was held.
#[verifier::spinoff_prover]
#[verifier::rlimit(50)]
pub proof fn lemma_crowding_gives_up_the_lowest(m: OrdererModel, payload: Seq<u8>)
    requires
        m.wf(),
        m.held() == 512,
        m.has_room(),
        !m.is_repeat(payload),
        ordering::sequence_of(payload) != m.next,
        forall|i: int|
            0 <= i < m.waiting.len() ==> ordering::sequence_of(#[trigger] m.waiting[i]) != m.next,
    ensures
        ({
            let after = m.push(payload);
            let at = m.sent.len() as int;
            &&& after.sent.len() > at
            &&& after.sent[at].sequence_number <= ordering::sequence_of(payload)
            &&& forall|i: int|
                0 <= i < m.waiting.len() ==> after.sent[at].sequence_number
                    <= ordering::sequence_of(#[trigger] m.waiting[i])
            &&& forall|i: int|
                0 <= i < m.late.len() ==> after.sent[at].sequence_number <= ordering::sequence_of(
                    #[trigger] m.late[i],
                )
            &&& after.sent[at].sequence_number == ordering::sequence_of(payload)
                || ordering::bears(m.late, after.sent[at].sequence_number) || ordering::bears(
                m.waiting,
                after.sent[at].sequence_number,
            )
        }),
{
    let seq = ordering::sequence_of(payload);
    let taken = m.insert(payload);
    let at = m.sent.len() as int;
    ordering::lemma_insert_keeps_order(m, payload);
    ordering::lemma_rank(m.waiting, seq);
    ordering::lemma_rank(m.late, seq);
    let kw = ordering::rank(m.waiting, seq);
    let kl = ordering::rank(m.late, seq);
    assert(taken.held() == 513);
    if taken.waiting.len() > 0 {
        if seq < m.next {
            assert(taken.waiting == m.waiting);
        } else {
            assert(taken.waiting[0] == (if kw == 0 {
                payload
            } else {
                m.waiting[0]
            }));
        }
        assert(ordering::sequence_of(taken.waiting[0]) != m.next);
    }
    assert(taken.emit_run() == taken);
    let all = taken.late + taken.waiting;
    ordering::lemma_all_ascending(taken, all);
    let first = if taken.late.len() > 0 {
        taken.emit_late()
    } else {
        taken.emit_first()
    };
    let after = m.push(payload);
    assert(after == first.emit_run());
    lemma_run_adds(first);
    assert(first.sent == m.sent.push(ordering::commit_of(all[0])));
    assert(after.sent.take(first.sent.len() as int)[at] == first.sent[at]);
    let low = after.sent[at].sequence_number;
    assert(low == ordering::sequence_of(all[0]));
    assert forall|i: int| 0 <= i < all.len() implies low <= ordering::sequence_of(
        #[trigger] all[i],
    ) by {
        if i > 0 {
            assert(ordering::sequence_of(all[0]) < ordering::sequence_of(all[i]));
        }
    }
    let n = taken.late.len() as int;
    if seq < m.next {
        assert(taken.late[kl] == payload);
        assert(all[kl] == payload);
        assert forall|i: int| 0 <= i < m.late.len() implies low <= ordering::sequence_of(
            #[trigger] m.late[i],
        ) by {
            let j = if i < kl {
                i
            } else {
                i + 1
            };
            assert(taken.late[j] == m.late[i]);
            assert(all[j] == m.late[i]);
        }
        assert forall|i: int| 0 <= i < m.waiting.len() implies low <= ordering::sequence_of(
            #[trigger] m.waiting[i],
        ) by {
            assert(all[n + i] == m.waiting[i]);
        }
    } else {
        assert(taken.waiting[kw] == payload);
        assert(all[n + kw] == payload);
        assert forall|i: int| 0 <= i < m.late.len() implies low <= ordering::sequence_of(
            #[trigger] m.late[i],
        ) by {
            assert(all[i] == m.late[i]);
        }
        assert forall|i: int| 0 <= i < m.waiting.len() implies low <= ordering::sequence_of(
            #[trigger] m.waiting[i],
        ) by {
            let j = if i < kw {
                i
            } else {
                i + 1
            };
            assert(taken.waiting[j] == m.waiting[i]);
            assert(all[n + j] == m.waiting[i]);
        }
    }
    if n > 0 {
        assert(all[0] == taken.late[0]);
        assert(taken.late[0] == payload || taken.late[0] == m.late[0]);
    } else {
        assert(all[0] == taken.waiting[0]);
        assert(taken.waiting[0] == payload || taken.waiting[0] == m.waiting[0]);
    }
}

} // verus!
