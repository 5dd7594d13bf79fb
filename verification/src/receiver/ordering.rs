//! Puts complete chunks into sequence order.

use crate::channel::{Outlet, TrySendError};
use crate::protocol::headers::ChunkHeader;
use crate::receiver::commit::{CommitGateInput, CommitModel};
use crate::receiver::gaps;
use crate::receiver::gaps::Gaps;
use crate::wire;
use std::collections::VecDeque;
use vstd::prelude::*;

verus! {

/// How many chunks may wait before the oldest is handed on out of turn.
pub const HEAP_HIGH_WATERMARK: usize = 512;

/// Counters of a `ChunkOrderer`.
#[derive(Debug, Clone, Copy, PartialEq, Eq, Structural)]
pub struct ChunkOrdererStats {
    /// Chunks that came in.
    pub chunks_received: u64,
    /// Chunks that were handed on.
    pub chunks_emitted: u64,
    /// Chunks that wait.
    pub chunks_waiting: usize,
}

impl Default for ChunkOrdererStats {
    fn default() -> (r: Self)
        ensures
            r == (ChunkOrdererStats { chunks_received: 0, chunks_emitted: 0, chunks_waiting: 0 }),
    {
        ChunkOrdererStats { chunks_received: 0, chunks_emitted: 0, chunks_waiting: 0 }
    }
}

/// The sequence number in the chunk header that `payload` starts with; 0 where
/// it is too short to hold one.
pub open spec fn sequence_of(payload: Seq<u8>) -> u64 {
    if payload.len() < 12 {
        0
    } else {
        wire::un64(payload, 4)
    }
}

/// What is handed on for a chunk: its header taken off, its checksum kept.
pub open spec fn commit_of(payload: Seq<u8>) -> CommitModel {
    CommitModel {
        data: if payload.len() > ChunkHeader::LEN {
            payload.subrange(ChunkHeader::LEN as int, payload.len() as int)
        } else {
            Seq::empty()
        },
        sequence_number: sequence_of(payload),
        chunk_crc: if payload.len() >= ChunkHeader::LEN {
            wire::un32(payload, 12)
        } else {
            0
        },
    }
}

/// How many of the leading chunks have a sequence number of at most `seq`.
pub open spec fn rank(waiting: Seq<Seq<u8>>, seq: u64) -> int
    decreases waiting.len(),
{
    if waiting.len() == 0 || sequence_of(waiting[0]) > seq {
        0
    } else {
        1 + rank(waiting.drop_first(), seq)
    }
}

/// Whether one of the chunks bears the sequence number `seq`.
pub open spec fn bears(chunks: Seq<Seq<u8>>, seq: u64) -> bool {
    exists|i: int| 0 <= i < chunks.len() && sequence_of(#[trigger] chunks[i]) == seq
}

/// What an orderer holds: the waiting chunks by sequence number, what comes
/// next, the counters, and what was handed on.
#[verifier::ext_equal]
pub struct OrdererModel {
    /// The chunks that wait for their turn.
    pub waiting: Seq<Seq<u8>>,
    /// When each waiting chunk came.
    pub since: Seq<u64>,
    /// The chunks that came after their number was passed over.
    pub late: Seq<Seq<u8>>,
    /// When each late chunk came.
    pub late_since: Seq<u64>,
    /// The numbers before `next` that were not handed on.
    pub missed: Set<u64>,
    /// The time of the event that is handled.
    pub clock: u64,
    pub next: u64,
    pub received: nat,
    pub emitted: nat,
    pub sent: Seq<CommitModel>,
    pub capacity: nat,
    pub closed: bool,
}

impl OrdererModel {
    /// The chunks are in order: those that wait for their turn, and the late ones,
    /// whose numbers were passed over.
    pub open spec fn wf(self) -> bool {
        &&& queued_from(self.waiting, self.next)
        &&& self.since.len() == self.waiting.len()
        &&& ascending(self.late)
        &&& self.late_since.len() == self.late.len()
        &&& forall|i: int|
            0 <= i < self.late.len() ==> self.missed.contains(sequence_of(#[trigger] self.late[i]))
        &&& forall|n: u64| #[trigger] self.missed.contains(n) ==> n < self.next
    }

    /// Whether no chunk is held.
    pub open spec fn is_idle(self) -> bool {
        &&& self.waiting.len() == 0
        &&& self.late.len() == 0
    }

    /// How many chunks are held.
    pub open spec fn held(self) -> nat {
        self.late.len() + self.waiting.len()
    }

    /// Whether something can be handed on.
    pub open spec fn has_room(self) -> bool {
        !self.closed && self.sent.len() < self.capacity
    }

    /// After the first waiting chunk was handed on. The number after its own is to
    /// come next; those before it that did not come were passed over. After the
    /// largest number they start over, and nothing is late any more.
    pub open spec fn emit_first(self) -> OrdererModel {
        let seq = sequence_of(self.waiting[0]);
        let handed_on = OrdererModel {
            next: seq.wrapping_add(1),
            emitted: self.emitted + 1,
            sent: self.sent.push(commit_of(self.waiting[0])),
            ..self
        };
        if seq == u64::MAX {
            OrdererModel {
                waiting: self.late,
                since: self.late_since,
                late: Seq::empty(),
                late_since: Seq::empty(),
                missed: Set::empty(),
                ..handed_on
            }
        } else {
            OrdererModel {
                waiting: self.waiting.drop_first(),
                since: self.since.drop_first(),
                missed: self.missed.union(gaps::between(self.next, seq)),
                ..handed_on
            }
        }
    }

    /// After the first late chunk was handed on.
    pub open spec fn emit_late(self) -> OrdererModel {
        OrdererModel {
            late: self.late.drop_first(),
            late_since: self.late_since.drop_first(),
            missed: self.missed.remove(sequence_of(self.late[0])),
            emitted: self.emitted + 1,
            sent: self.sent.push(commit_of(self.late[0])),
            ..self
        }
    }

    /// After every chunk whose turn it is was handed on, as far as there is
    /// room.
    pub open spec fn emit_run(self) -> OrdererModel
        decreases self.held(),
    {
        if self.waiting.len() > 0 && sequence_of(self.waiting[0]) == self.next && self.has_room() {
            self.emit_first().emit_run()
        } else {
            self
        }
    }

    /// After the chunk with the lowest number was handed on out of turn, and those
    /// whose turn it then is.
    pub open spec fn force_emit(self) -> OrdererModel {
        if self.held() == 0 || !self.has_room() {
            self
        } else if self.late.len() > 0 {
            self.emit_late().emit_run()
        } else {
            self.emit_first().emit_run()
        }
    }

    /// When the chunk with the lowest number came.
    pub open spec fn oldest_since(self) -> u64 {
        if self.late.len() > 0 {
            self.late_since[0]
        } else {
            self.since[0]
        }
    }

    /// After a look at gaps: the chunk with the lowest number is handed on out of
    /// turn if it waits for longer than `timeout_ns`.
    pub open spec fn check_gap(self, timeout_ns: u64) -> OrdererModel {
        if self.held() > 0 && self.clock > self.oldest_since() + timeout_ns {
            self.force_emit()
        } else {
            self
        }
    }

    /// Whether a chunk with the number of `payload` was handed on before, or is
    /// held.
    pub open spec fn is_repeat(self, payload: Seq<u8>) -> bool {
        let seq = sequence_of(payload);
        if seq < self.next {
            !self.missed.contains(seq) || bears(self.late, seq)
        } else {
            bears(self.waiting, seq)
        }
    }

    /// With `payload` among the chunks that are held: among the late ones if its
    /// number was passed over. A repeat is counted, and dropped.
    pub open spec fn insert(self, payload: Seq<u8>) -> OrdererModel {
        let seq = sequence_of(payload);
        if self.is_repeat(payload) {
            OrdererModel { received: self.received + 1, ..self }
        } else if seq < self.next {
            OrdererModel {
                late: self.late.insert(rank(self.late, seq), payload),
                late_since: self.late_since.insert(rank(self.late, seq), self.clock),
                received: self.received + 1,
                ..self
            }
        } else {
            OrdererModel {
                waiting: self.waiting.insert(rank(self.waiting, seq), payload),
                since: self.since.insert(rank(self.waiting, seq), self.clock),
                received: self.received + 1,
                ..self
            }
        }
    }

    /// After `payload` came.
    pub open spec fn push(self, payload: Seq<u8>) -> OrdererModel {
        let after = self.insert(payload).emit_run();
        if after.held() > HEAP_HIGH_WATERMARK {
            after.force_emit()
        } else {
            after
        }
    }

    /// After everything that is held was handed on by sequence number, at the end
    /// of the input.
    pub open spec fn drain(self) -> OrdererModel {
        let empty = OrdererModel {
            waiting: Seq::empty(),
            since: Seq::empty(),
            late: Seq::empty(),
            late_since: Seq::empty(),
            ..self
        };
        if self.closed {
            empty
        } else {
            OrdererModel {
                emitted: self.emitted + self.held(),
                sent: self.sent + (self.late + self.waiting).map_values(
                    |p: Seq<u8>| commit_of(p),
                ),
                ..empty
            }
        }
    }
}

/// The payloads of the waiting chunks.
pub open spec fn payloads_of(waiting: Seq<WaitingChunk>) -> Seq<Seq<u8>> {
    Seq::new(waiting.len(), |i: int| waiting[i].payload@)
}

/// When the waiting chunks came.
pub open spec fn arrivals_of(waiting: Seq<WaitingChunk>) -> Seq<u64> {
    Seq::new(waiting.len(), |i: int| waiting[i].since_ns)
}

/// Whether the chunks stand by sequence number, no number twice.
pub open spec fn ascending(chunks: Seq<Seq<u8>>) -> bool {
    forall|i: int, j: int|
        0 <= i < j < chunks.len() ==> sequence_of(#[trigger] chunks[i]) < sequence_of(
            #[trigger] chunks[j],
        )
}

/// Whether the chunks stand by sequence number, no number twice, and none is due
/// before `next`.
pub open spec fn queued_from(waiting: Seq<Seq<u8>>, next: u64) -> bool {
    &&& ascending(waiting)
    &&& forall|i: int| 0 <= i < waiting.len() ==> sequence_of(#[trigger] waiting[i]) >= next
}

/// What the inputs hold.
pub open spec fn commit_models(inputs: Seq<CommitGateInput>) -> Seq<CommitModel> {
    Seq::new(inputs.len(), |i: int| inputs[i].model())
}

/// The chunks before the rank come no later than `seq`, those from it on
/// later.
pub proof fn lemma_rank(waiting: Seq<Seq<u8>>, seq: u64)
    requires
        ascending(waiting),
    ensures
        0 <= rank(waiting, seq) <= waiting.len(),
        forall|i: int|
            0 <= i < rank(waiting, seq) ==> sequence_of(#[trigger] waiting[i]) <= seq,
        forall|i: int|
            rank(waiting, seq) <= i < waiting.len() ==> sequence_of(#[trigger] waiting[i]) > seq,
    decreases waiting.len(),
{
    if waiting.len() > 0 && sequence_of(waiting[0]) <= seq {
        let rest = waiting.drop_first();
        assert(ascending(rest)) by {
            assert forall|i: int, j: int| 0 <= i < j < rest.len() implies sequence_of(
                #[trigger] rest[i],
            ) < sequence_of(#[trigger] rest[j]) by {
                assert(rest[i] == waiting[i + 1] && rest[j] == waiting[j + 1]);
            }
        }
        lemma_rank(rest, seq);
        assert forall|i: int| 0 <= i < rank(waiting, seq) implies sequence_of(
            #[trigger] waiting[i],
        ) <= seq by {
            if i > 0 {
                assert(sequence_of(rest[i - 1]) <= seq);
            }
        }
        assert forall|i: int| rank(waiting, seq) <= i < waiting.len() implies sequence_of(
            #[trigger] waiting[i],
        ) > seq by {
            assert(sequence_of(rest[i - 1]) > seq);
        }
    } else if waiting.len() > 0 {
        assert forall|i: int| 0 <= i < waiting.len() implies sequence_of(#[trigger] waiting[i])
            > seq by {
            if i > 0 {
                assert(sequence_of(waiting[0]) < sequence_of(waiting[i]));
            }
        }
    }
}

/// The rank is the only index that parts the chunks this way.
proof fn lemma_rank_unique(waiting: Seq<Seq<u8>>, seq: u64, k: int)
    requires
        0 <= k <= waiting.len(),
        forall|i: int| 0 <= i < k ==> sequence_of(#[trigger] waiting[i]) <= seq,
        k < waiting.len() ==> sequence_of(waiting[k]) > seq,
    ensures
        rank(waiting, seq) == k,
    decreases waiting.len(),
{
    if k > 0 {
        let rest = waiting.drop_first();
        assert(sequence_of(waiting[0]) <= seq);
        assert forall|i: int| 0 <= i < k - 1 implies sequence_of(#[trigger] rest[i]) <= seq by {
            assert(rest[i] == waiting[i + 1]);
        }
        lemma_rank_unique(rest, seq, k - 1);
    }
}

/// A chunk with a number that is not there yet finds its place by its rank.
proof fn lemma_insert_ascending(chunks: Seq<Seq<u8>>, payload: Seq<u8>)
    requires
        ascending(chunks),
        !bears(chunks, sequence_of(payload)),
    ensures
        ({
            let k = rank(chunks, sequence_of(payload));
            let after = chunks.insert(k, payload);
            &&& 0 <= k <= chunks.len()
            &&& ascending(after)
            &&& forall|i: int|
                0 <= i < after.len() ==> #[trigger] after[i] == (if i < k {
                    chunks[i]
                } else if i == k {
                    payload
                } else {
                    chunks[i - 1]
                })
        }),
{
    let seq = sequence_of(payload);
    let k = rank(chunks, seq);
    let after = chunks.insert(k, payload);
    lemma_rank(chunks, seq);
    assert forall|i: int| 0 <= i < after.len() implies #[trigger] after[i] == (if i < k {
        chunks[i]
    } else if i == k {
        payload
    } else {
        chunks[i - 1]
    }) by {}
    assert forall|i: int, j: int| 0 <= i < j < after.len() implies sequence_of(#[trigger] after[i])
        < sequence_of(#[trigger] after[j]) by {
        if i < k && j == k {
            assert(sequence_of(chunks[i]) != seq);
        }
    }
}

/// What `insert` does keeps the chunks in order, no number twice.
pub proof fn lemma_insert_keeps_order(m: OrdererModel, payload: Seq<u8>)
    requires
        m.wf(),
    ensures
        m.insert(payload).wf(),
{
    let seq = sequence_of(payload);
    let after = m.insert(payload);
    if !m.is_repeat(payload) {
        if seq < m.next {
            lemma_insert_ascending(m.late, payload);
            assert forall|i: int| 0 <= i < after.late.len() implies m.missed.contains(
                sequence_of(#[trigger] after.late[i]),
            ) by {}
        } else {
            lemma_insert_ascending(m.waiting, payload);
        }
    }
}

/// Handing the first waiting chunk on keeps the others in order.
pub proof fn lemma_emit_keeps_order(m: OrdererModel)
    requires
        m.wf(),
        m.waiting.len() > 0,
    ensures
        m.emit_first().wf(),
{
    let after = m.emit_first();
    let seq = sequence_of(m.waiting[0]);
    if seq < u64::MAX {
        let rest = after.waiting;
        assert forall|i: int| 0 <= i < rest.len() implies #[trigger] rest[i] == m.waiting[i + 1]
            && seq < sequence_of(m.waiting[i + 1]) by {}
        assert forall|n: u64| #[trigger] after.missed.contains(n) implies n < after.next by {
            assert(m.missed.contains(n) || gaps::between(m.next, seq).contains(n));
        }
    }
}

/// Handing the first late chunk on keeps the others in order.
pub proof fn lemma_late_keeps_order(m: OrdererModel)
    requires
        m.wf(),
        m.late.len() > 0,
    ensures
        m.emit_late().wf(),
{
    let rest = m.emit_late().late;
    assert forall|i: int| 0 <= i < rest.len() implies #[trigger] rest[i] == m.late[i + 1]
        && sequence_of(m.late[0]) < sequence_of(m.late[i + 1]) by {}
}

/// A run keeps the chunks in order. Where there is still room after it, none of
/// the chunks that wait for their turn bears the number that is due.
pub proof fn lemma_run_keeps_order(m: OrdererModel)
    requires
        m.wf(),
    ensures
        m.emit_run().wf(),
        m.emit_run().has_room() ==> forall|i: int|
            0 <= i < m.emit_run().waiting.len() ==> sequence_of(
                #[trigger] m.emit_run().waiting[i],
            ) > m.emit_run().next,
    decreases m.held(),
{
    if m.waiting.len() > 0 && sequence_of(m.waiting[0]) == m.next && m.has_room() {
        lemma_emit_keeps_order(m);
        lemma_run_keeps_order(m.emit_first());
    } else if m.has_room() {
        assert forall|i: int| 0 <= i < m.waiting.len() implies sequence_of(#[trigger] m.waiting[i])
            > m.next by {
            if i > 0 {
                assert(sequence_of(m.waiting[0]) < sequence_of(m.waiting[i]));
            } else {
                assert(sequence_of(m.waiting[0]) >= m.next);
            }
        }
    }
}

/// Handing a chunk on out of turn keeps the others in order, and leaves none that
/// is due where there is room.
pub proof fn lemma_force_keeps_order(m: OrdererModel)
    requires
        m.wf(),
    ensures
        m.force_emit().wf(),
        m.held() > 0 && m.force_emit().has_room() ==> forall|i: int|
            0 <= i < m.force_emit().waiting.len() ==> sequence_of(
                #[trigger] m.force_emit().waiting[i],
            ) > m.force_emit().next,
{
    if m.held() > 0 && m.has_room() {
        if m.late.len() > 0 {
            lemma_late_keeps_order(m);
            lemma_run_keeps_order(m.emit_late());
        } else {
            lemma_emit_keeps_order(m);
            lemma_run_keeps_order(m.emit_first());
        }
    }
}

/// No chunk whose turn it is is kept back: after every push, where there is room,
/// the chunks that wait for their turn bear later numbers than the one that is
/// due. Neither a repeat nor a late chunk is in their way.
pub proof fn lemma_nothing_due_waits(m: OrdererModel, payload: Seq<u8>)
    requires
        m.wf(),
    ensures
        m.push(payload).wf(),
        m.push(payload).has_room() ==> forall|i: int|
            0 <= i < m.push(payload).waiting.len() ==> sequence_of(
                #[trigger] m.push(payload).waiting[i],
            ) > m.push(payload).next,
        m.is_repeat(payload) ==> m.insert(payload) == (OrdererModel {
            received: m.received + 1,
            ..m
        }),
{
    lemma_insert_keeps_order(m, payload);
    lemma_run_keeps_order(m.insert(payload));
    lemma_force_keeps_order(m.insert(payload).emit_run());
}

/// Parse the sequence number of a chunk that still has its header.
pub fn parse_sequence_number(payload: &[u8]) -> (r: u64)
    ensures
        r == sequence_of(payload@),
        payload@.len() < 12 ==> r == 0,
        payload@.len() >= 12 ==> r == wire::un64(payload@, 4),
{
    if payload.len() < 12 {
        return 0;
    }
    wire::get_u64(payload, 4)
}

/// What is handed on for a chunk.
fn commit_input(payload: &[u8]) -> (r: CommitGateInput)
    ensures
        r.model() == commit_of(payload@),
{
    let chunk_crc: u32 = if payload.len() >= ChunkHeader::LEN {
        wire::get_u32(payload, 12)
    } else {
        0
    };
    let mut data: Vec<u8> = Vec::new();
    if payload.len() > ChunkHeader::LEN {
        wire::append_range(&mut data, payload, ChunkHeader::LEN, payload.len());
    }
    assert(data@ =~= commit_of(payload@).data);
    CommitGateInput { data, sequence_number: parse_sequence_number(payload), chunk_crc }
}

/// What makes an orderer act.
pub enum OrdererEvent {
    /// A complete chunk came.
    Chunk(Vec<u8>),
    /// It is time to look for gaps that last longer than this many nanoseconds.
    GapCheck(u64),
    /// No more chunks will come.
    InputClosed,
}

/// A chunk that waits for its turn.
#[derive(Debug)]
pub struct WaitingChunk {
    pub payload: Vec<u8>,
    pub since_ns: u64,
}

/// The late chunks come before those that wait for their turn.
pub proof fn lemma_all_ascending(m: OrdererModel, all: Seq<Seq<u8>>)
    requires
        m.wf(),
        all == m.late + m.waiting,
    ensures
        ascending(all),
{
    assert forall|i: int, j: int| 0 <= i < j < all.len() implies sequence_of(#[trigger] all[i])
        < sequence_of(#[trigger] all[j]) by {
        let first = m.late.len();
        if i < first {
            assert(all[i] == m.late[i]);
            assert(m.missed.contains(sequence_of(m.late[i])));
            if j >= first {
                assert(all[j] == m.waiting[j - first]);
            }
        }
    }
}

/// The rank among all chunks gives the one among the late ones, or among those
/// that wait for their turn.
proof fn lemma_rank_in_part(m: OrdererModel, all: Seq<Seq<u8>>, seq: u64)
    requires
        m.wf(),
        all == m.late + m.waiting,
    ensures
        seq < m.next ==> rank(m.late, seq) == rank(all, seq) && rank(all, seq) <= m.late.len(),
        seq >= m.next ==> rank(all, seq) == m.late.len() + rank(m.waiting, seq),
{
    let first = m.late.len() as int;
    let k = rank(all, seq);
    lemma_all_ascending(m, all);
    lemma_rank(all, seq);
    assert forall|i: int| 0 <= i < first implies all[i] == #[trigger] m.late[i] && m.missed.contains(
        sequence_of(m.late[i]),
    ) by {}
    assert(forall|i: int| 0 <= i < m.waiting.len() ==> #[trigger] m.waiting[i] == all[first + i]);
    if seq < m.next {
        if k > first {
            assert(sequence_of(m.waiting[0]) >= m.next);
            assert(all[first] == m.waiting[0]);
        }
        lemma_rank_unique(m.late, seq, k);
    } else {
        if k < first {
            assert(sequence_of(m.late[k]) > seq);
        }
        lemma_rank_unique(m.waiting, seq, k - first);
    }
}

/// What is put into one of two parts leaves the other as it is.
proof fn lemma_insert_in_part<T>(a: Seq<T>, b: Seq<T>, k: int, x: T)
    requires
        0 <= k <= a.len() + b.len(),
    ensures
        k <= a.len() ==> {
            &&& (a + b).insert(k, x).take(a.len() as int + 1) == a.insert(k, x)
            &&& (a + b).insert(k, x).skip(a.len() as int + 1) == b
        },
        k >= a.len() ==> {
            &&& (a + b).insert(k, x).take(a.len() as int) == a
            &&& (a + b).insert(k, x).skip(a.len() as int) == b.insert(k - a.len(), x)
        },
{
    if k <= a.len() {
        assert((a + b).insert(k, x).take(a.len() as int + 1) =~= a.insert(k, x));
        assert((a + b).insert(k, x).skip(a.len() as int + 1) =~= b);
    }
    if k >= a.len() {
        assert((a + b).insert(k, x).take(a.len() as int) =~= a);
        assert((a + b).insert(k, x).skip(a.len() as int) =~= b.insert(k - a.len(), x));
    }
}

/// A chunk is a repeat if its number was handed on, or is among all chunks.
proof fn lemma_repeat_among_all(m: OrdererModel, all: Seq<Seq<u8>>, payload: Seq<u8>)
    requires
        m.wf(),
        all == m.late + m.waiting,
    ensures
        m.is_repeat(payload) <==> {
            let seq = sequence_of(payload);
            (seq < m.next && !m.missed.contains(seq)) || bears(all, seq)
        },
{
    let seq = sequence_of(payload);
    let first = m.late.len() as int;
    assert forall|i: int| 0 <= i < first implies all[i] == #[trigger] m.late[i] && m.missed.contains(
        sequence_of(m.late[i]),
    ) by {}
    assert forall|i: int| 0 <= i < m.waiting.len() implies #[trigger] m.waiting[i] == all[first
        + i] by {}
    if bears(all, seq) {
        let i = choose|i: int| 0 <= i < all.len() && sequence_of(#[trigger] all[i]) == seq;
        if i < first {
            assert(sequence_of(m.late[i]) == seq);
        } else {
            assert(sequence_of(m.waiting[i - first]) == seq);
        }
    }
    if bears(m.late, seq) {
        let i = choose|i: int| 0 <= i < first && sequence_of(#[trigger] m.late[i]) == seq;
        assert(sequence_of(all[i]) == seq);
    }
    if bears(m.waiting, seq) {
        let i = choose|i: int|
            0 <= i < m.waiting.len() && sequence_of(#[trigger] m.waiting[i]) == seq;
        assert(sequence_of(all[first + i]) == seq);
    }
}

/// How a chunk finds its place among all that are held.
proof fn lemma_insert_among_all(
    m: OrdererModel,
    all: Seq<Seq<u8>>,
    times: Seq<u64>,
    payload: Seq<u8>,
)
    requires
        m.wf(),
        all == m.late + m.waiting,
        times == m.late_since + m.since,
    ensures
        ({
            let seq = sequence_of(payload);
            let place = rank(all, seq);
            let after = m.insert(payload);
            let first = if seq < m.next {
                m.late.len() as int + 1
            } else {
                m.late.len() as int
            };
            &&& after.wf()
            &&& 0 <= place <= all.len()
            &&& m.is_repeat(payload) <==> {
                ||| seq < m.next && !m.missed.contains(seq)
                ||| place > 0 && sequence_of(all[place - 1]) == seq
            }
            &&& !m.is_repeat(payload) ==> {
                &&& after.late == all.insert(place, payload).take(first)
                &&& after.waiting == all.insert(place, payload).skip(first)
                &&& after.late_since == times.insert(place, m.clock).take(first)
                &&& after.since == times.insert(place, m.clock).skip(first)
            }
        }),
{
    let seq = sequence_of(payload);
    let place = rank(all, seq);
    lemma_insert_keeps_order(m, payload);
    lemma_all_ascending(m, all);
    lemma_rank(all, seq);
    lemma_rank_in_part(m, all, seq);
    lemma_repeat_among_all(m, all, payload);
    lemma_insert_in_part(m.late, m.waiting, place, payload);
    lemma_insert_in_part(m.late_since, m.since, place, m.clock);
    if bears(all, seq) {
        let i = choose|i: int| 0 <= i < all.len() && sequence_of(#[trigger] all[i]) == seq;
        if i < place - 1 {
            assert(sequence_of(all[i]) < sequence_of(all[place - 1]));
        }
    }
}

/// Where a chunk with the sequence number `seq` belongs in the queue.
fn place_in(queue: &VecDeque<WaitingChunk>, seq: u64) -> (r: usize)
    ensures
        r == rank(payloads_of(queue@), seq),
        r <= queue@.len(),
{
    let ghost chunks = payloads_of(queue@);
    let mut i: usize = 0;
    while i < queue.len()
        invariant
            i <= queue@.len(),
            chunks == payloads_of(queue@),
            forall|j: int| 0 <= j < i ==> sequence_of(#[trigger] chunks[j]) <= seq,
        decreases queue@.len() - i,
    {
        assert(chunks[i as int] == queue@[i as int].payload@);
        if parse_sequence_number(queue[i].payload.as_slice()) > seq {
            proof {
                lemma_rank_unique(chunks, seq, i as int);
            }
            return i;
        }
        i = i + 1;
    }
    proof {
        lemma_rank_unique(chunks, seq, i as int);
    }
    i
}

/// Hands chunks on in the order of their sequence numbers.
pub struct ChunkOrderer {
    heap: VecDeque<WaitingChunk>,
    late_count: usize,
    missed: Gaps,
    clock_ns: u64,
    next_expected_seq: u64,
    pub tx: Outlet<CommitGateInput>,
    chunks_received: u64,
    chunks_emitted: u64,
}

impl ChunkOrderer {
    /// What the orderer holds.
    pub closed spec fn model(self) -> OrdererModel {
        OrdererModel {
            waiting: payloads_of(self.heap@).skip(self.late_count as int),
            since: arrivals_of(self.heap@).skip(self.late_count as int),
            late: payloads_of(self.heap@).take(self.late_count as int),
            late_since: arrivals_of(self.heap@).take(self.late_count as int),
            missed: self.missed@,
            clock: self.clock_ns,
            next: self.next_expected_seq,
            received: self.chunks_received as nat,
            emitted: self.chunks_emitted as nat,
            sent: commit_models(self.tx.queue@),
            capacity: self.tx.capacity as nat,
            closed: self.tx.closed,
        }
    }

    /// The chunks stand in order, no number twice, and none was handed on before.
    pub closed spec fn wf(self) -> bool {
        &&& self.model().wf()
        &&& self.late_count <= self.heap@.len()
        &&& self.chunks_emitted + self.heap@.len() <= self.chunks_received
    }

    /// An orderer that holds nothing; `initial_seq` is what it hands on first. The
    /// numbers before it count as passed over.
    pub fn new(tx: Outlet<CommitGateInput>, initial_seq: u64) -> (r: Self)
        ensures
            r.wf(),
            r.model() == (OrdererModel {
                waiting: Seq::empty(),
                since: Seq::empty(),
                late: Seq::empty(),
                late_since: Seq::empty(),
                missed: gaps::between(0, initial_seq),
                clock: 0,
                next: initial_seq,
                received: 0,
                emitted: 0,
                sent: commit_models(tx.queue@),
                capacity: tx.capacity as nat,
                closed: tx.closed,
            }),
    {
        let mut missed = Gaps::new();
        missed.add_range(0, initial_seq);
        let r = ChunkOrderer {
            heap: VecDeque::new(),
            late_count: 0,
            missed,
            clock_ns: 0,
            next_expected_seq: initial_seq,
            tx,
            chunks_received: 0,
            chunks_emitted: 0,
        };
        assert(r.model().waiting =~= Seq::empty());
        assert(r.model().since =~= Seq::empty());
        assert(r.model().late =~= Seq::empty());
        assert(r.model().late_since =~= Seq::empty());
        assert(missed@ =~= gaps::between(0, initial_seq));
        r
    }

    /// Hands on the first waiting chunk, if there is room.
    fn emit_first(&mut self) -> (r: bool)
        requires
            old(self).wf(),
            old(self).model().waiting.len() > 0,
        ensures
            final(self).wf(),
            r == old(self).model().has_room(),
            final(self).model() == (if r {
                old(self).model().emit_first()
            } else {
                old(self).model()
            }),
    {
        let first: usize = self.late_count;
        let ghost before = self.model();
        assert(before.waiting[0] == self.heap@[first as int].payload@);
        let input = commit_input(self.heap[first].payload.as_slice());
        let seq: u64 = input.sequence_number;
        match self.tx.try_send(input) {
            Ok(()) => {
                let ghost after = before.emit_first();
                proof {
                    lemma_emit_keeps_order(before);
                    if seq == u64::MAX && before.waiting.len() > 1 {
                        assert(sequence_of(before.waiting[0]) < sequence_of(before.waiting[1]));
                    }
                }
                let _ = self.heap.remove(first);
                self.chunks_emitted = self.chunks_emitted + 1;
                if seq == u64::MAX {
                    self.late_count = 0;
                    self.missed = Gaps::new();
                    self.next_expected_seq = 0;
                } else {
                    self.missed.add_range(self.next_expected_seq, seq);
                    self.next_expected_seq = seq + 1;
                }
                proof {
                    assert(self.model().waiting =~= after.waiting);
                    assert(self.model().since =~= after.since);
                    assert(self.model().late =~= after.late);
                    assert(self.model().late_since =~= after.late_since);
                    assert(self.model().sent =~= after.sent);
                }
                true
            },
            Err(TrySendError::Full(_)) => false,
            Err(TrySendError::Closed(_)) => false,
        }
    }

    /// Hands on the first late chunk, if there is room.
    fn emit_late(&mut self) -> (r: bool)
        requires
            old(self).wf(),
            old(self).model().late.len() > 0,
        ensures
            final(self).wf(),
            r == old(self).model().has_room(),
            final(self).model() == (if r {
                old(self).model().emit_late()
            } else {
                old(self).model()
            }),
    {
        let ghost before = self.model();
        assert(before.late[0] == self.heap@[0].payload@);
        let input = commit_input(self.heap[0].payload.as_slice());
        let seq: u64 = input.sequence_number;
        match self.tx.try_send(input) {
            Ok(()) => {
                let ghost after = before.emit_late();
                proof {
                    lemma_late_keeps_order(before);
                }
                let _ = self.heap.pop_front();
                self.late_count = self.late_count - 1;
                self.missed.remove(seq);
                self.chunks_emitted = self.chunks_emitted + 1;
                proof {
                    assert(self.model().waiting =~= after.waiting);
                    assert(self.model().since =~= after.since);
                    assert(self.model().late =~= after.late);
                    assert(self.model().late_since =~= after.late_since);
                    assert(self.model().sent =~= after.sent);
                }
                true
            },
            Err(TrySendError::Full(_)) => false,
            Err(TrySendError::Closed(_)) => false,
        }
    }

    /// Hands on every chunk whose turn it is, as far as there is room.
    fn try_emit(&mut self)
        requires
            old(self).wf(),
        ensures
            final(self).wf(),
            final(self).model() == old(self).model().emit_run(),
    {
        let ghost before = self.model();
        while self.late_count < self.heap.len()
            invariant
                self.wf(),
                self.model().emit_run() == before.emit_run(),
            ensures
                self.wf(),
                self.model() == before.emit_run(),
            decreases self.heap@.len(),
        {
            assert(self.model().waiting[0] == self.heap@[self.late_count as int].payload@);
            let seq: u64 = parse_sequence_number(self.heap[self.late_count].payload.as_slice());
            if seq != self.next_expected_seq {
                break;
            }
            if !self.emit_first() {
                break;
            }
        }
    }

    /// Hands on the chunk with the lowest number out of turn, and those whose turn
    /// it then is.
    fn force_emit_oldest(&mut self)
        requires
            old(self).wf(),
        ensures
            final(self).wf(),
            final(self).model() == old(self).model().force_emit(),
    {
        if self.late_count > 0 {
            if self.emit_late() {
                self.try_emit();
            }
        } else if self.heap.len() > 0 {
            if self.emit_first() {
                self.try_emit();
            }
        }
    }

    /// Puts a complete chunk among those that are held, unless it is a repeat.
    fn insert(&mut self, payload: Vec<u8>)
        requires
            old(self).wf(),
            old(self).model().received < u64::MAX,
        ensures
            final(self).wf(),
            final(self).model() == old(self).model().insert(payload@),
    {
        let ghost m = self.model();
        let ghost all = payloads_of(self.heap@);
        let ghost times = arrivals_of(self.heap@);
        let seq: u64 = parse_sequence_number(payload.as_slice());
        let place: usize = place_in(&self.heap, seq);
        self.chunks_received = self.chunks_received + 1;
        proof {
            assert(all =~= m.late + m.waiting);
            assert(times =~= m.late_since + m.since);
            lemma_insert_among_all(m, all, times, payload@);
            assert(place > 0 ==> all[place - 1] == self.heap@[place - 1].payload@);
        }
        let is_late: bool = seq < self.next_expected_seq;
        if is_late && !self.missed.contains(seq) {
            return;
        }
        if place > 0 && parse_sequence_number(self.heap[place - 1].payload.as_slice()) == seq {
            return;
        }
        let chunk = WaitingChunk { payload, since_ns: self.clock_ns };
        self.heap.insert(place, chunk);
        proof {
            assert(payloads_of(self.heap@) =~= all.insert(place as int, payload@));
            assert(arrivals_of(self.heap@) =~= times.insert(place as int, self.clock_ns));
            assert(self.heap.len() == self.heap@.len());
        }
        if is_late {
            self.late_count = self.late_count + 1;
        }
    }

    /// Takes in a complete chunk, header first, which counts as having come at
    /// the time of the event handled last. A chunk with a number that was handed
    /// on before, or that is held, is counted and dropped. One whose number was
    /// passed over is kept until it is handed on out of turn. If too many chunks
    /// are then held, the one with the lowest number is handed on out of turn.
    pub fn push_chunk(&mut self, payload: Vec<u8>) -> (r: ChunkOrdererStats)
        requires
            old(self).wf(),
            old(self).model().received < u64::MAX,
        ensures
            final(self).wf(),
            final(self).model() == old(self).model().push(payload@),
            final(self).model().has_room() ==> forall|i: int|
                0 <= i < final(self).model().waiting.len() ==> sequence_of(
                    #[trigger] final(self).model().waiting[i],
                ) > final(self).model().next,
            r.chunks_received == final(self).model().received,
            r.chunks_emitted == final(self).model().emitted,
            r.chunks_waiting == final(self).model().held(),
    {
        proof {
            lemma_nothing_due_waits(self.model(), payload@);
        }
        self.insert(payload);
        self.try_emit();
        if self.heap.len() > HEAP_HIGH_WATERMARK {
            self.force_emit_oldest();
        }
        self.stats()
    }

    /// Hands on everything that is held, at the end of the input.
    fn drain_all(&mut self)
        requires
            old(self).wf(),
        ensures
            final(self).wf(),
            final(self).model() == old(self).model().drain(),
    {
        let ghost before = self.model();
        let ghost all = payloads_of(self.heap@);
        let ghost mut done: int = 0;
        assert(all =~= before.late + before.waiting);
        assert(before.sent + all.take(0).map_values(|p: Seq<u8>| commit_of(p)) =~= before.sent);
        self.late_count = 0;
        while self.heap.len() > 0
            invariant
                self.late_count == 0,
                before.wf(),
                all == before.late + before.waiting,
                0 <= done <= all.len(),
                payloads_of(self.heap@) == all.skip(done),
                self.missed@ == before.missed,
                self.clock_ns == before.clock,
                self.next_expected_seq == before.next,
                self.chunks_received as nat == before.received,
                self.tx.capacity as nat == before.capacity,
                self.tx.closed == before.closed,
                self.chunks_emitted + self.heap@.len() <= self.chunks_received,
                self.chunks_emitted as nat == (if before.closed {
                    before.emitted
                } else {
                    (before.emitted + done) as nat
                }),
                commit_models(self.tx.queue@) == (if before.closed {
                    before.sent
                } else {
                    before.sent + all.take(done).map_values(|p: Seq<u8>| commit_of(p))
                }),
            decreases self.heap@.len(),
        {
            let ghost here = commit_models(self.tx.queue@);
            let ghost rest = payloads_of(self.heap@);
            assert(rest[0] == self.heap@[0].payload@);
            assert(rest.len() > 0 && rest == all.skip(done));
            assert(rest[0] == all[done]);
            let input = commit_input(self.heap[0].payload.as_slice());
            let _ = self.heap.pop_front();
            assert(payloads_of(self.heap@) =~= rest.drop_first());
            assert(rest.drop_first() =~= all.skip(done + 1));
            match self.tx.send(input) {
                Ok(()) => {
                    self.chunks_emitted = self.chunks_emitted + 1;
                    proof {
                        let sent = before.sent + all.take(done + 1).map_values(
                            |p: Seq<u8>| commit_of(p),
                        );
                        assert(commit_models(self.tx.queue@) =~= here.push(commit_of(all[done])));
                        assert(commit_models(self.tx.queue@) =~= sent);
                    }
                },
                Err(_) => {
                    assert(commit_models(self.tx.queue@) =~= here);
                },
            }
            proof {
                done = done + 1;
            }
        }
        proof {
            assert(all.take(done) =~= all);
            assert(self.model().waiting =~= Seq::empty());
            assert(self.model().since =~= Seq::empty());
            assert(self.model().late =~= Seq::empty());
            assert(self.model().late_since =~= Seq::empty());
        }
    }

    /// Hands on the chunk with the lowest number out of turn if it waits for longer
    /// than `timeout_ns`.
    fn check_gap(&mut self, timeout_ns: u64)
        requires
            old(self).wf(),
        ensures
            final(self).wf(),
            final(self).model() == old(self).model().check_gap(timeout_ns),
    {
        if self.heap.len() == 0 {
            return;
        }
        assert(self.model().oldest_since() == self.heap@[0].since_ns);
        if self.clock_ns.saturating_sub(self.heap[0].since_ns) > timeout_ns {
            self.force_emit_oldest();
        }
    }

    /// Acts on one event at `now_ns`. Reports whether more events are expected.
    pub fn handle(&mut self, event: OrdererEvent, now_ns: u64) -> (r: bool)
        requires
            old(self).wf(),
            old(self).model().received < u64::MAX,
        ensures
            final(self).wf(),
            r == !(event is InputClosed),
            final(self).model() == {
                let m = OrdererModel { clock: now_ns, ..old(self).model() };
                match event {
                    OrdererEvent::Chunk(payload) => m.push(payload@),
                    OrdererEvent::GapCheck(timeout_ns) => m.check_gap(timeout_ns),
                    OrdererEvent::InputClosed => m.drain(),
                }
            },
    {
        self.clock_ns = now_ns;
        match event {
            OrdererEvent::Chunk(payload) => {
                let _ = self.push_chunk(payload);
                true
            },
            OrdererEvent::GapCheck(timeout_ns) => {
                self.check_gap(timeout_ns);
                true
            },
            OrdererEvent::InputClosed => {
                self.drain_all();
                false
            },
        }
    }

    /// The counters at this moment.
    pub fn stats(&self) -> (r: ChunkOrdererStats)
        requires
            self.wf(),
        ensures
            r.chunks_received == self.model().received,
            r.chunks_emitted == self.model().emitted,
            r.chunks_waiting == self.model().held(),
    {
        ChunkOrdererStats {
            chunks_received: self.chunks_received,
            chunks_emitted: self.chunks_emitted,
            chunks_waiting: self.heap.len(),
        }
    }
}

} // verus!
