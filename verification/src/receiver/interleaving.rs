//! Fragments of many chunks that come in any order.

use crate::compress::lz4;
use crate::protocol::headers;
use crate::protocol::headers::{ChunkHeader, FragmentHeader};
use crate::receiver::delivery;
use crate::receiver::reassembly;
use crate::receiver::reassembly::ReassemblerModel;
use crate::sender::framing;
use vstd::prelude::*;

verus! {

/// A chunk that was sent: its number and its payload.
pub struct SentChunk {
    pub number: u64,
    pub data: Seq<u8>,
}

impl SentChunk {
    /// The fragments that carry it.
    pub open spec fn fragments(self, size: nat) -> Seq<Seq<u8>> {
        framing::chunk_fragments(self.number, self.data, size)
    }

    /// The number by which its fragments are told apart from others.
    pub open spec fn id(self) -> u32 {
        self.number as u32
    }

    /// What a reassembler hands on for it.
    pub open spec fn delivered(self) -> Seq<u8> {
        delivery::delivered(self.number, self.data)
    }

    /// Whether the fields of the headers can hold what they should.
    pub open spec fn fits(self, size: nat) -> bool {
        &&& framing::wire_payload(self.data).len() <= u16::MAX
        &&& framing::compresses(self.data) ==> lz4::decompresses(self.data)
        &&& framing::piece_count(framing::chunk_image(self.number, self.data).len(), size)
            <= u16::MAX
    }
}

/// Whether the chunks can be told apart, and each fits into its headers.
pub open spec fn sendable(chunks: Seq<SentChunk>, size: nat) -> bool {
    &&& size > 0
    &&& forall|c: int| 0 <= c < chunks.len() ==> (#[trigger] chunks[c]).fits(size)
    &&& forall|c: int, d: int|
        0 <= c < d < chunks.len() ==> (#[trigger] chunks[c]).id() != (#[trigger] chunks[d]).id()
}

/// An arrival: which fragment of which chunk.
pub struct Arrival {
    pub chunk: int,
    pub fragment: int,
}

/// Whether there is such a fragment.
pub open spec fn exists_in(chunks: Seq<SentChunk>, size: nat, a: Arrival) -> bool {
    0 <= a.chunk < chunks.len() && 0 <= a.fragment < chunks[a.chunk].fragments(size).len()
}

/// Whether every fragment of every chunk comes, and comes once.
pub open spec fn all_come_once(
    chunks: Seq<SentChunk>,
    size: nat,
    arrivals: Seq<Arrival>,
) -> bool {
    &&& arrivals.no_duplicates()
    &&& forall|k: int|
        0 <= k < arrivals.len() ==> exists_in(chunks, size, #[trigger] arrivals[k])
    &&& forall|a: Arrival| #[trigger] exists_in(chunks, size, a) ==> arrivals.contains(a)
}

/// Whether nothing comes but fragments of the chunks, each of them at least once.
pub open spec fn all_come(chunks: Seq<SentChunk>, size: nat, arrivals: Seq<Arrival>) -> bool {
    &&& forall|k: int|
        0 <= k < arrivals.len() ==> exists_in(chunks, size, #[trigger] arrivals[k])
    &&& forall|a: Arrival| #[trigger] exists_in(chunks, size, a) ==> arrivals.contains(a)
}

/// The bytes that come with an arrival.
pub open spec fn bytes_of(chunks: Seq<SentChunk>, size: nat, a: Arrival) -> Seq<u8> {
    chunks[a.chunk].fragments(size)[a.fragment]
}

/// After the fragment came at `now`, and what is reported of it: first whatever
/// is complete is handed on, then the fragment is taken in.
#[verifier::opaque]
pub open spec fn arrived(m: ReassemblerModel, fragment: Seq<u8>, now: nat) -> (
    ReassemblerModel,
    Result<bool, Seq<char>>,
) {
    m.emit_complete().receive(fragment, now)
}

/// After the arrivals, the `k`-th at `times[k]`.
pub open spec fn after_arrivals(
    m: ReassemblerModel,
    chunks: Seq<SentChunk>,
    size: nat,
    arrivals: Seq<Arrival>,
    times: Seq<nat>,
) -> ReassemblerModel
    decreases arrivals.len(),
{
    if arrivals.len() == 0 {
        m
    } else {
        arrived(
            after_arrivals(m, chunks, size, arrivals.drop_last(), times),
            bytes_of(chunks, size, arrivals.last()),
            times[arrivals.len() - 1],
        ).0
    }
}

/// Whether there is memory for the `k`-th arrival next to what waits then.
pub open spec fn has_memory(
    m: ReassemblerModel,
    chunks: Seq<SentChunk>,
    size: nat,
    arrivals: Seq<Arrival>,
    times: Seq<nat>,
    k: int,
) -> bool {
    reassembly::inflight(after_arrivals(m, chunks, size, arrivals.take(k), times).chunks)
        + bytes_of(chunks, size, arrivals[k]).len() - FragmentHeader::LEN <= m.max_inflight
}

/// Whether there is room to hand a payload on with the `k`-th arrival.
pub open spec fn has_room(
    m: ReassemblerModel,
    chunks: Seq<SentChunk>,
    size: nat,
    arrivals: Seq<Arrival>,
    times: Seq<nat>,
    k: int,
) -> bool {
    after_arrivals(m, chunks, size, arrivals.take(k), times).sent.len() < m.capacity
}

/// What is reported of the `k`-th arrival.
pub open spec fn reported(
    m: ReassemblerModel,
    chunks: Seq<SentChunk>,
    size: nat,
    arrivals: Seq<Arrival>,
    times: Seq<nat>,
    k: int,
) -> Result<bool, Seq<char>> {
    arrived(
        after_arrivals(m, chunks, size, arrivals.take(k), times),
        bytes_of(chunks, size, arrivals[k]),
        times[k],
    ).1
}

/// Whether all fragments of the chunk `c` are among those that came.
pub open spec fn all_came(
    chunks: Seq<SentChunk>,
    size: nat,
    came: Seq<Arrival>,
    c: int,
) -> bool {
    forall|f: int|
        0 <= f < chunks[c].fragments(size).len() ==> came.contains(#[trigger] at(c, f))
}

/// The fragment `f` of the chunk `c`.
pub open spec fn at(c: int, f: int) -> Arrival {
    Arrival { chunk: c, fragment: f }
}

/// The payloads of the listed chunks, as they are handed on.
pub open spec fn delivered_in(chunks: Seq<SentChunk>, done: Seq<int>) -> Seq<Seq<u8>> {
    Seq::new(done.len(), |j: int| chunks[done[j]].delivered())
}

/// What is there of the chunk `c` where these fragments are held.
#[verifier::opaque]
spec fn parts_of(
    chunks: Seq<SentChunk>,
    size: nat,
    held: Set<Arrival>,
    c: int,
) -> Seq<Option<Seq<u8>>> {
    let fragments = chunks[c].fragments(size);
    Seq::new(
        fragments.len(),
        |f: int|
            if held.contains(at(c, f)) {
                Some(fragments[f])
            } else {
                None
            },
    )
}

/// Whether anything of the chunk `c` is held.
spec fn begun(held: Set<Arrival>, c: int) -> bool {
    exists|f: int| held.contains(#[trigger] at(c, f))
}

/// The fragments that are held once the chunk `c` was handed on.
spec fn without(held: Set<Arrival>, c: int) -> Set<Arrival> {
    held.filter(|a: Arrival| a.chunk != c)
}

/// What holds after the arrivals: the chunks listed in `done` were handed on, those
/// listed in `open` are on their way, each with the fragments that are held of it.
/// If nothing came twice, no chunk was handed on twice.
spec fn flowing(
    m0: ReassemblerModel,
    chunks: Seq<SentChunk>,
    size: nat,
    came: Seq<Arrival>,
    m: ReassemblerModel,
    flow: Flow,
) -> bool {
    let Flow { held, done, open_chunks } = flow;
    &&& m == (ReassemblerModel {
        chunks: m.chunks,
        sent: m0.sent + delivered_in(chunks, done),
        ..m0
    })
    &&& open_chunks.no_duplicates()
    &&& open_chunks.len() == m.chunks.len()
    &&& forall|j: int|
        0 <= j < done.len() ==> 0 <= (#[trigger] done[j]) < chunks.len() && all_came(
            chunks,
            size,
            came,
            done[j],
        )
    &&& forall|j: int|
        0 <= j < open_chunks.len() ==> 0 <= (#[trigger] open_chunks[j]) < chunks.len()
            && m.chunks[j].chunk_id == chunks[open_chunks[j]].id() && m.chunks[j].parts == parts_of(
            chunks,
            size,
            held,
            open_chunks[j],
        ) && !reassembly::complete(m.chunks[j].parts)
    &&& forall|c: int|
        0 <= c < chunks.len() && #[trigger] begun(held, c) ==> open_chunks.contains(c)
    &&& forall|a: Arrival| #[trigger] held.contains(a) ==> came.contains(a)
    &&& forall|a: Arrival|
        #[trigger] came.contains(a) ==> held.contains(a) || done.contains(a.chunk)
    &&& came.no_duplicates() ==> done.no_duplicates() && forall|j: int|
        0 <= j < open_chunks.len() ==> !done.contains(#[trigger] open_chunks[j])
}

/// How far the fragments have got: which are held, which chunks were handed on, and
/// which are on their way.
struct Flow {
    held: Set<Arrival>,
    done: Seq<int>,
    open_chunks: Seq<int>,
}

/// One more arrival is among what came, and nothing else is new.
proof fn lemma_came_more(came: Seq<Arrival>, a: Arrival)
    ensures
        forall|b: Arrival| #[trigger] came.push(a).contains(b) <==> (came.contains(b) || b == a),
        came.push(a).no_duplicates() ==> came.no_duplicates() && !came.contains(a),
{
    let more = came.push(a);
    assert forall|b: Arrival| #[trigger] more.contains(b) <==> (came.contains(b) || b == a) by {
        if came.contains(b) {
            let k = choose|k: int| 0 <= k < came.len() && came[k] == b;
            assert(more[k] == b);
        }
        assert(more[came.len() as int] == a);
        if more.contains(b) {
            let k = choose|k: int| 0 <= k < more.len() && more[k] == b;
            if k < came.len() {
                assert(came[k] == b);
            }
        }
    }
    if more.no_duplicates() {
        assert forall|i: int, j: int|
            0 <= i < came.len() && 0 <= j < came.len() && i != j implies came[i] != came[j] by {
            assert(more[i] != more[j]);
        }
        if came.contains(a) {
            let k = choose|k: int| 0 <= k < came.len() && came[k] == a;
            assert(more[k] == more[came.len() as int]);
        }
    }
}

/// One more arrival puts one more fragment in place, and touches no other chunk.
proof fn lemma_parts_after(
    chunks: Seq<SentChunk>,
    size: nat,
    held: Set<Arrival>,
    a: Arrival,
    c: int,
)
    requires
        exists_in(chunks, size, a),
        0 <= c < chunks.len(),
    ensures
        parts_of(chunks, size, held.insert(a), c) == (if c == a.chunk {
            parts_of(chunks, size, held, c).update(a.fragment, Some(bytes_of(chunks, size, a)))
        } else {
            parts_of(chunks, size, held, c)
        }),
        begun(held.insert(a), c) ==> begun(held, c) || c == a.chunk,
        begun(held.insert(a), a.chunk),
{
    reveal(parts_of);
    let more = held.insert(a);
    let before = parts_of(chunks, size, held, c);
    let after = parts_of(chunks, size, more, c);
    if c == a.chunk {
        assert(after =~= before.update(a.fragment, Some(bytes_of(chunks, size, a))));
    } else {
        assert(after =~= before);
    }
    if begun(more, c) && c != a.chunk {
        let f = choose|f: int| more.contains(#[trigger] at(c, f));
        assert(held.contains(at(c, f)));
    }
    assert(more.contains(at(a.chunk, a.fragment)));
}

/// When a chunk was handed on, the others keep their fragments.
proof fn lemma_parts_without(
    chunks: Seq<SentChunk>,
    size: nat,
    held: Set<Arrival>,
    gone: int,
    c: int,
)
    requires
        c != gone,
    ensures
        parts_of(chunks, size, without(held, gone), c) == parts_of(chunks, size, held, c),
        begun(without(held, gone), c) ==> begun(held, c),
        !begun(without(held, gone), gone),
{
    reveal(parts_of);
    let left = without(held, gone);
    assert(parts_of(chunks, size, left, c) =~= parts_of(chunks, size, held, c));
    if begun(left, c) {
        let f = choose|f: int| left.contains(#[trigger] at(c, f));
        assert(held.contains(at(c, f)));
    }
}

/// Once all fragments of a chunk are held, they make up its payload.
proof fn lemma_complete_chunk(chunks: Seq<SentChunk>, size: nat, held: Set<Arrival>, c: int)
    requires
        sendable(chunks, size),
        0 <= c < chunks.len(),
        reassembly::complete(parts_of(chunks, size, held, c)),
    ensures
        reassembly::assembled(parts_of(chunks, size, held, c)) is Ok,
        reassembly::assembled(parts_of(chunks, size, held, c))->Ok_0 == chunks[c].delivered(),
{
    reveal(parts_of);
    let parts = parts_of(chunks, size, held, c);
    let fragments = chunks[c].fragments(size);
    assert(parts =~= delivery::all_present(fragments)) by {
        assert forall|f: int| 0 <= f < fragments.len() implies parts[f] == Some(fragments[f]) by {
            assert(parts[f] is Some);
        }
    }
    assert(chunks[c].fits(size));
    delivery::lemma_reassembly_recovers_payload(chunks[c].number, chunks[c].data, size);
}

/// What the header of an arriving fragment says.
proof fn lemma_arrival_header(chunks: Seq<SentChunk>, size: nat, a: Arrival)
    requires
        sendable(chunks, size),
        exists_in(chunks, size, a),
    ensures
        ({
            let f = bytes_of(chunks, size, a);
            let h = FragmentHeader::decoded(f);
            &&& f.len() >= FragmentHeader::LEN
            &&& h.chunk_id == chunks[a.chunk].id()
            &&& h.fragment_index == a.fragment
            &&& h.total_fragments == chunks[a.chunk].fragments(size).len()
        }),
{
    let c = chunks[a.chunk];
    assert(c.fits(size));
    delivery::lemma_fragment_payload(
        c.id(),
        framing::chunk_image(c.number, c.data),
        size,
        a.fragment,
    );
}

/// Where the chunk stands among those on their way.
proof fn lemma_place(
    m0: ReassemblerModel,
    chunks: Seq<SentChunk>,
    size: nat,
    came: Seq<Arrival>,
    m: ReassemblerModel,
    flow: Flow,
    c: int,
) -> (j: int)
    requires
        sendable(chunks, size),
        flowing(m0, chunks, size, came, m, flow),
        0 <= c < chunks.len(),
    ensures
        j == reassembly::position(m.chunks, chunks[c].id()),
        0 <= j <= m.chunks.len(),
        j < m.chunks.len() ==> flow.open_chunks[j] == c,
        j == m.chunks.len() ==> !flow.open_chunks.contains(c),
{
    let open_chunks = flow.open_chunks;
    let id = chunks[c].id();
    assert forall|i: int| 0 <= i < m.chunks.len() && open_chunks[i] != c implies (
    #[trigger] m.chunks[i]).chunk_id != id by {
        let d = open_chunks[i];
        assert(m.chunks[i].chunk_id == chunks[d].id());
        if d < c {
            assert(chunks[d].id() != chunks[c].id());
        } else {
            assert(chunks[c].id() != chunks[d].id());
        }
    }
    if open_chunks.contains(c) {
        let j = choose|j: int| 0 <= j < open_chunks.len() && open_chunks[j] == c;
        assert forall|i: int| 0 <= i < j implies (#[trigger] m.chunks[i]).chunk_id != id by {
            assert(open_chunks[i] != open_chunks[j]);
        }
        assert(m.chunks[j].chunk_id == id);
        reassembly::lemma_position(m.chunks, id, j);
        j
    } else {
        assert forall|i: int| 0 <= i < m.chunks.len() implies (
        #[trigger] m.chunks[i]).chunk_id != id by {
            assert(open_chunks[i] != c);
        }
        reassembly::lemma_position(m.chunks, id, m.chunks.len() as int);
        m.chunks.len() as int
    }
}

/// While nothing of a chunk is held, all its places are free.
proof fn lemma_nothing_of(chunks: Seq<SentChunk>, size: nat, held: Set<Arrival>, c: int)
    requires
        !begun(held, c),
    ensures
        parts_of(chunks, size, held, c) == Seq::new(
            chunks[c].fragments(size).len(),
            |i: int| None::<Seq<u8>>,
        ),
{
    reveal(parts_of);
    let parts = parts_of(chunks, size, held, c);
    assert forall|f: int| 0 <= f < parts.len() implies parts[f] is None by {
        if held.contains(at(c, f)) {
            assert(begun(held, c));
        }
    }
    assert(parts =~= Seq::new(chunks[c].fragments(size).len(), |i: int| None::<Seq<u8>>));
}

/// What a fragment that finds its place free, and memory, does.
proof fn lemma_arrival_is_stored(m: ReassemblerModel, f: Seq<u8>, now: nat, j: int)
    requires
        f.len() >= FragmentHeader::LEN,
        forall|i: int|
            0 <= i < m.chunks.len() ==> !reassembly::complete((#[trigger] m.chunks[i]).parts),
        ({
            let h = FragmentHeader::decoded(f);
            let placed = m.with_place(h, now);
            let stored = placed.with_part(j, h.fragment_index as int, f);
            &&& j == reassembly::position(m.chunks, h.chunk_id)
            &&& 0 <= j < placed.chunks.len()
            &&& placed.chunks[j].parts.len() == h.total_fragments
            &&& h.fragment_index < h.total_fragments
            &&& placed.chunks[j].parts[h.fragment_index as int] is None
            &&& reassembly::inflight(stored.chunks) <= m.max_inflight
            &&& j == reassembly::position(stored.chunks, h.chunk_id)
        }),
    ensures
        ({
            let h = FragmentHeader::decoded(f);
            let stored = m.with_place(h, now).with_part(j, h.fragment_index as int, f);
            let step = arrived(m, f, now);
            &&& !reassembly::complete(stored.chunks[j].parts) ==> step == (
                stored,
                Ok::<bool, Seq<char>>(false),
            )
            &&& reassembly::complete(stored.chunks[j].parts) ==> step == stored.emit_at(j)
        }),
{
    reveal(arrived);
    delivery::lemma_emit_nothing(m, 0);
}

/// What handing on a chunk does, where there is room.
proof fn lemma_handed_on(m: ReassemblerModel, j: int, payload: Seq<u8>)
    requires
        0 <= j < m.chunks.len(),
        reassembly::assembled(m.chunks[j].parts) is Ok,
        reassembly::assembled(m.chunks[j].parts)->Ok_0 == payload,
        !m.closed,
        m.sent.len() < m.capacity,
    ensures
        m.emit_at(j) == (
            ReassemblerModel {
                chunks: m.chunks.remove(j),
                sent: m.sent.push(payload),
                ..m
            },
            Ok::<bool, Seq<char>>(true),
        ),
{
}

/// The state with the arriving fragment in its place, before anything is handed
/// on: the place is returned.
proof fn lemma_stored(
    m0: ReassemblerModel,
    chunks: Seq<SentChunk>,
    size: nat,
    came: Seq<Arrival>,
    m: ReassemblerModel,
    flow: Flow,
    a: Arrival,
    now: nat,
) -> (r: (ReassemblerModel, Seq<int>, int))
    requires
        sendable(chunks, size),
        flowing(m0, chunks, size, came, m, flow),
        exists_in(chunks, size, a),
        !flow.held.contains(a),
        reassembly::inflight(m.chunks) + bytes_of(chunks, size, a).len() - FragmentHeader::LEN
            <= m.max_inflight,
    ensures
        ({
            let (stored, listed, j) = r;
            let held = flow.held.insert(a);
            let parts = parts_of(chunks, size, held, a.chunk);
            let step = arrived(m, bytes_of(chunks, size, a), now);
            &&& stored == (ReassemblerModel { chunks: stored.chunks, ..m })
            &&& listed.len() == stored.chunks.len()
            &&& listed.no_duplicates()
            &&& 0 <= j < listed.len()
            &&& listed[j] == a.chunk
            &&& forall|i: int|
                0 <= i < listed.len() ==> 0 <= (#[trigger] listed[i]) < chunks.len()
                    && stored.chunks[i].chunk_id == chunks[listed[i]].id()
                    && stored.chunks[i].parts == parts_of(chunks, size, held, listed[i])
                    && (i != j ==> !reassembly::complete(stored.chunks[i].parts)
                    && flow.open_chunks.contains(listed[i]))
            &&& forall|c: int| flow.open_chunks.contains(c) ==> #[trigger] listed.contains(c)
            &&& !reassembly::complete(parts) ==> step == (stored, Ok::<bool, Seq<char>>(false))
            &&& reassembly::complete(parts) && !m.closed && m.sent.len() < m.capacity ==> step == (
                ReassemblerModel {
                    chunks: stored.chunks.remove(j),
                    sent: m.sent.push(chunks[a.chunk].delivered()),
                    ..m
                },
                Ok::<bool, Seq<char>>(true),
            )
        }),
{
    let open_chunks = flow.open_chunks;
    let held = flow.held;
    let c = a.chunk;
    let id = chunks[c].id();
    let f = bytes_of(chunks, size, a);
    let h = FragmentHeader::decoded(f);
    let more = held.insert(a);
    let j = lemma_place(m0, chunks, size, came, m, flow, c);
    lemma_arrival_header(chunks, size, a);
    assert(parts_of(chunks, size, held, c).len() == chunks[c].fragments(size).len() && parts_of(
        chunks,
        size,
        held,
        c,
    )[a.fragment] is None) by {
        reveal(parts_of);
        assert(a == at(c, a.fragment));
    }
    let placed = m.with_place(h, now);
    let listed = if j < m.chunks.len() {
        open_chunks
    } else {
        open_chunks.push(c)
    };
    if j == m.chunks.len() {
        assert(!begun(held, c));
        lemma_nothing_of(chunks, size, held, c);
        reassembly::lemma_nothing_present(placed.chunks[j].parts);
        assert(placed.chunks.drop_last() =~= m.chunks);
        lemma_push_distinct(open_chunks, c);
    } else {
        assert(0 <= open_chunks[j] < chunks.len());
    }
    assert(placed.chunks[j].parts == parts_of(chunks, size, held, c));
    assert(reassembly::inflight(placed.chunks) == reassembly::inflight(m.chunks));
    let stored = placed.with_part(j, a.fragment, f);
    reassembly::lemma_store(placed.chunks[j].parts, a.fragment, f);
    reassembly::lemma_inflight_update(placed.chunks, j, stored.chunks[j]);
    assert forall|i: int| 0 <= i < listed.len() implies 0 <= (#[trigger] listed[i]) < chunks.len()
        && stored.chunks[i].chunk_id == chunks[listed[i]].id() && stored.chunks[i].parts
        == parts_of(chunks, size, more, listed[i]) && (i != j ==> !reassembly::complete(
        stored.chunks[i].parts,
    ) && open_chunks.contains(listed[i])) by {
        lemma_parts_after(chunks, size, held, a, listed[i]);
        if i != j {
            assert(listed[i] == open_chunks[i]);
            assert(listed[i] != listed[j]);
            assert(stored.chunks[i] == m.chunks[i]);
        }
    }
    assert forall|i: int| 0 <= i < j implies (#[trigger] stored.chunks[i]).chunk_id != id by {
        let d = listed[i];
        assert(d != listed[j]);
        assert(stored.chunks[i].chunk_id == chunks[d].id());
        if d < c {
            assert(chunks[d].id() != chunks[c].id());
        } else {
            assert(chunks[c].id() != chunks[d].id());
        }
    }
    reassembly::lemma_position(stored.chunks, id, j);
    assert forall|i: int| 0 <= i < m.chunks.len() implies !reassembly::complete(
        (#[trigger] m.chunks[i]).parts,
    ) by {
        assert(0 <= open_chunks[i] < chunks.len());
    }
    lemma_arrival_is_stored(m, f, now, j);
    assert(listed[j] == c);
    if reassembly::complete(parts_of(chunks, size, more, c)) {
        lemma_complete_chunk(chunks, size, more, c);
        if !m.closed && m.sent.len() < m.capacity {
            lemma_handed_on(stored, j, chunks[c].delivered());
        }
    }
    (stored, listed, j)
}

/// One more entry that is new leaves all entries distinct.
proof fn lemma_push_distinct(s: Seq<int>, x: int)
    requires
        s.no_duplicates(),
        !s.contains(x),
    ensures
        s.push(x).no_duplicates(),
        s.push(x).contains(x),
        forall|y: int| s.contains(y) ==> #[trigger] s.push(x).contains(y),
{
    let t = s.push(x);
    assert forall|i: int, j: int| 0 <= i < t.len() && 0 <= j < t.len() && i != j implies t[i]
        != t[j] by {
        if i == s.len() {
            assert(s[j] == t[j]);
        } else if j == s.len() {
            assert(s[i] == t[i]);
        }
    }
    assert(t[s.len() as int] == x);
    assert forall|y: int| s.contains(y) implies #[trigger] t.contains(y) by {
        let i = choose|i: int| 0 <= i < s.len() && s[i] == y;
        assert(t[i] == y);
    }
}

/// One entry less leaves all entries distinct, and the others in place.
proof fn lemma_remove_distinct(s: Seq<int>, j: int)
    requires
        s.no_duplicates(),
        0 <= j < s.len(),
    ensures
        s.remove(j).no_duplicates(),
        forall|y: int| s.contains(y) && y != s[j] ==> #[trigger] s.remove(j).contains(y),
{
    let t = s.remove(j);
    assert forall|x: int, y: int| 0 <= x < t.len() && 0 <= y < t.len() && x != y implies t[x]
        != t[y] by {
        let x0 = if x < j {
            x
        } else {
            x + 1
        };
        let y0 = if y < j {
            y
        } else {
            y + 1
        };
        assert(s[x0] != s[y0]);
    }
    assert forall|y: int| s.contains(y) && y != s[j] implies #[trigger] t.contains(y) by {
        let i = choose|i: int| 0 <= i < s.len() && s[i] == y;
        assert(t[if i < j {
            i
        } else {
            i - 1
        }] == y);
    }
}

/// The chunks that were handed on are still all there of what came.
proof fn lemma_done_stays(chunks: Seq<SentChunk>, size: nat, came: Seq<Arrival>, a: Arrival, c: int)
    requires
        all_came(chunks, size, came, c),
    ensures
        all_came(chunks, size, came.push(a), c),
{
    lemma_came_more(came, a);
}

/// The arrival that completes a chunk keeps what holds.
proof fn lemma_flow_completes(
    m0: ReassemblerModel,
    chunks: Seq<SentChunk>,
    size: nat,
    came: Seq<Arrival>,
    m: ReassemblerModel,
    flow: Flow,
    a: Arrival,
    now: nat,
) -> (r: Flow)
    requires
        sendable(chunks, size),
        flowing(m0, chunks, size, came, m, flow),
        exists_in(chunks, size, a),
        !flow.held.contains(a),
        reassembly::inflight(m.chunks) + bytes_of(chunks, size, a).len() - FragmentHeader::LEN
            <= m.max_inflight,
        !m0.closed,
        m.sent.len() < m.capacity,
        reassembly::complete(parts_of(chunks, size, flow.held.insert(a), a.chunk)),
    ensures
        flowing(
            m0,
            chunks,
            size,
            came.push(a),
            arrived(m, bytes_of(chunks, size, a), now).0,
            r,
        ),
        arrived(m, bytes_of(chunks, size, a), now).1 == Ok::<bool, Seq<char>>(true),
        all_came(chunks, size, came.push(a), a.chunk),
{
    let Flow { held, done, open_chunks } = flow;
    let c = a.chunk;
    let more = came.push(a);
    let full = held.insert(a);
    let left_held = without(full, c);
    let (stored, listed, j) = lemma_stored(m0, chunks, size, came, m, flow, a, now);
    let after = arrived(m, bytes_of(chunks, size, a), now).0;
    lemma_came_more(came, a);
    assert(all_came(chunks, size, more, c)) by {
        reveal(parts_of);
        let parts = parts_of(chunks, size, full, c);
        assert forall|f: int| 0 <= f < chunks[c].fragments(size).len() implies more.contains(
            #[trigger] at(c, f),
        ) by {
            assert(parts[f] is Some);
            assert(full.contains(at(c, f)));
        }
    }
    let finished = done.push(c);
    assert forall|i: int| 0 <= i < finished.len() implies 0 <= (
    #[trigger] finished[i]) < chunks.len() && all_came(chunks, size, more, finished[i]) by {
        if i < done.len() {
            assert(finished[i] == done[i]);
            lemma_done_stays(chunks, size, came, a, done[i]);
        }
    }
    let left = listed.remove(j);
    lemma_remove_distinct(listed, j);
    assert(m.sent.push(chunks[c].delivered()) =~= m0.sent + delivered_in(chunks, finished));
    assert forall|i: int| 0 <= i < left.len() implies 0 <= (#[trigger] left[i]) < chunks.len()
        && after.chunks[i].chunk_id == chunks[left[i]].id() && after.chunks[i].parts == parts_of(
        chunks,
        size,
        left_held,
        left[i],
    ) && !reassembly::complete(after.chunks[i].parts) && left[i] != c && open_chunks.contains(
        left[i],
    ) by {
        let i0 = if i < j {
            i
        } else {
            i + 1
        };
        assert(left[i] == listed[i0]);
        assert(listed[i0] != listed[j]);
        lemma_parts_without(chunks, size, full, c, left[i]);
    }
    assert forall|d: int| 0 <= d < chunks.len() && #[trigger] begun(left_held, d) implies
        left.contains(d) by {
        assert(d != c) by {
            if d == c {
                let f = choose|f: int| left_held.contains(#[trigger] at(c, f));
            }
        }
        lemma_parts_without(chunks, size, full, c, d);
        lemma_parts_after(chunks, size, held, a, d);
        assert(open_chunks.contains(d));
        assert(listed.contains(d));
    }
    assert forall|b: Arrival| #[trigger] more.contains(b) implies left_held.contains(b)
        || finished.contains(b.chunk) by {
        if b.chunk == c {
            assert(finished[done.len() as int] == c);
        } else if done.contains(b.chunk) {
            let i = choose|i: int| 0 <= i < done.len() && done[i] == b.chunk;
            assert(finished[i] == b.chunk);
        }
    }
    if more.no_duplicates() {
        assert(!done.contains(c)) by {
            if done.contains(c) {
                let i = choose|i: int| 0 <= i < done.len() && done[i] == c;
                assert(all_came(chunks, size, came, done[i]));
                assert(came.contains(at(c, a.fragment)));
            }
        }
        lemma_push_distinct(done, c);
        assert forall|i: int| 0 <= i < left.len() implies !finished.contains(#[trigger] left[i]) by {
            assert(open_chunks.contains(left[i]));
            let i0 = choose|i0: int| 0 <= i0 < open_chunks.len() && open_chunks[i0] == left[i];
            assert(!done.contains(open_chunks[i0]));
            if finished.contains(left[i]) {
                let x = choose|x: int| 0 <= x < finished.len() && finished[x] == left[i];
                if x < done.len() {
                    assert(done[x] == left[i]);
                }
            }
        }
    }
    Flow { held: left_held, done: finished, open_chunks: left }
}

/// An arrival that leaves its chunk incomplete keeps what holds.
proof fn lemma_flow_goes_on(
    m0: ReassemblerModel,
    chunks: Seq<SentChunk>,
    size: nat,
    came: Seq<Arrival>,
    m: ReassemblerModel,
    flow: Flow,
    a: Arrival,
    now: nat,
) -> (r: Flow)
    requires
        sendable(chunks, size),
        flowing(m0, chunks, size, came, m, flow),
        exists_in(chunks, size, a),
        !flow.held.contains(a),
        reassembly::inflight(m.chunks) + bytes_of(chunks, size, a).len() - FragmentHeader::LEN
            <= m.max_inflight,
        !reassembly::complete(parts_of(chunks, size, flow.held.insert(a), a.chunk)),
    ensures
        flowing(
            m0,
            chunks,
            size,
            came.push(a),
            arrived(m, bytes_of(chunks, size, a), now).0,
            r,
        ),
        arrived(m, bytes_of(chunks, size, a), now).1 == Ok::<bool, Seq<char>>(false),
        came.push(a).no_duplicates() ==> !all_came(chunks, size, came.push(a), a.chunk),
{
    let Flow { held, done, open_chunks } = flow;
    let c = a.chunk;
    let more = came.push(a);
    let full = held.insert(a);
    let (stored, listed, j) = lemma_stored(m0, chunks, size, came, m, flow, a, now);
    let after = arrived(m, bytes_of(chunks, size, a), now).0;
    lemma_came_more(came, a);
    assert forall|i: int| 0 <= i < done.len() implies 0 <= (#[trigger] done[i]) < chunks.len()
        && all_came(chunks, size, more, done[i]) by {
        lemma_done_stays(chunks, size, came, a, done[i]);
    }
    assert(after == stored);
    assert forall|i: int| 0 <= i < listed.len() implies 0 <= (
    #[trigger] listed[i]) < chunks.len() && after.chunks[i].chunk_id == chunks[listed[i]].id()
        && after.chunks[i].parts == parts_of(chunks, size, full, listed[i])
        && !reassembly::complete(after.chunks[i].parts) by {}
    assert forall|d: int| 0 <= d < chunks.len() && #[trigger] begun(full, d) implies
        listed.contains(d) by {
        lemma_parts_after(chunks, size, held, a, d);
        if d == c {
            assert(listed[j] == c);
        } else {
            assert(open_chunks.contains(d));
            assert(listed.contains(d));
        }
    }
    if more.no_duplicates() {
        assert(!done.contains(c)) by {
            if done.contains(c) {
                let i = choose|i: int| 0 <= i < done.len() && done[i] == c;
                assert(all_came(chunks, size, came, done[i]));
                assert(came.contains(at(c, a.fragment)));
            }
        }
        assert forall|i: int| 0 <= i < listed.len() implies !done.contains(#[trigger] listed[i]) by {
            if i != j {
                assert(open_chunks.contains(listed[i]));
                let i0 = choose|i0: int|
                    0 <= i0 < open_chunks.len() && open_chunks[i0] == listed[i];
                assert(!done.contains(open_chunks[i0]));
            }
        }
        if all_came(chunks, size, more, c) {
            let parts = parts_of(chunks, size, full, c);
            assert(reassembly::complete(parts)) by {
                reveal(parts_of);
                assert forall|f: int| 0 <= f < parts.len() implies (#[trigger] parts[f]) is Some by {
                    assert(more.contains(at(c, f)));
                    if at(c, f) != a {
                        assert(came.contains(at(c, f)));
                    }
                }
            }
        }
    }
    Flow { held: full, done, open_chunks: listed }
}

/// A fragment that is held already changes nothing.
proof fn lemma_flow_repeats(
    m0: ReassemblerModel,
    chunks: Seq<SentChunk>,
    size: nat,
    came: Seq<Arrival>,
    m: ReassemblerModel,
    flow: Flow,
    a: Arrival,
    now: nat,
)
    requires
        sendable(chunks, size),
        flowing(m0, chunks, size, came, m, flow),
        exists_in(chunks, size, a),
        flow.held.contains(a),
    ensures
        arrived(m, bytes_of(chunks, size, a), now) == (m, Ok::<bool, Seq<char>>(false)),
        flowing(m0, chunks, size, came.push(a), m, flow),
{
    let Flow { held, done, open_chunks } = flow;
    let c = a.chunk;
    let f = bytes_of(chunks, size, a);
    lemma_arrival_header(chunks, size, a);
    let j = lemma_place(m0, chunks, size, came, m, flow, c);
    assert(held.contains(at(c, a.fragment)));
    assert(begun(held, c));
    assert(0 <= open_chunks[j] < chunks.len());
    assert(m.has_part(FragmentHeader::decoded(f))) by {
        reveal(parts_of);
        assert(m.chunks[j].parts == parts_of(chunks, size, held, c));
    }
    assert forall|i: int| 0 <= i < m.chunks.len() implies !reassembly::complete(
        (#[trigger] m.chunks[i]).parts,
    ) by {
        assert(0 <= open_chunks[i] < chunks.len());
    }
    assert(arrived(m, f, now) == (m, Ok::<bool, Seq<char>>(false))) by {
        reveal(arrived);
        delivery::lemma_emit_nothing(m, 0);
        delivery::lemma_duplicate_changes_nothing(m, f, now);
    }
    lemma_came_more(came, a);
    assert forall|i: int| 0 <= i < done.len() implies 0 <= (#[trigger] done[i]) < chunks.len()
        && all_came(chunks, size, came.push(a), done[i]) by {
        lemma_done_stays(chunks, size, came, a, done[i]);
    }
}

/// Distinct chunks are no more than there are.
proof fn lemma_few_done(n: nat, done: Seq<int>)
    requires
        done.no_duplicates(),
        forall|j: int| 0 <= j < done.len() ==> 0 <= (#[trigger] done[j]) < n,
    ensures
        done.len() <= n,
{
    done.unique_seq_to_set();
    let all = vstd::set_lib::set_int_range(0, n as int);
    vstd::set_lib::lemma_int_range(0, n as int);
    assert(done.to_set().subset_of(all)) by {
        assert forall|x: int| done.to_set().contains(x) implies all.contains(x) by {
            let i = choose|i: int| 0 <= i < done.len() && done[i] == x;
            assert(0 <= done[i] < n);
        }
    }
    vstd::set_lib::lemma_len_subset(done.to_set(), all);
}

/// Whether the `k`-th arrival finds memory, and room for a payload: there is some
/// left then, or there is enough for all chunks and nothing comes twice.
spec fn is_provided_for(
    m: ReassemblerModel,
    chunks: Seq<SentChunk>,
    size: nat,
    arrivals: Seq<Arrival>,
    times: Seq<nat>,
    k: int,
) -> bool {
    &&& has_memory(m, chunks, size, arrivals, times, k)
    &&& has_room(m, chunks, size, arrivals, times, k) || (arrivals.no_duplicates() && m.sent.len()
        + chunks.len() <= m.capacity)
}

/// What holds after the first `k` arrivals, and what is reported of the last of
/// them where nothing comes twice.
proof fn lemma_flow(
    m: ReassemblerModel,
    chunks: Seq<SentChunk>,
    size: nat,
    arrivals: Seq<Arrival>,
    times: Seq<nat>,
    k: int,
) -> (r: Flow)
    requires
        sendable(chunks, size),
        forall|i: int|
            0 <= i < arrivals.len() ==> exists_in(chunks, size, #[trigger] arrivals[i]),
        m.chunks.len() == 0,
        !m.closed,
        0 <= k <= arrivals.len(),
        forall|i: int|
            0 <= i < k ==> #[trigger] is_provided_for(m, chunks, size, arrivals, times, i),
    ensures
        flowing(
            m,
            chunks,
            size,
            arrivals.take(k),
            after_arrivals(m, chunks, size, arrivals.take(k), times),
            r,
        ),
        k > 0 && arrivals.no_duplicates() ==> reported(m, chunks, size, arrivals, times, k - 1)
            == Ok::<bool, Seq<char>>(
            all_came(chunks, size, arrivals.take(k), arrivals[k - 1].chunk),
        ),
    decreases k,
{
    if k == 0 {
        assert(arrivals.take(0) =~= Seq::empty());
        assert(m.sent + delivered_in(chunks, Seq::empty()) =~= m.sent);
        let r = Flow { held: Set::empty(), done: Seq::empty(), open_chunks: Seq::empty() };
        assert forall|c: int| 0 <= c < chunks.len() && #[trigger] begun(r.held, c) implies false by {
            let f = choose|f: int| r.held.contains(#[trigger] at(c, f));
        }
        r
    } else {
        let flow = lemma_flow(m, chunks, size, arrivals, times, k - 1);
        let came = arrivals.take(k - 1);
        let a = arrivals[k - 1];
        let here = after_arrivals(m, chunks, size, came, times);
        let now = times[k - 1];
        assert(arrivals.take(k) =~= came.push(a));
        assert(arrivals.take(k).drop_last() =~= came);
        assert(is_provided_for(m, chunks, size, arrivals, times, k - 1));
        assert(arrivals.no_duplicates() ==> came.push(a).no_duplicates());
        lemma_came_more(came, a);
        if flow.held.contains(a) {
            lemma_flow_repeats(m, chunks, size, came, here, flow, a, now);
            flow
        } else if reassembly::complete(
            parts_of(chunks, size, flow.held.insert(a), a.chunk),
        ) {
            if !has_room(m, chunks, size, arrivals, times, k - 1) {
                let done = flow.done;
                assert(!done.contains(a.chunk)) by {
                    if done.contains(a.chunk) {
                        let i = choose|i: int| 0 <= i < done.len() && done[i] == a.chunk;
                        assert(all_came(chunks, size, came, done[i]));
                        assert(came.contains(at(a.chunk, a.fragment)));
                    }
                }
                lemma_push_distinct(done, a.chunk);
                assert forall|i: int| 0 <= i < done.push(a.chunk).len() implies 0 <= (
                #[trigger] done.push(a.chunk)[i]) < chunks.len() by {
                    if i < done.len() {
                        assert(done.push(a.chunk)[i] == done[i]);
                    }
                }
                lemma_few_done(chunks.len(), done.push(a.chunk));
            }
            lemma_flow_completes(m, chunks, size, came, here, flow, a, now)
        } else {
            lemma_flow_goes_on(m, chunks, size, came, here, flow, a, now)
        }
    }
}

/// Once all fragments came, every chunk was handed on.
proof fn lemma_all_done(
    m: ReassemblerModel,
    chunks: Seq<SentChunk>,
    size: nat,
    arrivals: Seq<Arrival>,
    after: ReassemblerModel,
    flow: Flow,
)
    requires
        sendable(chunks, size),
        all_come(chunks, size, arrivals),
        flowing(m, chunks, size, arrivals, after, flow),
    ensures
        delivery::covers(flow.done, chunks.len()),
{
    let Flow { held, done, open_chunks } = flow;
    assert forall|c: int| 0 <= c < chunks.len() implies #[trigger] done.contains(c) by {
        lemma_some_fragment(chunks[c], size);
        assert(exists_in(chunks, size, at(c, 0)));
        if !done.contains(c) {
            assert(arrivals.contains(at(c, 0)));
            assert(begun(held, c));
            let j = choose|j: int| 0 <= j < open_chunks.len() && open_chunks[j] == c;
            assert(after.chunks[j].parts == parts_of(chunks, size, held, open_chunks[j]));
            let parts = parts_of(chunks, size, held, c);
            assert(reassembly::complete(parts)) by {
                reveal(parts_of);
                assert forall|f: int| 0 <= f < parts.len() implies (
                #[trigger] parts[f]) is Some by {
                    assert(exists_in(chunks, size, at(c, f)));
                    assert(arrivals.contains(at(c, f)));
                }
            }
        }
    }
}

/// Whatever the order in which the fragments of any number of chunks come, mixed
/// with each other as they may be: once all of them came, the payload of each
/// chunk was handed on exactly once, and nothing is left. The order in which the
/// payloads were handed on is returned. This holds where there is always memory
/// for what waits, and room to hand payloads on.
pub proof fn lemma_every_chunk_is_delivered(
    m: ReassemblerModel,
    chunks: Seq<SentChunk>,
    size: nat,
    arrivals: Seq<Arrival>,
    times: Seq<nat>,
) -> (order: Seq<int>)
    requires
        sendable(chunks, size),
        all_come_once(chunks, size, arrivals),
        times.len() == arrivals.len(),
        m.chunks.len() == 0,
        !m.closed,
        m.sent.len() + chunks.len() <= m.capacity,
        forall|k: int|
            0 <= k < arrivals.len() ==> #[trigger] has_memory(m, chunks, size, arrivals, times, k),
    ensures
        delivery::is_arrival_order(order, chunks.len()),
        after_arrivals(m, chunks, size, arrivals, times) == (ReassemblerModel {
            sent: m.sent + delivered_in(chunks, order),
            ..m
        }),
{
    let n = arrivals.len() as int;
    assert forall|k: int| 0 <= k < n implies #[trigger] is_provided_for(
        m,
        chunks,
        size,
        arrivals,
        times,
        k,
    ) by {
        assert(has_memory(m, chunks, size, arrivals, times, k));
    }
    let flow = lemma_flow(m, chunks, size, arrivals, times, n);
    assert(arrivals.take(n) =~= arrivals);
    let after = after_arrivals(m, chunks, size, arrivals, times);
    lemma_all_done(m, chunks, size, arrivals, after, flow);
    assert(flow.open_chunks.len() == 0) by {
        if flow.open_chunks.len() > 0 {
            assert(!flow.done.contains(flow.open_chunks[0]));
            assert(0 <= flow.open_chunks[0] < chunks.len());
        }
    }
    lemma_few_done(chunks.len(), flow.done);
    lemma_all_listed(chunks.len(), flow.done);
    assert(after.chunks =~= m.chunks);
    flow.done
}

/// Fragments may come more than once, too. Once all of them came, the payload of
/// each chunk was handed on at least once, and nothing else was. A chunk of which
/// fragments come again later may be handed on again, and what came again of it
/// may wait. The order in which the payloads were handed on is returned. This
/// holds where there is always memory for what waits, and room to hand payloads
/// on.
pub proof fn lemma_every_chunk_is_delivered_despite_repeats(
    m: ReassemblerModel,
    chunks: Seq<SentChunk>,
    size: nat,
    arrivals: Seq<Arrival>,
    times: Seq<nat>,
) -> (order: Seq<int>)
    requires
        sendable(chunks, size),
        all_come(chunks, size, arrivals),
        times.len() == arrivals.len(),
        m.chunks.len() == 0,
        !m.closed,
        forall|k: int|
            0 <= k < arrivals.len() ==> #[trigger] has_memory(m, chunks, size, arrivals, times, k),
        forall|k: int|
            0 <= k < arrivals.len() ==> #[trigger] has_room(m, chunks, size, arrivals, times, k),
    ensures
        delivery::covers(order, chunks.len()),
        after_arrivals(m, chunks, size, arrivals, times) == (ReassemblerModel {
            chunks: after_arrivals(m, chunks, size, arrivals, times).chunks,
            sent: m.sent + delivered_in(chunks, order),
            ..m
        }),
        arrivals.no_duplicates() ==> order.no_duplicates() && after_arrivals(
            m,
            chunks,
            size,
            arrivals,
            times,
        ).chunks.len() == 0,
{
    let n = arrivals.len() as int;
    assert forall|k: int| 0 <= k < n implies #[trigger] is_provided_for(
        m,
        chunks,
        size,
        arrivals,
        times,
        k,
    ) by {
        assert(has_memory(m, chunks, size, arrivals, times, k));
        assert(has_room(m, chunks, size, arrivals, times, k));
    }
    let flow = lemma_flow(m, chunks, size, arrivals, times, n);
    assert(arrivals.take(n) =~= arrivals);
    let after = after_arrivals(m, chunks, size, arrivals, times);
    lemma_all_done(m, chunks, size, arrivals, after, flow);
    if arrivals.no_duplicates() && flow.open_chunks.len() > 0 {
        assert(!flow.done.contains(flow.open_chunks[0]));
        assert(0 <= flow.open_chunks[0] < chunks.len());
    }
    flow.done
}

/// The fragment with which all of its chunk is there is reported to have completed
/// it, and no other is: this goes for each arrival, whatever came before, where no
/// fragment comes twice, and where there is memory and room.
pub proof fn lemma_the_last_fragment_completes(
    m: ReassemblerModel,
    chunks: Seq<SentChunk>,
    size: nat,
    arrivals: Seq<Arrival>,
    times: Seq<nat>,
    k: int,
)
    requires
        sendable(chunks, size),
        arrivals.no_duplicates(),
        forall|i: int|
            0 <= i < arrivals.len() ==> exists_in(chunks, size, #[trigger] arrivals[i]),
        m.chunks.len() == 0,
        !m.closed,
        m.sent.len() + chunks.len() <= m.capacity,
        0 <= k < arrivals.len(),
        forall|i: int| 0 <= i <= k ==> #[trigger] has_memory(m, chunks, size, arrivals, times, i),
    ensures
        reported(m, chunks, size, arrivals, times, k) == Ok::<bool, Seq<char>>(
            all_came(chunks, size, arrivals.take(k + 1), arrivals[k].chunk),
        ),
{
    assert forall|i: int| 0 <= i < k + 1 implies #[trigger] is_provided_for(
        m,
        chunks,
        size,
        arrivals,
        times,
        i,
    ) by {
        assert(has_memory(m, chunks, size, arrivals, times, i));
    }
    let _ = lemma_flow(m, chunks, size, arrivals, times, k + 1);
}

/// A list that has every number below `n` has at least `n` entries.
proof fn lemma_all_listed(n: nat, done: Seq<int>)
    requires
        forall|c: int| 0 <= c < n ==> #[trigger] done.contains(c),
    ensures
        done.len() >= n,
{
    let all = vstd::set_lib::set_int_range(0, n as int);
    vstd::set_lib::lemma_int_range(0, n as int);
    assert(all.subset_of(done.to_set())) by {
        assert forall|x: int| all.contains(x) implies done.to_set().contains(x) by {
            assert(done.contains(x));
        }
    }
    done.lemma_cardinality_of_set();
    vstd::set_lib::lemma_len_subset(all, done.to_set());
}

/// Every chunk has a fragment.
proof fn lemma_some_fragment(chunk: SentChunk, size: nat)
    requires
        size > 0,
    ensures
        chunk.fragments(size).len() > 0,
{
    let header = framing::chunk_header(chunk.number, chunk.data);
    headers::lemma_chunk_header_round_trip(header, framing::wire_payload(chunk.data));
    let image = framing::chunk_image(chunk.number, chunk.data);
    assert(image.len() >= ChunkHeader::LEN);
    vstd::arithmetic::div_mod::lemma_div_is_ordered(
        size as int,
        image.len() + size - 1,
        size as int,
    );
    vstd::arithmetic::div_mod::lemma_div_by_self(size as int);
}

/// Some of the fragments hold no more bytes than all of them.
proof fn lemma_some_bytes(parts: Seq<Option<Seq<u8>>>, fragments: Seq<Seq<u8>>)
    requires
        parts.len() == fragments.len(),
        forall|i: int|
            0 <= i < parts.len() ==> (#[trigger] parts[i] is None || parts[i] == Some(
                fragments[i],
            )) && fragments[i].len() >= FragmentHeader::LEN,
    ensures
        reassembly::payload_bytes(parts) <= reassembly::joined(
            delivery::all_present(fragments),
        ).len(),
    decreases parts.len(),
{
    if parts.len() > 0 {
        let rest = parts.drop_last();
        let fewer = fragments.drop_last();
        assert forall|i: int| 0 <= i < rest.len() implies (#[trigger] rest[i] is None || rest[i]
            == Some(fewer[i])) && fewer[i].len() >= FragmentHeader::LEN by {
            assert(parts[i] is None || parts[i] == Some(fragments[i]));
        }
        lemma_some_bytes(rest, fewer);
        let all = delivery::all_present(fragments);
        assert(all.drop_last() =~= delivery::all_present(fewer));
        assert(all.last() == Some(fragments.last()));
        let k = parts.len() - 1;
        assert(parts[k] is None || parts[k] == Some(fragments[k]));
    }
}

/// There is memory for each fragment of a single chunk if there is for the chunk.
proof fn lemma_memory_for_one(
    m: ReassemblerModel,
    chunks: Seq<SentChunk>,
    size: nat,
    arrivals: Seq<Arrival>,
    times: Seq<nat>,
    k: int,
)
    requires
        chunks.len() == 1,
        sendable(chunks, size),
        arrivals.no_duplicates(),
        forall|i: int|
            0 <= i < arrivals.len() ==> exists_in(chunks, size, #[trigger] arrivals[i]),
        m.chunks.len() == 0,
        !m.closed,
        m.sent.len() < m.capacity,
        framing::chunk_image(chunks[0].number, chunks[0].data).len() <= m.max_inflight,
        0 <= k <= arrivals.len(),
    ensures
        forall|i: int| 0 <= i < k ==> #[trigger] has_memory(m, chunks, size, arrivals, times, i),
    decreases k,
{
    if k > 0 {
        let n = k - 1;
        lemma_memory_for_one(m, chunks, size, arrivals, times, n);
        assert forall|i: int| 0 <= i < n implies #[trigger] is_provided_for(
            m,
            chunks,
            size,
            arrivals,
            times,
            i,
        ) by {
            assert(has_memory(m, chunks, size, arrivals, times, i));
        }
        let flow = lemma_flow(m, chunks, size, arrivals, times, n);
        let Flow { held, done, open_chunks } = flow;
        let came = arrivals.take(n);
        let here = after_arrivals(m, chunks, size, came, times);
        let a = arrivals[n];
        let f = bytes_of(chunks, size, a);
        let fragments = chunks[0].fragments(size);
        assert(exists_in(chunks, size, a));
        assert(!held.contains(a)) by {
            if came.contains(a) {
                let i = choose|i: int| 0 <= i < came.len() && came[i] == a;
                assert(arrivals[i] == arrivals[n]);
            }
        }
        let parts = parts_of(chunks, size, held, 0);
        assert forall|j: int| 0 <= j < open_chunks.len() implies 0 <= (
        #[trigger] open_chunks[j]) < 1 by {}
        lemma_few_done(1, open_chunks);
        if here.chunks.len() == 0 {
            assert(!begun(held, 0)) by {
                if begun(held, 0) {
                    assert(open_chunks.contains(0));
                }
            }
            lemma_nothing_of(chunks, size, held, 0);
            reassembly::lemma_nothing_present(parts);
        } else {
            assert(open_chunks[0] == 0);
            assert(here.chunks.drop_last() =~= Seq::empty());
            assert(reassembly::inflight(here.chunks.drop_last()) == 0);
            assert(here.chunks.last() == here.chunks[0]);
        }
        assert(reassembly::inflight(here.chunks) == reassembly::payload_bytes(parts));
        assert(parts.len() == fragments.len() && parts[a.fragment] is None) by {
            reveal(parts_of);
            assert(a == at(0, a.fragment));
        }
        let more = parts.update(a.fragment, Some(f));
        reassembly::lemma_store(parts, a.fragment, f);
        assert forall|i: int| 0 <= i < more.len() implies (#[trigger] more[i] is None || more[i]
            == Some(fragments[i])) && fragments[i].len() >= FragmentHeader::LEN by {
            reveal(parts_of);
            lemma_arrival_header(chunks, size, at(0, i));
        }
        lemma_some_bytes(more, fragments);
        delivery::lemma_pieces_make_the_image(
            chunks[0].id(),
            framing::chunk_image(chunks[0].number, chunks[0].data),
            size,
        );
        assert(has_memory(m, chunks, size, arrivals, times, n));
    }
}

/// The arrivals of the fragments of a single chunk, in the given order.
pub open spec fn arrivals_in(order: Seq<int>) -> Seq<Arrival> {
    Seq::new(order.len(), |j: int| at(0, order[j]))
}

/// The fragments of one chunk may come in any order: each but the last is reported
/// not to complete the chunk, and the last to complete it. Then, and not before,
/// one payload is handed on, the header of the chunk and its data, and nothing is
/// left. This holds where there is memory for the chunk, and room for a payload.
pub proof fn lemma_chunk_in_any_order(
    m: ReassemblerModel,
    chunk: SentChunk,
    size: nat,
    order: Seq<int>,
    times: Seq<nat>,
)
    requires
        size > 0,
        chunk.fits(size),
        delivery::is_arrival_order(order, chunk.fragments(size).len()),
        times.len() == order.len(),
        m.chunks.len() == 0,
        !m.closed,
        m.sent.len() < m.capacity,
        framing::chunk_image(chunk.number, chunk.data).len() <= m.max_inflight,
    ensures
        forall|k: int|
            0 <= k < order.len() ==> #[trigger] reported(
                m,
                seq![chunk],
                size,
                arrivals_in(order),
                times,
                k,
            ) == Ok::<bool, Seq<char>>(k == order.len() - 1),
        forall|k: int|
            0 <= k < order.len() ==> (#[trigger] after_arrivals(
                m,
                seq![chunk],
                size,
                arrivals_in(order).take(k),
                times,
            )).sent == m.sent,
        after_arrivals(m, seq![chunk], size, arrivals_in(order), times) == (ReassemblerModel {
            sent: m.sent.push(chunk.delivered()),
            ..m
        }),
        reassembly::inflight(
            after_arrivals(m, seq![chunk], size, arrivals_in(order), times).chunks,
        ) == 0,
{
    let chunks = seq![chunk];
    let arrivals = arrivals_in(order);
    let n = order.len() as int;
    assert(arrivals.no_duplicates()) by {
        assert forall|i: int, j: int|
            0 <= i < arrivals.len() && 0 <= j < arrivals.len() && i != j implies arrivals[i]
            != arrivals[j] by {
            assert(order[i] != order[j]);
        }
    }
    assert forall|a: Arrival| #[trigger] exists_in(chunks, size, a) implies arrivals.contains(a) by {
        assert(order.contains(a.fragment));
        let j = choose|j: int| 0 <= j < order.len() && order[j] == a.fragment;
        assert(arrivals[j] == a);
    }
    lemma_memory_for_one(m, chunks, size, arrivals, times, n);
    assert forall|k: int| 0 <= k < n implies !#[trigger] all_came(
        chunks,
        size,
        arrivals.take(k),
        0,
    ) by {
        if all_came(chunks, size, arrivals.take(k), 0) {
            assert(arrivals[k] == at(0, order[k]));
            assert(arrivals.take(k).contains(at(0, order[k])));
            let j = choose|j: int| 0 <= j < k && arrivals.take(k)[j] == at(0, order[k]);
            assert(arrivals[j] == arrivals[k]);
        }
    }
    assert forall|k: int| 0 <= k < n implies #[trigger] reported(
        m,
        chunks,
        size,
        arrivals,
        times,
        k,
    ) == Ok::<bool, Seq<char>>(k == n - 1) by {
        lemma_the_last_fragment_completes(m, chunks, size, arrivals, times, k);
        if k == n - 1 {
            assert(arrivals.take(n) =~= arrivals);
            assert forall|f: int| 0 <= f < chunks[0].fragments(size).len() implies
                arrivals.contains(#[trigger] at(0, f)) by {
                assert(exists_in(chunks, size, at(0, f)));
            }
        }
    }
    assert forall|k: int| 0 <= k < n implies (#[trigger] after_arrivals(
        m,
        chunks,
        size,
        arrivals.take(k),
        times,
    )).sent == m.sent by {
        assert forall|i: int| 0 <= i < k implies #[trigger] is_provided_for(
            m,
            chunks,
            size,
            arrivals,
            times,
            i,
        ) by {
            assert(has_memory(m, chunks, size, arrivals, times, i));
        }
        let flow = lemma_flow(m, chunks, size, arrivals, times, k);
        if flow.done.len() > 0 {
            assert(flow.done[0] == 0);
            assert(all_came(chunks, size, arrivals.take(k), 0));
        }
        assert(m.sent + delivered_in(chunks, flow.done) =~= m.sent);
    }
    let done = lemma_every_chunk_is_delivered(m, chunks, size, arrivals, times);
    assert(done[0] == 0);
    assert(m.sent + delivered_in(chunks, done) =~= m.sent.push(chunk.delivered()));
}

} // verus!
