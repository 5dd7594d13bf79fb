//! Puts the fragments of a chunk together again.

use crate::channel::{Outlet, TrySendError};
use crate::compress::lz4;
use crate::compress::lz4::decompress_lz4;
use crate::protocol::crc;
use crate::protocol::crc::verify_chunk_crc;
use crate::protocol::headers::{ChunkHeader, FragmentHeader, COMPRESSED_LZ4};
use crate::wire;
use vstd::prelude::*;

verus! {

/// A chunk on its way: the fragments that came so far, each by its index and
/// with its header, and the time at which the first of them came.
#[verifier::ext_equal]
pub struct ChunkModel {
    pub chunk_id: u32,
    pub parts: Seq<Option<Seq<u8>>>,
    pub started_at: nat,
}

/// What a reassembler holds: the chunks on their way in the order in which
/// they began, and the payloads handed on.
#[verifier::ext_equal]
pub struct ReassemblerModel {
    pub chunks: Seq<ChunkModel>,
    pub sent: Seq<Seq<u8>>,
    pub capacity: nat,
    pub closed: bool,
    pub max_inflight: nat,
    pub timeout_ns: nat,
}

/// The payload of a fragment: what follows its header.
pub open spec fn fragment_payload(fragment: Seq<u8>) -> Seq<u8> {
    fragment.subrange(FragmentHeader::LEN as int, fragment.len() as int)
}

/// The payloads of the fragments present, in index order.
pub open spec fn joined(parts: Seq<Option<Seq<u8>>>) -> Seq<u8>
    decreases parts.len(),
{
    if parts.len() == 0 {
        Seq::empty()
    } else {
        joined(parts.drop_last()) + match parts.last() {
            Some(f) => fragment_payload(f),
            None => Seq::empty(),
        }
    }
}

/// How many fragments are present.
pub open spec fn present(parts: Seq<Option<Seq<u8>>>) -> nat
    decreases parts.len(),
{
    if parts.len() == 0 {
        0
    } else {
        present(parts.drop_last()) + if parts.last() is Some {
            1nat
        } else {
            0nat
        }
    }
}

/// How many payload bytes the fragments present hold.
pub open spec fn payload_bytes(parts: Seq<Option<Seq<u8>>>) -> int
    decreases parts.len(),
{
    if parts.len() == 0 {
        0
    } else {
        payload_bytes(parts.drop_last()) + match parts.last() {
            Some(f) => f.len() - FragmentHeader::LEN,
            None => 0,
        }
    }
}

/// How many payload bytes `chunks` hold together.
pub open spec fn inflight(chunks: Seq<ChunkModel>) -> int
    decreases chunks.len(),
{
    if chunks.len() == 0 {
        0
    } else {
        inflight(chunks.drop_last()) + payload_bytes(chunks.last().parts)
    }
}

/// Whether every fragment is present.
pub open spec fn complete(parts: Seq<Option<Seq<u8>>>) -> bool {
    forall|i: int| 0 <= i < parts.len() ==> (#[trigger] parts[i]) is Some
}

/// What the fragments of a complete chunk amount to: the chunk header and the
/// plain payload, or the reason why the chunk is refused.
pub open spec fn assembled(parts: Seq<Option<Seq<u8>>>) -> Result<Seq<u8>, Seq<char>> {
    let image = joined(parts);
    let header = ChunkHeader::decoded(image);
    let body = image.subrange(ChunkHeader::LEN as int, image.len() as int);
    if image.len() < ChunkHeader::LEN {
        Err("reassembled data too short for chunk header"@)
    } else if header.magic != ChunkHeader::MAGIC {
        Err("invalid chunk magic"@)
    } else if body.len() != header.payload_length {
        Err("chunk payload length mismatch"@)
    } else if header.flags == COMPRESSED_LZ4 && lz4::lz4_data(body) is Err {
        Err("decompression failed"@)
    } else {
        let data = if header.flags == COMPRESSED_LZ4 {
            lz4::lz4_data(body)->Ok_0
        } else {
            body
        };
        if crc::chunk_crc_of(header.sequence_number, data) != header.chunk_crc {
            Err("chunk CRC mismatch"@)
        } else {
            Ok(image.subrange(0, ChunkHeader::LEN as int) + data)
        }
    }
}

/// The index of the chunk `id`, or the number of chunks where there is none.
pub open spec fn position(chunks: Seq<ChunkModel>, id: u32) -> int
    decreases chunks.len(),
{
    if chunks.len() == 0 {
        0
    } else if chunks[0].chunk_id == id {
        0
    } else {
        1 + position(chunks.drop_first(), id)
    }
}

/// Whether the chunk `id` is on its way.
pub open spec fn contains_id(chunks: Seq<ChunkModel>, id: u32) -> bool {
    exists|i: int| 0 <= i < chunks.len() && (#[trigger] chunks[i]).chunk_id == id
}

/// The chunk that began first, among the first `n`: the incomplete ones, or
/// all where `any` holds. Of several that began at once, the first.
pub open spec fn oldest(chunks: Seq<ChunkModel>, any: bool, n: int) -> Option<int>
    decreases n,
{
    if n <= 0 {
        None
    } else {
        let c = chunks[n - 1];
        let candidate = any || !complete(c.parts);
        match oldest(chunks, any, n - 1) {
            None => if candidate {
                Some(n - 1)
            } else {
                None
            },
            Some(best) => if candidate && c.started_at < chunks[best].started_at {
                Some(n - 1)
            } else {
                Some(best)
            },
        }
    }
}

/// The chunk to give up under memory pressure: the oldest incomplete one, or
/// the oldest where all are complete.
pub open spec fn eviction(chunks: Seq<ChunkModel>) -> Option<int> {
    match oldest(chunks, false, chunks.len() as int) {
        Some(i) => Some(i),
        None => oldest(chunks, true, chunks.len() as int),
    }
}

/// Whether `c` is incomplete and older than `timeout_ns` at `now`.
pub open spec fn expired(c: ChunkModel, now: nat, timeout_ns: nat) -> bool {
    !complete(c.parts) && now > c.started_at + timeout_ns
}

impl ReassemblerModel {
    /// Without the chunk at `i`.
    pub open spec fn without(self, i: int) -> ReassemblerModel {
        ReassemblerModel { chunks: self.chunks.remove(i), ..self }
    }

    /// After an attempt to hand on the complete chunk at `i`.
    pub open spec fn emit_at(self, i: int) -> (ReassemblerModel, Result<bool, Seq<char>>) {
        match assembled(self.chunks[i].parts) {
            Err(e) => (self, Err(e)),
            Ok(payload) => if self.closed {
                (self.without(i), Err("output channel closed"@))
            } else if self.sent.len() >= self.capacity {
                (self, Ok(false))
            } else {
                (
                    ReassemblerModel { sent: self.sent.push(payload), ..self.without(i) },
                    Ok(true),
                )
            },
        }
    }

    /// After an attempt to hand on each complete chunk from index `i` on.
    pub open spec fn emit_complete_from(self, i: int) -> ReassemblerModel
        decreases self.chunks.len() - i,
    {
        if i < 0 || i >= self.chunks.len() {
            self
        } else if !complete(self.chunks[i].parts) {
            self.emit_complete_from(i + 1)
        } else {
            let next = self.emit_at(i).0;
            if next.chunks.len() < self.chunks.len() {
                next.emit_complete_from(i)
            } else {
                next.emit_complete_from(i + 1)
            }
        }
    }

    /// After an attempt to hand on each complete chunk.
    pub open spec fn emit_complete(self) -> ReassemblerModel {
        self.emit_complete_from(0)
    }

    /// After one chunk was given up, if the chunks hold too much.
    pub open spec fn bounded(self) -> ReassemblerModel {
        if inflight(self.chunks) <= self.max_inflight {
            self
        } else {
            match eviction(self.chunks) {
                Some(i) => self.without(i),
                None => self,
            }
        }
    }

    /// With a place for the chunk that `h` belongs to.
    pub open spec fn with_place(self, h: FragmentHeader, now: nat) -> ReassemblerModel {
        if position(self.chunks, h.chunk_id) < self.chunks.len() {
            self
        } else {
            ReassemblerModel {
                chunks: self.chunks.push(
                    ChunkModel {
                        chunk_id: h.chunk_id,
                        parts: Seq::new(h.total_fragments as nat, |i: int| None),
                        started_at: now,
                    },
                ),
                ..self
            }
        }
    }

    /// With `fragment` stored at `index` of the chunk at `at`.
    pub open spec fn with_part(self, at: int, index: int, fragment: Seq<u8>) -> ReassemblerModel {
        let c = self.chunks[at];
        ReassemblerModel {
            chunks: self.chunks.update(
                at,
                ChunkModel { parts: c.parts.update(index, Some(fragment)), ..c },
            ),
            ..self
        }
    }

    /// Whether the fragment with the header `h` is there already.
    pub open spec fn has_part(self, h: FragmentHeader) -> bool {
        let at = position(self.chunks, h.chunk_id);
        &&& at < self.chunks.len()
        &&& h.fragment_index < self.chunks[at].parts.len()
        &&& self.chunks[at].parts[h.fragment_index as int] is Some
    }

    /// After `fragment` came at `now`, and what is reported of it.
    pub open spec fn receive(self, fragment: Seq<u8>, now: nat) -> (
        ReassemblerModel,
        Result<bool, Seq<char>>,
    ) {
        let h = FragmentHeader::decoded(fragment);
        let at = position(self.chunks, h.chunk_id);
        let placed = self.with_place(h, now);
        if fragment.len() < FragmentHeader::LEN {
            (self, Err("fragment too short: missing header"@))
        } else if self.has_part(h) {
            (self, Ok(false))
        } else if h.total_fragments != placed.chunks[at].parts.len() {
            (placed, Err("inconsistent total_fragments across fragments"@))
        } else if h.fragment_index >= h.total_fragments {
            (placed, Err("fragment_index out of range"@))
        } else {
            let stored = placed.with_part(at, h.fragment_index as int, fragment);
            let kept = stored.bounded();
            let place = position(kept.chunks, h.chunk_id);
            if !complete(stored.chunks[at].parts) {
                (kept, Ok(false))
            } else if place >= kept.chunks.len() {
                (kept, Err("chunk state not found"@))
            } else {
                kept.emit_at(place)
            }
        }
    }

    /// Without the chunks that are incomplete and too old.
    pub open spec fn without_expired(self, now: nat) -> ReassemblerModel {
        ReassemblerModel {
            chunks: self.chunks.filter(|c: ChunkModel| !expired(c, now, self.timeout_ns)),
            ..self
        }
    }
}

/// Whether `r` is the outcome `m`.
pub open spec fn same_outcome(r: Result<bool, &'static str>, m: Result<bool, Seq<char>>) -> bool {
    match r {
        Ok(b) => m is Ok && m->Ok_0 == b,
        Err(e) => m is Err && m->Err_0 == e@,
    }
}

/// The bytes of a stored fragment.
pub open spec fn part_view(part: Option<Vec<u8>>) -> Option<Seq<u8>> {
    match part {
        Some(f) => Some(f@),
        None => None,
    }
}

/// The bytes of the stored fragments.
pub open spec fn part_views(parts: Seq<Option<Vec<u8>>>) -> Seq<Option<Seq<u8>>> {
    Seq::new(parts.len(), |i: int| part_view(parts[i]))
}

/// Whether each stored fragment has a header.
pub open spec fn headed(parts: Seq<Option<Seq<u8>>>) -> bool {
    forall|i: int|
        0 <= i < parts.len() && (#[trigger] parts[i]) is Some ==> parts[i]->Some_0.len()
            >= FragmentHeader::LEN
}

/// Storing a fragment at a free index adds one fragment and its payload.
pub proof fn lemma_store(parts: Seq<Option<Seq<u8>>>, i: int, f: Seq<u8>)
    requires
        0 <= i < parts.len(),
        parts[i] is None,
    ensures
        present(parts.update(i, Some(f))) == present(parts) + 1,
        payload_bytes(parts.update(i, Some(f))) == payload_bytes(parts) + f.len()
            - FragmentHeader::LEN,
    decreases parts.len(),
{
    let after = parts.update(i, Some(f));
    if i == parts.len() - 1 {
        assert(after.drop_last() =~= parts.drop_last());
    } else {
        assert(after.drop_last() =~= parts.drop_last().update(i, Some(f)));
        lemma_store(parts.drop_last(), i, f);
    }
}

/// Nothing is present where every index is free.
pub proof fn lemma_nothing_present(parts: Seq<Option<Seq<u8>>>)
    requires
        forall|i: int| 0 <= i < parts.len() ==> (#[trigger] parts[i]) is None,
    ensures
        present(parts) == 0,
        payload_bytes(parts) == 0,
    decreases parts.len(),
{
    if parts.len() > 0 {
        lemma_nothing_present(parts.drop_last());
    }
}

/// A chunk is complete exactly when as many fragments are present as it has.
pub proof fn lemma_complete_is_all_present(parts: Seq<Option<Seq<u8>>>)
    ensures
        present(parts) <= parts.len(),
        complete(parts) <==> present(parts) == parts.len(),
    decreases parts.len(),
{
    if parts.len() > 0 {
        let init = parts.drop_last();
        lemma_complete_is_all_present(init);
        if complete(parts) {
            assert forall|i: int| 0 <= i < init.len() implies (#[trigger] init[i]) is Some by {
                assert(parts[i] is Some);
            }
            assert(parts[parts.len() - 1] is Some);
        }
        if present(parts) == parts.len() {
            assert forall|i: int| 0 <= i < parts.len() implies (#[trigger] parts[i]) is Some by {
                if i < init.len() {
                    assert(init[i] is Some);
                }
            }
        }
    }
}

/// The payload bytes of fragments with headers are no negative number.
proof fn lemma_payload_bytes_nonneg(parts: Seq<Option<Seq<u8>>>)
    requires
        headed(parts),
    ensures
        payload_bytes(parts) >= 0,
    decreases parts.len(),
{
    if parts.len() > 0 {
        assert(headed(parts.drop_last())) by {
            assert forall|i: int|
                0 <= i < parts.drop_last().len() && (
                #[trigger] parts.drop_last()[i]) is Some implies parts.drop_last()[i]->Some_0.len()
                >= FragmentHeader::LEN by {
                assert(parts[i] is Some);
            }
        }
        lemma_payload_bytes_nonneg(parts.drop_last());
        assert(parts[parts.len() - 1] is Some ==> parts[parts.len() - 1]->Some_0.len()
            >= FragmentHeader::LEN);
    }
}

/// The reassembly state of one chunk.
pub struct ChunkReassembly {
    chunk_id: u32,
    total_fragments: u16,
    received: usize,
    fragments: Vec<Option<Vec<u8>>>,
    started_at_ns: u64,
    accumulated_bytes: usize,
}

impl ChunkReassembly {
    pub closed spec fn model(self) -> ChunkModel {
        ChunkModel {
            chunk_id: self.chunk_id,
            parts: part_views(self.fragments@),
            started_at: self.started_at_ns as nat,
        }
    }

    pub closed spec fn wf(self) -> bool {
        &&& self.fragments@.len() == self.total_fragments
        &&& headed(part_views(self.fragments@))
        &&& self.received == present(part_views(self.fragments@))
        &&& self.accumulated_bytes == payload_bytes(part_views(self.fragments@))
    }

    /// A chunk of which nothing came yet.
    fn new(chunk_id: u32, total_fragments: u16, now_ns: u64) -> (r: Self)
        ensures
            r.wf(),
            r.model() == (ChunkModel {
                chunk_id,
                parts: Seq::new(total_fragments as nat, |i: int| None),
                started_at: now_ns as nat,
            }),
    {
        let mut fragments: Vec<Option<Vec<u8>>> = Vec::new();
        let mut i: u16 = 0;
        while i < total_fragments
            invariant
                i <= total_fragments,
                fragments@.len() == i,
                forall|j: int| 0 <= j < i ==> (#[trigger] fragments@[j]) is None,
            decreases total_fragments - i,
        {
            fragments.push(None);
            i = i + 1;
        }
        proof {
            lemma_nothing_present(part_views(fragments@));
            assert(part_views(fragments@) =~= Seq::new(total_fragments as nat, |i: int| None));
        }
        ChunkReassembly {
            chunk_id,
            total_fragments,
            received: 0,
            fragments,
            started_at_ns: now_ns,
            accumulated_bytes: 0,
        }
    }

    /// Whether every fragment is there.
    fn is_complete(&self) -> (r: bool)
        requires
            self.wf(),
        ensures
            r == complete(self.model().parts),
    {
        proof {
            lemma_complete_is_all_present(part_views(self.fragments@));
        }
        self.received == self.total_fragments as usize
    }

    /// Whether the fragment `index` is there.
    fn has(&self, index: u16) -> (r: bool)
        requires
            self.wf(),
        ensures
            r == (index < self.model().parts.len() && self.model().parts[index as int] is Some),
    {
        if (index as usize) < self.fragments.len() {
            self.fragments[index as usize].is_some()
        } else {
            false
        }
    }

    /// Stores a fragment at a free index.
    fn store(&mut self, index: u16, fragment: Vec<u8>)
        requires
            old(self).wf(),
            index < old(self).model().parts.len(),
            old(self).model().parts[index as int] is None,
            fragment@.len() >= FragmentHeader::LEN,
            payload_bytes(old(self).model().parts) + fragment@.len() <= usize::MAX,
        ensures
            final(self).wf(),
            final(self).model() == (ChunkModel {
                parts: old(self).model().parts.update(index as int, Some(fragment@)),
                ..old(self).model()
            }),
    {
        let payload_len: usize = fragment.len() - FragmentHeader::LEN;
        proof {
            lemma_store(part_views(self.fragments@), index as int, fragment@);
            lemma_complete_is_all_present(part_views(self.fragments@));
        }
        self.fragments[index as usize] = Some(fragment);
        self.received = self.received + 1;
        self.accumulated_bytes = self.accumulated_bytes + payload_len;
        assert(part_views(self.fragments@) =~= part_views(old(self).fragments@).update(
            index as int,
            Some(fragment@),
        ));
    }

    /// The payloads of the fragments present, in index order.
    fn join(&self) -> (r: Vec<u8>)
        requires
            self.wf(),
        ensures
            r@ == joined(self.model().parts),
    {
        let mut out: Vec<u8> = Vec::new();
        let mut i: usize = 0;
        let ghost parts = part_views(self.fragments@);
        while i < self.fragments.len()
            invariant
                i <= self.fragments@.len(),
                parts == part_views(self.fragments@),
                headed(parts),
                out@ == joined(parts.take(i as int)),
            decreases self.fragments@.len() - i,
        {
            assert(parts.take(i + 1).drop_last() =~= parts.take(i as int));
            assert(parts[i as int] == part_view(self.fragments@[i as int]));
            match &self.fragments[i] {
                Some(f) => {
                    wire::append_range(&mut out, f.as_slice(), FragmentHeader::LEN, f.len());
                },
                None => {},
            }
            assert(out@ =~= joined(parts.take(i + 1)));
            i = i + 1;
        }
        assert(parts.take(i as int) =~= parts);
        out
    }

    /// The chunk header and the plain payload of a complete chunk.
    fn assemble(&self) -> (r: Result<Vec<u8>, &'static str>)
        requires
            self.wf(),
        ensures
            match r {
                Ok(p) => assembled(self.model().parts) is Ok && assembled(self.model().parts)->Ok_0
                    == p@,
                Err(e) => assembled(self.model().parts) is Err && assembled(
                    self.model().parts,
                )->Err_0 == e@,
            },
    {
        let image: Vec<u8> = self.join();
        if image.len() < ChunkHeader::LEN {
            return Err("reassembled data too short for chunk header");
        }
        let head = vstd::slice::slice_subrange(image.as_slice(), 0, ChunkHeader::LEN);
        let header = match ChunkHeader::try_from(head) {
            Ok(h) => h,
            Err(e) => {
                return Err(e);
            },
        };
        proof {
            crate::protocol::headers::lemma_chunk_header_round_trip(
                header,
                image@.subrange(ChunkHeader::LEN as int, image@.len() as int),
            );
            assert(image@ =~= header.encoded() + image@.subrange(
                ChunkHeader::LEN as int,
                image@.len() as int,
            ));
        }
        if image.len() - ChunkHeader::LEN != header.payload_length as usize {
            return Err("chunk payload length mismatch");
        }
        let body = vstd::slice::slice_subrange(image.as_slice(), ChunkHeader::LEN, image.len());
        let mut data: Vec<u8> = Vec::new();
        if header.flags == COMPRESSED_LZ4 {
            match decompress_lz4(body) {
                Ok(d) => {
                    data = d;
                },
                Err(_) => {
                    return Err("decompression failed");
                },
            }
        } else {
            data.extend_from_slice(body);
            assert(data@ =~= body@);
        }
        if !verify_chunk_crc(header.sequence_number, data.as_slice(), header.chunk_crc) {
            return Err("chunk CRC mismatch");
        }
        let mut payload: Vec<u8> = Vec::new();
        payload.extend_from_slice(head);
        payload.extend_from_slice(data.as_slice());
        assert(payload@ =~= image@.subrange(0, ChunkHeader::LEN as int) + data@);
        Ok(payload)
    }
}

/// What the chunks hold.
pub closed spec fn chunk_models(chunks: Seq<ChunkReassembly>) -> Seq<ChunkModel> {
    Seq::new(chunks.len(), |i: int| chunks[i].model())
}

/// Whether no chunk occurs twice.
pub open spec fn distinct_ids(chunks: Seq<ChunkModel>) -> bool {
    forall|i: int, j: int|
        0 <= i < j < chunks.len() ==> (#[trigger] chunks[i]).chunk_id != (
        #[trigger] chunks[j]).chunk_id
}

/// `position` is the first index at which the chunk stands.
pub proof fn lemma_position(chunks: Seq<ChunkModel>, id: u32, i: int)
    requires
        0 <= i <= chunks.len(),
        forall|j: int| 0 <= j < i ==> (#[trigger] chunks[j]).chunk_id != id,
        i < chunks.len() ==> chunks[i].chunk_id == id,
    ensures
        position(chunks, id) == i,
    decreases chunks.len(),
{
    if chunks.len() > 0 && i > 0 {
        assert(chunks[0].chunk_id != id);
        let rest = chunks.drop_first();
        assert forall|j: int| 0 <= j < i - 1 implies (#[trigger] rest[j]).chunk_id != id by {
            assert(chunks[j + 1].chunk_id != id);
        }
        lemma_position(rest, id, i - 1);
    }
}

/// `position` lies within the chunks exactly where the chunk is among them.
pub proof fn lemma_position_bounds(chunks: Seq<ChunkModel>, id: u32)
    ensures
        0 <= position(chunks, id) <= chunks.len(),
        position(chunks, id) < chunks.len() ==> chunks[position(chunks, id)].chunk_id == id,
        position(chunks, id) < chunks.len() <==> contains_id(chunks, id),
        forall|j: int|
            0 <= j < position(chunks, id) ==> (#[trigger] chunks[j]).chunk_id != id,
    decreases chunks.len(),
{
    if chunks.len() > 0 {
        let rest = chunks.drop_first();
        lemma_position_bounds(rest, id);
        if chunks[0].chunk_id != id {
            assert forall|j: int| 0 <= j < position(chunks, id) implies (
            #[trigger] chunks[j]).chunk_id != id by {
                if j > 0 {
                    assert(rest[j - 1].chunk_id != id);
                }
            }
            if position(rest, id) < rest.len() {
                assert(chunks[position(chunks, id)].chunk_id == id);
            }
            if contains_id(chunks, id) {
                let k = choose|k: int|
                    0 <= k < chunks.len() && (#[trigger] chunks[k]).chunk_id == id;
                assert(rest[k - 1].chunk_id == id);
            }
        }
    }
}

/// Taking a chunk out takes its payload bytes out.
pub proof fn lemma_inflight_remove(chunks: Seq<ChunkModel>, i: int)
    requires
        0 <= i < chunks.len(),
    ensures
        inflight(chunks.remove(i)) == inflight(chunks) - payload_bytes(chunks[i].parts),
    decreases chunks.len(),
{
    if i == chunks.len() - 1 {
        assert(chunks.remove(i) =~= chunks.drop_last());
    } else {
        assert(chunks.remove(i).drop_last() =~= chunks.drop_last().remove(i));
        lemma_inflight_remove(chunks.drop_last(), i);
    }
}

/// Replacing a chunk replaces its payload bytes.
pub proof fn lemma_inflight_update(chunks: Seq<ChunkModel>, i: int, c: ChunkModel)
    requires
        0 <= i < chunks.len(),
    ensures
        inflight(chunks.update(i, c)) == inflight(chunks) - payload_bytes(chunks[i].parts)
            + payload_bytes(c.parts),
    decreases chunks.len(),
{
    if i == chunks.len() - 1 {
        assert(chunks.update(i, c).drop_last() =~= chunks.drop_last());
    } else {
        assert(chunks.update(i, c).drop_last() =~= chunks.drop_last().update(i, c));
        lemma_inflight_update(chunks.drop_last(), i, c);
    }
}

/// Each chunk holds no more than all together.
proof fn lemma_inflight_bounds(chunks: Seq<ChunkModel>, i: int)
    requires
        0 <= i < chunks.len(),
        forall|j: int| 0 <= j < chunks.len() ==> headed((#[trigger] chunks[j]).parts),
    ensures
        0 <= payload_bytes(chunks[i].parts) <= inflight(chunks),
    decreases chunks.len(),
{
    lemma_payload_bytes_nonneg(chunks[i].parts);
    lemma_payload_bytes_nonneg(chunks.last().parts);
    let init = chunks.drop_last();
    assert forall|j: int| 0 <= j < init.len() implies headed((#[trigger] init[j]).parts) by {
        assert(headed(chunks[j].parts));
    }
    if i < init.len() {
        lemma_inflight_bounds(init, i);
    } else {
        lemma_inflight_nonneg(init);
    }
}

/// The payload bytes in flight are no negative number.
proof fn lemma_inflight_nonneg(chunks: Seq<ChunkModel>)
    requires
        forall|j: int| 0 <= j < chunks.len() ==> headed((#[trigger] chunks[j]).parts),
    ensures
        inflight(chunks) >= 0,
    decreases chunks.len(),
{
    if chunks.len() > 0 {
        let init = chunks.drop_last();
        assert forall|j: int| 0 <= j < init.len() implies headed((#[trigger] init[j]).parts) by {
            assert(headed(chunks[j].parts));
        }
        lemma_inflight_nonneg(init);
        lemma_payload_bytes_nonneg(chunks[chunks.len() - 1].parts);
    }
}

/// Handing chunks on frees their payload bytes.
proof fn lemma_emit_complete_inflight(m: ReassemblerModel, i: int)
    requires
        0 <= i,
        forall|j: int| 0 <= j < m.chunks.len() ==> headed((#[trigger] m.chunks[j]).parts),
    ensures
        inflight(m.emit_complete_from(i).chunks) <= inflight(m.chunks),
    decreases m.chunks.len() - i,
{
    if i < m.chunks.len() {
        if !complete(m.chunks[i].parts) {
            lemma_emit_complete_inflight(m, i + 1);
        } else {
            let next = m.emit_at(i).0;
            lemma_inflight_remove(m.chunks, i);
            lemma_inflight_bounds(m.chunks, i);
            if next.chunks.len() < m.chunks.len() {
                assert forall|j: int| 0 <= j < next.chunks.len() implies headed(
                    (#[trigger] next.chunks[j]).parts,
                ) by {
                    assert(headed(m.chunks[if j < i { j } else { j + 1 }].parts));
                }
                lemma_emit_complete_inflight(next, i);
            } else {
                lemma_emit_complete_inflight(next, i + 1);
            }
        }
    }
}

/// What `oldest` picks: a candidate such that no candidate began earlier.
/// It picks none only where there is no candidate.
pub proof fn lemma_oldest(chunks: Seq<ChunkModel>, any: bool, n: int)
    requires
        0 <= n <= chunks.len(),
    ensures
        match oldest(chunks, any, n) {
            Some(i) => {
                &&& 0 <= i < n
                &&& any || !complete(chunks[i].parts)
                &&& forall|j: int|
                    0 <= j < n && (any || !complete((#[trigger] chunks[j]).parts))
                        ==> chunks[i].started_at <= chunks[j].started_at
            },
            None => forall|j: int|
                0 <= j < n ==> !any && complete((#[trigger] chunks[j]).parts),
        },
    decreases n,
{
    if n > 0 {
        lemma_oldest(chunks, any, n - 1);
    }
}

/// Reassembles fragments into complete chunks and checks them.
pub struct FragmentReassembler {
    chunks: Vec<ChunkReassembly>,
    pub tx: Outlet<Vec<u8>>,
    max_inflight_bytes: usize,
    inflight_bytes: usize,
    chunk_timeout_ns: u128,
}

impl FragmentReassembler {
    /// What the reassembler holds.
    pub closed spec fn model(self) -> ReassemblerModel {
        ReassemblerModel {
            chunks: chunk_models(self.chunks@),
            sent: wire::views(self.tx.queue@),
            capacity: self.tx.capacity as nat,
            closed: self.tx.closed,
            max_inflight: self.max_inflight_bytes as nat,
            timeout_ns: self.chunk_timeout_ns as nat,
        }
    }

    pub closed spec fn wf(self) -> bool {
        &&& forall|i: int| 0 <= i < self.chunks@.len() ==> (#[trigger] self.chunks@[i]).wf()
        &&& distinct_ids(chunk_models(self.chunks@))
        &&& self.inflight_bytes == inflight(chunk_models(self.chunks@))
    }

    proof fn lemma_wf_headed(self)
        requires
            self.wf(),
        ensures
            forall|j: int|
                0 <= j < self.model().chunks.len() ==> headed(
                    (#[trigger] self.model().chunks[j]).parts,
                ),
    {
        assert forall|j: int| 0 <= j < self.model().chunks.len() implies headed(
            (#[trigger] self.model().chunks[j]).parts,
        ) by {
            assert(self.chunks@[j].wf());
        }
    }

    /// A reassembler that holds nothing.
    ///
    /// * `max_inflight_bytes`: how many payload bytes may wait before a chunk
    ///   is given up.
    /// * `chunk_timeout_secs`: how long a chunk may stay incomplete.
    pub fn new(tx: Outlet<Vec<u8>>, max_inflight_bytes: usize, chunk_timeout_secs: u64) -> (r: Self)
        ensures
            r.wf(),
            r.model() == (ReassemblerModel {
                chunks: Seq::empty(),
                sent: wire::views(tx.queue@),
                capacity: tx.capacity as nat,
                closed: tx.closed,
                max_inflight: max_inflight_bytes as nat,
                timeout_ns: (chunk_timeout_secs * 1_000_000_000) as nat,
            }),
    {
        let r = FragmentReassembler {
            chunks: Vec::new(),
            tx,
            max_inflight_bytes,
            inflight_bytes: 0,
            chunk_timeout_ns: chunk_timeout_secs as u128 * 1_000_000_000,
        };
        assert(chunk_models(r.chunks@) =~= Seq::empty());
        r
    }

    /// The index of the chunk `chunk_id`, or the number of chunks.
    fn find(&self, chunk_id: u32) -> (r: usize)
        ensures
            r == position(self.model().chunks, chunk_id),
            r <= self.chunks@.len(),
            r < self.chunks@.len() ==> self.model().chunks[r as int].chunk_id == chunk_id,
    {
        let ghost models = chunk_models(self.chunks@);
        let mut i: usize = 0;
        while i < self.chunks.len()
            invariant
                i <= self.chunks@.len(),
                models == chunk_models(self.chunks@),
                forall|j: int| 0 <= j < i ==> (#[trigger] models[j]).chunk_id != chunk_id,
            decreases self.chunks@.len() - i,
        {
            assert(models[i as int] == self.chunks@[i as int].model());
            if self.chunks[i].chunk_id == chunk_id {
                proof {
                    lemma_position(models, chunk_id, i as int);
                }
                return i;
            }
            i = i + 1;
        }
        proof {
            lemma_position(models, chunk_id, i as int);
        }
        i
    }

    /// Takes the chunk at `i` out.
    fn drop_chunk(&mut self, i: usize)
        requires
            old(self).wf(),
            i < old(self).model().chunks.len(),
        ensures
            final(self).wf(),
            final(self).model() == old(self).model().without(i as int),
    {
        proof {
            let models = chunk_models(self.chunks@);
            assert forall|j: int| 0 <= j < models.len() implies headed((#[trigger] models[j]).parts) by {
                assert(self.chunks@[j].wf());
            }
            lemma_inflight_remove(models, i as int);
            lemma_inflight_bounds(models, i as int);
            assert(self.chunks@[i as int].wf());
        }
        let c = self.chunks.remove(i);
        self.inflight_bytes = self.inflight_bytes.saturating_sub(c.accumulated_bytes);
        proof {
            let before = chunk_models(old(self).chunks@);
            let after = chunk_models(self.chunks@);
            assert(after =~= before.remove(i as int));
            assert forall|j: int| 0 <= j < self.chunks@.len() implies (
            #[trigger] self.chunks@[j]).wf() by {
                assert(old(self).chunks@[if j < i { j } else { j + 1 }].wf());
            }
            assert forall|j: int, k: int| 0 <= j < k < after.len() implies (
            #[trigger] after[j]).chunk_id != (#[trigger] after[k]).chunk_id by {
                let j0 = if j < i { j } else { j + 1 };
                let k0 = if k < i { k } else { k + 1 };
                assert(before[j0].chunk_id != before[k0].chunk_id);
            }
        }
    }

    /// Tries to hand on the chunk at `i`.
    fn emit_at(&mut self, i: usize) -> (r: Result<bool, &'static str>)
        requires
            old(self).wf(),
            i < old(self).model().chunks.len(),
        ensures
            final(self).wf(),
            final(self).model() == old(self).model().emit_at(i as int).0,
            same_outcome(r, old(self).model().emit_at(i as int).1),
    {
        assert(self.chunks@[i as int].wf());
        assert(self.model().chunks[i as int] == self.chunks@[i as int].model());
        let payload = match self.chunks[i].assemble() {
            Ok(p) => p,
            Err(e) => {
                return Err(e);
            },
        };
        proof {
            wire::lemma_views_push(self.tx.queue@, payload);
        }
        match self.tx.try_send(payload) {
            Ok(()) => {
                self.drop_chunk(i);
                assert(self.model() =~= old(self).model().emit_at(i as int).0);
                Ok(true)
            },
            Err(TrySendError::Full(_)) => {
                assert(self.model() =~= old(self).model());
                Ok(false)
            },
            Err(TrySendError::Closed(_)) => {
                self.drop_chunk(i);
                assert(self.model() =~= old(self).model().without(i as int));
                Err("output channel closed")
            },
        }
    }

    /// Tries to hand on the chunk `chunk_id`, all of whose fragments came.
    ///
    /// `Ok(true)`: it was handed on. `Ok(false)`: there is no room, and it
    /// stays. `Err`: it was refused and stays, or the far end is gone and it is
    /// dropped.
    pub fn assemble_chunk(&mut self, chunk_id: u32) -> (r: Result<bool, &'static str>)
        requires
            old(self).wf(),
        ensures
            final(self).wf(),
            ({
                let m = old(self).model();
                let at = position(m.chunks, chunk_id);
                if at < m.chunks.len() {
                    &&& final(self).model() == m.emit_at(at).0
                    &&& same_outcome(r, m.emit_at(at).1)
                    &&& r is Ok <==> m.emit_at(at).1 is Ok
                    &&& r matches Ok(done) ==> m.emit_at(at).1->Ok_0 == done
                    &&& r matches Err(e) ==> m.emit_at(at).1->Err_0 == e@
                } else {
                    &&& final(self).model() == m
                    &&& r is Err && r->Err_0@ == "chunk state not found"@
                }
            }),
    {
        let at: usize = self.find(chunk_id);
        if at >= self.chunks.len() {
            return Err("chunk state not found");
        }
        self.emit_at(at)
    }

    /// Tries to hand on every complete chunk. Reports whether one was.
    pub fn try_emit_complete_chunks(&mut self) -> (r: bool)
        requires
            old(self).wf(),
        ensures
            final(self).wf(),
            final(self).model() == old(self).model().emit_complete(),
            r == (final(self).model().sent.len() > old(self).model().sent.len()),
    {
        let mut emitted: bool = false;
        let mut i: usize = 0;
        let ghost before = self.model();
        while i < self.chunks.len()
            invariant
                self.wf(),
                i <= self.model().chunks.len(),
                self.model().emit_complete_from(i as int) == before.emit_complete_from(0),
                self.model().sent.len() >= before.sent.len(),
                emitted == (self.model().sent.len() > before.sent.len()),
                self.model().chunks.len() == self.chunks@.len(),
            decreases self.model().chunks.len() - i,
        {
            assert(self.chunks@[i as int].wf());
            assert(self.model().chunks[i as int] == self.chunks@[i as int].model());
            if self.chunks[i].is_complete() {
                let count: usize = self.chunks.len();
                let ghost m = self.model();
                let outcome = self.emit_at(i);
                match outcome {
                    Ok(true) => {
                        emitted = true;
                    },
                    _ => {},
                }
                if self.chunks.len() == count {
                    i = i + 1;
                }
            } else {
                i = i + 1;
            }
        }
        emitted
    }

    /// The chunk to give up under memory pressure.
    fn find_oldest(&self, any: bool) -> (r: Option<usize>)
        requires
            self.wf(),
        ensures
            match (r, oldest(self.model().chunks, any, self.model().chunks.len() as int)) {
                (Some(i), Some(j)) => i == j,
                (None, None) => true,
                _ => false,
            },
    {
        let ghost models = self.model().chunks;
        let mut best: Option<usize> = None;
        let mut i: usize = 0;
        while i < self.chunks.len()
            invariant
                self.wf(),
                models == chunk_models(self.chunks@),
                i <= self.chunks@.len(),
                match (best, oldest(models, any, i as int)) {
                    (Some(b), Some(j)) => b == j && b < i,
                    (None, None) => true,
                    _ => false,
                },
            decreases self.chunks@.len() - i,
        {
            assert(self.chunks@[i as int].wf());
            assert(models[i as int] == self.chunks@[i as int].model());
            if any || !self.chunks[i].is_complete() {
                match best {
                    None => {
                        best = Some(i);
                    },
                    Some(b) => {
                        assert(models[b as int] == self.chunks@[b as int].model());
                        if self.chunks[i].started_at_ns < self.chunks[b].started_at_ns {
                            best = Some(i);
                        }
                    },
                }
            }
            i = i + 1;
        }
        best
    }

    /// Gives one chunk up if the chunks hold more than they may.
    fn enforce_memory_bound(&mut self)
        requires
            old(self).wf(),
        ensures
            final(self).wf(),
            final(self).model() == old(self).model().bounded(),
    {
        if self.inflight_bytes <= self.max_inflight_bytes {
            return;
        }
        proof {
            lemma_oldest(self.model().chunks, false, self.model().chunks.len() as int);
            lemma_oldest(self.model().chunks, true, self.model().chunks.len() as int);
        }
        match self.find_oldest(false) {
            Some(i) => {
                self.drop_chunk(i);
            },
            None => match self.find_oldest(true) {
                Some(i) => {
                    self.drop_chunk(i);
                },
                None => {},
            },
        }
    }

    /// Takes in a fragment that came at `now_ns`. Complete chunks that found no
    /// room before are tried again first.
    ///
    /// `Ok(true)`: the fragment completed a chunk, which was handed on.
    /// `Ok(false)`: nothing more to do, be it that fragments are missing, that
    /// the fragment was there already, or that there is no room.
    pub fn add_fragment(&mut self, fragment: Vec<u8>, now_ns: u64) -> (r: Result<
        bool,
        &'static str,
    >)
        requires
            old(self).wf(),
            inflight(old(self).model().chunks) + fragment@.len() <= usize::MAX,
        ensures
            final(self).wf(),
            final(self).model() == old(self).model().emit_complete().receive(
                fragment@,
                now_ns as nat,
            ).0,
            same_outcome(
                r,
                old(self).model().emit_complete().receive(fragment@, now_ns as nat).1,
            ),
            ({
                let told = old(self).model().emit_complete().receive(fragment@, now_ns as nat).1;
                &&& r is Ok <==> told is Ok
                &&& r matches Ok(done) ==> told->Ok_0 == done
                &&& r matches Err(e) ==> told->Err_0 == e@
            }),
    {
        proof {
            self.lemma_wf_headed();
            lemma_emit_complete_inflight(self.model(), 0);
        }
        let _ = self.try_emit_complete_chunks();
        if fragment.len() < FragmentHeader::LEN {
            return Err("fragment too short: missing header");
        }
        let ghost m0 = self.model();
        let header = match FragmentHeader::try_from(
            vstd::slice::slice_subrange(fragment.as_slice(), 0, FragmentHeader::LEN),
        ) {
            Ok(h) => h,
            Err(e) => {
                return Err(e);
            },
        };
        proof {
            let rest = fragment@.subrange(FragmentHeader::LEN as int, fragment@.len() as int);
            crate::protocol::headers::lemma_fragment_header_round_trip(header, rest);
            assert(fragment@ =~= header.encoded() + rest);
            assert(header == FragmentHeader::decoded(fragment@));
        }
        let at: usize = self.find(header.chunk_id);
        if at < self.chunks.len() {
            assert(self.chunks@[at as int].wf());
            assert(m0.chunks[at as int] == self.chunks@[at as int].model());
            if self.chunks[at].has(header.fragment_index) {
                return Ok(false);
            }
        } else {
            let c = ChunkReassembly::new(header.chunk_id, header.total_fragments, now_ns);
            self.chunks.push(c);
            proof {
                let placed = m0.with_place(header, now_ns as nat);
                lemma_position_bounds(m0.chunks, header.chunk_id);
                lemma_nothing_present(c.model().parts);
                assert(chunk_models(self.chunks@) =~= placed.chunks);
                assert(placed.chunks.drop_last() =~= m0.chunks);
                assert(self.model() =~= placed);
            }
        }
        let ghost placed = m0.with_place(header, now_ns as nat);
        assert(self.wf() && self.model() == placed);
        assert(self.chunks@[at as int].wf());
        assert(placed.chunks[at as int] == self.chunks@[at as int].model());
        if header.total_fragments != self.chunks[at].total_fragments {
            return Err("inconsistent total_fragments across fragments");
        }
        if header.fragment_index >= self.chunks[at].total_fragments {
            return Err("fragment_index out of range");
        }
        let payload_len: usize = fragment.len() - FragmentHeader::LEN;
        proof {
            assert forall|j: int| 0 <= j < placed.chunks.len() implies headed(
                (#[trigger] placed.chunks[j]).parts,
            ) by {
                assert(self.chunks@[j].wf());
            }
            lemma_inflight_bounds(placed.chunks, at as int);
            lemma_store(placed.chunks[at as int].parts, header.fragment_index as int, fragment@);
        }
        let ghost stored = placed.with_part(
            at as int,
            header.fragment_index as int,
            fragment@,
        );
        self.chunks[at].store(header.fragment_index, fragment);
        self.inflight_bytes = self.inflight_bytes + payload_len;
        proof {
            lemma_inflight_update(placed.chunks, at as int, stored.chunks[at as int]);
            assert(chunk_models(self.chunks@) =~= stored.chunks);
            assert(self.model() =~= stored);
            assert(self.wf());
        }
        assert(stored.chunks[at as int] == self.chunks@[at as int].model());
        let is_complete: bool = self.chunks[at].is_complete();
        self.enforce_memory_bound();
        if !is_complete {
            return Ok(false);
        }
        proof {
            lemma_position_bounds(self.model().chunks, header.chunk_id);
        }
        self.assemble_chunk(header.chunk_id)
    }

    /// Tries to hand on every complete chunk, and gives up the incomplete ones
    /// whose first fragment came more than the timeout before `now_ns`.
    pub fn check_timeouts(&mut self, now_ns: u64)
        requires
            old(self).wf(),
        ensures
            final(self).wf(),
            final(self).model() == old(self).model().emit_complete().without_expired(now_ns as nat),
    {
        let _ = self.try_emit_complete_chunks();
        let ghost m = self.model();
        let ghost keep = |c: ChunkModel| !expired(c, now_ns as nat, m.timeout_ns);
        let ghost mut seen: int = 0;
        let mut i: usize = 0;
        while i < self.chunks.len()
            invariant
                self.wf(),
                keep == (|c: ChunkModel| !expired(c, now_ns as nat, m.timeout_ns)),
                0 <= seen <= m.chunks.len(),
                i == m.chunks.take(seen).filter(keep).len(),
                self.model().chunks == m.chunks.take(seen).filter(keep) + m.chunks.skip(seen),
                self.model() == (ReassemblerModel { chunks: self.model().chunks, ..m }),
                self.model().chunks.len() == self.chunks@.len(),
            decreases m.chunks.len() - seen,
        {
            let ghost done = m.chunks.take(seen).filter(keep);
            assert(self.chunks@[i as int].wf());
            assert(self.model().chunks[i as int] == self.chunks@[i as int].model());
            assert(self.model().chunks[i as int] == m.chunks[seen]);
            let started: u64 = self.chunks[i].started_at_ns;
            let elapsed: u64 = now_ns.saturating_sub(started);
            proof {
                assert(m.chunks.take(seen + 1).drop_last() =~= m.chunks.take(seen));
                reveal(Seq::filter);
            }
            if !self.chunks[i].is_complete() && elapsed as u128 > self.chunk_timeout_ns {
                self.drop_chunk(i);
                assert(self.model().chunks =~= done + m.chunks.skip(seen + 1));
            } else {
                i = i + 1;
                assert(self.model().chunks =~= done.push(m.chunks[seen]) + m.chunks.skip(seen + 1));
            }
            proof {
                seen = seen + 1;
            }
        }
        assert(m.chunks.take(seen) =~= m.chunks);
        assert(self.model().chunks =~= m.chunks.filter(keep));
    }

    /// How many chunks are on their way.
    pub fn in_flight_count(&self) -> (r: usize)
        ensures
            r == self.model().chunks.len(),
    {
        self.chunks.len()
    }

    /// How many payload bytes wait in the chunks on their way.
    pub fn inflight_bytes(&self) -> (r: usize)
        requires
            self.wf(),
        ensures
            r == inflight(self.model().chunks),
    {
        self.inflight_bytes
    }

    /// Whether the chunk `chunk_id` is on its way.
    pub fn contains_chunk(&self, chunk_id: u64) -> (r: bool)
        ensures
            r == (chunk_id <= u32::MAX && contains_id(self.model().chunks, chunk_id as u32)),
    {
        if chunk_id > u32::MAX as u64 {
            return false;
        }
        proof {
            lemma_position_bounds(self.model().chunks, chunk_id as u32);
        }
        self.find(chunk_id as u32) < self.chunks.len()
    }
}

} // verus!
