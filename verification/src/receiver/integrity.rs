//! What a reassembler takes in, keeps, gives up and hands on.

use crate::compress::lz4;
use crate::protocol::crc;
use crate::protocol::headers::FragmentHeader;
use crate::receiver::reassembly;
use crate::receiver::reassembly::{ChunkModel, ReassemblerModel};
use crate::wire;
use vstd::prelude::*;

verus! {

/// Whether `payload` is a chunk header followed by data of which the checksum in the
/// header is right: the CRC-32 of the sequence number, most significant byte first,
/// and the data.
pub open spec fn is_intact(payload: Seq<u8>) -> bool {
    &&& payload.len() >= 16
    &&& payload[0] == 0x50
    &&& crc::crc32_of(payload.subrange(4, 12) + payload.skip(16)) == wire::un32(payload, 12)
}

/// What is made of a chunk's fragments is the header that they carry, followed by
/// plain data with the right checksum, be it that the data came compressed or not.
/// Where it came as it is, the fragments are not changed at all.
pub proof fn lemma_assembled_is_intact(parts: Seq<Option<Seq<u8>>>)
    ensures
        reassembly::assembled(parts) matches Ok(payload) ==> {
            let image = reassembly::joined(parts);
            let body = image.skip(16);
            &&& is_intact(payload)
            &&& image.len() >= 16
            &&& payload.take(16) == image.take(16)
            &&& body.len() == wire::un16(image, 2)
            &&& image[1] != 1 ==> payload == image
            &&& image[1] == 1 ==> lz4::lz4_data(body) is Ok && payload.skip(16) == lz4::lz4_data(
                body,
            )->Ok_0
        },
{
    let image = reassembly::joined(parts);
    match reassembly::assembled(parts) {
        Ok(payload) => {
            let body = image.subrange(16, image.len() as int);
            assert(body =~= image.skip(16));
            assert(payload.take(16) =~= image.take(16));
            assert(payload.subrange(4, 12) =~= image.subrange(4, 12));
            wire::lemma_be64(image, 4);
            let data = payload.skip(16);
            assert(data =~= if image[1] == 1 {
                lz4::lz4_data(body)->Ok_0
            } else {
                body
            });
            assert(wire::be64(wire::un64(image, 4)) + data =~= payload.subrange(4, 12) + data);
            assert(wire::un32(payload, 12) == wire::un32(image, 12));
            if image[1] != 1 {
                assert(payload =~= image);
            }
        },
        Err(_) => {},
    }
}

/// A chunk is accepted exactly where its fragments carry a header with the chunk's
/// magic byte and the length of what follows, that decompresses where it is marked
/// as compressed, and the checksum of the plain data is right. Else the first of
/// these that is wrong is named.
pub proof fn lemma_intact_chunks_are_accepted(parts: Seq<Option<Seq<u8>>>)
    ensures
        ({
            let image = reassembly::joined(parts);
            let body = image.skip(16);
            let data = if image[1] == 1 {
                lz4::lz4_data(body)->Ok_0
            } else {
                body
            };
            let long_enough = image.len() >= 16;
            let magic = image[0] == 0x50;
            let length = image.len() - 16 == wire::un16(image, 2);
            let readable = image[1] == 1 ==> lz4::lz4_data(body) is Ok;
            let right = crc::crc32_of(image.subrange(4, 12) + data) == wire::un32(image, 12);
            let r = reassembly::assembled(parts);
            &&& r is Ok <==> long_enough && magic && length && readable && right
            &&& !long_enough ==> r == Err::<Seq<u8>, Seq<char>>(
                "reassembled data too short for chunk header"@,
            )
            &&& long_enough && !magic ==> r == Err::<Seq<u8>, Seq<char>>("invalid chunk magic"@)
            &&& long_enough && magic && !length ==> r == Err::<Seq<u8>, Seq<char>>(
                "chunk payload length mismatch"@,
            )
            &&& long_enough && magic && length && !readable ==> r == Err::<Seq<u8>, Seq<char>>(
                "decompression failed"@,
            )
            &&& long_enough && magic && length && readable && !right ==> r == Err::<
                Seq<u8>,
                Seq<char>,
            >("chunk CRC mismatch"@)
        }),
{
    let image = reassembly::joined(parts);
    if image.len() >= 16 {
        assert(image.subrange(16, image.len() as int) =~= image.skip(16));
        wire::lemma_be64(image, 4);
    }
}

/// What is new in `after` is intact, and what was there before stays.
pub open spec fn only_intact_is_new(before: Seq<Seq<u8>>, after: Seq<Seq<u8>>) -> bool {
    &&& before.len() <= after.len()
    &&& after.take(before.len() as int) == before
    &&& forall|i: int| before.len() <= i < after.len() ==> is_intact(#[trigger] after[i])
}

/// Handing on one chunk hands on an intact one, or nothing.
proof fn lemma_emit_at_is_intact(m: ReassemblerModel, i: int)
    ensures
        only_intact_is_new(m.sent, m.emit_at(i).0.sent),
{
    let after = m.emit_at(i).0.sent;
    lemma_assembled_is_intact(m.chunks[i].parts);
    assert(after.take(m.sent.len() as int) =~= m.sent);
}

/// Handing on all complete chunks hands on intact ones only.
proof fn lemma_emit_complete_is_intact(m: ReassemblerModel, i: int)
    requires
        0 <= i,
    ensures
        only_intact_is_new(m.sent, m.emit_complete_from(i).sent),
    decreases m.chunks.len() - i,
{
    assert(m.sent.take(m.sent.len() as int) =~= m.sent);
    if i < m.chunks.len() {
        if !reassembly::complete(m.chunks[i].parts) {
            lemma_emit_complete_is_intact(m, i + 1);
        } else {
            let next = m.emit_at(i).0;
            lemma_emit_at_is_intact(m, i);
            let k = if next.chunks.len() < m.chunks.len() {
                i
            } else {
                i + 1
            };
            lemma_emit_complete_is_intact(next, k);
            let after = m.emit_complete_from(i).sent;
            assert(after.take(m.sent.len() as int) =~= m.sent) by {
                assert(after.take(next.sent.len() as int).take(m.sent.len() as int) =~= after.take(
                    m.sent.len() as int,
                ));
            }
            assert forall|j: int| m.sent.len() <= j < after.len() implies is_intact(
                #[trigger] after[j],
            ) by {
                if j < next.sent.len() {
                    assert(after.take(next.sent.len() as int)[j] == next.sent[j]);
                }
            }
        }
    }
}

/// Whatever a reassembler hands on is intact, whatever fragments come.
pub proof fn lemma_only_intact_chunks_leave(m: ReassemblerModel, fragment: Seq<u8>, now: nat)
    ensures
        only_intact_is_new(m.sent, m.emit_complete().sent),
        only_intact_is_new(m.sent, m.emit_complete().receive(fragment, now).0.sent),
        only_intact_is_new(m.sent, m.emit_complete().without_expired(now).sent),
{
    let ready = m.emit_complete();
    let after = ready.receive(fragment, now).0;
    lemma_emit_complete_is_intact(m, 0);
    let h = FragmentHeader::decoded(fragment);
    let at = reassembly::position(ready.chunks, h.chunk_id);
    let placed = ready.with_place(h, now);
    let stored = placed.with_part(at, h.fragment_index as int, fragment);
    let kept = stored.bounded();
    lemma_emit_at_is_intact(kept, reassembly::position(kept.chunks, h.chunk_id));
    assert(kept.sent == ready.sent);
    if after.sent != ready.sent {
        assert(after.sent.take(m.sent.len() as int) =~= m.sent) by {
            assert(after.sent.take(ready.sent.len() as int).take(m.sent.len() as int)
                =~= after.sent.take(m.sent.len() as int));
        }
        assert forall|j: int| m.sent.len() <= j < after.sent.len() implies is_intact(
            #[trigger] after.sent[j],
        ) by {
            if j < ready.sent.len() {
                assert(after.sent.take(ready.sent.len() as int)[j] == ready.sent[j]);
            }
        }
    }
}

/// What a chunk holds once it is complete and there is room: it is handed on and kept
/// no longer. Without room it is kept, and without a receiver given up. A chunk that
/// is refused is kept.
pub proof fn lemma_complete_chunk_is_handed_on(m: ReassemblerModel, i: int)
    requires
        0 <= i < m.chunks.len(),
    ensures
        ({
            let (after, r) = m.emit_at(i);
            let made = reassembly::assembled(m.chunks[i].parts);
            &&& after.capacity == m.capacity && after.closed == m.closed
            &&& after.max_inflight == m.max_inflight && after.timeout_ns == m.timeout_ns
            &&& made is Err ==> after == m && r == Err::<bool, Seq<char>>(made->Err_0)
            &&& made is Ok && m.closed ==> after.sent == m.sent && after.chunks == m.chunks.remove(
                i,
            ) && r == Err::<bool, Seq<char>>("output channel closed"@)
            &&& made is Ok && !m.closed && m.sent.len() >= m.capacity ==> after == m && r == Ok::<
                bool,
                Seq<char>,
            >(false)
            &&& made is Ok && !m.closed && m.sent.len() < m.capacity ==> {
                &&& after.sent == m.sent.push(made->Ok_0)
                &&& after.chunks == m.chunks.remove(i)
                &&& r == Ok::<bool, Seq<char>>(true)
            }
        }),
{
}

/// Under memory pressure one chunk is given up, and only then: the one that began
/// first among those that are incomplete, or among all where none is incomplete.
pub proof fn lemma_oldest_is_given_up(m: ReassemblerModel)
    ensures
        m.bounded().sent == m.sent,
        reassembly::inflight(m.chunks) <= m.max_inflight ==> m.bounded() == m,
        reassembly::inflight(m.chunks) > m.max_inflight && m.chunks.len() > 0 ==> exists|i: int|
            0 <= i < m.chunks.len() && m.bounded().chunks == #[trigger] m.chunks.remove(i) && {
                let incomplete = |c: ChunkModel|
                    exists|k: int| 0 <= k < c.parts.len() && (#[trigger] c.parts[k]) is None;
                let any = exists|j: int|
                    0 <= j < m.chunks.len() && incomplete(#[trigger] m.chunks[j]);
                &&& any ==> incomplete(m.chunks[i])
                &&& forall|j: int|
                    0 <= j < m.chunks.len() && (any ==> incomplete(#[trigger] m.chunks[j]))
                        ==> m.chunks[i].started_at <= m.chunks[j].started_at
            },
{
    let n = m.chunks.len() as int;
    reassembly::lemma_oldest(m.chunks, false, n);
    reassembly::lemma_oldest(m.chunks, true, n);
    if reassembly::inflight(m.chunks) > m.max_inflight && n > 0 {
        let incomplete = |c: ChunkModel|
            exists|k: int| 0 <= k < c.parts.len() && (#[trigger] c.parts[k]) is None;
        assert forall|c: ChunkModel| #[trigger] incomplete(c) <==> !reassembly::complete(
            c.parts,
        ) by {}
        match reassembly::eviction(m.chunks) {
            Some(i) => {
                assert(m.bounded().chunks == m.chunks.remove(i));
                match reassembly::oldest(m.chunks, false, n) {
                    Some(j) => {
                        assert(incomplete(m.chunks[j]));
                    },
                    None => {
                        assert forall|j: int| 0 <= j < n implies !incomplete(
                            #[trigger] m.chunks[j],
                        ) by {}
                    },
                }
            },
            None => {
                assert(m.chunks[0] == m.chunks[0]);
            },
        }
    }
}

/// The payload bytes in flight are those of the chunks, and of a chunk those of its
/// fragments: what follows their headers of 14 bytes.
pub proof fn lemma_bytes_in_flight(chunks: Seq<ChunkModel>, c: ChunkModel, f: Seq<u8>)
    ensures
        reassembly::inflight(Seq::empty()) == 0,
        reassembly::inflight(chunks.push(c)) == reassembly::inflight(chunks)
            + reassembly::payload_bytes(c.parts),
        reassembly::payload_bytes(Seq::empty()) == 0,
        reassembly::payload_bytes(c.parts.push(Some(f))) == reassembly::payload_bytes(c.parts)
            + f.len() - 14,
        reassembly::payload_bytes(c.parts.push(None)) == reassembly::payload_bytes(c.parts),
{
    assert(chunks.push(c).drop_last() =~= chunks);
    assert(c.parts.push(Some(f)).drop_last() =~= c.parts);
    assert(c.parts.push(None).drop_last() =~= c.parts);
}

/// The payloads are joined in the order of their indices, each without its header.
pub proof fn lemma_joined_in_order(parts: Seq<Option<Seq<u8>>>, f: Seq<u8>)
    ensures
        reassembly::joined(Seq::empty()) == Seq::<u8>::empty(),
        reassembly::joined(parts.push(None)) == reassembly::joined(parts),
        f.len() >= 14 ==> reassembly::joined(parts.push(Some(f))) == reassembly::joined(parts)
            + f.skip(14),
{
    assert(parts.push(Some(f)).drop_last() =~= parts);
    assert(parts.push(None).drop_last() =~= parts);
    assert(reassembly::joined(parts.push(None)) =~= reassembly::joined(parts));
    if f.len() >= 14 {
        assert(f.subrange(14, f.len() as int) =~= f.skip(14));
    }
}

/// A chunk is given up for its age exactly where a fragment of it is missing and its
/// first one came more than the timeout ago. The others stay, in the same order.
pub proof fn lemma_only_old_chunks_expire(m: ReassemblerModel, now: nat)
    ensures
        m.without_expired(now).sent == m.sent,
        m.without_expired(now).max_inflight == m.max_inflight,
        forall|c: ChunkModel|
            #![trigger m.without_expired(now).chunks.contains(c)]
            m.without_expired(now).chunks.contains(c) <==> m.chunks.contains(c) && {
                ||| now <= c.started_at + m.timeout_ns
                ||| forall|k: int| 0 <= k < c.parts.len() ==> (#[trigger] c.parts[k]) is Some
            },
        (forall|i: int|
            0 <= i < m.chunks.len() ==> now <= (#[trigger] m.chunks[i]).started_at + m.timeout_ns)
            ==> m.without_expired(now).chunks == m.chunks,
{
    let keep = |c: ChunkModel| !reassembly::expired(c, now, m.timeout_ns);
    let after = m.chunks.filter(keep);
    assert(m.without_expired(now).chunks == after);
    broadcast use vstd::seq_lib::group_filter_ensures;

    assert forall|c: ChunkModel| #[trigger] after.contains(c) <==> m.chunks.contains(c) && keep(
        c,
    ) by {
        if after.contains(c) {
            let i = choose|i: int| 0 <= i < after.len() && after[i] == c;
            assert(keep(after[i]));
            lemma_filter_part(m.chunks, keep, i);
        }
        if m.chunks.contains(c) && keep(c) {
            let i = choose|i: int| 0 <= i < m.chunks.len() && m.chunks[i] == c;
            assert(after.contains(m.chunks[i]));
        }
    }
    if forall|i: int|
        0 <= i < m.chunks.len() ==> now <= (#[trigger] m.chunks[i]).started_at + m.timeout_ns {
        lemma_filter_all(m.chunks, keep);
    }
}

/// What is kept was there.
proof fn lemma_filter_part(chunks: Seq<ChunkModel>, keep: spec_fn(ChunkModel) -> bool, i: int)
    requires
        0 <= i < chunks.filter(keep).len(),
    ensures
        chunks.contains(chunks.filter(keep)[i]),
    decreases chunks.len(),
{
    reveal(Seq::filter);
    let rest = chunks.drop_last();
    let c = chunks.filter(keep)[i];
    if i < rest.filter(keep).len() {
        lemma_filter_part(rest, keep, i);
        let k = choose|k: int| 0 <= k < rest.len() && rest[k] == c;
        assert(chunks[k] == c);
    } else {
        assert(chunks[chunks.len() - 1] == c);
    }
}

/// Where all are kept, the sequence stays.
proof fn lemma_filter_all(chunks: Seq<ChunkModel>, keep: spec_fn(ChunkModel) -> bool)
    requires
        forall|i: int| 0 <= i < chunks.len() ==> keep(#[trigger] chunks[i]),
    ensures
        chunks.filter(keep) == chunks,
    decreases chunks.len(),
{
    reveal(Seq::filter);
    if chunks.len() > 0 {
        let rest = chunks.drop_last();
        assert forall|i: int| 0 <= i < rest.len() implies keep(#[trigger] rest[i]) by {
            assert(rest[i] == chunks[i]);
        }
        lemma_filter_all(rest, keep);
        assert(keep(chunks[chunks.len() - 1]));
        assert(chunks.filter(keep) =~= chunks);
    }
}

/// The parts of a chunk of which none came yet.
pub open spec fn nothing_of(total: nat) -> Seq<Option<Seq<u8>>> {
    Seq::new(total, |i: int| None)
}

/// Whether `at` is where the chunk of `fragment` stands among those on their way, or
/// behind them where there is none.
pub open spec fn belongs_at(m: ReassemblerModel, fragment: Seq<u8>, at: int) -> bool {
    &&& 0 <= at <= m.chunks.len()
    &&& at < m.chunks.len() ==> m.chunks[at].chunk_id == wire::un32(fragment, 0)
    &&& at == m.chunks.len() ==> forall|i: int|
        0 <= i < m.chunks.len() ==> (#[trigger] m.chunks[i]).chunk_id != wire::un32(fragment, 0)
}

/// The chunk of a fragment before it came: the one on its way, or else one of which
/// nothing came yet, with as many parts as the fragment says.
pub open spec fn chunk_before(m: ReassemblerModel, fragment: Seq<u8>, now: nat, at: int) -> ChunkModel {
    if at < m.chunks.len() {
        m.chunks[at]
    } else {
        ChunkModel {
            chunk_id: wire::un32(fragment, 0),
            parts: nothing_of(wire::un16(fragment, 6) as nat),
            started_at: now,
        }
    }
}

/// What is held with `c` at `at`.
pub open spec fn holding(m: ReassemblerModel, at: int, c: ChunkModel) -> ReassemblerModel {
    ReassemblerModel {
        chunks: if at < m.chunks.len() {
            m.chunks.update(at, c)
        } else {
            m.chunks.push(c)
        },
        ..m
    }
}

/// What `receive` goes by.
proof fn lemma_place(m: ReassemblerModel, fragment: Seq<u8>, now: nat, at: int)
    requires
        reassembly::distinct_ids(m.chunks),
        belongs_at(m, fragment, at),
    ensures
        ({
            let h = FragmentHeader::decoded(fragment);
            let c = chunk_before(m, fragment, now, at);
            let index = h.fragment_index as int;
            &&& reassembly::position(m.chunks, h.chunk_id) == at
            &&& m.with_place(h, now) == holding(m, at, c)
            &&& holding(m, at, c).chunks[at] == c
            &&& m.has_part(h) <==> index < c.parts.len() && c.parts[index] is Some
            &&& holding(m, at, c).with_part(at, index, fragment) == holding(
                m,
                at,
                ChunkModel { parts: c.parts.update(index, Some(fragment)), ..c },
            )
        }),
{
    let h = FragmentHeader::decoded(fragment);
    let c = chunk_before(m, fragment, now, at);
    let index = h.fragment_index as int;
    let filled = ChunkModel { parts: c.parts.update(index, Some(fragment)), ..c };
    assert forall|j: int| 0 <= j < at implies (#[trigger] m.chunks[j]).chunk_id != h.chunk_id by {
        if at < m.chunks.len() {
            assert(m.chunks[j].chunk_id != m.chunks[at].chunk_id);
        }
    }
    reassembly::lemma_position(m.chunks, h.chunk_id, at);
    let placed = m.with_place(h, now);
    if at == m.chunks.len() {
        assert(placed.chunks[at].parts =~= c.parts);
        assert(placed.chunks =~= m.chunks.push(c));
        assert(m.chunks.push(c).update(at, filled) =~= m.chunks.push(filled));
        if index < c.parts.len() {
            assert(c.parts[index] is None);
        }
    } else {
        assert(m.chunks.update(at, c) =~= m.chunks);
        assert(m.chunks.update(at, c).update(at, filled) =~= m.chunks.update(at, filled));
    }
    assert(placed == holding(m, at, c));
}

/// A fragment that is too short changes nothing, nor does one that is there already.
/// One that does not agree with its chunk on the number of parts, or has an index
/// beyond that, is refused; the first of a chunk begins the chunk all the same.
pub proof fn lemma_bad_fragment_is_refused(
    m: ReassemblerModel,
    fragment: Seq<u8>,
    now: nat,
    at: int,
)
    requires
        reassembly::distinct_ids(m.chunks),
        belongs_at(m, fragment, at),
    ensures
        ({
            let (after, r) = m.receive(fragment, now);
            let index = wire::un16(fragment, 4) as int;
            let total = wire::un16(fragment, 6);
            let c = chunk_before(m, fragment, now, at);
            let there = index < c.parts.len() && c.parts[index] is Some;
            &&& fragment.len() < 14 ==> after == m && r == Err::<bool, Seq<char>>(
                "fragment too short: missing header"@,
            )
            &&& fragment.len() >= 14 && there ==> after == m && r == Ok::<bool, Seq<char>>(false)
            &&& fragment.len() >= 14 && !there && total != c.parts.len() ==> after == holding(
                m,
                at,
                c,
            ) && r == Err::<bool, Seq<char>>("inconsistent total_fragments across fragments"@)
            &&& fragment.len() >= 14 && !there && total == c.parts.len() && index >= total ==> after
                == holding(m, at, c) && r == Err::<bool, Seq<char>>("fragment_index out of range"@)
        }),
{
    lemma_place(m, fragment, now, at);
}

/// Any other fragment is stored in its chunk under its index, and the other chunks
/// stay as they are. If too much is held then, one chunk is given up. While a part of
/// the chunk is missing, that is all. Once none is, the chunk is handed on, unless it
/// is the one that was given up.
pub proof fn lemma_good_fragment_is_stored(
    m: ReassemblerModel,
    fragment: Seq<u8>,
    now: nat,
    at: int,
)
    requires
        reassembly::distinct_ids(m.chunks),
        belongs_at(m, fragment, at),
        fragment.len() >= 14,
        chunk_before(m, fragment, now, at).parts.len() == wire::un16(fragment, 6),
        wire::un16(fragment, 4) < wire::un16(fragment, 6),
        chunk_before(m, fragment, now, at).parts[wire::un16(fragment, 4) as int] is None,
    ensures
        ({
            let (after, r) = m.receive(fragment, now);
            let id = wire::un32(fragment, 0);
            let c = chunk_before(m, fragment, now, at);
            let filled = ChunkModel {
                parts: c.parts.update(wire::un16(fragment, 4) as int, Some(fragment)),
                ..c
            };
            let kept = holding(m, at, filled).bounded();
            let missing = exists|k: int|
                0 <= k < filled.parts.len() && (#[trigger] filled.parts[k]) is None;
            let place = reassembly::position(kept.chunks, id);
            &&& missing ==> after == kept && r == Ok::<bool, Seq<char>>(false)
            &&& !missing && place < kept.chunks.len() ==> kept.chunks[place].chunk_id == id && after
                == kept.emit_at(place).0 && r == kept.emit_at(place).1
            &&& !missing && place >= kept.chunks.len() ==> after == kept && r == Err::<
                bool,
                Seq<char>,
            >("chunk state not found"@) && !reassembly::contains_id(kept.chunks, id)
        }),
{
    lemma_place(m, fragment, now, at);
    let c = chunk_before(m, fragment, now, at);
    let filled = ChunkModel {
        parts: c.parts.update(wire::un16(fragment, 4) as int, Some(fragment)),
        ..c
    };
    let kept = holding(m, at, filled).bounded();
    assert(holding(m, at, filled).chunks[at] == filled);
    assert(reassembly::complete(filled.parts) <==> !(exists|k: int|
        0 <= k < filled.parts.len() && (#[trigger] filled.parts[k]) is None));
    reassembly::lemma_position_bounds(kept.chunks, wire::un32(fragment, 0));
}

/// Whether a chunk stays when complete chunks are handed on: a part is missing, or it
/// is refused.
#[verifier::opaque]
pub open spec fn stays(c: ChunkModel) -> bool {
    ||| exists|k: int| 0 <= k < c.parts.len() && (#[trigger] c.parts[k]) is None
    ||| reassembly::assembled(c.parts) is Err
}

/// One step of handing chunks on.
proof fn lemma_ready_step(m: ReassemblerModel, i: int)
    requires
        0 <= i < m.chunks.len(),
        !m.closed,
        m.sent.len() < m.capacity,
    ensures
        stays(m.chunks[i]) ==> m.emit_complete_from(i) == m.emit_complete_from(i + 1),
        !stays(m.chunks[i]) ==> m.emit_complete_from(i) == (ReassemblerModel {
            chunks: m.chunks.remove(i),
            sent: m.sent.push(reassembly::assembled(m.chunks[i].parts)->Ok_0),
            ..m
        }).emit_complete_from(i),
{
    reveal(stays);
    let c = m.chunks[i];
    if reassembly::complete(c.parts) {
        assert(stays(c) <==> reassembly::assembled(c.parts) is Err);
    }
}

/// What stays from index `i` on.
proof fn lemma_rest_stays(m: ReassemblerModel, i: int)
    requires
        0 <= i <= m.chunks.len(),
        !m.closed,
        m.sent.len() + m.chunks.len() - i <= m.capacity,
    ensures
        ({
            let after = m.emit_complete_from(i);
            &&& i <= after.chunks.len()
            &&& after.sent.len() + after.chunks.len() == m.sent.len() + m.chunks.len()
            &&& m.sent.len() <= after.sent.len()
            &&& forall|j: int| 0 <= j < i ==> #[trigger] after.chunks[j] == m.chunks[j]
            &&& forall|j: int|
                i <= j < after.chunks.len() ==> stays(#[trigger] after.chunks[j])
                    && m.chunks.contains(after.chunks[j])
            &&& forall|j: int| 0 <= j < m.sent.len() ==> #[trigger] after.sent[j] == m.sent[j]
        }),
    decreases m.chunks.len() - i,
{
    if i < m.chunks.len() {
        let after = m.emit_complete_from(i);
        lemma_ready_step(m, i);
        if stays(m.chunks[i]) {
            lemma_rest_stays(m, i + 1);
            assert(after.chunks[i] == m.chunks[i]);
        } else {
            let next = ReassemblerModel {
                chunks: m.chunks.remove(i),
                sent: m.sent.push(reassembly::assembled(m.chunks[i].parts)->Ok_0),
                ..m
            };
            lemma_rest_stays(next, i);
            assert forall|j: int| 0 <= j < i implies #[trigger] after.chunks[j] == m.chunks[j] by {
                assert(next.chunks[j] == m.chunks[j]);
            }
            assert forall|j: int| i <= j < after.chunks.len() implies stays(
                #[trigger] after.chunks[j],
            ) && m.chunks.contains(after.chunks[j]) by {
                let k = choose|k: int|
                    0 <= k < next.chunks.len() && next.chunks[k] == after.chunks[j];
                assert(m.chunks[if k < i {
                    k
                } else {
                    k + 1
                }] == next.chunks[k]);
            }
            assert forall|j: int| 0 <= j < m.sent.len() implies #[trigger] after.sent[j]
                == m.sent[j] by {
                assert(next.sent[j] == m.sent[j]);
            }
        }
    }
}

/// Where the chunk at `k` is, once the chunks from index `i` on were handed on.
proof fn lemma_each_stays_or_leaves(m: ReassemblerModel, i: int, k: int)
    requires
        0 <= i <= k < m.chunks.len(),
        !m.closed,
        m.sent.len() + m.chunks.len() - i <= m.capacity,
    ensures
        stays(m.chunks[k]) ==> m.emit_complete_from(i).chunks.contains(m.chunks[k]),
        !stays(m.chunks[k]) ==> m.emit_complete_from(i).sent.contains(
            reassembly::assembled(m.chunks[k].parts)->Ok_0,
        ),
    decreases m.chunks.len() - i,
{
    let after = m.emit_complete_from(i);
    lemma_ready_step(m, i);
    if stays(m.chunks[i]) {
        if k == i {
            lemma_rest_stays(m, i + 1);
            assert(after.chunks[i] == m.chunks[i]);
        } else {
            lemma_each_stays_or_leaves(m, i + 1, k);
        }
    } else {
        let next = ReassemblerModel {
            chunks: m.chunks.remove(i),
            sent: m.sent.push(reassembly::assembled(m.chunks[i].parts)->Ok_0),
            ..m
        };
        if k == i {
            lemma_rest_stays(next, i);
            assert(after.sent[m.sent.len() as int] == next.sent[m.sent.len() as int]);
        } else {
            assert(next.chunks[k - 1] == m.chunks[k]);
            lemma_each_stays_or_leaves(next, i, k - 1);
        }
    }
}

/// Where there is room, every chunk that is complete and intact is handed on, and all
/// others stay.
pub proof fn lemma_ready_chunks_leave(m: ReassemblerModel)
    requires
        !m.closed,
        m.sent.len() + m.chunks.len() <= m.capacity,
    ensures
        ({
            let after = m.emit_complete();
            &&& after.sent.len() + after.chunks.len() == m.sent.len() + m.chunks.len()
            &&& after.sent.take(m.sent.len() as int) == m.sent
            &&& forall|c: ChunkModel| #[trigger]
                after.chunks.contains(c) <==> m.chunks.contains(c) && stays(c)
            &&& forall|k: int|
                0 <= k < m.chunks.len() && !stays(#[trigger] m.chunks[k]) ==> after.sent.contains(
                    reassembly::assembled(m.chunks[k].parts)->Ok_0,
                )
        }),
{
    lemma_rest_stays(m, 0);
    let after = m.emit_complete();
    assert(after.sent.take(m.sent.len() as int) =~= m.sent);
    assert forall|c: ChunkModel| #[trigger] after.chunks.contains(c) <==> m.chunks.contains(c)
        && stays(c) by {
        if after.chunks.contains(c) {
            let j = choose|j: int| 0 <= j < after.chunks.len() && after.chunks[j] == c;
            assert(stays(after.chunks[j]));
        }
        if m.chunks.contains(c) && stays(c) {
            let k = choose|k: int| 0 <= k < m.chunks.len() && m.chunks[k] == c;
            lemma_each_stays_or_leaves(m, 0, k);
        }
    }
    assert forall|k: int| 0 <= k < m.chunks.len() && !stays(
        #[trigger] m.chunks[k],
    ) implies after.sent.contains(reassembly::assembled(m.chunks[k].parts)->Ok_0) by {
        lemma_each_stays_or_leaves(m, 0, k);
    }
}

/// A chunk is complete exactly where each of its fragments is there, which is where as
/// many are there as it has.
pub proof fn lemma_complete_has_every_fragment(parts: Seq<Option<Seq<u8>>>)
    ensures
        reassembly::complete(parts) <==> !exists|i: int|
            0 <= i < parts.len() && (#[trigger] parts[i]) is None,
        reassembly::present(parts) <= parts.len(),
        reassembly::complete(parts) <==> reassembly::present(parts) == parts.len(),
    decreases parts.len(),
{
    if parts.len() > 0 {
        let fewer = parts.drop_last();
        lemma_complete_has_every_fragment(fewer);
        let n = parts.len() - 1;
        if reassembly::complete(parts) {
            assert(parts[n] is Some);
            assert forall|i: int| 0 <= i < fewer.len() implies (#[trigger] fewer[i]) is Some by {
                assert(parts[i] is Some);
            }
        }
        if reassembly::present(parts) == parts.len() {
            assert forall|i: int| 0 <= i < parts.len() implies (#[trigger] parts[i]) is Some by {
                if i < n {
                    assert(fewer[i] is Some);
                }
            }
        }
    }
}

} // verus!
