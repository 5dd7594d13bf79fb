//! What was framed on one side comes out on the other.

use crate::compress::lz4;
use crate::protocol::crc;
use crate::protocol::headers;
use crate::protocol::headers::{ChunkHeader, FragmentHeader};
use crate::receiver::reassembly;
use crate::receiver::reassembly::ReassemblerModel;
use crate::sender::framing;
use vstd::prelude::*;

verus! {

/// All fragments of a chunk, each present.
pub open spec fn all_present(fragments: Seq<Seq<u8>>) -> Seq<Option<Seq<u8>>> {
    Seq::new(fragments.len(), |i: int| Some(fragments[i]))
}

/// What a reassembler hands on for `data`: the chunk header, then the data.
pub open spec fn delivered(sequence_number: u64, data: Seq<u8>) -> Seq<u8> {
    framing::chunk_header(sequence_number, data).encoded() + data
}

/// Whether `order` lists each index below `n` exactly once.
pub open spec fn is_arrival_order(order: Seq<int>, n: nat) -> bool {
    &&& order.len() == n
    &&& order.no_duplicates()
    &&& forall|j: int| 0 <= j < order.len() ==> 0 <= (#[trigger] order[j]) < n
    &&& forall|i: int| 0 <= i < n ==> #[trigger] order.contains(i)
}

/// Whether `order` lists indices below `n` only, and each of them at least once.
pub open spec fn covers(order: Seq<int>, n: nat) -> bool {
    &&& forall|j: int| 0 <= j < order.len() ==> 0 <= (#[trigger] order[j]) < n
    &&& forall|i: int| 0 <= i < n ==> #[trigger] order.contains(i)
}

/// The payload of a fragment is the piece it was made from.
pub proof fn lemma_fragment_payload(chunk_id: u32, image: Seq<u8>, size: nat, i: int)
    ensures
        reassembly::fragment_payload(framing::fragment(chunk_id, image, size, i)) == framing::piece(
            image,
            size,
            i,
        ),
        FragmentHeader::decoded(framing::fragment(chunk_id, image, size, i)) == (FragmentHeader {
            chunk_id,
            fragment_index: i as u16,
            total_fragments: framing::piece_count(image.len(), size) as u16,
            fragment_length: framing::piece(image, size, i).len() as u16,
            fragment_crc: crc::crc32_of(framing::piece(image, size, i)),
        }),
        framing::fragment(chunk_id, image, size, i).len() == FragmentHeader::LEN + framing::piece(
            image,
            size,
            i,
        ).len(),
{
    let part = framing::piece(image, size, i);
    let h = FragmentHeader {
        chunk_id,
        fragment_index: i as u16,
        total_fragments: framing::piece_count(image.len(), size) as u16,
        fragment_length: part.len() as u16,
        fragment_crc: crc::crc32_of(part),
    };
    headers::lemma_fragment_header_round_trip(h, part);
    assert(reassembly::fragment_payload(h.encoded() + part) =~= part);
}

/// The first `k` pieces are a prefix of the image.
proof fn lemma_joined_prefix(chunk_id: u32, image: Seq<u8>, size: nat, k: int)
    requires
        size > 0,
        0 <= k <= framing::piece_count(image.len(), size),
    ensures
        0 <= k * size,
        reassembly::joined(
            all_present(framing::image_fragments(chunk_id, image, size)).take(k),
        ) == image.take(
            if k * size <= image.len() {
                k * size
            } else {
                image.len() as int
            },
        ),
    decreases k,
{
    let parts = all_present(framing::image_fragments(chunk_id, image, size));
    if k == 0 {
        assert(0 * size == 0);
        assert(reassembly::joined(parts.take(0)) =~= image.take(0));
    } else {
        lemma_joined_prefix(chunk_id, image, size, k - 1);
        framing::lemma_piece_bounds(image.len(), size, k - 1);
        lemma_fragment_payload(chunk_id, image, size, k - 1);
        assert(parts.take(k).drop_last() =~= parts.take(k - 1));
        assert(parts.take(k).last() == Some(framing::fragment(chunk_id, image, size, k - 1)));
        let end = if k * size <= image.len() {
            k * size
        } else {
            image.len() as int
        };
        assert(image.take((k - 1) * size) + framing::piece(image, size, k - 1) =~= image.take(end));
    }
}

/// Putting all pieces of an image together gives the image.
pub proof fn lemma_pieces_make_the_image(chunk_id: u32, image: Seq<u8>, size: nat)
    requires
        size > 0,
    ensures
        reassembly::joined(all_present(framing::image_fragments(chunk_id, image, size))) == image,
{
    let n = framing::piece_count(image.len(), size) as int;
    let parts = all_present(framing::image_fragments(chunk_id, image, size));
    lemma_joined_prefix(chunk_id, image, size, n);
    assert(parts.take(n) =~= parts);
    if image.len() > 0 {
        vstd::arithmetic::div_mod::lemma_div_is_ordered(size as int, image.len() + size - 1, size as int);
        vstd::arithmetic::div_mod::lemma_div_by_self(size as int);
        framing::lemma_piece_bounds(image.len(), size, n - 1);
    }
    assert(image.take(image.len() as int) =~= image);
    assert(image.take(0) =~= image || image.len() > 0);
}

/// Reassembling the fragments of a chunk gives back the payload it was made
/// from, behind the chunk header.
pub proof fn lemma_reassembly_recovers_payload(sequence_number: u64, data: Seq<u8>, size: nat)
    requires
        size > 0,
        framing::wire_payload(data).len() <= u16::MAX,
        framing::compresses(data) ==> lz4::decompresses(data),
    ensures
        reassembly::assembled(
            all_present(framing::chunk_fragments(sequence_number, data, size)),
        ) is Ok,
        reassembly::assembled(
            all_present(framing::chunk_fragments(sequence_number, data, size)),
        )->Ok_0 == delivered(sequence_number, data),
{
    let header = framing::chunk_header(sequence_number, data);
    let payload = framing::wire_payload(data);
    let image = framing::chunk_image(sequence_number, data);
    lemma_pieces_make_the_image(sequence_number as u32, image, size);
    headers::lemma_chunk_header_round_trip(header, payload);
    assert(image.subrange(ChunkHeader::LEN as int, image.len() as int) =~= payload);
    assert(image.subrange(0, ChunkHeader::LEN as int) =~= header.encoded());
}

/// Nothing is handed on where no chunk is complete.
pub proof fn lemma_emit_nothing(m: ReassemblerModel, i: int)
    requires
        0 <= i,
        forall|j: int|
            0 <= j < m.chunks.len() ==> !reassembly::complete((#[trigger] m.chunks[j]).parts),
    ensures
        m.emit_complete_from(i) == m,
    decreases m.chunks.len() - i,
{
    if i < m.chunks.len() {
        lemma_emit_nothing(m, i + 1);
    }
}

/// A fragment of which the chunk, still incomplete, has one already changes
/// nothing: it is reported not to complete the chunk, and where no complete chunk
/// waits to be handed on, the reassembler holds what it held and hands nothing on.
pub proof fn lemma_duplicate_changes_nothing(m: ReassemblerModel, fragment: Seq<u8>, now: nat)
    requires
        fragment.len() >= FragmentHeader::LEN,
        m.has_part(FragmentHeader::decoded(fragment)),
    ensures
        m.receive(fragment, now) == (m, Ok::<bool, Seq<char>>(false)),
        (forall|j: int|
            0 <= j < m.chunks.len() ==> !reassembly::complete((#[trigger] m.chunks[j]).parts))
            ==> m.emit_complete().receive(fragment, now) == (m, Ok::<bool, Seq<char>>(false)),
{
    if forall|j: int|
        0 <= j < m.chunks.len() ==> !reassembly::complete((#[trigger] m.chunks[j]).parts) {
        lemma_emit_nothing(m, 0);
    }
}

} // verus!
