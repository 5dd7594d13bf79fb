//! What leaves the sender.

use crate::compress::lz4;
use crate::protocol::headers;
use crate::protocol::headers::{ChunkHeader, FragmentHeader};
use crate::receiver::delivery;
use crate::receiver::interleaving::SentChunk;
use crate::receiver::ordering;
use crate::receiver::reassembly;
use crate::receiver::sequence;
use crate::sender::framing;
use crate::sender::splitter;
use crate::session::transfer;
use crate::wire;
use vstd::prelude::*;

verus! {

/// A chunk of up to 65535 bytes fits its headers, and so do its fragments unless
/// they hold a single byte each.
pub proof fn lemma_usual_chunks_fit(chunk: SentChunk, size: nat)
    requires
        chunk.data.len() <= u16::MAX,
        size >= 2,
        lz4::decompresses(chunk.data),
    ensures
        chunk.fits(size),
{
    let header = framing::chunk_header(chunk.number, chunk.data);
    let image = framing::chunk_image(chunk.number, chunk.data);
    headers::lemma_chunk_header_round_trip(header, framing::wire_payload(chunk.data));
    assert(image.len() <= u16::MAX + ChunkHeader::LEN);
    assert((image.len() + size - 1) / size as int <= u16::MAX) by (nonlinear_arith)
        requires
            image.len() <= 65551,
            size >= 2,
    ;
}

/// How many fragments the chunks before the chunk `c` make: the place of its first
/// fragment in the stream.
pub open spec fn place_of(payloads: Seq<Seq<u8>>, size: nat, c: int) -> int {
    splitter::stream_fragments(payloads.take(c), 0, size).len() as int
}

/// How many fragments the chunk `c` makes.
pub open spec fn count_of(payloads: Seq<Seq<u8>>, size: nat, c: int) -> int {
    framing::chunk_fragments(c as u64, payloads[c], size).len() as int
}

/// The `i`-th fragment of the chunk `c` in the stream.
pub open spec fn fragment_at(payloads: Seq<Seq<u8>>, size: nat, c: int, i: int) -> Seq<u8> {
    splitter::stream_fragments(payloads, 0, size)[place_of(payloads, size, c) + i]
}

/// The fragments of the chunk `c` as they stand in the stream.
pub open spec fn fragments_of(payloads: Seq<Seq<u8>>, size: nat, c: int) -> Seq<Seq<u8>> {
    splitter::stream_fragments(payloads, 0, size).subrange(
        place_of(payloads, size, c),
        place_of(payloads, size, c + 1),
    )
}

/// The fragments of a chunk stand together in the stream, behind those of the
/// chunks before it.
proof fn lemma_chunk_in_stream(payloads: Seq<Seq<u8>>, size: nat, c: int)
    requires
        payloads.len() <= 0x1_0000_0000,
        0 <= c < payloads.len(),
    ensures
        place_of(payloads, size, c + 1) == place_of(payloads, size, c) + count_of(
            payloads,
            size,
            c,
        ),
        place_of(payloads, size, c + 1) <= splitter::stream_fragments(payloads, 0, size).len(),
        fragments_of(payloads, size, c) == framing::chunk_fragments(c as u64, payloads[c], size),
    decreases payloads.len(),
{
    let stream = splitter::stream_fragments(payloads, 0, size);
    let rest = payloads.drop_last();
    let n = payloads.len() as int;
    if c == n - 1 {
        assert(payloads.take(n) =~= payloads);
        assert(payloads.take(c) =~= rest);
        let number = 0u64.wrapping_add((n - 1) as u64);
        assert((number as u32) as u64 == c as u64);
        assert(stream.subrange(place_of(payloads, size, c), stream.len() as int)
            =~= framing::chunk_fragments(c as u64, payloads[c], size));
    } else {
        lemma_chunk_in_stream(rest, size, c);
        assert(rest.take(c) =~= payloads.take(c));
        assert(rest.take(c + 1) =~= payloads.take(c + 1));
        assert(fragments_of(payloads, size, c) =~= fragments_of(rest, size, c));
    }
}

/// What a fragment in the stream says of itself, and how long it is.
proof fn lemma_fragment_in_stream(payloads: Seq<Seq<u8>>, size: nat, c: int, i: int)
    requires
        payloads.len() <= 0x1_0000_0000,
        size > 0,
        0 <= c < payloads.len(),
        transfer::chunks_of(payloads)[c].fits(size),
        0 <= i < count_of(payloads, size, c),
    ensures
        is_in_order(payloads, size, c, i),
{
    let image = framing::chunk_image(c as u64, payloads[c]);
    lemma_chunk_in_stream(payloads, size, c);
    assert(fragments_of(payloads, size, c)[i] == fragment_at(payloads, size, c, i));
    delivery::lemma_fragment_payload(c as u64 as u32, image, size, i);
    framing::lemma_piece_bounds(image.len(), size, i);
}

/// The fragments of a chunk in the stream make up its payload.
proof fn lemma_chunk_recovered(payloads: Seq<Seq<u8>>, size: nat, c: int)
    requires
        payloads.len() <= 0x1_0000_0000,
        size > 0,
        0 <= c < payloads.len(),
        transfer::chunks_of(payloads)[c].fits(size),
    ensures
        recovered(payloads, size, c) == Ok::<Seq<u8>, Seq<char>>(
            delivery::delivered(c as u64, payloads[c]),
        ),
        ordering::commit_of(delivery::delivered(c as u64, payloads[c])).data == payloads[c],
        ordering::commit_of(delivery::delivered(c as u64, payloads[c])).sequence_number == c,
{
    lemma_chunk_in_stream(payloads, size, c);
    delivery::lemma_reassembly_recovers_payload(c as u64, payloads[c], size);
    sequence::lemma_commit_recovers_payload(c as u64, payloads[c]);
}

/// What the fragments of the chunk `c`, as they stand in the stream, make up.
pub open spec fn recovered(payloads: Seq<Seq<u8>>, size: nat, c: int) -> Result<
    Seq<u8>,
    Seq<char>,
> {
    reassembly::assembled(delivery::all_present(fragments_of(payloads, size, c)))
}

/// Whether the `i`-th fragment of the chunk `c` says so of itself, says how many
/// they are, and is as long as a datagram, or shorter if it is the last.
pub open spec fn is_in_order(payloads: Seq<Seq<u8>>, size: nat, c: int, i: int) -> bool {
    let f = fragment_at(payloads, size, c, i);
    let h = FragmentHeader::decoded(f);
    &&& h.chunk_id == c
    &&& h.fragment_index == i
    &&& h.total_fragments == count_of(payloads, size, c)
    &&& f.len() <= size + FragmentHeader::LEN
    &&& i < count_of(payloads, size, c) - 1 ==> f.len() == size + FragmentHeader::LEN
}

/// A stream leaves the splitter in good order. Its chunks are numbered 0, 1, 2 and
/// so on without gaps. Each has at least one fragment; they bear the indices from 0
/// on, once each and in order, and say how many they are. No fragment is longer than
/// a datagram of `size` bytes and a header, and only the last of a chunk is shorter.
/// Put together, the fragments of each chunk give its payload back, decompressed
/// where it was compressed; all payloads, in the order of the chunks, are the
/// stream.
pub proof fn lemma_stream_is_in_good_order(payloads: Seq<Seq<u8>>, size: nat)
    requires
        payloads.len() <= 0x1_0000_0000,
        size > 0,
        forall|c: int|
            0 <= c < payloads.len() ==> (#[trigger] transfer::chunks_of(payloads)[c]).fits(size),
    ensures
        place_of(payloads, size, 0) == 0,
        place_of(payloads, size, payloads.len() as int) == splitter::stream_fragments(
            payloads,
            0,
            size,
        ).len(),
        forall|c: int|
            0 <= c < payloads.len() ==> {
                &&& #[trigger] count_of(payloads, size, c) > 0
                &&& place_of(payloads, size, c + 1) == place_of(payloads, size, c)
                    + count_of(payloads, size, c)
            },
        forall|c: int, i: int|
            0 <= c < payloads.len() && 0 <= i < count_of(payloads, size, c)
                ==> #[trigger] is_in_order(payloads, size, c, i),
        forall|c: int|
            0 <= c < payloads.len() ==> {
                &&& #[trigger] recovered(payloads, size, c) is Ok
                &&& ordering::commit_of(recovered(payloads, size, c)->Ok_0).data == payloads[c]
                &&& ordering::commit_of(recovered(payloads, size, c)->Ok_0).sequence_number == c
            },
        transfer::written(
            sequence::commits_of(
                Seq::new(payloads.len(), |c: int| recovered(payloads, size, c)->Ok_0),
            ),
        ) == wire::concat(payloads),
{
    let n = payloads.len() as int;
    assert(payloads.take(0) =~= Seq::empty());
    assert(payloads.take(n) =~= payloads);
    assert forall|c: int| 0 <= c < n implies {
        &&& #[trigger] count_of(payloads, size, c) > 0
        &&& place_of(payloads, size, c + 1) == place_of(payloads, size, c) + count_of(
            payloads,
            size,
            c,
        )
    } by {
        lemma_chunk_in_stream(payloads, size, c);
        lemma_some_pieces(c as u64, payloads[c], size);
    }
    assert forall|c: int, i: int|
        0 <= c < n && 0 <= i < count_of(payloads, size, c) implies #[trigger] is_in_order(
        payloads,
        size,
        c,
        i,
    ) by {
        assert(transfer::chunks_of(payloads)[c].fits(size));
        lemma_fragment_in_stream(payloads, size, c, i);
    }
    let chunks = Seq::new(payloads.len(), |c: int| recovered(payloads, size, c)->Ok_0);
    let delivered = transfer::delivered_stream(payloads);
    assert forall|c: int| 0 <= c < n implies {
        &&& #[trigger] recovered(payloads, size, c) is Ok
        &&& recovered(payloads, size, c)->Ok_0 == delivered[c]
        &&& ordering::commit_of(recovered(payloads, size, c)->Ok_0).data == payloads[c]
        &&& ordering::commit_of(recovered(payloads, size, c)->Ok_0).sequence_number == c
    } by {
        assert(transfer::chunks_of(payloads)[c].fits(size));
        lemma_chunk_recovered(payloads, size, c);
    }
    assert(chunks =~= delivered);
    transfer::lemma_written_is_the_stream(payloads);
}

/// Every chunk makes at least one fragment.
proof fn lemma_some_pieces(number: u64, data: Seq<u8>, size: nat)
    requires
        size > 0,
    ensures
        framing::chunk_fragments(number, data, size).len() > 0,
{
    let image = framing::chunk_image(number, data);
    headers::lemma_chunk_header_round_trip(
        framing::chunk_header(number, data),
        framing::wire_payload(data),
    );
    assert((image.len() + size - 1) / size as int > 0) by (nonlinear_arith)
        requires
            image.len() >= 1,
            size > 0,
    ;
}

} // verus!
