//! From a payload to the fragments that carry it.
//!
//! A payload gets a chunk header in front, is compressed where that makes it
//! shorter, and is cut into pieces that fit into a datagram together with a
//! fragment header.

use crate::compress::lz4;
use crate::compress::lz4::compress_lz4;
use crate::protocol::crc;
use crate::protocol::crc::{compute_chunk_crc, compute_fragment_crc};
use crate::protocol::headers::{ChunkHeader, FragmentHeader, COMPRESSED_LZ4, COMPRESSION_NONE};
use crate::wire;
use vstd::prelude::*;

verus! {

/// Whether compression makes `data` shorter.
pub open spec fn compresses(data: Seq<u8>) -> bool {
    lz4::lz4_block(data).len() < data.len()
}

/// What travels for `data`: its LZ4 block where that is shorter, else itself.
pub open spec fn wire_payload(data: Seq<u8>) -> Seq<u8> {
    if compresses(data) {
        lz4::lz4_block(data)
    } else {
        data
    }
}

/// The header of the chunk that carries `data`.
pub open spec fn chunk_header(sequence_number: u64, data: Seq<u8>) -> ChunkHeader {
    ChunkHeader {
        magic: ChunkHeader::MAGIC,
        flags: if compresses(data) {
            COMPRESSED_LZ4
        } else {
            COMPRESSION_NONE
        },
        payload_length: wire_payload(data).len() as u16,
        sequence_number,
        chunk_crc: crc::chunk_crc_of(sequence_number, data),
    }
}

/// The whole chunk on the wire: header, then payload.
pub open spec fn chunk_image(sequence_number: u64, data: Seq<u8>) -> Seq<u8> {
    chunk_header(sequence_number, data).encoded() + wire_payload(data)
}

/// How many pieces of at most `size` bytes `len` bytes make.
pub open spec fn piece_count(len: nat, size: nat) -> nat
    recommends
        size > 0,
{
    ((len + size - 1) / size as int) as nat
}

/// The `i`-th piece of `size` bytes of `image`; the last may be shorter.
pub open spec fn piece(image: Seq<u8>, size: nat, i: int) -> Seq<u8> {
    let end = (i + 1) * size;
    image.subrange(
        i * size,
        if end <= image.len() {
            end
        } else {
            image.len() as int
        },
    )
}

/// The `i`-th fragment of the chunk whose wire image is `image`.
pub open spec fn fragment(chunk_id: u32, image: Seq<u8>, size: nat, i: int) -> Seq<u8> {
    let part = piece(image, size, i);
    (FragmentHeader {
        chunk_id,
        fragment_index: i as u16,
        total_fragments: piece_count(image.len(), size) as u16,
        fragment_length: part.len() as u16,
        fragment_crc: crc::crc32_of(part),
    }).encoded() + part
}

/// All fragments of the chunk whose wire image is `image`, in order.
pub open spec fn image_fragments(chunk_id: u32, image: Seq<u8>, size: nat) -> Seq<Seq<u8>> {
    Seq::new(piece_count(image.len(), size), |i: int| fragment(chunk_id, image, size, i))
}

/// All fragments that carry `data` as the chunk `sequence_number`, in order.
pub open spec fn chunk_fragments(sequence_number: u64, data: Seq<u8>, size: nat) -> Seq<Seq<u8>> {
    image_fragments(sequence_number as u32, chunk_image(sequence_number, data), size)
}

/// Every piece lies within the image, is not empty, and starts where the one
/// before it ends.
pub proof fn lemma_piece_bounds(len: nat, size: nat, i: int)
    requires
        size > 0,
        0 <= i < piece_count(len, size),
    ensures
        0 <= i * size < len,
        (i + 1) * size == i * size + size,
        i + 1 == piece_count(len, size) ==> len <= (i + 1) * size,
        i + 1 < piece_count(len, size) ==> (i + 1) * size < len,
{
    let n = piece_count(len, size) as int;
    let k = size as int;
    assert(n == (len + k - 1) / k);
    vstd::arithmetic::div_mod::lemma_fundamental_div_mod(len + k - 1, k);
    vstd::arithmetic::div_mod::lemma_mod_bound(len + k - 1, k);
    assert(len + k - 1 == k * n + (len + k - 1) % k);
    assert((i + 1) * k == i * k + k) by (nonlinear_arith);
    assert(i * k >= 0) by (nonlinear_arith)
        requires
            i >= 0,
            k > 0,
    ;
    assert(k * n == n * k) by (nonlinear_arith);
    assert(i * k <= (n - 1) * k) by (nonlinear_arith)
        requires
            i <= n - 1,
            k > 0,
    ;
    assert((n - 1) * k == n * k - k) by (nonlinear_arith);
    if i + 1 < n {
        assert((i + 1) * k <= (n - 1) * k) by (nonlinear_arith)
            requires
                i + 1 <= n - 1,
                k > 0,
        ;
    }
}

/// The shorter form travels: the LZ4 block where that is shorter than the data, else
/// the data as it is. The chunk says in its header which, how long it is, its number,
/// and the checksum of the plain data.
pub proof fn lemma_chunk_image_layout(sequence_number: u64, data: Seq<u8>)
    ensures
        ({
            let image = chunk_image(sequence_number, data);
            let block = lz4::lz4_block(data);
            let shorter = block.len() < data.len();
            &&& image.len() >= 16
            &&& image[0] == 0x50
            &&& shorter ==> image[1] == 1 && image.skip(16) == block
            &&& !shorter ==> image[1] == 0 && image.skip(16) == data
            &&& image.len() - 16 <= u16::MAX ==> wire::un16(image, 2) == image.len() - 16
            &&& wire::un64(image, 4) == sequence_number
            &&& wire::un32(image, 12) == crc::crc32_of(wire::be64(sequence_number) + data)
        }),
{
    let header = chunk_header(sequence_number, data);
    let body = wire_payload(data);
    let image = chunk_image(sequence_number, data);
    crate::protocol::headers::lemma_chunk_header_round_trip(header, body);
    crate::protocol::headers::lemma_chunk_header_layout(header);
    assert(ChunkHeader::decoded(image) == header);
    assert(image.skip(16) =~= body);
}

/// The number of pieces is the least that holds everything.
pub proof fn lemma_as_few_pieces_as_possible(len: nat, size: nat)
    requires
        size > 0,
    ensures
        len <= piece_count(len, size) * size,
        len > 0 ==> (piece_count(len, size) - 1) * size < len,
        len == 0 ==> piece_count(len, size) == 0,
{
    let n = piece_count(len, size) as int;
    let k = size as int;
    assert(n == (len + k - 1) / k);
    assert(len <= n * k && (n - 1) * k < len || len == 0 && n == 0) by (nonlinear_arith)
        requires
            n == (len + k - 1) / k,
            k > 0,
            len >= 0,
    ;
}

/// A fragment names its chunk, its index, how many there are, how long its payload is
/// and the checksum of that; then comes the payload, which is the part of the chunk
/// that begins with `size` bytes for each fragment before it, and is `size` bytes long
/// unless the chunk ends before that.
pub proof fn lemma_fragment_layout(chunk_id: u32, image: Seq<u8>, size: nat, i: int)
    requires
        0 < size,
        0 <= i < piece_count(image.len(), size),
        piece_count(image.len(), size) <= u16::MAX,
    ensures
        ({
            let f = fragment(chunk_id, image, size, i);
            let end = if (i + 1) * size <= image.len() {
                (i + 1) * size
            } else {
                image.len() as int
            };
            &&& f.len() >= 14
            &&& f.skip(14) == image.subrange(i * size, end)
            &&& wire::un32(f, 0) == chunk_id
            &&& wire::un16(f, 4) == i
            &&& wire::un16(f, 6) == piece_count(image.len(), size)
            &&& f.len() - 14 <= u16::MAX ==> wire::un16(f, 8) == f.len() - 14
            &&& wire::un32(f, 10) == crc::crc32_of(f.skip(14))
        }),
{
    let f = fragment(chunk_id, image, size, i);
    let part = piece(image, size, i);
    let header = FragmentHeader {
        chunk_id,
        fragment_index: i as u16,
        total_fragments: piece_count(image.len(), size) as u16,
        fragment_length: part.len() as u16,
        fragment_crc: crc::crc32_of(part),
    };
    lemma_piece_bounds(image.len(), size, i);
    crate::protocol::headers::lemma_fragment_header_round_trip(header, part);
    assert(f == header.encoded() + part);
    assert(f.skip(14) =~= part);
    assert(FragmentHeader::decoded(f) == header);
}

/// Cuts `image` into fragments with at most `size` payload bytes each.
pub fn fragment_image(chunk_id: u32, image: &[u8], size: usize) -> (r: Vec<Vec<u8>>)
    requires
        size > 0,
    ensures
        wire::views(r@) == image_fragments(chunk_id, image@, size as nat),
        r@.len() == piece_count(image@.len(), size as nat),
        forall|i: int|
            0 <= i < r@.len() ==> #[trigger] r@[i]@ == fragment(chunk_id, image@, size as nat, i),
{
    let len: usize = image.len();
    let total: usize = if len == 0 {
        0
    } else {
        (len - 1) / size + 1
    };
    let mut out: Vec<Vec<u8>> = Vec::new();
    let mut i: usize = 0;
    let mut start: usize = 0;
    proof {
        assert(0 * size as int == 0) by (nonlinear_arith);
        vstd::arithmetic::div_mod::lemma_div_plus_one(len - 1, size as int);
        if len == 0 {
            vstd::arithmetic::div_mod::lemma_basic_div(size - 1, size as int);
        }
    }
    while i < total
        invariant
            size > 0,
            len == image@.len(),
            total == piece_count(len as nat, size as nat),
            0 <= i <= total,
            start == i * size || i == total,
            wire::views(out@) == image_fragments(chunk_id, image@, size as nat).take(i as int),
        decreases total - i,
    {
        proof {
            lemma_piece_bounds(len as nat, size as nat, i as int);
        }
        let end: usize = if size <= len - start {
            start + size
        } else {
            len
        };
        let part = vstd::slice::slice_subrange(image, start, end);
        let header = FragmentHeader {
            chunk_id,
            fragment_index: i as u16,
            total_fragments: total as u16,
            fragment_length: part.len() as u16,
            fragment_crc: compute_fragment_crc(part),
        };
        let mut frag: Vec<u8> = header.to_bytes();
        frag.extend_from_slice(part);
        proof {
            assert(part@ == piece(image@, size as nat, i as int));
            assert(frag@ =~= fragment(chunk_id, image@, size as nat, i as int));
        }
        proof {
            let all = image_fragments(chunk_id, image@, size as nat);
            wire::lemma_views_push(out@, frag);
            assert(all.take(i as int).push(all[i as int]) =~= all.take(i + 1));
        }
        out.push(frag);
        start = end;
        i = i + 1;
    }
    assert(image_fragments(chunk_id, image@, size as nat).take(total as int) =~= image_fragments(
        chunk_id,
        image@,
        size as nat,
    ));
    assert(wire::views(out@).len() == out@.len());
    assert forall|j: int| 0 <= j < out@.len() implies #[trigger] out@[j]@ == fragment(
        chunk_id,
        image@,
        size as nat,
        j,
    ) by {
        assert(wire::views(out@)[j] == out@[j]@);
    }
    out
}

/// Frames `data` as the chunk `sequence_number`: checksum over the plain data,
/// compression where it helps, chunk header, fragments.
pub fn frame_chunk(sequence_number: u64, data: &[u8], size: usize) -> (r: Vec<Vec<u8>>)
    requires
        size > 0,
        lz4::compressible(data@.len()),
    ensures
        wire::views(r@) == chunk_fragments(sequence_number, data@, size as nat),
        ({
            let image = chunk_image(sequence_number, data@);
            &&& r@.len() == piece_count(image.len(), size as nat)
            &&& forall|i: int|
                0 <= i < r@.len() ==> #[trigger] r@[i]@ == fragment(
                    sequence_number as u32,
                    image,
                    size as nat,
                    i,
                )
        }),
        lz4::decompresses(data@),
{
    let chunk_crc = compute_chunk_crc(sequence_number, data);
    let mut flags: u8 = COMPRESSION_NONE;
    let mut payload: Vec<u8> = Vec::new();
    match compress_lz4(data) {
        Ok(compressed) if compressed.len() < data.len() => {
            flags = COMPRESSED_LZ4;
            payload = compressed;
        },
        _ => {
            payload.extend_from_slice(data);
            assert(payload@ =~= data@);
        },
    }
    assert(payload@ == wire_payload(data@));
    let header = ChunkHeader::new(flags, payload.len() as u16, sequence_number, chunk_crc);
    let mut image: Vec<u8> = header.to_bytes();
    proof {
        crate::protocol::headers::lemma_chunk_header_round_trip(header, Seq::empty());
    }
    image.extend_from_slice(payload.as_slice());
    assert(image@ =~= chunk_image(sequence_number, data@));
    fragment_image(sequence_number as u32, image.as_slice(), size)
}

} // verus!
