//! CRC-32 checksums of fragments and chunks.

use crate::wire;
use vstd::prelude::*;

verus! {

/// The CRC-32 (IEEE) checksum of `data`, as `crc32fast::hash` computes it.
pub uninterp spec fn crc32_of(data: Seq<u8>) -> u32;

/// `crc32fast::hash`: the result is a function of the bytes alone, named
/// `crc32_of`.
pub assume_specification[ crc32fast::hash ](buf: &[u8]) -> (r: u32)
    ensures
        r == crc32_of(buf@),
;

/// The incremental checksum computation of `crc32fast`.
#[verifier::external_type_specification]
#[verifier::external_body]
pub struct ExHasher(crc32fast::Hasher);

/// The bytes that a hasher has taken in so far, in order.
pub uninterp spec fn hashed_bytes(hasher: crc32fast::Hasher) -> Seq<u8>;

/// `crc32fast::Hasher::new`: a new hasher has taken in nothing.
pub assume_specification[ crc32fast::Hasher::new ]() -> (r: crc32fast::Hasher)
    ensures
        hashed_bytes(r) == Seq::<u8>::empty(),
;

/// `crc32fast::Hasher::update`: the bytes of `buf` join those taken in
/// before. The hasher counts its bytes in 64 bits and must not overflow.
pub assume_specification[ crc32fast::Hasher::update ](hasher: &mut crc32fast::Hasher, buf: &[u8])
    requires
        hashed_bytes(*old(hasher)).len() + buf@.len() <= u64::MAX,
    ensures
        hashed_bytes(*final(hasher)) == hashed_bytes(*old(hasher)) + buf@,
;

/// `crc32fast::Hasher::finalize`: the checksum of all the bytes taken in, the
/// one that `crc32fast::hash` gives for them in one piece.
pub assume_specification[ crc32fast::Hasher::finalize ](hasher: crc32fast::Hasher) -> (r: u32)
    ensures
        r == crc32_of(hashed_bytes(hasher)),
;

/// What the checksum of a chunk covers: its sequence number, then its payload.
pub open spec fn chunk_crc_of(sequence_number: u64, data: Seq<u8>) -> u32 {
    crc32_of(wire::be64(sequence_number) + data)
}

/// Checksum of a fragment's payload.
pub fn compute_fragment_crc(data: &[u8]) -> (r: u32)
    ensures
        r == crc32_of(data@),
{
    crc32fast::hash(data)
}

/// Checksum of a chunk: its sequence number in big-endian order, then its
/// uncompressed payload.
pub fn compute_chunk_crc(sequence_number: u64, data: &[u8]) -> (r: u32)
    requires
        data@.len() + 8 <= u64::MAX,
    ensures
        r == chunk_crc_of(sequence_number, data@),
        r == crc32_of(wire::be64(sequence_number) + data@),
{
    let mut prefix: Vec<u8> = Vec::new();
    wire::put_u64(&mut prefix, sequence_number);
    let mut hasher = crc32fast::Hasher::new();
    hasher.update(prefix.as_slice());
    hasher.update(data);
    proof {
        assert(hashed_bytes(hasher) =~= wire::be64(sequence_number) + data@);
    }
    hasher.finalize()
}

/// Whether `expected` is the checksum of the fragment payload `data`.
pub fn verify_fragment_crc(data: &[u8], expected: u32) -> (r: bool)
    ensures
        r == (crc32_of(data@) == expected),
{
    compute_fragment_crc(data) == expected
}

/// Whether `expected` is the checksum of the chunk.
pub fn verify_chunk_crc(sequence_number: u64, data: &[u8], expected: u32) -> (r: bool)
    requires
        data@.len() + 8 <= u64::MAX,
    ensures
        r == (chunk_crc_of(sequence_number, data@) == expected),
        r == (crc32_of(wire::be64(sequence_number) + data@) == expected),
{
    compute_chunk_crc(sequence_number, data) == expected
}

} // verus!
