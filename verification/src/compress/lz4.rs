//! LZ4 blocks with the uncompressed size in front.

use crate::text;
use vstd::prelude::*;

verus! {

/// What can go wrong when a payload is compressed or decompressed.
#[derive(Debug, Clone, PartialEq, Eq)]
pub enum CompressionError {
    CompressError(String),
    DecompressError(String),
}

impl CompressionError {
    /// The message shown for the error.
    pub open spec fn message(self) -> Seq<char> {
        match self {
            CompressionError::CompressError(msg) => "compress error: "@ + msg@,
            CompressionError::DecompressError(msg) => "decompress error: "@ + msg@,
        }
    }

    /// The message shown for the error.
    pub fn to_string(&self) -> (r: String)
        ensures
            r@ == self.message(),
            self matches CompressionError::CompressError(msg) ==> r@ == "compress error: "@ + msg@,
            self matches CompressionError::DecompressError(msg) ==> r@ == "decompress error: "@
                + msg@,
    {
        match self {
            CompressionError::CompressError(msg) => text::joined("compress error: ", msg.as_str()),
            CompressionError::DecompressError(msg) => text::joined(
                "decompress error: ",
                msg.as_str(),
            ),
        }
    }
}

/// The block that `lz4_flex::block::compress_prepend_size` makes of `data`.
pub uninterp spec fn lz4_block(data: Seq<u8>) -> Seq<u8>;

/// What `lz4_flex::block::decompress` makes of `body` where the data may have
/// `limit` bytes: the data, or the text of its error.
pub uninterp spec fn lz4_decoded(body: Seq<u8>, limit: nat) -> Result<Seq<u8>, Seq<char>>;

/// Bytes in front of the body of a block: the size of the data.
pub const SIZE_FIELD: usize = 4;

/// How many times as long as a body its data can be: a byte of a body stands for
/// 255 bytes of data at most.
pub const MAX_EXPANSION: usize = 255;

/// Whether data of this length can be compressed: its length fits the 32 bits in
/// front of the block, and 110 percent of it can be worked out.
pub open spec fn compressible(len: nat) -> bool {
    len <= u32::MAX && len * 110 + 24 <= usize::MAX
}

/// Whether blocks of this length can be decompressed: how long a run in the body can
/// claim to be fits 32 bits, and can be added to the size of all data.
pub open spec fn decompressible(len: nat) -> bool {
    len <= SIZE_FIELD || {
        let most = (len - SIZE_FIELD) * MAX_EXPANSION;
        most <= u32::MAX && most + most + 19 <= usize::MAX
    }
}

/// The size in front of a block, with the lowest byte first.
pub open spec fn claimed_size(block: Seq<u8>) -> nat {
    (block[0] + block[1] * 0x100 + block[2] * 0x1_0000 + block[3] * 0x100_0000) as nat
}

/// The room made for the data of a block: as much as it claims to need, but no
/// more than its body can fill.
pub open spec fn room_for(block: Seq<u8>) -> nat {
    let most = ((block.len() - SIZE_FIELD) * MAX_EXPANSION) as nat;
    if claimed_size(block) <= most {
        claimed_size(block)
    } else {
        most
    }
}

/// The data of a block, or the text of the error.
pub open spec fn lz4_data(block: Seq<u8>) -> Result<Seq<u8>, Seq<char>> {
    if block.len() < SIZE_FIELD {
        Err("expected another byte, found none"@)
    } else {
        lz4_decoded(block.skip(SIZE_FIELD as int), room_for(block))
    }
}

/// Whether decompressing the block of `data` gives the data back.
pub open spec fn decompresses(data: Seq<u8>) -> bool {
    lz4_data(lz4_block(data)) is Ok && lz4_data(lz4_block(data))->Ok_0 == data
}

/// `lz4_flex::block::compress_prepend_size`: the block is a function of the data
/// alone. It begins with the size of the data, and what follows decompresses to
/// the data where there is room for just that size. It is not shorter than a
/// 255th of the data, as no byte of a body stands for more. The size is held in
/// 32 bits, and the room for the block is worked out by multiplying it with 110.
#[verifier::external_body]
fn lz4_compress(data: &[u8]) -> (r: Vec<u8>)
    requires
        compressible(data@.len()),
    ensures
        r@ == lz4_block(data@),
        r@.len() >= SIZE_FIELD,
        claimed_size(r@) == data@.len(),
        data@.len() <= (r@.len() - SIZE_FIELD) * MAX_EXPANSION,
        lz4_decoded(r@.skip(SIZE_FIELD as int), data@.len()) is Ok,
        lz4_decoded(r@.skip(SIZE_FIELD as int), data@.len())->Ok_0 == data@,
{
    lz4_flex::block::compress_prepend_size(data)
}

/// `lz4_flex::block::decompress`: data or error text are a function of body and
/// limit alone, and the data is no longer than the limit. So many bytes are asked
/// for at once. The length of a run is 19 at most, and what the bytes behind it add,
/// summed up in 32 bits; it is then added to the size of what was written. Bodies
/// with which one of these sums could be too large are left out.
#[verifier::external_body]
fn lz4_decompress(body: &[u8], limit: usize) -> (r: Result<Vec<u8>, String>)
    requires
        body@.len() * MAX_EXPANSION <= u32::MAX,
        limit + body@.len() * MAX_EXPANSION + 19 <= usize::MAX,
        limit <= isize::MAX,
    ensures
        match r {
            Ok(v) => lz4_decoded(body@, limit as nat) is Ok && lz4_decoded(body@, limit as nat)->Ok_0
                == v@ && v@.len() <= limit,
            Err(m) => lz4_decoded(body@, limit as nat) is Err && lz4_decoded(
                body@,
                limit as nat,
            )->Err_0 == m@,
        },
{
    lz4_flex::block::decompress(body, limit).map_err(|e| e.to_string())
}

/// Compresses `data`. This never fails.
pub fn compress_lz4(data: &[u8]) -> (r: Result<Vec<u8>, CompressionError>)
    requires
        compressible(data@.len()),
    ensures
        r matches Ok(v) && v@ == lz4_block(data@),
        decompresses(data@),
        lz4_data(lz4_block(data@)) is Ok,
        lz4_data(lz4_block(data@))->Ok_0 == data@,
{
    Ok(lz4_compress(data))
}

/// The size in front of a block.
fn read_claimed_size(block: &[u8]) -> (r: u32)
    requires
        block@.len() >= SIZE_FIELD,
    ensures
        r == claimed_size(block@),
{
    block[0] as u32 + block[1] as u32 * 0x100 + block[2] as u32 * 0x1_0000 + block[3] as u32
        * 0x100_0000
}

/// Decompresses what `compress_lz4` made. Room is made for no more than the
/// block can hold, whatever size it claims.
pub fn decompress_lz4(data: &[u8]) -> (r: Result<Vec<u8>, CompressionError>)
    requires
        decompressible(data@.len()),
    ensures
        match r {
            Ok(v) => lz4_data(data@) is Ok && lz4_data(data@)->Ok_0 == v@ && v@.len() <= u32::MAX,
            Err(e) => lz4_data(data@) is Err && e is DecompressError && e->DecompressError_0@
                == lz4_data(data@)->Err_0,
        },
        data@.len() < 4 ==> r is Err,
        data@.len() >= 4 ==> {
            let claimed = data@[0] + data@[1] * 0x100 + data@[2] * 0x1_0000 + data@[3]
                * 0x100_0000;
            let most = (data@.len() - 4) * 255;
            let limit = if claimed <= most {
                claimed
            } else {
                most
            };
            let decoded = lz4_decoded(data@.skip(4), limit as nat);
            &&& r is Ok <==> decoded is Ok
            &&& r matches Ok(v) ==> decoded->Ok_0 == v@
        },
{
    if data.len() < SIZE_FIELD {
        return Err(
            CompressionError::DecompressError("expected another byte, found none".to_owned()),
        );
    }
    let claimed: usize = read_claimed_size(data) as usize;
    let body = vstd::slice::slice_subrange(data, SIZE_FIELD, data.len());
    assert(body@ =~= data@.skip(SIZE_FIELD as int));
    let most: usize = body.len() * MAX_EXPANSION;
    let limit: usize = if claimed <= most {
        claimed
    } else {
        most
    };
    match lz4_decompress(body, limit) {
        Ok(v) => Ok(v),
        Err(m) => Err(CompressionError::DecompressError(m)),
    }
}

} // verus!
