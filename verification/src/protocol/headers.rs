//! The two framing headers: one per chunk, one per fragment of a chunk.

use crate::text;
use crate::text::{push_decimal, push_hex};
use crate::wire;
use vstd::prelude::*;
use vstd::string::*;

verus! {

/// Chunk flags: the payload travels as it is.
pub const COMPRESSION_NONE: u8 = 0;

/// Chunk flags: the payload is an LZ4 block.
pub const COMPRESSED_LZ4: u8 = 1;

/// Chunk flags: the payload is Zstandard data.
pub const COMPRESSED_ZSTD: u8 = 2;

/// The header in front of every fragment.
#[derive(Debug, Clone, Copy, PartialEq, Eq, Structural)]
pub struct FragmentHeader {
    pub chunk_id: u32,
    pub fragment_index: u16,
    pub total_fragments: u16,
    pub fragment_length: u16,
    pub fragment_crc: u32,
}

impl FragmentHeader {
    /// Encoded length in bytes.
    pub const LEN: usize = 14;

    /// The bytes of the header on the wire.
    pub open spec fn encoded(self) -> Seq<u8> {
        wire::be32(self.chunk_id) + wire::be16(self.fragment_index) + wire::be16(self.total_fragments) + wire::be16(
            self.fragment_length,
        ) + wire::be32(self.fragment_crc)
    }

    /// The header that the first bytes of `s` hold.
    pub open spec fn decoded(s: Seq<u8>) -> FragmentHeader {
        FragmentHeader {
            chunk_id: wire::un32(s, 0),
            fragment_index: wire::un16(s, 4),
            total_fragments: wire::un16(s, 6),
            fragment_length: wire::un16(s, 8),
            fragment_crc: wire::un32(s, 10),
        }
    }

    /// Encodes the header.
    pub fn to_bytes(&self) -> (r: Vec<u8>)
        ensures
            r@ == self.encoded(),
            r@.len() == 14,
            r@.subrange(0, 4) == wire::be32(self.chunk_id),
            r@.subrange(4, 6) == wire::be16(self.fragment_index),
            r@.subrange(6, 8) == wire::be16(self.total_fragments),
            r@.subrange(8, 10) == wire::be16(self.fragment_length),
            r@.subrange(10, 14) == wire::be32(self.fragment_crc),
    {
        let mut buf: Vec<u8> = Vec::new();
        self.write_to(&mut buf);
        assert(buf@ =~= self.encoded());
        proof {
            lemma_fragment_header_layout(*self);
        }
        buf
    }

    /// Appends the encoded header to `buf`.
    pub fn write_to(&self, buf: &mut Vec<u8>)
        ensures
            final(buf)@ == old(buf)@ + self.encoded(),
    {
        wire::put_u32(buf, self.chunk_id);
        wire::put_u16(buf, self.fragment_index);
        wire::put_u16(buf, self.total_fragments);
        wire::put_u16(buf, self.fragment_length);
        wire::put_u32(buf, self.fragment_crc);
        assert(buf@ =~= old(buf)@ + self.encoded());
    }

    /// Decodes a header from exactly `LEN` bytes.
    pub fn try_from(bytes: &[u8]) -> (r: Result<FragmentHeader, &'static str>)
        ensures
            match r {
                Ok(h) => bytes@.len() == FragmentHeader::LEN && h == FragmentHeader::decoded(bytes@)
                    && h.encoded() == bytes@,
                Err(e) => bytes@.len() != FragmentHeader::LEN && e@
                    == "invalid fragment header length"@,
            },
            r is Ok <==> bytes@.len() == 14,
            r matches Ok(h) ==> {
                &&& h.chunk_id == wire::un32(bytes@, 0)
                &&& h.fragment_index == wire::un16(bytes@, 4)
                &&& h.total_fragments == wire::un16(bytes@, 6)
                &&& h.fragment_length == wire::un16(bytes@, 8)
                &&& h.fragment_crc == wire::un32(bytes@, 10)
            },
    {
        if bytes.len() != FragmentHeader::LEN {
            return Err("invalid fragment header length");
        }
        proof {
            lemma_fragment_header_reencodes(bytes@);
        }
        Ok(
            FragmentHeader {
                chunk_id: wire::get_u32(bytes, 0),
                fragment_index: wire::get_u16(bytes, 4),
                total_fragments: wire::get_u16(bytes, 6),
                fragment_length: wire::get_u16(bytes, 8),
                fragment_crc: wire::get_u32(bytes, 10),
            },
        )
    }

    /// The text shown for the header.
    pub open spec fn shown(self) -> Seq<char> {
        "FragmentHeader(chunk_id="@ + text::decimal(self.chunk_id as nat) + ", fragment_index="@
            + text::decimal(self.fragment_index as nat) + ", total_fragments="@ + text::decimal(
            self.total_fragments as nat,
        ) + ", fragment_length="@ + text::decimal(self.fragment_length as nat)
            + ", fragment_crc="@ + text::decimal(self.fragment_crc as nat) + ")"@
    }

    /// The text shown for the header.
    pub fn to_string(&self) -> (r: String)
        ensures
            r@ == self.shown(),
            r@ == ({
                "FragmentHeader(chunk_id="@ + text::decimal(self.chunk_id as nat) + ", fragment_index="@
                    + text::decimal(self.fragment_index as nat) + ", total_fragments="@ + text::decimal(
                    self.total_fragments as nat,
                ) + ", fragment_length="@ + text::decimal(self.fragment_length as nat)
                    + ", fragment_crc="@ + text::decimal(self.fragment_crc as nat) + ")"@
            }),
    {
        let mut s = "FragmentHeader(chunk_id=".to_owned();
        push_decimal(&mut s, self.chunk_id as u64);
        s.append(", fragment_index=");
        push_decimal(&mut s, self.fragment_index as u64);
        s.append(", total_fragments=");
        push_decimal(&mut s, self.total_fragments as u64);
        s.append(", fragment_length=");
        push_decimal(&mut s, self.fragment_length as u64);
        s.append(", fragment_crc=");
        push_decimal(&mut s, self.fragment_crc as u64);
        s.append(")");
        s
    }
}

/// Encoding the header that `LEN` bytes hold gives back those bytes.
pub proof fn lemma_fragment_header_reencodes(s: Seq<u8>)
    requires
        s.len() == FragmentHeader::LEN,
    ensures
        FragmentHeader::decoded(s).encoded() == s,
{
    wire::lemma_be32(s, 0);
    wire::lemma_be16(s, 4);
    wire::lemma_be16(s, 6);
    wire::lemma_be16(s, 8);
    wire::lemma_be32(s, 10);
    assert(FragmentHeader::decoded(s).encoded() =~= s);
}

/// The fields of the header stand in this order, each most significant byte first.
pub proof fn lemma_fragment_header_layout(h: FragmentHeader)
    ensures
        h.encoded().len() == 14,
        h.encoded().subrange(0, 4) == wire::be32(h.chunk_id),
        h.encoded().subrange(4, 6) == wire::be16(h.fragment_index),
        h.encoded().subrange(6, 8) == wire::be16(h.total_fragments),
        h.encoded().subrange(8, 10) == wire::be16(h.fragment_length),
        h.encoded().subrange(10, 14) == wire::be32(h.fragment_crc),
{
    let s = h.encoded();
    assert(s.subrange(0, 4) =~= wire::be32(h.chunk_id));
    assert(s.subrange(4, 6) =~= wire::be16(h.fragment_index));
    assert(s.subrange(6, 8) =~= wire::be16(h.total_fragments));
    assert(s.subrange(8, 10) =~= wire::be16(h.fragment_length));
    assert(s.subrange(10, 14) =~= wire::be32(h.fragment_crc));
}

/// Decoding an encoded header, whatever follows it, gives back the header.
pub proof fn lemma_fragment_header_round_trip(h: FragmentHeader, rest: Seq<u8>)
    ensures
        h.encoded().len() == FragmentHeader::LEN,
        FragmentHeader::decoded(h.encoded() + rest) == h,
{
    let s = h.encoded() + rest;
    assert(s.subrange(0, 4) =~= wire::be32(h.chunk_id));
    assert(s.subrange(4, 6) =~= wire::be16(h.fragment_index));
    assert(s.subrange(6, 8) =~= wire::be16(h.total_fragments));
    assert(s.subrange(8, 10) =~= wire::be16(h.fragment_length));
    assert(s.subrange(10, 14) =~= wire::be32(h.fragment_crc));
    wire::lemma_un32(s, 0, h.chunk_id);
    wire::lemma_un16(s, 4, h.fragment_index);
    wire::lemma_un16(s, 6, h.total_fragments);
    wire::lemma_un16(s, 8, h.fragment_length);
    wire::lemma_un32(s, 10, h.fragment_crc);
}

/// The header in front of every chunk's payload.
#[derive(Debug, Clone, Copy, PartialEq, Eq, Structural)]
pub struct ChunkHeader {
    pub magic: u8,
    pub flags: u8,
    pub payload_length: u16,
    pub sequence_number: u64,
    pub chunk_crc: u32,
}

impl ChunkHeader {
    /// Encoded length in bytes.
    pub const LEN: usize = 16;

    /// First byte of every chunk.
    pub const MAGIC: u8 = 0x50;

    /// The bytes of the header on the wire.
    pub open spec fn encoded(self) -> Seq<u8> {
        seq![self.magic, self.flags] + wire::be16(self.payload_length) + wire::be64(
            self.sequence_number,
        ) + wire::be32(self.chunk_crc)
    }

    /// The header that the first bytes of `s` hold.
    pub open spec fn decoded(s: Seq<u8>) -> ChunkHeader {
        ChunkHeader {
            magic: s[0],
            flags: s[1],
            payload_length: wire::un16(s, 2),
            sequence_number: wire::un64(s, 4),
            chunk_crc: wire::un32(s, 12),
        }
    }

    /// A header with the chunk magic.
    pub fn new(flags: u8, payload_length: u16, sequence_number: u64, chunk_crc: u32) -> (r: Self)
        ensures
            r == (ChunkHeader {
                magic: ChunkHeader::MAGIC,
                flags,
                payload_length,
                sequence_number,
                chunk_crc,
            }),
    {
        ChunkHeader {
            magic: ChunkHeader::MAGIC,
            flags,
            payload_length,
            sequence_number,
            chunk_crc,
        }
    }

    /// Encodes the header.
    pub fn to_bytes(&self) -> (r: Vec<u8>)
        ensures
            r@ == self.encoded(),
            r@.len() == 16,
            r@[0] == self.magic,
            r@[1] == self.flags,
            r@.subrange(2, 4) == wire::be16(self.payload_length),
            r@.subrange(4, 12) == wire::be64(self.sequence_number),
            r@.subrange(12, 16) == wire::be32(self.chunk_crc),
    {
        let mut buf: Vec<u8> = Vec::new();
        self.write_to(&mut buf);
        assert(buf@ =~= self.encoded());
        proof {
            lemma_chunk_header_layout(*self);
        }
        buf
    }

    /// Appends the encoded header to `buf`.
    pub fn write_to(&self, buf: &mut Vec<u8>)
        ensures
            final(buf)@ == old(buf)@ + self.encoded(),
    {
        buf.push(self.magic);
        buf.push(self.flags);
        wire::put_u16(buf, self.payload_length);
        wire::put_u64(buf, self.sequence_number);
        wire::put_u32(buf, self.chunk_crc);
        assert(buf@ =~= old(buf)@ + self.encoded());
    }

    /// Decodes a header from exactly `LEN` bytes that start with the chunk magic.
    pub fn try_from(bytes: &[u8]) -> (r: Result<ChunkHeader, &'static str>)
        ensures
            match r {
                Ok(h) => bytes@.len() == ChunkHeader::LEN && bytes@[0] == ChunkHeader::MAGIC && h
                    == ChunkHeader::decoded(bytes@) && h.encoded() == bytes@,
                Err(e) => {
                    ||| bytes@.len() != ChunkHeader::LEN && e@ == "invalid chunk header length"@
                    ||| bytes@.len() == ChunkHeader::LEN && bytes@[0] != ChunkHeader::MAGIC && e@
                        == "invalid chunk magic"@
                },
            },
            r is Ok <==> bytes@.len() == 16 && bytes@[0] == 0x50,
            r matches Ok(h) ==> {
                &&& h.magic == bytes@[0]
                &&& h.flags == bytes@[1]
                &&& h.payload_length == wire::un16(bytes@, 2)
                &&& h.sequence_number == wire::un64(bytes@, 4)
                &&& h.chunk_crc == wire::un32(bytes@, 12)
            },
    {
        if bytes.len() != ChunkHeader::LEN {
            return Err("invalid chunk header length");
        }
        if bytes[0] != ChunkHeader::MAGIC {
            return Err("invalid chunk magic");
        }
        proof {
            lemma_chunk_header_reencodes(bytes@);
        }
        Ok(
            ChunkHeader {
                magic: bytes[0],
                flags: bytes[1],
                payload_length: wire::get_u16(bytes, 2),
                sequence_number: wire::get_u64(bytes, 4),
                chunk_crc: wire::get_u32(bytes, 12),
            },
        )
    }

    /// The text shown for the header.
    pub open spec fn shown(self) -> Seq<char> {
        "ChunkHeader(magic=0x"@ + text::hex(self.magic as nat, 2, true) + ", flags="@
            + text::decimal(self.flags as nat) + ", payload_length="@ + text::decimal(
            self.payload_length as nat,
        ) + ", sequence_number="@ + text::decimal(self.sequence_number as nat) + ", chunk_crc="@
            + text::decimal(self.chunk_crc as nat) + ")"@
    }

    /// The text shown for the header.
    pub fn to_string(&self) -> (r: String)
        ensures
            r@ == self.shown(),
            r@ == ({
                "ChunkHeader(magic=0x"@ + text::hex(self.magic as nat, 2, true) + ", flags="@
                    + text::decimal(self.flags as nat) + ", payload_length="@ + text::decimal(
                    self.payload_length as nat,
                ) + ", sequence_number="@ + text::decimal(self.sequence_number as nat) + ", chunk_crc="@
                    + text::decimal(self.chunk_crc as nat) + ")"@
            }),
    {
        let mut s = "ChunkHeader(magic=0x".to_owned();
        push_hex(&mut s, self.magic as u32, 2, true);
        s.append(", flags=");
        push_decimal(&mut s, self.flags as u64);
        s.append(", payload_length=");
        push_decimal(&mut s, self.payload_length as u64);
        s.append(", sequence_number=");
        push_decimal(&mut s, self.sequence_number);
        s.append(", chunk_crc=");
        push_decimal(&mut s, self.chunk_crc as u64);
        s.append(")");
        s
    }
}

/// Encoding the header that `LEN` bytes hold gives back those bytes.
pub proof fn lemma_chunk_header_reencodes(s: Seq<u8>)
    requires
        s.len() == ChunkHeader::LEN,
    ensures
        ChunkHeader::decoded(s).encoded() == s,
{
    wire::lemma_be16(s, 2);
    wire::lemma_be64(s, 4);
    wire::lemma_be32(s, 12);
    assert(ChunkHeader::decoded(s).encoded() =~= s);
}

/// The fields of the header stand in this order, each most significant byte first.
pub proof fn lemma_chunk_header_layout(h: ChunkHeader)
    ensures
        h.encoded().len() == 16,
        h.encoded()[0] == h.magic,
        h.encoded()[1] == h.flags,
        h.encoded().subrange(2, 4) == wire::be16(h.payload_length),
        h.encoded().subrange(4, 12) == wire::be64(h.sequence_number),
        h.encoded().subrange(12, 16) == wire::be32(h.chunk_crc),
{
    let s = h.encoded();
    assert(s.subrange(2, 4) =~= wire::be16(h.payload_length));
    assert(s.subrange(4, 12) =~= wire::be64(h.sequence_number));
    assert(s.subrange(12, 16) =~= wire::be32(h.chunk_crc));
}

/// Decoding an encoded header, whatever follows it, gives back the header.
pub proof fn lemma_chunk_header_round_trip(h: ChunkHeader, rest: Seq<u8>)
    ensures
        h.encoded().len() == ChunkHeader::LEN,
        ChunkHeader::decoded(h.encoded() + rest) == h,
{
    let s = h.encoded() + rest;
    assert(s.subrange(2, 4) =~= wire::be16(h.payload_length));
    assert(s.subrange(4, 12) =~= wire::be64(h.sequence_number));
    assert(s.subrange(12, 16) =~= wire::be32(h.chunk_crc));
    wire::lemma_un16(s, 2, h.payload_length);
    wire::lemma_un64(s, 4, h.sequence_number);
    wire::lemma_un32(s, 12, h.chunk_crc);
}

} // verus!
