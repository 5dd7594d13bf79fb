//! Big-endian integers in byte sequences.

use vstd::prelude::*;

verus! {

/// The two bytes of `x`, most significant first.
pub open spec fn be16(x: u16) -> Seq<u8> {
    seq![(x / 0x100) as u8, (x % 0x100) as u8]
}

/// The four bytes of `x`, most significant first.
pub open spec fn be32(x: u32) -> Seq<u8> {
    be16((x / 0x1_0000) as u16) + be16((x % 0x1_0000) as u16)
}

/// The eight bytes of `x`, most significant first.
pub open spec fn be64(x: u64) -> Seq<u8> {
    be32((x / 0x1_0000_0000) as u32) + be32((x % 0x1_0000_0000) as u32)
}

/// The big-endian integer held by the two bytes of `s` from `at` on.
pub open spec fn un16(s: Seq<u8>, at: int) -> u16 {
    (s[at] * 0x100 + s[at + 1]) as u16
}

/// The big-endian integer held by the four bytes of `s` from `at` on.
pub open spec fn un32(s: Seq<u8>, at: int) -> u32 {
    (un16(s, at) * 0x1_0000 + un16(s, at + 2)) as u32
}

/// The big-endian integer held by the eight bytes of `s` from `at` on.
pub open spec fn un64(s: Seq<u8>, at: int) -> u64 {
    (un32(s, at) * 0x1_0000_0000 + un32(s, at + 4)) as u64
}

/// Reading two bytes gives back the integer whose bytes stand there.
pub proof fn lemma_un16(s: Seq<u8>, at: int, x: u16)
    requires
        0 <= at,
        at + 2 <= s.len(),
        s.subrange(at, at + 2) == be16(x),
    ensures
        un16(s, at) == x,
{
    let t = s.subrange(at, at + 2);
    assert(t[0] == s[at] && t[1] == s[at + 1]);
}

/// Reading four bytes gives back the integer whose bytes stand there.
pub proof fn lemma_un32(s: Seq<u8>, at: int, x: u32)
    requires
        0 <= at,
        at + 4 <= s.len(),
        s.subrange(at, at + 4) == be32(x),
    ensures
        un32(s, at) == x,
{
    let hi = (x / 0x1_0000) as u16;
    let lo = (x % 0x1_0000) as u16;
    let t = s.subrange(at, at + 4);
    assert(s.subrange(at, at + 2) =~= t.subrange(0, 2));
    assert(t.subrange(0, 2) =~= be16(hi));
    assert(s.subrange(at + 2, at + 4) =~= t.subrange(2, 4));
    assert(t.subrange(2, 4) =~= be16(lo));
    lemma_un16(s, at, hi);
    lemma_un16(s, at + 2, lo);
}

/// Reading eight bytes gives back the integer whose bytes stand there.
pub proof fn lemma_un64(s: Seq<u8>, at: int, x: u64)
    requires
        0 <= at,
        at + 8 <= s.len(),
        s.subrange(at, at + 8) == be64(x),
    ensures
        un64(s, at) == x,
{
    let hi = (x / 0x1_0000_0000) as u32;
    let lo = (x % 0x1_0000_0000) as u32;
    let t = s.subrange(at, at + 8);
    assert(s.subrange(at, at + 4) =~= t.subrange(0, 4));
    assert(t.subrange(0, 4) =~= be32(hi));
    assert(s.subrange(at + 4, at + 8) =~= t.subrange(4, 8));
    assert(t.subrange(4, 8) =~= be32(lo));
    lemma_un32(s, at, hi);
    lemma_un32(s, at + 4, lo);
}

/// Writing the integer that two bytes hold gives back those bytes.
pub proof fn lemma_be16(s: Seq<u8>, at: int)
    requires
        0 <= at,
        at + 2 <= s.len(),
    ensures
        be16(un16(s, at)) == s.subrange(at, at + 2),
{
    assert(be16(un16(s, at)) =~= s.subrange(at, at + 2));
}

/// Writing the integer that four bytes hold gives back those bytes.
pub proof fn lemma_be32(s: Seq<u8>, at: int)
    requires
        0 <= at,
        at + 4 <= s.len(),
    ensures
        be32(un32(s, at)) == s.subrange(at, at + 4),
{
    lemma_be16(s, at);
    lemma_be16(s, at + 2);
    let x = un32(s, at);
    assert((x / 0x1_0000) as u16 == un16(s, at));
    assert((x % 0x1_0000) as u16 == un16(s, at + 2));
    assert(be32(x) =~= s.subrange(at, at + 4));
}

/// Writing the integer that eight bytes hold gives back those bytes.
pub proof fn lemma_be64(s: Seq<u8>, at: int)
    requires
        0 <= at,
        at + 8 <= s.len(),
    ensures
        be64(un64(s, at)) == s.subrange(at, at + 8),
{
    lemma_be32(s, at);
    lemma_be32(s, at + 4);
    let x = un64(s, at);
    assert((x / 0x1_0000_0000) as u32 == un32(s, at));
    assert((x % 0x1_0000_0000) as u32 == un32(s, at + 4));
    assert(be64(x) =~= s.subrange(at, at + 8));
}

/// The bytes of an integer stand for its digits in base 256, the highest first.
pub proof fn lemma_big_endian(x: u32)
    ensures
        be32(x).len() == 4,
        be32(x)[0] == x / 0x100_0000,
        be32(x)[1] == x / 0x1_0000 % 0x100,
        be32(x)[2] == x / 0x100 % 0x100,
        be32(x)[3] == x % 0x100,
        x <= u16::MAX ==> be16(x as u16) == seq![(x / 0x100) as u8, (x % 0x100) as u8],
{
}

/// The eight bytes of an integer are those of its upper half, then those of its
/// lower half.
pub proof fn lemma_halves(high: u32, low: u32)
    ensures
        be64((high * 0x1_0000_0000 + low) as u64) == be32(high) + be32(low),
{
    let x = (high * 0x1_0000_0000 + low) as u64;
    assert(x / 0x1_0000_0000 == high && x % 0x1_0000_0000 == low);
}

/// The integers that bytes stand for.
pub proof fn lemma_digits_add_up(s: Seq<u8>, at: int)
    ensures
        un16(s, at) == s[at] * 0x100 + s[at + 1],
        un32(s, at) == s[at] * 0x100_0000 + s[at + 1] * 0x1_0000 + s[at + 2] * 0x100 + s[at + 3],
        un64(s, at) == un32(s, at) * 0x1_0000_0000 + s[at + 4] * 0x100_0000 + s[at + 5] * 0x1_0000
            + s[at + 6] * 0x100 + s[at + 7],
{
}

/// Appends the two bytes of `x`.
pub fn put_u16(buf: &mut Vec<u8>, x: u16)
    ensures
        final(buf)@ == old(buf)@ + be16(x),
{
    buf.push((x / 0x100) as u8);
    buf.push((x % 0x100) as u8);
}

/// Appends the four bytes of `x`.
pub fn put_u32(buf: &mut Vec<u8>, x: u32)
    ensures
        final(buf)@ == old(buf)@ + be32(x),
{
    put_u16(buf, (x / 0x1_0000) as u16);
    put_u16(buf, (x % 0x1_0000) as u16);
}

/// Appends the eight bytes of `x`.
pub fn put_u64(buf: &mut Vec<u8>, x: u64)
    ensures
        final(buf)@ == old(buf)@ + be64(x),
{
    put_u32(buf, (x / 0x1_0000_0000) as u32);
    put_u32(buf, (x % 0x1_0000_0000) as u32);
}

/// Reads the two bytes of `buf` from `at` on.
pub fn get_u16(buf: &[u8], at: usize) -> (x: u16)
    requires
        at + 2 <= buf.len(),
    ensures
        x == un16(buf@, at as int),
{
    buf[at] as u16 * 0x100 + buf[at + 1] as u16
}

/// Reads the four bytes of `buf` from `at` on.
pub fn get_u32(buf: &[u8], at: usize) -> (x: u32)
    requires
        at + 4 <= buf.len(),
    ensures
        x == un32(buf@, at as int),
{
    get_u16(buf, at) as u32 * 0x1_0000 + get_u16(buf, at + 2) as u32
}

/// Reads the eight bytes of `buf` from `at` on.
pub fn get_u64(buf: &[u8], at: usize) -> (x: u64)
    requires
        at + 8 <= buf.len(),
    ensures
        x == un64(buf@, at as int),
{
    get_u32(buf, at) as u64 * 0x1_0000_0000 + get_u32(buf, at + 4) as u64
}

/// The byte strings that `s` holds.
pub open spec fn views(s: Seq<Vec<u8>>) -> Seq<Seq<u8>> {
    Seq::new(s.len(), |i: int| s[i]@)
}

/// Pushing a byte string pushes its bytes.
pub proof fn lemma_views_push(s: Seq<Vec<u8>>, v: Vec<u8>)
    ensures
        views(s.push(v)) == views(s).push(v@),
{
    assert(views(s.push(v)) =~= views(s).push(v@));
}

/// Copies the bytes of `buf` from `from` up to `to`.
pub fn copy_range(buf: &[u8], from: usize, to: usize) -> (r: Vec<u8>)
    requires
        from <= to <= buf@.len(),
    ensures
        r@ == buf@.subrange(from as int, to as int),
{
    let mut r: Vec<u8> = Vec::new();
    append_range(&mut r, buf, from, to);
    assert(r@ =~= buf@.subrange(from as int, to as int));
    r
}

/// Appends the bytes of `buf` from `from` up to `to` to `out`.
pub fn append_range(out: &mut Vec<u8>, buf: &[u8], from: usize, to: usize)
    requires
        from <= to <= buf@.len(),
    ensures
        final(out)@ == old(out)@ + buf@.subrange(from as int, to as int),
{
    let part = vstd::slice::slice_subrange(buf, from, to);
    out.extend_from_slice(part);
    assert(out@ =~= old(out)@ + buf@.subrange(from as int, to as int));
}

/// How many bytes the pieces hold together.
pub open spec fn total_len(pieces: Seq<Seq<u8>>) -> nat
    decreases pieces.len(),
{
    if pieces.len() == 0 {
        0
    } else {
        total_len(pieces.drop_last()) + pieces.last().len()
    }
}

/// The pieces, one after the other.
pub open spec fn concat(pieces: Seq<Seq<u8>>) -> Seq<u8>
    decreases pieces.len(),
{
    if pieces.len() == 0 {
        Seq::empty()
    } else {
        concat(pieces.drop_last()) + pieces.last()
    }
}

/// One piece is itself, no piece is nothing, and what two lists of pieces come to,
/// one after the other, is what the whole list comes to.
pub proof fn lemma_concat_joins(a: Seq<Seq<u8>>, b: Seq<Seq<u8>>, piece: Seq<u8>)
    ensures
        concat(Seq::empty()) == Seq::<u8>::empty(),
        concat(seq![piece]) == piece,
        concat(a + b) == concat(a) + concat(b),
        total_len(Seq::empty()) == 0,
        total_len(seq![piece]) == piece.len(),
        total_len(a + b) == total_len(a) + total_len(b),
    decreases b.len(),
{
    reveal_with_fuel(concat, 2);
    reveal_with_fuel(total_len, 2);
    assert(seq![piece].drop_last() =~= Seq::empty());
    assert(concat(seq![piece]) =~= piece);
    if b.len() == 0 {
        assert(a + b =~= a);
        assert(concat(a) + concat(b) =~= concat(a));
    } else {
        lemma_concat_joins(a, b.drop_last(), piece);
        assert((a + b).drop_last() =~= a + b.drop_last());
        assert(concat(a + b) =~= concat(a) + concat(b));
    }
}

/// The pieces together are as long as they are one by one.
pub proof fn lemma_concat_len(pieces: Seq<Seq<u8>>)
    ensures
        concat(pieces).len() == total_len(pieces),
    decreases pieces.len(),
{
    if pieces.len() > 0 {
        lemma_concat_len(pieces.drop_last());
    }
}

/// The first pieces are no longer than all of them.
pub proof fn lemma_total_len_grows(pieces: Seq<Seq<u8>>, k: int)
    requires
        0 <= k <= pieces.len(),
    ensures
        total_len(pieces.take(k)) <= total_len(pieces),
    decreases pieces.len() - k,
{
    if k == pieces.len() {
        assert(pieces.take(k) =~= pieces);
    } else {
        lemma_total_len_grows(pieces, k + 1);
        assert(pieces.take(k + 1).drop_last() =~= pieces.take(k));
    }
}

} // verus!
