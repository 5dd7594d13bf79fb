//! The checksum of a whole file, which is read piece by piece.

use crate::protocol::crc;
use crate::sender::splitter;
use crate::wire;
use vstd::prelude::*;

verus! {

/// The checksum of a file while it is read.
pub struct FileCrc {
    hasher: crc32fast::Hasher,
}

impl FileCrc {
    /// What was read so far.
    pub closed spec fn bytes(self) -> Seq<u8> {
        crc::hashed_bytes(self.hasher)
    }

    /// Nothing was read yet.
    pub fn new() -> (r: Self)
        ensures
            r.bytes() == Seq::<u8>::empty(),
    {
        FileCrc { hasher: crc32fast::Hasher::new() }
    }

    /// Takes in what was read next.
    pub fn update(&mut self, data: &[u8])
        requires
            old(self).bytes().len() + data@.len() <= u64::MAX,
        ensures
            final(self).bytes() == old(self).bytes() + data@,
    {
        self.hasher.update(data);
    }

    /// The checksum of all that was read.
    pub fn finish(self) -> (r: u32)
        ensures
            r == crc::crc32_of(self.bytes()),
    {
        self.hasher.finalize()
    }
}

/// What a file holds of which `reads` were read: a read of nothing is the end.
pub open spec fn contents(reads: Seq<Seq<u8>>) -> Seq<u8> {
    wire::concat(splitter::until_end(reads))
}

/// The checksum of the file of which `reads` were read.
pub fn compute_file_crc32c(reads: &Vec<Vec<u8>>) -> (r: u32)
    requires
        wire::total_len(wire::views(reads@)) <= u64::MAX,
    ensures
        r == crc::crc32_of(contents(wire::views(reads@))),
{
    let ghost all = wire::views(reads@);
    let mut file = FileCrc::new();
    let mut i: usize = 0;
    assert(all.take(0) =~= Seq::empty());
    while i < reads.len() && reads[i].len() > 0
        invariant
            i <= reads@.len(),
            all == wire::views(reads@),
            wire::total_len(all) <= u64::MAX,
            file.bytes() == wire::concat(all.take(i as int)),
            forall|k: int| 0 <= k < i ==> (#[trigger] all[k]).len() > 0,
        decreases reads@.len() - i,
    {
        proof {
            assert(all[i as int] == reads@[i as int]@);
            wire::lemma_total_len_grows(all, i + 1);
            wire::lemma_concat_len(all.take(i + 1));
            assert(all.take(i + 1).drop_last() =~= all.take(i as int));
        }
        file.update(reads[i].as_slice());
        i = i + 1;
    }
    proof {
        splitter::lemma_until_end(all, i as int);
    }
    file.finish()
}

/// Whether the file of which `reads` were read has the checksum `expected`.
pub fn verify_file_crc32c(reads: &Vec<Vec<u8>>, expected: u32) -> (r: bool)
    requires
        wire::total_len(wire::views(reads@)) <= u64::MAX,
    ensures
        r == (crc::crc32_of(contents(wire::views(reads@))) == expected),
{
    compute_file_crc32c(reads) == expected
}

/// A file is what was read up to its end, piece after piece; how it was cut into pieces
/// does not matter, and neither does what comes after the end.
pub proof fn lemma_contents_are_what_was_read(pieces: Seq<Seq<u8>>, rest: Seq<Seq<u8>>)
    requires
        forall|i: int| 0 <= i < pieces.len() ==> (#[trigger] pieces[i]).len() > 0,
        rest.len() == 0 || rest[0].len() == 0,
    ensures
        contents(pieces + rest) == wire::concat(pieces),
{
    let all = pieces + rest;
    assert forall|k: int| 0 <= k < pieces.len() implies (#[trigger] all[k]).len() > 0 by {
        assert(all[k] == pieces[k]);
    }
    splitter::lemma_until_end(all, pieces.len() as int);
    assert(all.take(pieces.len() as int) =~= pieces);
}

} // verus!
