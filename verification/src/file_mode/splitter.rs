//! Splitting a file.

use crate::compress::lz4;
use crate::protocol::headers::FragmentHeader;
use crate::sender::batching;
use crate::sender::batching::FragmentOrEos;
use crate::sender::splitter;
use crate::sender::splitter::{ChunkSplitter, PauseGate};
use crate::wire;
use vstd::prelude::*;

verus! {

/// Splits a file into chunks as large as a datagram.
pub struct FileSplitter {
    pub inner: ChunkSplitter,
}

impl FileSplitter {
    /// A splitter for chunks and datagrams of `buffer_size` bytes.
    pub fn new(buffer_size: usize) -> (r: Self)
        requires
            buffer_size > FragmentHeader::LEN,
        ensures
            r.inner.wf(),
            r.inner.size_of_chunks() == buffer_size,
            r.inner.size_limit() == buffer_size,
            r.inner.gate() == (PauseGate { paused: false, listening: true }),
            r.inner.datagram_size() == buffer_size,
            r.inner.piece_size() == buffer_size - FragmentHeader::LEN,
            r.inner.next_number() == 0,
            r.inner.pending().len() == 0,
    {
        FileSplitter { inner: ChunkSplitter::new(buffer_size, buffer_size, buffer_size, true) }
    }

    /// Splits the file of which `reads` were read. Returns all batches.
    pub fn run_file(&mut self, reads: &Vec<Vec<u8>>) -> (r: Vec<FragmentOrEos>)
        requires
            old(self).inner.wf(),
            old(self).inner.pending().len() == 0,
            forall|i: int|
                0 <= i < reads@.len() ==> lz4::compressible((#[trigger] reads@[i])@.len()),
        ensures
            final(self).inner.wf(),
            final(self).inner.pending().len() == 0,
            batching::batch_views(r@) == batching::all_batches(
                splitter::stream_fragments(
                    splitter::until_end(wire::views(reads@)),
                    old(self).inner.next_number(),
                    old(self).inner.piece_size(),
                ),
            ),
            forall|i: int|
                0 <= i < splitter::until_end(wire::views(reads@)).len() ==> lz4::decompresses(
                    #[trigger] splitter::until_end(wire::views(reads@))[i],
                ),
            final(self).inner.next_number() == old(self).inner.next_number().wrapping_add(
                splitter::until_end(wire::views(reads@)).len() as u64,
            ),
            final(self).inner.size_of_chunks() == old(self).inner.size_of_chunks(),
            final(self).inner.size_limit() == old(self).inner.size_limit(),
            final(self).inner.datagram_size() == old(self).inner.datagram_size(),
            final(self).inner.piece_size() == old(self).inner.piece_size(),
            final(self).inner.gate() == old(self).inner.gate(),
    {
        self.inner.run(reads)
    }
}

} // verus!
