//! Splits the input stream into chunks, and each chunk into fragments.

use crate::compress::lz4;
use crate::protocol::headers::FragmentHeader;
use crate::sender::batching;
use crate::sender::batching::{Batcher, FragmentOrEos};
use crate::sender::framing;
use crate::sender::framing::frame_chunk;
use crate::wire;
use vstd::prelude::*;

verus! {

/// Whether reading may go on, as the pause channel tells.
#[derive(Debug, Clone, Copy, PartialEq, Eq, Structural)]
pub struct PauseGate {
    /// Reading is on hold until a resume signal comes or the channel closes.
    pub paused: bool,
    /// The pause channel is open.
    pub listening: bool,
}

impl PauseGate {
    /// Reading may go on; `listening` says whether there is a pause channel.
    pub fn new(listening: bool) -> (r: Self)
        ensures
            r == (PauseGate { paused: false, listening }),
    {
        PauseGate { paused: false, listening }
    }

    /// Takes in a signal: pause, resume, or `None` for a closed channel, which
    /// ends a pause and the listening.
    pub fn on_signal(&mut self, signal: Option<bool>)
        ensures
            *final(self) == match signal {
                Some(pause) => PauseGate { paused: pause, ..*old(self) },
                None => PauseGate { paused: false, listening: false },
            },
    {
        match signal {
            Some(pause) => {
                self.paused = pause;
            },
            None => {
                self.paused = false;
                self.listening = false;
            },
        }
    }
}

/// The fragments of consecutive chunks, the first with the number `first`.
/// Chunk numbers count in 32 bits here.
pub open spec fn stream_fragments(payloads: Seq<Seq<u8>>, first: u64, size: nat) -> Seq<Seq<u8>>
    decreases payloads.len(),
{
    if payloads.len() == 0 {
        Seq::empty()
    } else {
        let number = first.wrapping_add((payloads.len() - 1) as u64);
        stream_fragments(payloads.drop_last(), first, size) + framing::chunk_fragments(
            (number as u32) as u64,
            payloads.last(),
            size,
        )
    }
}

/// The payloads up to the first empty one, which marks the end of the input.
pub open spec fn until_end(reads: Seq<Seq<u8>>) -> Seq<Seq<u8>>
    decreases reads.len(),
{
    if reads.len() == 0 || reads[0].len() == 0 {
        Seq::empty()
    } else {
        seq![reads[0]] + until_end(reads.drop_first())
    }
}

/// Splits a stream into chunks and fragments.
///
/// Each read becomes a chunk: a chunk header with a checksum over the sequence
/// number and the payload, then the payload. Each chunk becomes fragments that
/// fit into `mtu` bytes together with their header.
pub struct ChunkSplitter {
    chunk_size: usize,
    max_chunk_size: usize,
    mtu: usize,
    next_chunk_id: u64,
    fragment_payload_size: usize,
    batcher: Batcher,
    pause: PauseGate,
}

impl ChunkSplitter {
    pub closed spec fn wf(self) -> bool {
        &&& self.mtu > FragmentHeader::LEN
        &&& self.fragment_payload_size == self.mtu - FragmentHeader::LEN
        &&& self.batcher.pending().len() < batching::DEFAULT_BATCH_SIZE
    }

    /// How many bytes the next read may ask for.
    pub closed spec fn size_of_chunks(self) -> usize {
        self.chunk_size
    }

    /// The upper bound on the chunk size that buffers are made for.
    pub closed spec fn size_limit(self) -> usize {
        self.max_chunk_size
    }

    /// The size of a datagram.
    pub closed spec fn datagram_size(self) -> usize {
        self.mtu
    }

    /// How many payload bytes a fragment holds.
    pub closed spec fn piece_size(self) -> nat {
        self.fragment_payload_size as nat
    }

    /// The number of the next chunk.
    pub closed spec fn next_number(self) -> u64 {
        self.next_chunk_id
    }

    /// The fragments that wait for their batch to fill up.
    pub closed spec fn pending(self) -> Seq<Seq<u8>> {
        self.batcher.pending()
    }

    /// The state of the pause channel.
    pub closed spec fn gate(self) -> PauseGate {
        self.pause
    }

    /// A splitter at the start of a stream.
    ///
    /// * `chunk_size`: how many bytes a chunk takes at most.
    /// * `max_chunk_size`: upper bound on what `chunk_size` may become.
    /// * `mtu`: size of a datagram; a fragment and its header fit into it.
    /// * `pausable`: whether there is a pause channel.
    pub fn new(chunk_size: usize, max_chunk_size: usize, mtu: usize, pausable: bool) -> (r: Self)
        requires
            chunk_size > 0,
            mtu > FragmentHeader::LEN,
        ensures
            r.wf(),
            r.size_of_chunks() == chunk_size,
            r.size_limit() == max_chunk_size,
            r.datagram_size() == mtu,
            r.piece_size() == mtu - FragmentHeader::LEN,
            r.next_number() == 0,
            r.pending() == Seq::<Seq<u8>>::empty(),
            r.gate() == (PauseGate { paused: false, listening: pausable }),
    {
        ChunkSplitter {
            chunk_size,
            max_chunk_size,
            mtu,
            next_chunk_id: 0,
            fragment_payload_size: mtu - FragmentHeader::LEN,
            batcher: Batcher::new(),
            pause: PauseGate::new(pausable),
        }
    }

    /// The number of the next chunk; the one after it comes next.
    pub fn next_chunk_id(&mut self) -> (r: u64)
        ensures
            r == old(self).next_number(),
            final(self).next_number() == old(self).next_number().wrapping_add(1),
            final(self).wf() == old(self).wf(),
            final(self).pending() == old(self).pending(),
            final(self).piece_size() == old(self).piece_size(),
            final(self).datagram_size() == old(self).datagram_size(),
            final(self).size_of_chunks() == old(self).size_of_chunks(),
            final(self).size_limit() == old(self).size_limit(),
            final(self).gate() == old(self).gate(),
    {
        let id: u64 = self.next_chunk_id;
        self.next_chunk_id = id.wrapping_add(1);
        id
    }

    /// How many payload bytes a fragment holds at most.
    pub fn fragment_payload_size(&self) -> (r: usize)
        ensures
            r == self.piece_size(),
    {
        self.fragment_payload_size
    }

    /// The size of a datagram.
    pub fn mtu(&self) -> (r: usize)
        ensures
            r == self.datagram_size(),
    {
        self.mtu
    }

    /// How many bytes the next read may ask for.
    pub fn chunk_size(&self) -> (r: usize)
        ensures
            r == self.size_of_chunks(),
    {
        self.chunk_size
    }

    /// The upper bound on the chunk size that buffers are made for.
    pub fn max_chunk_size(&self) -> (r: usize)
        ensures
            r == self.size_limit(),
    {
        self.max_chunk_size
    }

    /// Changes the chunk size.
    pub fn set_chunk_size(&mut self, new_size: usize)
        ensures
            final(self).size_of_chunks() == new_size,
            final(self).wf() == old(self).wf(),
            final(self).size_limit() == old(self).size_limit(),
            final(self).datagram_size() == old(self).datagram_size(),
            final(self).piece_size() == old(self).piece_size(),
            final(self).next_number() == old(self).next_number(),
            final(self).pending() == old(self).pending(),
            final(self).gate() == old(self).gate(),
    {
        self.chunk_size = new_size;
    }

    /// Takes in a signal of the pause channel.
    pub fn on_pause_signal(&mut self, signal: Option<bool>)
        ensures
            final(self).gate() == match signal {
                Some(pause) => PauseGate { paused: pause, ..old(self).gate() },
                None => PauseGate { paused: false, listening: false },
            },
            final(self).wf() == old(self).wf(),
            final(self).size_of_chunks() == old(self).size_of_chunks(),
            final(self).size_limit() == old(self).size_limit(),
            final(self).datagram_size() == old(self).datagram_size(),
            final(self).piece_size() == old(self).piece_size(),
            final(self).next_number() == old(self).next_number(),
            final(self).pending() == old(self).pending(),
    {
        self.pause.on_signal(signal);
    }

    /// Whether the next step is to read, and not to wait for a resume signal.
    pub fn may_read(&self) -> (r: bool)
        ensures
            r == !self.gate().paused,
    {
        !self.pause.paused
    }

    /// Whether there is a pause channel to listen to.
    pub fn is_listening(&self) -> (r: bool)
        ensures
            r == self.gate().listening,
    {
        self.pause.listening
    }

    /// Makes a chunk of what was read. Returns the batches that are full.
    pub fn on_read(&mut self, payload: &[u8]) -> (r: Vec<FragmentOrEos>)
        requires
            old(self).wf(),
            lz4::compressible(payload@.len()),
        ensures
            final(self).wf(),
            ({
                let number = (old(self).next_number() as u32) as u64;
                let all = old(self).pending() + framing::chunk_fragments(
                    number,
                    payload@,
                    old(self).piece_size(),
                );
                &&& batching::batch_views(r@) == batching::full_batches(all)
                &&& final(self).pending() == batching::left_over(all)
            }),
            lz4::decompresses(payload@),
            final(self).next_number() == old(self).next_number().wrapping_add(1),
            final(self).size_of_chunks() == old(self).size_of_chunks(),
            final(self).size_limit() == old(self).size_limit(),
            final(self).datagram_size() == old(self).datagram_size(),
            final(self).piece_size() == old(self).piece_size(),
            final(self).gate() == old(self).gate(),
    {
        let chunk_id: u32 = self.next_chunk_id() as u32;
        let fragments = frame_chunk(chunk_id as u64, payload, self.fragment_payload_size);
        self.batcher.add(fragments)
    }

    /// The end of the input: the fragments that wait make the last batch.
    pub fn on_eof(&mut self) -> (r: Option<FragmentOrEos>)
        requires
            old(self).wf(),
        ensures
            final(self).wf(),
            match r {
                Some(batch) => old(self).pending().len() > 0 && wire::views(batch@)
                    == old(self).pending(),
                None => old(self).pending().len() == 0,
            },
            final(self).pending() == Seq::<Seq<u8>>::empty(),
            final(self).next_number() == old(self).next_number(),
            final(self).size_of_chunks() == old(self).size_of_chunks(),
            final(self).size_limit() == old(self).size_limit(),
            final(self).datagram_size() == old(self).datagram_size(),
            final(self).piece_size() == old(self).piece_size(),
            final(self).gate() == old(self).gate(),
    {
        self.batcher.flush()
    }

    /// Splits a whole stream: `reads` is what the reads returned, an empty one
    /// marking the end. Returns all batches.
    pub fn run(&mut self, reads: &Vec<Vec<u8>>) -> (r: Vec<FragmentOrEos>)
        requires
            old(self).wf(),
            old(self).pending().len() == 0,
            forall|i: int|
                0 <= i < reads@.len() ==> lz4::compressible((#[trigger] reads@[i])@.len()),
        ensures
            final(self).wf(),
            final(self).pending().len() == 0,
            batching::batch_views(r@) == batching::all_batches(
                stream_fragments(
                    until_end(wire::views(reads@)),
                    old(self).next_number(),
                    old(self).piece_size(),
                ),
            ),
            forall|i: int|
                0 <= i < until_end(wire::views(reads@)).len() ==> lz4::decompresses(
                    #[trigger] until_end(wire::views(reads@))[i],
                ),
            final(self).next_number() == old(self).next_number().wrapping_add(
                until_end(wire::views(reads@)).len() as u64,
            ),
            final(self).size_of_chunks() == old(self).size_of_chunks(),
            final(self).size_limit() == old(self).size_limit(),
            final(self).datagram_size() == old(self).datagram_size(),
            final(self).piece_size() == old(self).piece_size(),
            final(self).gate() == old(self).gate(),
    {
        let ghost all_reads = wire::views(reads@);
        let ghost first = self.next_number();
        let ghost size = self.piece_size();
        let mut out: Vec<FragmentOrEos> = Vec::new();
        let mut i: usize = 0;
        proof {
            assert(batching::batch_views(out@) =~= batching::full_batches(Seq::empty()));
            assert(self.pending() =~= batching::left_over(Seq::empty()));
            lemma_until_end(all_reads, 0);
            assert(all_reads.take(0) =~= Seq::empty());
        }
        while i < reads.len() && reads[i].len() > 0
            invariant
                self.wf(),
                0 <= i <= reads@.len(),
                all_reads == wire::views(reads@),
                forall|j: int|
                    0 <= j < reads@.len() ==> lz4::compressible((#[trigger] reads@[j])@.len()),
                forall|j: int|
                    0 <= j < i ==> (#[trigger] all_reads[j]).len() > 0 && lz4::decompresses(
                        all_reads[j],
                    ),
                old(self).piece_size() == size,
                self.size_of_chunks() == old(self).size_of_chunks(),
                self.size_limit() == old(self).size_limit(),
                self.datagram_size() == old(self).datagram_size(),
                self.piece_size() == old(self).piece_size(),
                self.gate() == old(self).gate(),
                self.next_number() == first.wrapping_add(i as u64),
                batching::batch_views(out@) == batching::full_batches(
                    stream_fragments(all_reads.take(i as int), first, size),
                ),
                self.pending() == batching::left_over(
                    stream_fragments(all_reads.take(i as int), first, size),
                ),
            decreases reads@.len() - i,
        {
            let ghost before = stream_fragments(all_reads.take(i as int), first, size);
            let ghost after = stream_fragments(all_reads.take(i + 1), first, size);
            let ghost pending = self.pending();
            let ghost sent = out@;
            assert(all_reads[i as int] == reads@[i as int]@);
            assert(all_reads.take(i + 1).drop_last() =~= all_reads.take(i as int));
            let mut full = self.on_read(reads[i].as_slice());
            let ghost added = full@;
            out.append(&mut full);
            proof {
                let fresh = framing::chunk_fragments(
                    (first.wrapping_add(i as u64) as u32) as u64,
                    all_reads[i as int],
                    size,
                );
                assert(after == before + fresh);
                batching::lemma_batches_continue(before, fresh);
                assert(batching::batch_views(out@) =~= batching::batch_views(sent)
                    + batching::batch_views(added));
            }
            i = i + 1;
        }
        let ghost all = stream_fragments(all_reads.take(i as int), first, size);
        proof {
            lemma_until_end(all_reads, i as int);
            assert(until_end(all_reads) =~= all_reads.take(i as int));
        }
        let ghost sent = out@;
        match self.on_eof() {
            Some(last) => {
                out.push(last);
                assert(batching::batch_views(out@) =~= batching::batch_views(sent).push(
                    wire::views(last@),
                ));
            },
            None => {},
        }
        out
    }
}

/// Each payload becomes the chunk with the next number, in 32 bits, behind the chunks
/// of the payloads before it.
pub proof fn lemma_chunks_are_numbered(
    payloads: Seq<Seq<u8>>,
    more: Seq<u8>,
    first: u64,
    size: nat,
)
    requires
        first + payloads.len() <= u64::MAX,
    ensures
        stream_fragments(Seq::empty(), first, size) == Seq::<Seq<u8>>::empty(),
        ({
            let number = (first + payloads.len()) as u64;
            stream_fragments(payloads.push(more), first, size) == stream_fragments(
                payloads,
                first,
                size,
            ) + framing::chunk_fragments(number % 0x1_0000_0000, more, size)
        }),
{
    let number = (first + payloads.len()) as u64;
    lemma_low_half(number);
    assert(first.wrapping_add(payloads.len() as u64) == number);
    assert(payloads.push(more).drop_last() =~= payloads);
}

/// The lower half of a number.
proof fn lemma_low_half(number: u64)
    ensures
        (number as u32) as u64 == number % 0x1_0000_0000,
{
    assert((number as u32) as u64 == number % 0x1_0000_0000) by (bit_vector);
}

/// The payloads until the end are the first ones of those that were read: none is
/// empty, and either all were taken or the next one is empty.
pub proof fn lemma_until_end_is_a_prefix(reads: Seq<Seq<u8>>)
    ensures
        ({
            let taken = until_end(reads);
            let k = taken.len() as int;
            &&& k <= reads.len()
            &&& taken == reads.take(k)
            &&& forall|i: int| 0 <= i < k ==> (#[trigger] reads[i]).len() > 0
            &&& k < reads.len() ==> reads[k].len() == 0
        }),
    decreases reads.len(),
{
    if reads.len() > 0 && reads[0].len() > 0 {
        let rest = reads.drop_first();
        lemma_until_end_is_a_prefix(rest);
        let k = until_end(reads).len() as int;
        assert(until_end(reads) =~= reads.take(k));
        assert forall|i: int| 0 <= i < k implies (#[trigger] reads[i]).len() > 0 by {
            if i > 0 {
                assert(rest[i - 1] == reads[i]);
            }
        }
        if k < reads.len() {
            assert(rest[k - 1] == reads[k]);
        }
    } else {
        assert(until_end(reads) =~= reads.take(0));
    }
}

/// Where the first `k` reads are not empty and the next one is, or there is
/// none, those are the reads until the end.
pub proof fn lemma_until_end(reads: Seq<Seq<u8>>, k: int)
    requires
        0 <= k <= reads.len(),
        forall|j: int| 0 <= j < k ==> (#[trigger] reads[j]).len() > 0,
    ensures
        k == reads.len() || reads[k].len() == 0 ==> until_end(reads) == reads.take(k),
    decreases k,
{
    if k > 0 {
        let rest = reads.drop_first();
        assert(reads[0].len() > 0);
        assert forall|j: int| 0 <= j < k - 1 implies (#[trigger] rest[j]).len() > 0 by {
            assert(reads[j + 1].len() > 0);
        }
        lemma_until_end(rest, k - 1);
        assert(seq![reads[0]] + rest.take(k - 1) =~= reads.take(k));
    } else {
        assert(reads.take(0) =~= Seq::empty());
    }
}

} // verus!
