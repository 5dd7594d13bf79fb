//! Splitting with several workers: a dispatcher hands chunks out in turn, and
//! each worker frames the chunks it gets.

use crate::channel::Outlet;
use crate::compress::lz4;
use crate::protocol::headers::FragmentHeader;
use crate::sender::batching;
use crate::sender::batching::{Batcher, FragmentOrEos};
use crate::sender::framing;
use crate::sender::framing::frame_chunk;
use crate::sender::splitter;
use crate::sender::splitter::PauseGate;
use crate::wire;
use vstd::prelude::*;

verus! {

/// A piece of the input for a worker.
#[derive(Debug)]
pub struct RawChunk {
    /// Counts the chunks from 0 on.
    pub chunk_id: u64,
    /// The payload as it was read.
    pub data: Vec<u8>,
    /// Whether the input ends with this chunk.
    pub is_last: bool,
}

/// What a `RawChunk` holds.
#[verifier::ext_equal]
pub struct RawChunkModel {
    pub chunk_id: u64,
    pub data: Seq<u8>,
    pub is_last: bool,
}

impl RawChunk {
    /// What the chunk holds.
    pub open spec fn model(self) -> RawChunkModel {
        RawChunkModel { chunk_id: self.chunk_id, data: self.data@, is_last: self.is_last }
    }
}

/// What the chunks hold.
pub open spec fn raw_models(chunks: Seq<RawChunk>) -> Seq<RawChunkModel> {
    Seq::new(chunks.len(), |i: int| chunks[i].model())
}

/// Counters of the workers. They wrap around on overflow.
#[derive(Debug, Clone, Copy, PartialEq, Eq, Structural)]
pub struct ChunkStats {
    /// Payload bytes that were framed.
    pub bytes_processed: u64,
}

impl Default for ChunkStats {
    fn default() -> (r: Self)
        ensures
            r.bytes_processed == 0,
    {
        ChunkStats { bytes_processed: 0 }
    }
}

/// Whether the workers' channels took `chunk` in: the worker's own, unless it is
/// closed, and no other. If `closing`, all of them are closed then.
pub open spec fn handed_out(
    before: Seq<Outlet<RawChunk>>,
    after: Seq<Outlet<RawChunk>>,
    worker: int,
    chunk: RawChunkModel,
    closing: bool,
) -> bool {
    &&& after.len() == before.len()
    &&& forall|i: int|
        0 <= i < before.len() ==> {
            &&& (#[trigger] after[i]).capacity == before[i].capacity
            &&& after[i].closed == (before[i].closed || closing)
            &&& raw_models(after[i].queue@) == (if i == worker && !before[i].closed {
                raw_models(before[i].queue@).push(chunk)
            } else {
                raw_models(before[i].queue@)
            })
        }
}

/// Hands the chunks of a stream out to the workers in turn. The chunk read last is
/// held back until it shows whether the input ends with it.
pub struct Dispatcher {
    chunk_size: usize,
    max_chunk_size: usize,
    mtu: usize,
    num_workers: usize,
    fragment_payload_size: usize,
    pub work_txs: Vec<Outlet<RawChunk>>,
    next_chunk_id: u64,
    held: Option<Vec<u8>>,
    pause: PauseGate,
}

impl Dispatcher {
    pub closed spec fn wf(self) -> bool {
        &&& self.mtu > FragmentHeader::LEN
        &&& self.fragment_payload_size == self.mtu - FragmentHeader::LEN
        &&& self.work_txs@.len() == self.num_workers
        &&& self.held is Some ==> self.next_chunk_id > 0 && self.num_workers > 0
    }

    /// How many bytes the next read may ask for.
    pub closed spec fn size_of_chunks(self) -> usize {
        self.chunk_size
    }

    /// The upper bound on the chunk size.
    pub closed spec fn size_limit(self) -> usize {
        self.max_chunk_size
    }

    /// The size of a datagram.
    pub closed spec fn datagram_size(self) -> usize {
        self.mtu
    }

    /// How many payload bytes a fragment holds.
    pub closed spec fn piece_size(self) -> usize {
        self.fragment_payload_size
    }

    /// How many workers there are.
    pub closed spec fn workers(self) -> usize {
        self.num_workers
    }

    /// The outlets to the workers.
    pub closed spec fn outlets(self) -> Seq<Outlet<RawChunk>> {
        self.work_txs@
    }

    /// The number of the next chunk.
    pub closed spec fn next_number(self) -> u64 {
        self.next_chunk_id
    }

    /// The chunk that is held back.
    pub closed spec fn held_back(self) -> Option<Seq<u8>> {
        match self.held {
            Some(data) => Some(data@),
            None => None,
        }
    }

    /// The state of the pause channel.
    pub closed spec fn gate(self) -> PauseGate {
        self.pause
    }

    /// The worker whose turn it is with the chunk that is held back.
    pub open spec fn turn(self) -> int {
        (self.next_number() - 1) % self.workers() as int
    }

    /// The chunk that is held back, as it is handed out.
    pub open spec fn held_chunk(self, is_last: bool) -> RawChunkModel {
        RawChunkModel {
            chunk_id: (self.next_number() - 1) as u64,
            data: self.held_back()->Some_0,
            is_last,
        }
    }

    /// A dispatcher at the start of a stream, with one outlet for each worker.
    pub fn new(
        chunk_size: usize,
        max_chunk_size: usize,
        mtu: usize,
        num_workers: usize,
        work_txs: Vec<Outlet<RawChunk>>,
        pausable: bool,
    ) -> (r: Self)
        requires
            chunk_size > 0,
            mtu > FragmentHeader::LEN,
            work_txs@.len() == num_workers,
        ensures
            r.wf(),
            r.size_of_chunks() == chunk_size,
            r.size_limit() == max_chunk_size,
            r.datagram_size() == mtu,
            r.piece_size() == mtu - FragmentHeader::LEN,
            r.workers() == num_workers,
            r.outlets() == work_txs@,
            r.next_number() == 0,
            r.held_back() is None,
            r.gate() == (PauseGate { paused: false, listening: pausable }),
    {
        Dispatcher {
            chunk_size,
            max_chunk_size,
            mtu,
            num_workers,
            fragment_payload_size: mtu - FragmentHeader::LEN,
            work_txs,
            next_chunk_id: 0,
            held: None,
            pause: PauseGate::new(pausable),
        }
    }

    /// How many payload bytes a fragment holds at most.
    pub fn fragment_payload_size(&self) -> (r: usize)
        ensures
            r == self.piece_size(),
    {
        self.fragment_payload_size
    }

    /// The size of a datagram.
    pub fn mtu(&self) -> (r: usize)
        ensures
            r == self.datagram_size(),
    {
        self.mtu
    }

    /// How many bytes the next read may ask for.
    pub fn chunk_size(&self) -> (r: usize)
        ensures
            r == self.size_of_chunks(),
    {
        self.chunk_size
    }

    /// How many workers there are.
    pub fn num_workers(&self) -> (r: usize)
        ensures
            r == self.workers(),
    {
        self.num_workers
    }

    /// The size of the read buffer: a chunk of any allowed size, or a datagram.
    pub fn buffer_size(&self) -> (r: usize)
        ensures
            r == (if self.size_limit() >= self.datagram_size() {
                self.size_limit()
            } else {
                self.datagram_size()
            }),
    {
        if self.max_chunk_size >= self.mtu {
            self.max_chunk_size
        } else {
            self.mtu
        }
    }

    /// Changes the chunk size.
    pub fn set_chunk_size(&mut self, new_size: usize)
        ensures
            final(self).size_of_chunks() == new_size,
            final(self).wf() == old(self).wf(),
            final(self).size_limit() == old(self).size_limit(),
            final(self).datagram_size() == old(self).datagram_size(),
            final(self).piece_size() == old(self).piece_size(),
            final(self).workers() == old(self).workers(),
            final(self).outlets() == old(self).outlets(),
            final(self).next_number() == old(self).next_number(),
            final(self).held_back() == old(self).held_back(),
            final(self).gate() == old(self).gate(),
    {
        self.chunk_size = new_size;
    }

    /// Takes in a signal of the pause channel.
    pub fn on_pause_signal(&mut self, signal: Option<bool>)
        ensures
            final(self).gate() == match signal {
                Some(pause) => PauseGate { paused: pause, ..old(self).gate() },
                None => PauseGate { paused: false, listening: false },
            },
            final(self).wf() == old(self).wf(),
            final(self).size_of_chunks() == old(self).size_of_chunks(),
            final(self).size_limit() == old(self).size_limit(),
            final(self).datagram_size() == old(self).datagram_size(),
            final(self).piece_size() == old(self).piece_size(),
            final(self).workers() == old(self).workers(),
            final(self).outlets() == old(self).outlets(),
            final(self).next_number() == old(self).next_number(),
            final(self).held_back() == old(self).held_back(),
    {
        self.pause.on_signal(signal);
    }

    /// Whether the next step is to read, and not to wait for a resume signal.
    pub fn may_read(&self) -> (r: bool)
        ensures
            r == !self.gate().paused,
    {
        !self.pause.paused
    }

    /// Whether there is a pause channel to listen to.
    pub fn is_listening(&self) -> (r: bool)
        ensures
            r == self.gate().listening,
    {
        self.pause.listening
    }

    /// Hands out the chunk that is held back to the worker whose turn it is,
    /// waiting for room. If that worker is gone, the chunk is lost. Returns the
    /// worker.
    fn hand_out(&mut self, is_last: bool) -> (r: Option<usize>)
        requires
            old(self).wf(),
        ensures
            final(self).wf(),
            final(self).held_back() is None,
            match old(self).held_back() {
                Some(_) => r is Some && r->Some_0 == old(self).turn() && handed_out(
                    old(self).outlets(),
                    final(self).outlets(),
                    old(self).turn(),
                    old(self).held_chunk(is_last),
                    false,
                ),
                None => r is None && final(self).outlets() == old(self).outlets(),
            },
            final(self).next_number() == old(self).next_number(),
            final(self).size_of_chunks() == old(self).size_of_chunks(),
            final(self).size_limit() == old(self).size_limit(),
            final(self).datagram_size() == old(self).datagram_size(),
            final(self).piece_size() == old(self).piece_size(),
            final(self).workers() == old(self).workers(),
            final(self).gate() == old(self).gate(),
    {
        match self.held.take() {
            Some(data) => {
                let chunk_id: u64 = self.next_chunk_id - 1;
                let worker: usize = (chunk_id % self.num_workers as u64) as usize;
                let chunk = RawChunk { chunk_id, data, is_last };
                let ghost before = self.work_txs@[worker as int];
                let _ = self.work_txs[worker].send(chunk);
                proof {
                    let after = self.work_txs@[worker as int];
                    if before.closed {
                        assert(raw_models(after.queue@) =~= raw_models(before.queue@));
                    } else {
                        assert(raw_models(after.queue@) =~= raw_models(before.queue@).push(
                            chunk.model(),
                        ));
                    }
                }
                Some(worker)
            },
            None => None,
        }
    }

    /// Takes in what was read. The chunk read before, if there is one, goes to the
    /// worker whose turn it is, as one that is not the last; what was read now is
    /// held back. Returns the worker.
    pub fn on_read(&mut self, data: Vec<u8>) -> (r: Option<usize>)
        requires
            old(self).wf(),
            old(self).workers() > 0,
            old(self).next_number() < u64::MAX,
        ensures
            final(self).wf(),
            match old(self).held_back() {
                Some(_) => r is Some && r->Some_0 == old(self).turn() && handed_out(
                    old(self).outlets(),
                    final(self).outlets(),
                    old(self).turn(),
                    old(self).held_chunk(false),
                    false,
                ),
                None => r is None && final(self).outlets() == old(self).outlets(),
            },
            old(self).held_back() matches Some(held) ==> {
                let number = old(self).next_number() - 1;
                let worker = number % old(self).workers() as int;
                let before = old(self).outlets();
                let after = final(self).outlets();
                &&& r is Some && r->Some_0 == worker
                &&& after.len() == before.len()
                &&& forall|i: int|
                    0 <= i < before.len() ==> {
                        &&& (#[trigger] after[i]).closed == before[i].closed
                        &&& i == worker && !before[i].closed ==> raw_models(after[i].queue@)
                            == raw_models(before[i].queue@).push(
                            RawChunkModel { chunk_id: number as u64, data: held, is_last: false },
                        )
                        &&& i != worker || before[i].closed ==> raw_models(after[i].queue@)
                            == raw_models(before[i].queue@)
                    }
            },
            final(self).held_back() == Some(data@),
            final(self).next_number() == old(self).next_number() + 1,
            final(self).size_of_chunks() == old(self).size_of_chunks(),
            final(self).size_limit() == old(self).size_limit(),
            final(self).datagram_size() == old(self).datagram_size(),
            final(self).piece_size() == old(self).piece_size(),
            final(self).workers() == old(self).workers(),
            final(self).gate() == old(self).gate(),
    {
        let worker = self.hand_out(false);
        self.held = Some(data);
        self.next_chunk_id = self.next_chunk_id + 1;
        worker
    }

    /// The end of the input: the chunk that is held back, if there is one, goes to
    /// the worker whose turn it is, as the last one, and every worker is told that
    /// no more come. Returns the worker.
    pub fn on_eof(&mut self) -> (r: Option<usize>)
        requires
            old(self).wf(),
        ensures
            final(self).wf(),
            old(self).held_back() matches Some(held) ==> {
                let number = old(self).next_number() - 1;
                let worker = number % old(self).workers() as int;
                let before = old(self).outlets();
                let after = final(self).outlets();
                &&& r is Some && r->Some_0 == worker
                &&& after.len() == before.len()
                &&& forall|i: int|
                    0 <= i < before.len() ==> {
                        &&& (#[trigger] after[i]).closed == true
                        &&& i == worker && !before[i].closed ==> raw_models(after[i].queue@)
                            == raw_models(before[i].queue@).push(
                            RawChunkModel { chunk_id: number as u64, data: held, is_last: true },
                        )
                        &&& i != worker || before[i].closed ==> raw_models(after[i].queue@)
                            == raw_models(before[i].queue@)
                    }
            },
            final(self).held_back() is None,
            match old(self).held_back() {
                Some(_) => r is Some && r->Some_0 == old(self).turn() && handed_out(
                    old(self).outlets(),
                    final(self).outlets(),
                    old(self).turn(),
                    old(self).held_chunk(true),
                    true,
                ),
                None => {
                    &&& r is None
                    &&& final(self).outlets().len() == old(self).outlets().len()
                    &&& forall|i: int|
                        0 <= i < old(self).outlets().len() ==> {
                            &&& (#[trigger] final(self).outlets()[i]).closed
                            &&& final(self).outlets()[i].queue@ == old(self).outlets()[i].queue@
                            &&& final(self).outlets()[i].capacity == old(self).outlets()[i].capacity
                        }
                },
            },
            final(self).next_number() == old(self).next_number(),
            final(self).size_of_chunks() == old(self).size_of_chunks(),
            final(self).size_limit() == old(self).size_limit(),
            final(self).datagram_size() == old(self).datagram_size(),
            final(self).piece_size() == old(self).piece_size(),
            final(self).workers() == old(self).workers(),
            final(self).gate() == old(self).gate(),
    {
        let worker = self.hand_out(true);
        let ghost before = *self;
        let mut i: usize = 0;
        while i < self.work_txs.len()
            invariant
                self.wf(),
                0 <= i <= self.work_txs@.len(),
                self.work_txs@.len() == before.work_txs@.len(),
                forall|j: int|
                    0 <= j < i ==> {
                        &&& (#[trigger] self.work_txs@[j]).closed
                        &&& self.work_txs@[j].queue@ == before.work_txs@[j].queue@
                        &&& self.work_txs@[j].capacity == before.work_txs@[j].capacity
                    },
                forall|j: int|
                    i <= j < self.work_txs@.len() ==> #[trigger] self.work_txs@[j]
                        == before.work_txs@[j],
                *self == (Dispatcher { work_txs: self.work_txs, ..before }),
            decreases self.work_txs@.len() - i,
        {
            self.work_txs[i].close();
            i = i + 1;
        }
        worker
    }

    /// Hands out a whole stream: `reads` is what the reads returned, an empty one
    /// marking the end.
    pub fn run(&mut self, reads: &Vec<Vec<u8>>)
        requires
            old(self).wf(),
            old(self).workers() > 0,
            old(self).held_back() is None,
            old(self).next_number() + reads@.len() <= u64::MAX,
        ensures
            final(self).wf(),
            final(self).held_back() is None,
            final(self).outlets().len() == old(self).outlets().len(),
            forall|w: int|
                0 <= w < old(self).outlets().len() ==> {
                    let before = old(self).outlets()[w];
                    let after = #[trigger] final(self).outlets()[w];
                    &&& after.closed
                    &&& after.capacity == before.capacity
                    &&& raw_models(after.queue@) == (if before.closed {
                        raw_models(before.queue@)
                    } else {
                        raw_models(before.queue@) + all_chunks_for(
                            splitter::until_end(wire::views(reads@)),
                            old(self).next_number(),
                            old(self).workers() as int,
                            w,
                        )
                    })
                },
            final(self).next_number() == old(self).next_number() + splitter::until_end(
                wire::views(reads@),
            ).len(),
            final(self).size_of_chunks() == old(self).size_of_chunks(),
            final(self).size_limit() == old(self).size_limit(),
            final(self).datagram_size() == old(self).datagram_size(),
            final(self).piece_size() == old(self).piece_size(),
            final(self).workers() == old(self).workers(),
            final(self).gate() == old(self).gate(),
    {
        let ghost all_reads = wire::views(reads@);
        let ghost first = self.next_number();
        let ghost workers = self.workers() as int;
        let ghost before = self.outlets();
        let mut i: usize = 0;
        proof {
            assert forall|w: int| 0 <= w < before.len() implies raw_models(
                #[trigger] before[w].queue@,
            ) + chunks_for(Seq::empty(), first, workers, w) =~= raw_models(before[w].queue@) by {}
        }
        while i < reads.len() && reads[i].len() > 0
            invariant
                self.wf(),
                workers > 0,
                0 <= i <= reads@.len(),
                all_reads == wire::views(reads@),
                forall|j: int| 0 <= j < i ==> (#[trigger] all_reads[j]).len() > 0,
                old(self).next_number() == first,
                first + reads@.len() <= u64::MAX,
                self.next_number() == first + i,
                self.workers() == workers,
                self.held_back() == (if i == 0 {
                    None
                } else {
                    Some(all_reads[i - 1])
                }),
                before == old(self).outlets(),
                self.outlets().len() == before.len(),
                forall|w: int|
                    0 <= w < before.len() ==> has_got(
                        before[w],
                        #[trigger] self.outlets()[w],
                        chunks_for(
                            all_reads.take(
                                if i == 0 {
                                    0
                                } else {
                                    i - 1
                                },
                            ),
                            first,
                            workers,
                            w,
                        ),
                    ),
                self.size_of_chunks() == old(self).size_of_chunks(),
                self.size_limit() == old(self).size_limit(),
                self.datagram_size() == old(self).datagram_size(),
                self.piece_size() == old(self).piece_size(),
                self.workers() == old(self).workers(),
                self.gate() == old(self).gate(),
            decreases reads@.len() - i,
        {
            let ghost here = *self;
            assert(all_reads[i as int] == reads@[i as int]@);
            let data: Vec<u8> = wire::copy_range(reads[i].as_slice(), 0, reads[i].len());
            assert(data@ =~= all_reads[i as int]);
            let _ = self.on_read(data);
            proof {
                if i > 0 {
                    let upto = all_reads.take(i as int);
                    assert(upto.drop_last() =~= all_reads.take(i - 1));
                    assert(upto.last() == all_reads[i - 1]);
                    assert forall|w: int| 0 <= w < before.len() implies has_got(
                        before[w],
                        #[trigger] self.outlets()[w],
                        chunks_for(upto, first, workers, w),
                    ) by {
                        assert(has_got(
                            before[w],
                            here.outlets()[w],
                            chunks_for(all_reads.take(i - 1), first, workers, w),
                        ));
                        assert(raw_models(self.outlets()[w].queue@) =~= if before[w].closed {
                            raw_models(before[w].queue@)
                        } else {
                            raw_models(before[w].queue@) + chunks_for(upto, first, workers, w)
                        });
                    }
                }
            }
            i = i + 1;
        }
        let ghost here = *self;
        let ghost payloads = all_reads.take(i as int);
        proof {
            splitter::lemma_until_end(all_reads, i as int);
            assert(splitter::until_end(all_reads) =~= payloads);
        }
        let _ = self.on_eof();
        proof {
            assert forall|w: int| 0 <= w < before.len() implies {
                let after = #[trigger] self.outlets()[w];
                &&& after.closed
                &&& after.capacity == before[w].capacity
                &&& raw_models(after.queue@) == (if before[w].closed {
                    raw_models(before[w].queue@)
                } else {
                    raw_models(before[w].queue@) + all_chunks_for(payloads, first, workers, w)
                })
            } by {
                let so_far = chunks_for(
                    all_reads.take(
                        if i == 0 {
                            0
                        } else {
                            i - 1
                        },
                    ),
                    first,
                    workers,
                    w,
                );
                assert(has_got(before[w], here.outlets()[w], so_far));
                if i > 0 {
                    assert(payloads.drop_last() =~= all_reads.take(i - 1));
                }
                assert(raw_models(self.outlets()[w].queue@) =~= if before[w].closed {
                    raw_models(before[w].queue@)
                } else {
                    raw_models(before[w].queue@) + all_chunks_for(payloads, first, workers, w)
                });
            }
        }
    }
}

/// The chunks that the worker `w` gets of the payloads, which are numbered from
/// `first` on and handed out in turn; none of them is the last of the stream.
pub open spec fn chunks_for(
    payloads: Seq<Seq<u8>>,
    first: u64,
    workers: int,
    w: int,
) -> Seq<RawChunkModel>
    decreases payloads.len(),
{
    if payloads.len() == 0 {
        Seq::empty()
    } else {
        let number = first + payloads.len() - 1;
        let before = chunks_for(payloads.drop_last(), first, workers, w);
        if number % workers == w {
            before.push(
                RawChunkModel { chunk_id: number as u64, data: payloads.last(), is_last: false },
            )
        } else {
            before
        }
    }
}

/// The chunks that the worker `w` gets of a whole stream: the one with which it ends
/// is marked as the last.
pub open spec fn all_chunks_for(
    payloads: Seq<Seq<u8>>,
    first: u64,
    workers: int,
    w: int,
) -> Seq<RawChunkModel> {
    if payloads.len() == 0 {
        Seq::empty()
    } else {
        let number = first + payloads.len() - 1;
        let before = chunks_for(payloads.drop_last(), first, workers, w);
        if number % workers == w {
            before.push(
                RawChunkModel { chunk_id: number as u64, data: payloads.last(), is_last: true },
            )
        } else {
            before
        }
    }
}

/// The chunks go out in turn: the worker `w` gets those whose number leaves the
/// remainder `w` by the number of workers, all of them and no other, in order, each
/// with its payload; and only the one with which the stream ends says so.
pub proof fn lemma_chunks_go_out_in_turn(
    payloads: Seq<Seq<u8>>,
    first: u64,
    workers: int,
    w: int,
)
    requires
        workers > 0,
        first + payloads.len() <= u64::MAX,
    ensures
        ({
            let got = all_chunks_for(payloads, first, workers, w);
            let n = payloads.len() as int;
            &&& forall|k: int|
                0 <= k < got.len() ==> {
                    let c = #[trigger] got[k];
                    &&& first <= c.chunk_id < first + n
                    &&& c.chunk_id as int % workers == w
                    &&& c.data == payloads[c.chunk_id - first]
                    &&& c.is_last == (c.chunk_id == first + n - 1)
                }
            &&& forall|k: int, l: int|
                0 <= k < l < got.len() ==> (#[trigger] got[k]).chunk_id < (
                #[trigger] got[l]).chunk_id
            &&& forall|i: int|
                0 <= i < n && (first + i) % workers == w ==> #[trigger] is_among(got, first + i)
        }),
{
    if payloads.len() > 0 {
        let rest = payloads.drop_last();
        lemma_chunks_in_turn(rest, first, workers, w);
        let before = chunks_for(rest, first, workers, w);
        let got = all_chunks_for(payloads, first, workers, w);
        let n = payloads.len() as int;
        lemma_one_more_in_turn(payloads, first, workers, w, before, got, true);
    }
}

/// Whether a chunk with the number is among the chunks.
pub open spec fn is_among(chunks: Seq<RawChunkModel>, number: int) -> bool {
    exists|k: int| 0 <= k < chunks.len() && (#[trigger] chunks[k]).chunk_id == number
}

/// Whether `got` are the chunks of the payloads whose turn falls on `w`; `ends` says
/// whether the last payload is marked.
spec fn in_turn(
    got: Seq<RawChunkModel>,
    payloads: Seq<Seq<u8>>,
    first: u64,
    workers: int,
    w: int,
    ends: bool,
) -> bool {
    let n = payloads.len() as int;
    &&& forall|k: int|
        0 <= k < got.len() ==> {
            let c = #[trigger] got[k];
            &&& first <= c.chunk_id < first + n
            &&& c.chunk_id as int % workers == w
            &&& c.data == payloads[c.chunk_id - first]
            &&& c.is_last == (ends && c.chunk_id == first + n - 1)
        }
    &&& forall|k: int, l: int|
        0 <= k < l < got.len() ==> (#[trigger] got[k]).chunk_id < (#[trigger] got[l]).chunk_id
    &&& forall|i: int|
        0 <= i < n && (first + i) % workers == w ==> #[trigger] is_among(got, first + i)
}

/// One more payload is added for the worker whose turn it is.
proof fn lemma_one_more_in_turn(
    payloads: Seq<Seq<u8>>,
    first: u64,
    workers: int,
    w: int,
    before: Seq<RawChunkModel>,
    got: Seq<RawChunkModel>,
    ends: bool,
)
    requires
        workers > 0,
        payloads.len() > 0,
        first + payloads.len() <= u64::MAX,
        in_turn(before, payloads.drop_last(), first, workers, w, false),
        got == (if (first + payloads.len() - 1) % workers == w {
            before.push(
                RawChunkModel {
                    chunk_id: (first + payloads.len() - 1) as u64,
                    data: payloads.last(),
                    is_last: ends,
                },
            )
        } else {
            before
        }),
    ensures
        in_turn(got, payloads, first, workers, w, ends),
{
    let rest = payloads.drop_last();
    let n = payloads.len() as int;
    assert forall|k: int| 0 <= k < got.len() implies {
        let c = #[trigger] got[k];
        &&& first <= c.chunk_id < first + n
        &&& c.chunk_id as int % workers == w
        &&& c.data == payloads[c.chunk_id - first]
        &&& c.is_last == (ends && c.chunk_id == first + n - 1)
    } by {
        if k < before.len() {
            assert(got[k] == before[k]);
            assert(rest[before[k].chunk_id - first] == payloads[before[k].chunk_id - first]);
        }
    }
    assert forall|k: int, l: int| 0 <= k < l < got.len() implies (#[trigger] got[k]).chunk_id < (
    #[trigger] got[l]).chunk_id by {
        assert(got[k] == before[k]);
        if l < before.len() {
            assert(got[l] == before[l]);
        }
    }
    assert forall|i: int| 0 <= i < n && (first + i) % workers == w implies #[trigger] is_among(
        got,
        first + i,
    ) by {
        if i < n - 1 {
            assert(is_among(before, first + i));
            let k = choose|k: int|
                0 <= k < before.len() && (#[trigger] before[k]).chunk_id == first + i;
            assert(got[k] == before[k]);
        } else {
            assert(got[got.len() - 1].chunk_id == first + i);
        }
    }
}

/// What the worker `w` gets while the stream goes on.
proof fn lemma_chunks_in_turn(payloads: Seq<Seq<u8>>, first: u64, workers: int, w: int)
    requires
        workers > 0,
        first + payloads.len() <= u64::MAX,
    ensures
        in_turn(chunks_for(payloads, first, workers, w), payloads, first, workers, w, false),
    decreases payloads.len(),
{
    if payloads.len() > 0 {
        let rest = payloads.drop_last();
        lemma_chunks_in_turn(rest, first, workers, w);
        lemma_one_more_in_turn(
            payloads,
            first,
            workers,
            w,
            chunks_for(rest, first, workers, w),
            chunks_for(payloads, first, workers, w),
            false,
        );
    }
}

/// The bytes of the chunks are those of each.
pub proof fn lemma_bytes_add_up(chunks: Seq<RawChunk>, c: RawChunk)
    ensures
        total_bytes(Seq::empty()) == 0,
        total_bytes(chunks.push(c)) == total_bytes(chunks) + c.data@.len(),
{
    assert(chunks.push(c).drop_last() =~= chunks);
}

/// Whether the outlet took the chunks in, unless it was closed.
spec fn has_got(
    before: Outlet<RawChunk>,
    after: Outlet<RawChunk>,
    chunks: Seq<RawChunkModel>,
) -> bool {
    &&& after.capacity == before.capacity
    &&& after.closed == before.closed
    &&& raw_models(after.queue@) == (if before.closed {
        raw_models(before.queue@)
    } else {
        raw_models(before.queue@) + chunks
    })
}

/// Frames the chunks that one worker gets.
pub struct ChunkerWorker {
    fragment_payload_size: usize,
    batcher: Batcher,
    stats: ChunkStats,
}

impl ChunkerWorker {
    pub closed spec fn wf(self) -> bool {
        &&& self.fragment_payload_size > 0
        &&& self.batcher.pending().len() < batching::DEFAULT_BATCH_SIZE
    }

    /// How many payload bytes a fragment holds.
    pub closed spec fn piece_size(self) -> nat {
        self.fragment_payload_size as nat
    }

    /// The fragments that wait for their batch to fill up.
    pub closed spec fn pending(self) -> Seq<Seq<u8>> {
        self.batcher.pending()
    }

    /// The counters.
    pub closed spec fn counters(self) -> ChunkStats {
        self.stats
    }

    /// A worker that framed nothing yet, with the counters at `stats`.
    pub fn new(mtu: usize, stats: ChunkStats) -> (r: Self)
        requires
            mtu > FragmentHeader::LEN,
        ensures
            r.wf(),
            r.piece_size() == mtu - FragmentHeader::LEN,
            r.pending() == Seq::<Seq<u8>>::empty(),
            r.counters() == stats,
    {
        ChunkerWorker {
            fragment_payload_size: mtu - FragmentHeader::LEN,
            batcher: Batcher::new(),
            stats,
        }
    }

    /// Frames one chunk. Returns the batches that are full.
    pub fn process(&mut self, chunk: &RawChunk) -> (r: Vec<FragmentOrEos>)
        requires
            old(self).wf(),
            lz4::compressible(chunk.data@.len()),
        ensures
            final(self).wf(),
            final(self).piece_size() == old(self).piece_size(),
            ({
                let all = old(self).pending() + framing::chunk_fragments(
                    chunk.chunk_id,
                    chunk.data@,
                    old(self).piece_size(),
                );
                &&& batching::batch_views(r@) == batching::full_batches(all)
                &&& final(self).pending() == batching::left_over(all)
            }),
            lz4::decompresses(chunk.data@),
            final(self).counters().bytes_processed
                == old(self).counters().bytes_processed.wrapping_add(chunk.data@.len() as u64),
    {
        let fragments = frame_chunk(
            chunk.chunk_id,
            chunk.data.as_slice(),
            self.fragment_payload_size,
        );
        let full = self.batcher.add(fragments);
        self.stats.bytes_processed = self.stats.bytes_processed.wrapping_add(
            chunk.data.len() as u64,
        );
        full
    }

    /// The counters at this moment.
    pub fn stats(&self) -> (r: ChunkStats)
        ensures
            r == self.counters(),
    {
        self.stats
    }

    /// No more chunks come: the fragments that wait make the last batch.
    pub fn finish(&mut self) -> (r: Option<FragmentOrEos>)
        requires
            old(self).wf(),
        ensures
            final(self).wf(),
            final(self).piece_size() == old(self).piece_size(),
            final(self).pending() == Seq::<Seq<u8>>::empty(),
            final(self).counters() == old(self).counters(),
            match r {
                Some(batch) => old(self).pending().len() > 0 && wire::views(batch@)
                    == old(self).pending(),
                None => old(self).pending().len() == 0,
            },
    {
        self.batcher.flush()
    }
}

/// The fragments of the chunks, one chunk after the other.
pub open spec fn framed(chunks: Seq<RawChunk>, size: nat) -> Seq<Seq<u8>>
    decreases chunks.len(),
{
    if chunks.len() == 0 {
        Seq::empty()
    } else {
        framed(chunks.drop_last(), size) + framing::chunk_fragments(
            chunks.last().chunk_id,
            chunks.last().data@,
            size,
        )
    }
}

/// How many payload bytes the chunks hold.
pub open spec fn total_bytes(chunks: Seq<RawChunk>) -> nat
    decreases chunks.len(),
{
    if chunks.len() == 0 {
        0
    } else {
        total_bytes(chunks.drop_last()) + chunks.last().data@.len()
    }
}

/// Frames all chunks that a worker gets until its channel closes. Returns the
/// batches, and adds to the counters.
pub fn chunker_worker(mtu: usize, chunks: &Vec<RawChunk>, stats: &mut ChunkStats) -> (r: Vec<
    FragmentOrEos,
>)
    requires
        mtu > FragmentHeader::LEN,
        forall|i: int|
            0 <= i < chunks@.len() ==> lz4::compressible((#[trigger] chunks@[i]).data@.len()),
        old(stats).bytes_processed + total_bytes(chunks@) <= u64::MAX,
    ensures
        batching::batch_views(r@) == batching::all_batches(
            framed(chunks@, (mtu - FragmentHeader::LEN) as nat),
        ),
        forall|i: int|
            0 <= i < chunks@.len() ==> lz4::decompresses((#[trigger] chunks@[i]).data@),
        final(stats).bytes_processed == old(stats).bytes_processed + total_bytes(chunks@),
{
    let ghost size = (mtu - FragmentHeader::LEN) as nat;
    let mut worker = ChunkerWorker::new(mtu, *stats);
    let mut out: Vec<FragmentOrEos> = Vec::new();
    let mut i: usize = 0;
    proof {
        assert(chunks@.take(0) =~= Seq::empty());
        assert(batching::batch_views(out@) =~= batching::full_batches(Seq::empty()));
        assert(worker.pending() =~= batching::left_over(Seq::empty()));
    }
    while i < chunks.len()
        invariant
            worker.wf(),
            worker.piece_size() == size,
            size + FragmentHeader::LEN == mtu,
            0 <= i <= chunks@.len(),
            forall|j: int|
                0 <= j < chunks@.len() ==> lz4::compressible((#[trigger] chunks@[j]).data@.len()),
            forall|j: int| 0 <= j < i ==> lz4::decompresses((#[trigger] chunks@[j]).data@),
            old(stats).bytes_processed + total_bytes(chunks@) <= u64::MAX,
            worker.counters().bytes_processed == old(stats).bytes_processed + total_bytes(
                chunks@.take(i as int),
            ),
            batching::batch_views(out@) == batching::full_batches(
                framed(chunks@.take(i as int), size),
            ),
            worker.pending() == batching::left_over(framed(chunks@.take(i as int), size)),
        decreases chunks@.len() - i,
    {
        let ghost before = framed(chunks@.take(i as int), size);
        let ghost sent = out@;
        proof {
            assert(chunks@.take(i + 1).drop_last() =~= chunks@.take(i as int));
            lemma_total_bytes_prefix(chunks@, i + 1);
        }
        let mut full = worker.process(&chunks[i]);
        let ghost added = full@;
        out.append(&mut full);
        proof {
            let fresh = framing::chunk_fragments(
                chunks@[i as int].chunk_id,
                chunks@[i as int].data@,
                size,
            );
            batching::lemma_batches_continue(before, fresh);
            assert(batching::batch_views(out@) =~= batching::batch_views(sent)
                + batching::batch_views(added));
        }
        i = i + 1;
    }
    assert(chunks@.take(i as int) =~= chunks@);
    let ghost sent = out@;
    match worker.finish() {
        Some(last) => {
            out.push(last);
            assert(batching::batch_views(out@) =~= batching::batch_views(sent).push(
                wire::views(last@),
            ));
        },
        None => {},
    }
    *stats = worker.stats();
    out
}

/// Fewer chunks hold no more bytes.
proof fn lemma_total_bytes_prefix(chunks: Seq<RawChunk>, k: int)
    requires
        0 <= k <= chunks.len(),
    ensures
        total_bytes(chunks.take(k)) <= total_bytes(chunks),
    decreases chunks.len() - k,
{
    if k < chunks.len() {
        lemma_total_bytes_prefix(chunks, k + 1);
        assert(chunks.take(k + 1).drop_last() =~= chunks.take(k));
    } else {
        assert(chunks.take(k) =~= chunks);
    }
}

/// Each chunk is framed on its own, under its own number, whatever numbers the chunks
/// before it have.
pub proof fn lemma_chunks_are_framed_one_by_one(chunks: Seq<RawChunk>, more: Seq<RawChunk>, size: nat)
    ensures
        framed(Seq::empty(), size) == Seq::<Seq<u8>>::empty(),
        framed(chunks + more, size) == framed(chunks, size) + framed(more, size),
        more.len() == 1 ==> framed(more, size) == framing::chunk_fragments(
            more[0].chunk_id,
            more[0].data@,
            size,
        ),
    decreases more.len(),
{
    if more.len() == 0 {
        assert(chunks + more =~= chunks);
        assert(framed(chunks, size) + framed(more, size) =~= framed(chunks, size));
    } else {
        let fewer = more.drop_last();
        lemma_chunks_are_framed_one_by_one(chunks, fewer, size);
        assert((chunks + more).drop_last() =~= chunks + fewer);
        let last = framing::chunk_fragments(more.last().chunk_id, more.last().data@, size);
        assert((framed(chunks, size) + framed(fewer, size)) + last =~= framed(chunks, size) + (
        framed(fewer, size) + last));
        if more.len() == 1 {
            assert(fewer =~= Seq::empty());
            assert(framed(more, size) =~= last);
        }
    }
}

} // verus!
