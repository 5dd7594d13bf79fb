//! A transfer whose chunks are shared out among several reassemblers.

use crate::receiver::delivery;
use crate::receiver::interleaving;
use crate::receiver::interleaving::{Arrival, SentChunk};
use crate::receiver::ordering::OrdererModel;
use crate::receiver::reassembly::ReassemblerModel;
use crate::receiver::sequence;
use crate::session::receive;
use crate::session::receive::Datagram;
use crate::session::transfer;
use crate::wire;
use vstd::prelude::*;

verus! {

/// One of the reassemblers: how it starts, and which fragments come when.
pub struct Shard {
    pub start: ReassemblerModel,
    pub arrivals: Seq<Arrival>,
    pub times: Seq<nat>,
}

/// How many of `n` chunks belong to the shard `s` of `shards`.
pub open spec fn share(n: int, shards: int, s: int) -> nat {
    if s < n {
        ((n - s - 1) / shards + 1) as nat
    } else {
        0
    }
}

/// The chunks of a stream that belong to the shard `s` of `shards`: every
/// `shards`-th, from the one numbered `s` on.
pub open spec fn chunks_of_shard(payloads: Seq<Seq<u8>>, shards: int, s: int) -> Seq<SentChunk> {
    Seq::new(
        share(payloads.len() as int, shards, s),
        |j: int|
            SentChunk { number: (s + j * shards) as u64, data: payloads[s + j * shards] },
    )
}

impl Shard {
    /// The reassembler after all its fragments came.
    pub open spec fn end(self, chunks: Seq<SentChunk>, size: nat) -> ReassemblerModel {
        interleaving::after_arrivals(self.start, chunks, size, self.arrivals, self.times)
    }

    /// Whether all fragments of its chunks come, each at least once, and there is
    /// memory for them and room for the chunks.
    pub open spec fn runs(self, chunks: Seq<SentChunk>, size: nat) -> bool {
        &&& interleaving::all_come(chunks, size, self.arrivals)
        &&& self.times.len() == self.arrivals.len()
        &&& self.start.chunks.len() == 0
        &&& self.start.sent.len() == 0
        &&& !self.start.closed
        &&& forall|k: int|
            0 <= k < self.arrivals.len() ==> #[trigger] interleaving::has_memory(
                self.start,
                chunks,
                size,
                self.arrivals,
                self.times,
                k,
            )
        &&& forall|k: int|
            0 <= k < self.arrivals.len() ==> #[trigger] interleaving::has_room(
                self.start,
                chunks,
                size,
                self.arrivals,
                self.times,
                k,
            )
    }
}

/// A place in what the shards hand on: the `item`-th chunk of a shard.
pub struct Turn {
    pub shard: int,
    pub item: int,
}

/// Whether the turns take all of what the shards hand on, and nothing else.
pub open spec fn takes_everything(
    payloads: Seq<Seq<u8>>,
    size: nat,
    all: Seq<Shard>,
    turns: Seq<Turn>,
) -> bool {
    &&& forall|k: int|
        0 <= k < turns.len() ==> 0 <= (#[trigger] turns[k]).shard < all.len() && 0 <= turns[k].item
            < handed_on(payloads, size, all, turns[k].shard).len()
    &&& forall|t: Turn|
        0 <= t.shard < all.len() && 0 <= t.item < handed_on(payloads, size, all, t.shard).len()
            ==> #[trigger] turns.contains(t)
}

/// What the shard `s` hands on.
pub open spec fn handed_on(
    payloads: Seq<Seq<u8>>,
    size: nat,
    all: Seq<Shard>,
    s: int,
) -> Seq<Seq<u8>> {
    all[s].end(chunks_of_shard(payloads, all.len() as int, s), size).sent
}

/// What the shards hand on together, in the given order.
pub open spec fn merged(
    payloads: Seq<Seq<u8>>,
    size: nat,
    all: Seq<Shard>,
    turns: Seq<Turn>,
) -> Seq<Seq<u8>> {
    Seq::new(
        turns.len(),
        |k: int| handed_on(payloads, size, all, turns[k].shard)[turns[k].item],
    )
}

/// The chunks of a shard are chunks of the stream.
proof fn lemma_share(n: int, shards: int, s: int, j: int)
    requires
        shards > 0,
        0 <= s,
        0 <= j < share(n, shards, s),
    ensures
        0 <= s + j * shards < n,
{
    assert(j * shards <= n - s - 1) by (nonlinear_arith)
        requires
            shards > 0,
            0 <= j <= (n - s - 1) / shards,
    ;
    assert(j * shards >= 0) by (nonlinear_arith)
        requires
            shards > 0,
            j >= 0,
    ;
}

/// Every chunk of the stream belongs to the shard of its remainder.
proof fn lemma_has_shard(n: int, shards: int, i: int)
    requires
        shards > 0,
        0 <= i < n,
    ensures
        0 <= i % shards < shards,
        0 <= i / shards < share(n, shards, i % shards),
        i % shards + (i / shards) * shards == i,
{
    vstd::arithmetic::div_mod::lemma_fundamental_div_mod(i, shards);
    let s = i % shards;
    let j = i / shards;
    assert(shards * j == j * shards) by (nonlinear_arith);
    assert(0 <= s < shards && 0 <= s <= i && j >= 0) by (nonlinear_arith)
        requires
            shards > 0,
            i >= 0,
            s == i % shards,
            j == i / shards,
    ;
    assert(j <= (n - s - 1) / shards) by (nonlinear_arith)
        requires
            shards > 0,
            j * shards <= n - s - 1,
    ;
}

/// A chunk belongs to one shard, and has one place there.
proof fn lemma_one_shard(shards: int, s: int, j: int, t: int, k: int)
    requires
        0 <= s < shards,
        0 <= t < shards,
        s + j * shards == t + k * shards,
    ensures
        s == t,
        j == k,
{
    assert(j == k) by (nonlinear_arith)
        requires
            0 <= s < shards,
            0 <= t < shards,
            s + j * shards == t + k * shards,
    ;
}

/// The chunks of a shard can be told apart, and fit their headers as all do.
proof fn lemma_shard_is_sendable(payloads: Seq<Seq<u8>>, size: nat, shards: int, s: int)
    requires
        payloads.len() <= 0x1_0000_0000,
        size > 0,
        forall|i: int|
            0 <= i < payloads.len() ==> (#[trigger] transfer::chunks_of(payloads)[i]).fits(size),
        0 <= s < shards,
    ensures
        interleaving::sendable(chunks_of_shard(payloads, shards, s), size),
{
    let chunks = chunks_of_shard(payloads, shards, s);
    let n = payloads.len() as int;
    assert forall|c: int| 0 <= c < chunks.len() implies (#[trigger] chunks[c]).fits(size) by {
        lemma_share(n, shards, s, c);
        assert(chunks[c] == transfer::chunks_of(payloads)[s + c * shards]);
    }
    assert forall|c: int, d: int| 0 <= c < d < chunks.len() implies (#[trigger] chunks[c]).id() != (
    #[trigger] chunks[d]).id() by {
        lemma_share(n, shards, s, c);
        lemma_share(n, shards, s, d);
        let a = s + c * shards;
        let b = s + d * shards;
        if a == b {
            lemma_one_shard(shards, s, c, s, d);
        }
        assert((a as u64) as u32 == a);
        assert((b as u64) as u32 == b);
    }
}

/// In which order each of the first `count` shards hands its chunks on.
proof fn lemma_shard_orders(payloads: Seq<Seq<u8>>, size: nat, all: Seq<Shard>, count: int) -> (r: Seq<
    Seq<int>,
>)
    requires
        payloads.len() <= 0x1_0000_0000,
        size > 0,
        forall|i: int|
            0 <= i < payloads.len() ==> (#[trigger] transfer::chunks_of(payloads)[i]).fits(size),
        forall|s: int|
            0 <= s < all.len() ==> (#[trigger] all[s]).runs(
                chunks_of_shard(payloads, all.len() as int, s),
                size,
            ),
        0 <= count <= all.len(),
    ensures
        r.len() == count,
        forall|s: int|
            0 <= s < count ==> {
                let chunks = chunks_of_shard(payloads, all.len() as int, s);
                &&& delivery::covers(#[trigger] r[s], chunks.len())
                &&& all[s].end(chunks, size).sent == interleaving::delivered_in(chunks, r[s])
                &&& all[s].arrivals.no_duplicates() ==> all[s].end(chunks, size).chunks.len() == 0
            },
    decreases count,
{
    if count == 0 {
        return Seq::empty();
    }
    let before = lemma_shard_orders(payloads, size, all, count - 1);
    let s = count - 1;
    let shard = all[s];
    let chunks = chunks_of_shard(payloads, all.len() as int, s);
    lemma_shard_is_sendable(payloads, size, all.len() as int, s);
    assert(shard.runs(chunks, size));
    let order = interleaving::lemma_every_chunk_is_delivered_despite_repeats(
        shard.start,
        chunks,
        size,
        shard.arrivals,
        shard.times,
    );
    assert(shard.start.sent + interleaving::delivered_in(chunks, order)
        =~= interleaving::delivered_in(chunks, order));
    before.push(order)
}

/// What was sent arrives, too, where several reassemblers share the work: each
/// gets the fragments of the chunks whose number has its remainder, in any order
/// whatever and some perhaps more than once, and what they hand on is mixed in any
/// way. Once all came, the bytes written are the bytes read, each chunk was written
/// once, and none waits to be written; where no fragment came twice, nothing is left
/// in the reassemblers either. The fragments find their reassembler by themselves.
///
/// This holds under the same conditions as for a single reassembler.
pub proof fn lemma_sharded_stream_arrives(
    payloads: Seq<Seq<u8>>,
    size: nat,
    all: Seq<Shard>,
    turns: Seq<Turn>,
    o: OrdererModel,
)
    requires
        payloads.len() <= 0x1_0000_0000,
        size > 0,
        0 < all.len() <= u32::MAX,
        forall|i: int|
            0 <= i < payloads.len() ==> (#[trigger] transfer::chunks_of(payloads)[i]).fits(size),
        forall|s: int|
            0 <= s < all.len() ==> (#[trigger] all[s]).runs(
                chunks_of_shard(payloads, all.len() as int, s),
                size,
            ),
        takes_everything(payloads, size, all, turns),
        o.wf(),
        o.is_idle(),
        o.sent.len() == 0,
        o.next == 0,
        !o.closed,
        payloads.len() <= o.capacity,
        forall|k: int|
            0 <= k < turns.len() ==> #[trigger] sequence::is_uncrowded(
                o,
                merged(payloads, size, all, turns),
                k,
            ),
    ensures
        ({
            let out = sequence::after_pushes(o, merged(payloads, size, all, turns));
            &&& transfer::written(out.sent) == wire::concat(payloads)
            &&& out.sent.len() == payloads.len()
            &&& out.is_idle()
        }),
        forall|s: int|
            0 <= s < all.len() && (#[trigger] all[s]).arrivals.no_duplicates() ==> all[s].end(
                chunks_of_shard(payloads, all.len() as int, s),
                size,
            ).chunks.len() == 0,
        forall|s: int, a: Arrival|
            0 <= s < all.len() && interleaving::exists_in(
                chunks_of_shard(payloads, all.len() as int, s),
                size,
                a,
            ) ==> receive::verdict_on(
                #[trigger] interleaving::bytes_of(
                    chunks_of_shard(payloads, all.len() as int, s),
                    size,
                    a,
                ),
                all.len() as usize,
            ) == Datagram::Routed(s as usize),
{
    let n = payloads.len() as int;
    let shards = all.len() as int;
    let orders = lemma_shard_orders(payloads, size, all, shards);
    let order = Seq::new(
        turns.len(),
        |k: int| turns[k].shard + orders[turns[k].shard][turns[k].item] * shards,
    );
    assert forall|k: int| 0 <= k < order.len() implies 0 <= #[trigger] order[k] < n by {
        let t = turns[k];
        assert(delivery::covers(orders[t.shard], share(n, shards, t.shard)));
        lemma_share(n, shards, t.shard, orders[t.shard][t.item]);
    }
    assert forall|i: int| 0 <= i < n implies #[trigger] order.contains(i) by {
        lemma_has_shard(n, shards, i);
        let s = i % shards;
        assert(delivery::covers(orders[s], share(n, shards, s)));
        assert(orders[s].contains(i / shards));
        let item = choose|j: int| 0 <= j < orders[s].len() && orders[s][j] == i / shards;
        let t = Turn { shard: s, item };
        assert(turns.contains(t));
        let k = choose|k: int| 0 <= k < turns.len() && turns[k] == t;
        assert(order[k] == i);
    }
    assert(delivery::covers(order, payloads.len()));
    let delivered = transfer::delivered_stream(payloads);
    assert(merged(payloads, size, all, turns) =~= sequence::arranged(delivered, order)) by {
        assert forall|k: int| 0 <= k < turns.len() implies merged(payloads, size, all, turns)[k]
            == delivered[order[k]] by {
            let t = turns[k];
            let chunks = chunks_of_shard(payloads, shards, t.shard);
            assert(delivery::covers(orders[t.shard], chunks.len()));
            assert(0 <= order[k] < n);
            assert(chunks[orders[t.shard][t.item]].delivered() == delivered[order[k]]);
        }
    }
    transfer::lemma_chunks_are_written_in_order(o, payloads, order);
    assert forall|s: int| 0 <= s < all.len() && (
    #[trigger] all[s]).arrivals.no_duplicates() implies all[s].end(
        chunks_of_shard(payloads, shards, s),
        size,
    ).chunks.len() == 0 by {
        assert(delivery::covers(orders[s], share(n, shards, s)));
    }
    assert forall|s: int, a: Arrival|
        0 <= s < all.len() && interleaving::exists_in(
            chunks_of_shard(payloads, shards, s),
            size,
            a,
        ) implies receive::verdict_on(
        #[trigger] interleaving::bytes_of(chunks_of_shard(payloads, shards, s), size, a),
        all.len() as usize,
    ) == Datagram::Routed(s as usize) by {
        let chunks = chunks_of_shard(payloads, shards, s);
        receive::lemma_sent_fragments_are_routed(chunks, size, a, all.len() as usize);
        lemma_share(n, shards, s, a.chunk);
        let number = s + a.chunk * shards;
        assert(chunks[a.chunk].id() == number);
        vstd::arithmetic::div_mod::lemma_fundamental_div_mod_converse(
            number,
            shards,
            a.chunk,
            s,
        );
    }
}

} // verus!
