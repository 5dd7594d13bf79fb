//! Fragments travel to the queue manager in batches.

use crate::wire;
use vstd::prelude::*;

verus! {

/// How many fragments a full batch has.
pub const DEFAULT_BATCH_SIZE: usize = 64;

/// A batch of fragments. The end of the stream is told by closing the channel.
pub type FragmentOrEos = Vec<Vec<u8>>;

/// The full batches that `all` makes, in order.
pub open spec fn full_batches(all: Seq<Seq<u8>>) -> Seq<Seq<Seq<u8>>> {
    Seq::new(
        all.len() / DEFAULT_BATCH_SIZE as nat,
        |i: int| all.subrange(i * DEFAULT_BATCH_SIZE, i * DEFAULT_BATCH_SIZE + DEFAULT_BATCH_SIZE),
    )
}

/// What is left of `all` after the full batches.
pub open spec fn left_over(all: Seq<Seq<u8>>) -> Seq<Seq<u8>> {
    all.skip((all.len() / DEFAULT_BATCH_SIZE as nat) * DEFAULT_BATCH_SIZE)
}

/// The batches that `all` makes once nothing more comes: the full ones, then
/// the rest if there is any.
pub open spec fn all_batches(all: Seq<Seq<u8>>) -> Seq<Seq<Seq<u8>>> {
    if left_over(all).len() == 0 {
        full_batches(all)
    } else {
        full_batches(all).push(left_over(all))
    }
}

/// The fragments in each batch.
pub open spec fn batch_views(batches: Seq<FragmentOrEos>) -> Seq<Seq<Seq<u8>>> {
    Seq::new(batches.len(), |i: int| wire::views(batches[i]@))
}

/// All fragments of the batches, in order.
pub open spec fn unbatched(batches: Seq<Seq<Seq<u8>>>) -> Seq<Seq<u8>>
    decreases batches.len(),
{
    if batches.len() == 0 {
        Seq::empty()
    } else {
        unbatched(batches.drop_last()) + batches.last()
    }
}

/// More fragments leave the batches that are full as they are.
proof fn lemma_full_batches_prefix(all: Seq<Seq<u8>>, n: int)
    requires
        0 <= n <= all.len(),
    ensures
        full_batches(all.take(n)) == full_batches(all).take(n / DEFAULT_BATCH_SIZE as int),
{
    let few = full_batches(all.take(n));
    let some = full_batches(all).take(n / DEFAULT_BATCH_SIZE as int);
    assert forall|i: int| 0 <= i < few.len() implies few[i] == some[i] by {
        assert(few[i] =~= some[i]);
    }
    assert(few =~= some);
}

/// The first `k` full batches hold the first fragments.
proof fn lemma_unbatched_prefix(all: Seq<Seq<u8>>, k: int)
    requires
        0 <= k <= full_batches(all).len(),
    ensures
        unbatched(full_batches(all).take(k)) == all.take(k * DEFAULT_BATCH_SIZE),
    decreases k,
{
    let batches = full_batches(all);
    if k == 0 {
        assert(unbatched(batches.take(0)) =~= all.take(0));
    } else {
        lemma_unbatched_prefix(all, k - 1);
        assert(batches.take(k).drop_last() =~= batches.take(k - 1));
        assert(all.take((k - 1) * DEFAULT_BATCH_SIZE) + batches[k - 1] =~= all.take(
            k * DEFAULT_BATCH_SIZE,
        ));
    }
}

/// Batching loses, repeats and reorders nothing; every batch but the last is
/// full, and none is empty.
pub proof fn lemma_batches_hold_everything(all: Seq<Seq<u8>>)
    ensures
        unbatched(all_batches(all)) == all,
        unbatched(full_batches(all)) + left_over(all) == all,
        left_over(all).len() < DEFAULT_BATCH_SIZE,
        forall|i: int|
            0 <= i < all_batches(all).len() ==> 0 < (#[trigger] all_batches(all)[i]).len()
                <= DEFAULT_BATCH_SIZE,
        forall|i: int|
            0 <= i < all_batches(all).len() - 1 ==> (#[trigger] all_batches(all)[i]).len()
                == DEFAULT_BATCH_SIZE,
        forall|i: int|
            0 <= i < all_batches(all).len() - 1 ==> (#[trigger] all_batches(all)[i]).len() == 64,
        all_batches(all).len() == (all.len() + 63) / 64,
        full_batches(all).len() == all.len() / 64,
{
    let k = full_batches(all).len() as int;
    lemma_unbatched_prefix(all, k);
    assert(full_batches(all).take(k) =~= full_batches(all));
    assert(all.take(k * DEFAULT_BATCH_SIZE) + left_over(all) =~= all);
    if left_over(all).len() > 0 {
        assert(all_batches(all).drop_last() =~= full_batches(all));
    }
}

/// Batching what was left over together with more fragments goes on where the
/// batches before ended.
pub proof fn lemma_batches_continue(before: Seq<Seq<u8>>, more: Seq<Seq<u8>>)
    ensures
        full_batches(before + more) == full_batches(before) + full_batches(
            left_over(before) + more,
        ),
        left_over(before + more) == left_over(left_over(before) + more),
{
    let all = before + more;
    let tail = left_over(before) + more;
    let size = DEFAULT_BATCH_SIZE as int;
    let q = before.len() as int / size;
    assert(all.skip(q * size) =~= tail);
    assert(all.len() == q * size + tail.len());
    assert(all.len() as int / size == q + tail.len() as int / size);
    let joint = full_batches(before) + full_batches(tail);
    assert forall|i: int| 0 <= i < joint.len() implies full_batches(all)[i] == joint[i] by {
        assert(full_batches(all)[i] =~= joint[i]);
    }
    assert(full_batches(all) =~= joint);
    assert(left_over(all) =~= left_over(tail));
}

/// Collects fragments into batches.
pub struct Batcher {
    batch: FragmentOrEos,
}

impl Batcher {
    /// The fragments of the batch that is not full yet.
    pub closed spec fn pending(self) -> Seq<Seq<u8>> {
        wire::views(self.batch@)
    }

    /// Nothing collected yet.
    pub fn new() -> (r: Self)
        ensures
            r.pending() == Seq::<Seq<u8>>::empty(),
    {
        let r = Batcher { batch: Vec::new() };
        assert(wire::views(r.batch@) =~= Seq::empty());
        r
    }

    /// Adds fragments. Returns the batches that are full.
    pub fn add(&mut self, fragments: Vec<Vec<u8>>) -> (r: Vec<FragmentOrEos>)
        requires
            old(self).pending().len() < DEFAULT_BATCH_SIZE,
        ensures
            batch_views(r@) == full_batches(old(self).pending() + wire::views(fragments@)),
            final(self).pending() == left_over(old(self).pending() + wire::views(fragments@)),
            final(self).pending().len() < DEFAULT_BATCH_SIZE,
    {
        let ghost all = old(self).pending() + wire::views(fragments@);
        let ghost given = fragments@;
        let mut out: Vec<FragmentOrEos> = Vec::new();
        proof {
            assert(all.take(old(self).pending().len() as int) =~= old(self).pending());
            assert(batch_views(out@) =~= full_batches(old(self).pending()));
            assert(left_over(old(self).pending()) =~= old(self).pending());
        }
        for fragment in iter: fragments
            invariant
                all == old(self).pending() + wire::views(given),
                old(self).pending().len() < DEFAULT_BATCH_SIZE,
                iter.seq() == given,
                batch_views(out@) == full_batches(
                    all.take(old(self).pending().len() + iter.index()),
                ),
                self.pending() == left_over(all.take(old(self).pending().len() + iter.index())),
                self.pending().len() < DEFAULT_BATCH_SIZE,
        {
            let ghost n = old(self).pending().len() + iter.index();
            let ghost before = all.take(n);
            let ghost after = all.take(n + 1);
            let ghost q = before.len() / DEFAULT_BATCH_SIZE as nat;
            proof {
                wire::lemma_views_push(self.batch@, fragment);
                assert(fragment == given[iter.index() as int]);
                assert(all[n] == fragment@);
                assert(before == after.take(n));
                lemma_full_batches_prefix(after, n);
            }
            self.batch.push(fragment);
            assert(self.pending() =~= after.skip(q * DEFAULT_BATCH_SIZE));
            if self.batch.len() >= DEFAULT_BATCH_SIZE {
                let mut full: FragmentOrEos = Vec::new();
                full.append(&mut self.batch);
                proof {
                    assert(after.len() == (q + 1) * DEFAULT_BATCH_SIZE);
                    assert(after.len() / DEFAULT_BATCH_SIZE as nat == q + 1);
                    assert(wire::views(full@) =~= full_batches(after)[q as int]);
                    assert(batch_views(out@.push(full)) =~= batch_views(out@).push(
                        wire::views(full@),
                    ));
                    assert(full_batches(after) =~= full_batches(before).push(
                        full_batches(after)[q as int],
                    ));
                    assert(self.pending() =~= left_over(after));
                }
                out.push(full);
            } else {
                proof {
                    assert(after.len() / DEFAULT_BATCH_SIZE as nat == q);
                    assert(full_batches(after) =~= full_batches(before));
                }
            }
        }
        assert(all.take((old(self).pending().len() + given.len()) as int) =~= all);
        out
    }

    /// The batch that is not full, if it holds anything, for the end of the
    /// stream.
    pub fn flush(&mut self) -> (r: Option<FragmentOrEos>)
        ensures
            final(self).pending() == Seq::<Seq<u8>>::empty(),
            match r {
                Some(batch) => old(self).pending().len() > 0 && wire::views(batch@)
                    == old(self).pending(),
                None => old(self).pending().len() == 0,
            },
    {
        if self.batch.len() == 0 {
            assert(self.pending() =~= Seq::empty());
            return None;
        }
        let mut last: FragmentOrEos = Vec::new();
        last.append(&mut self.batch);
        assert(wire::views(last@) =~= old(self).pending());
        assert(self.pending() =~= Seq::empty());
        Some(last)
    }
}

} // verus!
