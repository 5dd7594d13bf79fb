//! The sequence numbers that were passed over.

use vstd::prelude::*;

verus! {

/// The numbers from `low` up to the one before `high`.
pub open spec fn between(low: u64, high: u64) -> Set<u64> {
    Set::new(|n: u64| low <= n < high)
}

/// Whether `n` lies in one of the ranges.
spec fn lies_in(ranges: Seq<(u64, u64)>, n: u64) -> bool {
    exists|i: int| 0 <= i < ranges.len() && (#[trigger] ranges[i]).0 <= n < ranges[i].1
}

/// A set of sequence numbers, held as ranges: what was passed over may be long.
pub struct Gaps {
    ranges: Vec<(u64, u64)>,
}

impl View for Gaps {
    type V = Set<u64>;

    closed spec fn view(&self) -> Set<u64> {
        Set::new(|n: u64| lies_in(self.ranges@, n))
    }
}

impl Gaps {
    /// No number.
    pub fn new() -> (r: Self)
        ensures
            r@ == Set::<u64>::empty(),
    {
        let r = Gaps { ranges: Vec::new() };
        assert(r@ =~= Set::<u64>::empty());
        r
    }

    /// Whether `n` was passed over.
    pub fn contains(&self, n: u64) -> (r: bool)
        ensures
            r == self@.contains(n),
    {
        let mut i: usize = 0;
        while i < self.ranges.len()
            invariant
                i <= self.ranges@.len(),
                forall|j: int|
                    0 <= j < i ==> !((#[trigger] self.ranges@[j]).0 <= n < self.ranges@[j].1),
            decreases self.ranges@.len() - i,
        {
            let (low, high): (u64, u64) = self.ranges[i];
            if low <= n && n < high {
                assert(lies_in(self.ranges@, n)) by {
                    assert(self.ranges@[i as int].0 <= n < self.ranges@[i as int].1);
                }
                return true;
            }
            i = i + 1;
        }
        false
    }

    /// With the numbers from `low` up to the one before `high`.
    pub fn add_range(&mut self, low: u64, high: u64)
        ensures
            final(self)@ == old(self)@.union(between(low, high)),
    {
        if low >= high {
            assert(self@ =~= old(self)@.union(between(low, high)));
            return;
        }
        let ghost before = self.ranges@;
        self.ranges.push((low, high));
        proof {
            let after = self.ranges@;
            assert forall|n: u64| lies_in(after, n) <==> (lies_in(before, n) || low <= n < high) by {
                if lies_in(before, n) {
                    let i = choose|i: int|
                        0 <= i < before.len() && (#[trigger] before[i]).0 <= n < before[i].1;
                    assert(after[i] == before[i]);
                }
                if low <= n < high {
                    assert(after[before.len() as int] == (low, high));
                }
                if lies_in(after, n) {
                    let i = choose|i: int|
                        0 <= i < after.len() && (#[trigger] after[i]).0 <= n < after[i].1;
                    if i < before.len() {
                        assert(after[i] == before[i]);
                    }
                }
            }
            assert(self@ =~= old(self)@.union(between(low, high)));
        }
    }

    /// Without `n`.
    pub fn remove(&mut self, n: u64)
        ensures
            final(self)@ == old(self)@.remove(n),
    {
        let mut rest = Gaps::new();
        let mut i: usize = 0;
        while i < self.ranges.len()
            invariant
                i <= self.ranges@.len(),
                forall|m: u64| #[trigger]
                    rest@.contains(m) <==> (m != n && lies_in(self.ranges@.take(i as int), m)),
            decreases self.ranges@.len() - i,
        {
            let ghost held = rest@;
            let (low, high): (u64, u64) = self.ranges[i];
            if low <= n && n < high {
                rest.add_range(low, n);
                rest.add_range(n + 1, high);
            } else {
                rest.add_range(low, high);
            }
            proof {
                let before = self.ranges@.take(i as int);
                let after = self.ranges@.take(i + 1);
                assert forall|m: u64| #[trigger]
                    rest@.contains(m) <==> (m != n && lies_in(after, m)) by {
                    assert(lies_in(after, m) <==> (lies_in(before, m) || low <= m < high)) by {
                        if lies_in(before, m) {
                            let k = choose|k: int|
                                0 <= k < before.len() && (#[trigger] before[k]).0 <= m
                                    < before[k].1;
                            assert(after[k] == before[k]);
                        }
                        assert(after[i as int] == (low, high));
                        if lies_in(after, m) {
                            let k = choose|k: int|
                                0 <= k < after.len() && (#[trigger] after[k]).0 <= m < after[k].1;
                            if k < before.len() {
                                assert(after[k] == before[k]);
                            }
                        }
                    }
                    assert(held.contains(m) <==> (m != n && lies_in(before, m)));
                    if low <= n < high {
                        assert(rest@ == held.union(between(low, n)).union(
                            between((n + 1) as u64, high),
                        ));
                        assert(between(low, n).contains(m) <==> low <= m < n);
                        assert(between((n + 1) as u64, high).contains(m) <==> n < m < high);
                    } else {
                        assert(between(low, high).contains(m) <==> low <= m < high);
                    }
                }
            }
            i = i + 1;
        }
        assert(self.ranges@.take(i as int) =~= self.ranges@);
        assert(rest@ =~= old(self)@.remove(n));
        *self = rest;
    }
}

} // verus!
