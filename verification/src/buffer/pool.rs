//! A pool of buffers of one size.

use vstd::prelude::*;

verus! {

/// Most buffers that a pool can manage.
pub open spec fn most_buffers() -> int {
    usize::MAX as int / 8
}

/// A buffer lent by a pool.
#[derive(Debug)]
pub struct PoolBuffer {
    pub buffer: Vec<u8>,
    /// Its place in the pool.
    pub index: usize,
}

impl PoolBuffer {
    /// Cuts off and returns the first `n` bytes.
    pub fn split_to(&mut self, n: usize) -> (r: Vec<u8>)
        requires
            n <= old(self).buffer@.len(),
        ensures
            r@ == old(self).buffer@.take(n as int),
            final(self).buffer@ == old(self).buffer@.skip(n as int),
            final(self).index == old(self).index,
    {
        let mut front = self.buffer.split_off(n);
        std::mem::swap(&mut front, &mut self.buffer);
        assert(front@ =~= old(self).buffer@.take(n as int));
        assert(self.buffer@ =~= old(self).buffer@.skip(n as int));
        front
    }

    /// The bytes, to be written to.
    pub fn as_bytes_mut(&mut self) -> (r: &mut Vec<u8>)
        ensures
            *r == old(self).buffer,
            final(self).buffer == *final(r),
            final(self).index == old(self).index,
    {
        &mut self.buffer
    }
}

/// Lends out buffers, each to one user at a time.
pub struct BufferPool {
    free_list: Vec<usize>,
    buffer_size: usize,
    total_buffers: usize,
}

impl BufferPool {
    /// The places that are free; the last is lent next.
    pub closed spec fn free(self) -> Seq<usize> {
        self.free_list@
    }

    /// How large each buffer is.
    pub closed spec fn size(self) -> usize {
        self.buffer_size
    }

    /// How many buffers there are.
    pub closed spec fn total(self) -> usize {
        self.total_buffers
    }

    /// Every free place is one of the pool's, and listed once.
    pub open spec fn wf(self) -> bool {
        &&& self.free().len() <= self.total()
        &&& self.free().no_duplicates()
        &&& forall|i: int| 0 <= i < self.free().len() ==> (#[trigger] self.free()[i]) < self.total()
    }

    /// A pool of `num_buffers` buffers of `buffer_size` bytes, all free.
    pub fn new(num_buffers: usize, buffer_size: usize) -> (r: Self)
        requires
            num_buffers <= most_buffers(),
        ensures
            r.wf(),
            r.total() == num_buffers,
            r.size() == buffer_size,
            r.free() == Seq::new(num_buffers as nat, |i: int| i as usize),
    {
        let mut free_list: Vec<usize> = Vec::new();
        let mut i: usize = 0;
        while i < num_buffers
            invariant
                i <= num_buffers,
                free_list@ == Seq::new(i as nat, |k: int| k as usize),
            decreases num_buffers - i,
        {
            free_list.push(i);
            i = i + 1;
            assert(free_list@ =~= Seq::new(i as nat, |k: int| k as usize));
        }
        BufferPool { free_list, buffer_size, total_buffers: num_buffers }
    }

    /// Lends a buffer full of zeros. `None` where all are lent: the caller has
    /// to wait for one to come back.
    pub fn acquire(&mut self) -> (r: Option<PoolBuffer>)
        requires
            old(self).wf(),
        ensures
            final(self).wf(),
            final(self).total() == old(self).total(),
            final(self).size() == old(self).size(),
            match r {
                Some(b) => {
                    &&& old(self).free().len() > 0
                    &&& b.index == old(self).free().last()
                    &&& b.buffer@ == Seq::new(old(self).size() as nat, |i: int| 0u8)
                    &&& final(self).free() == old(self).free().drop_last()
                },
                None => old(self).free().len() == 0 && final(self).free() == old(self).free(),
            },
    {
        match self.free_list.pop() {
            None => None,
            Some(index) => {
                let buffer: Vec<u8> = vec![0u8; self.buffer_size];
                assert(buffer@ =~= Seq::new(self.buffer_size as nat, |i: int| 0u8));
                Some(PoolBuffer { buffer, index })
            },
        }
    }

    /// Lends `n` buffers full of zeros at once. `None` where fewer are free: the
    /// caller has to wait, and has got none.
    pub fn acquire_many(&mut self, n: usize) -> (r: Option<Vec<PoolBuffer>>)
        requires
            old(self).wf(),
        ensures
            final(self).wf(),
            final(self).total() == old(self).total(),
            final(self).size() == old(self).size(),
            match r {
                Some(lent) => {
                    &&& n <= old(self).free().len()
                    &&& lent@.len() == n
                    &&& forall|i: int|
                        0 <= i < n ==> (#[trigger] lent@[i]).index == old(self).free()[old(
                            self,
                        ).free().len() - 1 - i] && lent@[i].buffer@ == Seq::new(
                            old(self).size() as nat,
                            |k: int| 0u8,
                        )
                    &&& final(self).free() == old(self).free().take(old(self).free().len() - n)
                },
                None => n > old(self).free().len() && final(self).free() == old(self).free(),
            },
    {
        if n > self.free_list.len() {
            return None;
        }
        let mut lent: Vec<PoolBuffer> = Vec::new();
        let ghost before = self.free();
        assert(before.take(before.len() as int) =~= before);
        while lent.len() < n
            invariant
                self.wf(),
                self.total() == old(self).total(),
                self.size() == old(self).size(),
                before == old(self).free(),
                lent@.len() <= n <= before.len(),
                self.free() == before.take(before.len() - lent@.len()),
                forall|i: int|
                    0 <= i < lent@.len() ==> (#[trigger] lent@[i]).index == before[before.len() - 1
                        - i] && lent@[i].buffer@ == Seq::new(self.size() as nat, |k: int| 0u8),
            decreases n - lent@.len(),
        {
            match self.acquire() {
                Some(b) => {
                    lent.push(b);
                    assert(self.free() =~= before.take(before.len() - lent@.len()));
                },
                None => {
                    return None;
                },
            }
        }
        Some(lent)
    }

    /// Takes back a buffer that was lent.
    pub fn release(&mut self, lent: PoolBuffer)
        requires
            old(self).wf(),
            lent.index < old(self).total(),
            !old(self).free().contains(lent.index),
        ensures
            final(self).wf(),
            final(self).total() == old(self).total(),
            final(self).size() == old(self).size(),
            final(self).free() == old(self).free().push(lent.index),
    {
        proof {
            let free = old(self).free().push(lent.index);
            assert(free.no_duplicates()) by {
                assert forall|i: int, j: int|
                    0 <= i < free.len() && 0 <= j < free.len() && i != j implies free[i]
                    != free[j] by {
                    if i == free.len() - 1 {
                        assert(old(self).free()[j] == free[j]);
                    } else if j == free.len() - 1 {
                        assert(old(self).free()[i] == free[i]);
                    }
                }
            }
            lemma_distinct_below(free, self.total());
        }
        self.free_list.push(lent.index);
    }

    /// How many buffers are lent.
    pub fn used_count(&self) -> (r: usize)
        requires
            self.wf(),
        ensures
            r == self.total() - self.free().len(),
    {
        self.total_buffers - self.free_list.len()
    }

    /// How many buffers there are.
    pub fn total_count(&self) -> (r: usize)
        ensures
            r == self.total(),
    {
        self.total_buffers
    }
}

/// Distinct numbers below `n` are at most `n`.
proof fn lemma_distinct_below(s: Seq<usize>, n: usize)
    requires
        s.no_duplicates(),
        forall|i: int| 0 <= i < s.len() ==> (#[trigger] s[i]) < n,
    ensures
        s.len() <= n,
{
    let t = s.map_values(|x: usize| x as int);
    assert(t.no_duplicates());
    t.unique_seq_to_set();
    let all = vstd::set_lib::set_int_range(0, n as int);
    vstd::set_lib::lemma_int_range(0, n as int);
    assert(t.to_set().subset_of(all)) by {
        assert forall|x: int| t.to_set().contains(x) implies all.contains(x) by {
            let i = choose|i: int| 0 <= i < t.len() && t[i] == x;
            assert(s[i] < n);
        }
    }
    vstd::set_lib::lemma_len_subset(t.to_set(), all);
}

/// A lent buffer that comes back is the next to be lent: the pool is then as it
/// was before.
pub proof fn lemma_release_undoes_acquire(free: Seq<usize>)
    requires
        free.len() > 0,
        free.no_duplicates(),
    ensures
        !free.drop_last().contains(free.last()),
        free.drop_last().push(free.last()) == free,
{
    if free.drop_last().contains(free.last()) {
        let i = choose|i: int| 0 <= i < free.len() - 1 && free.drop_last()[i] == free.last();
        assert(free[i] == free[free.len() - 1]);
    }
    assert(free.drop_last().push(free.last()) =~= free);
}

} // verus!
