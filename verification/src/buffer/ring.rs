//! A queue of bounded length.

use std::collections::VecDeque;
use vstd::prelude::*;

verus! {

/// Values in the order in which they came, up to a fixed number of them.
pub struct RingBuffer<T> {
    buffer: VecDeque<T>,
    capacity: usize,
}

impl<T> RingBuffer<T> {
    /// The values, oldest first.
    pub closed spec fn values(self) -> Seq<T> {
        self.buffer@
    }

    /// How many values there is room for.
    pub closed spec fn room(self) -> usize {
        self.capacity
    }

    /// There is room for at least one value, and no more values than that.
    pub open spec fn wf(self) -> bool {
        0 < self.room() && self.values().len() <= self.room()
    }

    /// An empty ring with room for `capacity` values.
    pub fn new(capacity: usize) -> (r: Self)
        requires
            capacity > 0,
        ensures
            r.wf(),
            r.values() == Seq::<T>::empty(),
            r.room() == capacity,
    {
        RingBuffer { buffer: VecDeque::new(), capacity }
    }

    /// Puts a value in. It comes back where the ring is full: the caller has to
    /// wait for a value to be taken out.
    pub fn push(&mut self, value: T) -> (r: Result<(), T>)
        requires
            old(self).wf(),
        ensures
            final(self).wf(),
            final(self).room() == old(self).room(),
            match r {
                Ok(()) => old(self).values().len() < old(self).room() && final(self).values()
                    == old(self).values().push(value),
                Err(back) => old(self).values().len() == old(self).room() && back == value
                    && final(self).values() == old(self).values(),
            },
            forall|uses: Seq<RingUse<T>>| #[trigger]
                left_in(uses, old(self).room() as nat) == old(self).values() ==> left_in(
                    uses.push(RingUse::Push(value)),
                    old(self).room() as nat,
                ) == final(self).values(),
    {
        proof {
            lemma_left_after::<T>(self.room() as nat, value);
        }
        if self.buffer.len() == self.capacity {
            return Err(value);
        }
        self.buffer.push_back(value);
        Ok(())
    }

    /// Takes the oldest value out. `None` where there is none: the caller has to
    /// wait for one to be put in.
    pub fn pop(&mut self) -> (r: Option<T>)
        requires
            old(self).wf(),
        ensures
            final(self).wf(),
            final(self).room() == old(self).room(),
            match r {
                Some(value) => old(self).values().len() > 0 && value == old(self).values()[0]
                    && final(self).values() == old(self).values().drop_first(),
                None => old(self).values().len() == 0 && final(self).values()
                    == old(self).values(),
            },
            forall|uses: Seq<RingUse<T>>| #[trigger]
                left_in(uses, old(self).room() as nat) == old(self).values() ==> left_in(
                    uses.push(RingUse::Pop),
                    old(self).room() as nat,
                ) == final(self).values(),
    {
        proof {
            lemma_left_after_pop::<T>(self.room() as nat);
        }
        let r = self.buffer.pop_front();
        assert(r is Some ==> self.buffer@ =~= old(self).buffer@.drop_first());
        r
    }

    /// Whether the ring is filled to at least `parts` parts of `whole`.
    pub fn is_near_capacity(&self, parts: u32, whole: u32) -> (r: bool)
        requires
            self.wf(),
            parts <= whole,
            whole > 0,
        ensures
            r == (self.values().len() * whole >= parts * self.room()),
    {
        let filled: u128 = self.buffer.len() as u128;
        let room: u128 = self.capacity as u128;
        assert(filled * whole <= 0xffff_ffff_ffff_ffff * 0xffff_ffff) by (nonlinear_arith)
            requires
                0 <= filled <= 0xffff_ffff_ffff_ffff,
                0 <= whole <= 0xffff_ffff,
        ;
        assert(parts * room <= 0xffff_ffff * 0xffff_ffff_ffff_ffff) by (nonlinear_arith)
            requires
                0 <= room <= 0xffff_ffff_ffff_ffff,
                0 <= parts <= 0xffff_ffff,
        ;
        filled * (whole as u128) >= (parts as u128) * room
    }

    /// How many values there are.
    pub fn len(&self) -> (r: usize)
        ensures
            r == self.values().len(),
    {
        self.buffer.len()
    }

    /// Whether there is no value.
    pub fn is_empty(&self) -> (r: bool)
        ensures
            r == (self.values().len() == 0),
    {
        self.buffer.len() == 0
    }
}

/// One use of a ring: a value is put in, or one is taken out.
pub enum RingUse<T> {
    Push(T),
    Pop,
}

/// What is in the ring after the uses that succeeded, oldest first.
pub open spec fn left_in<T>(uses: Seq<RingUse<T>>, room: nat) -> Seq<T>
    decreases uses.len(),
{
    if uses.len() == 0 {
        Seq::empty()
    } else {
        let before = left_in(uses.drop_last(), room);
        match uses.last() {
            RingUse::Push(value) => if before.len() < room {
                before.push(value)
            } else {
                before
            },
            RingUse::Pop => if before.len() > 0 {
                before.drop_first()
            } else {
                before
            },
        }
    }
}

proof fn lemma_left_after<T>(room: nat, value: T)
    ensures
        forall|uses: Seq<RingUse<T>>|
            left_in(#[trigger] uses.push(RingUse::Push(value)), room) == (if left_in(
                uses,
                room,
            ).len() < room {
                left_in(uses, room).push(value)
            } else {
                left_in(uses, room)
            }),
{
    assert forall|uses: Seq<RingUse<T>>|
        left_in(#[trigger] uses.push(RingUse::Push(value)), room) == (if left_in(uses, room).len()
            < room {
            left_in(uses, room).push(value)
        } else {
            left_in(uses, room)
        }) by {
        assert(uses.push(RingUse::Push(value)).drop_last() =~= uses);
    }
}

proof fn lemma_left_after_pop<T>(room: nat)
    ensures
        forall|uses: Seq<RingUse<T>>|
            left_in(#[trigger] uses.push(RingUse::Pop), room) == (if left_in(uses, room).len()
                > 0 {
                left_in(uses, room).drop_first()
            } else {
                left_in(uses, room)
            }),
{
    assert forall|uses: Seq<RingUse<T>>|
        left_in(#[trigger] uses.push(RingUse::Pop), room) == (if left_in(uses, room).len() > 0 {
            left_in(uses, room).drop_first()
        } else {
            left_in(uses, room)
        }) by {
        assert(uses.push(RingUse::Pop).drop_last() =~= uses);
    }
}

/// What was put in by the uses, in order.
pub open spec fn put_in<T>(uses: Seq<RingUse<T>>, room: nat) -> Seq<T>
    decreases uses.len(),
{
    if uses.len() == 0 {
        Seq::empty()
    } else {
        let so_far = put_in(uses.drop_last(), room);
        match uses.last() {
            RingUse::Push(value) if left_in(uses.drop_last(), room).len() < room => so_far.push(
                value,
            ),
            _ => so_far,
        }
    }
}

/// What was taken out by the uses, in order.
pub open spec fn taken_out<T>(uses: Seq<RingUse<T>>, room: nat) -> Seq<T>
    decreases uses.len(),
{
    if uses.len() == 0 {
        Seq::empty()
    } else {
        let so_far = taken_out(uses.drop_last(), room);
        let before = left_in(uses.drop_last(), room);
        if uses.last() is Pop && before.len() > 0 {
            so_far.push(before[0])
        } else {
            so_far
        }
    }
}

/// First in, first out: whatever the uses, what was taken out, followed by what
/// is left, is what was put in, and never is more left than there is room for.
pub proof fn lemma_first_in_first_out<T>(uses: Seq<RingUse<T>>, room: nat)
    ensures
        taken_out(uses, room) + left_in(uses, room) == put_in(uses, room),
        left_in(uses, room).len() <= room,
    decreases uses.len(),
{
    if uses.len() == 0 {
        assert(taken_out(uses, room) + left_in(uses, room) =~= put_in(uses, room));
    } else {
        let rest = uses.drop_last();
        lemma_first_in_first_out(rest, room);
        let before = left_in(rest, room);
        match uses.last() {
            RingUse::Push(value) => {
                if before.len() < room {
                    assert((taken_out(rest, room) + before).push(value) =~= taken_out(rest, room)
                        + before.push(value));
                }
            },
            RingUse::Pop => {
                if before.len() > 0 {
                    assert(taken_out(rest, room).push(before[0]) + before.drop_first()
                        =~= taken_out(rest, room) + before);
                }
            },
        }
    }
}

} // verus!
