//! The sending half of a bounded channel.
//!
//! A component that hands items on owns an `Outlet`. Whoever drives the
//! component sets how much the far end has room for, and collects what was
//! handed on.

use std::collections::VecDeque;
use vstd::prelude::*;

verus! {

/// Why an item was not taken. The item comes back.
#[derive(Debug, PartialEq, Eq)]
pub enum TrySendError<T> {
    /// No room at the moment.
    Full(T),
    /// The far end is gone.
    Closed(T),
}

/// Items handed on and not collected yet, in order.
pub struct Outlet<T> {
    pub queue: VecDeque<T>,
    pub capacity: usize,
    pub closed: bool,
}

impl<T> Outlet<T> {
    /// Whether the next item will be taken.
    pub open spec fn takes(self) -> bool {
        !self.closed && self.queue@.len() < self.capacity
    }

    /// An open outlet with room for `capacity` items.
    pub fn new(capacity: usize) -> (r: Self)
        ensures
            r.queue@ == Seq::<T>::empty(),
            r.capacity == capacity,
            !r.closed,
    {
        Outlet { queue: VecDeque::new(), capacity, closed: false }
    }

    /// Hands `item` on without waiting.
    pub fn try_send(&mut self, item: T) -> (r: Result<(), TrySendError<T>>)
        ensures
            final(self).capacity == old(self).capacity,
            final(self).closed == old(self).closed,
            match r {
                Ok(()) => old(self).takes() && final(self).queue@ == old(self).queue@.push(item),
                Err(TrySendError::Closed(back)) => old(self).closed && back == item
                    && final(self).queue@ == old(self).queue@,
                Err(TrySendError::Full(back)) => !old(self).closed && old(self).queue@.len()
                    >= old(self).capacity && back == item && final(self).queue@
                    == old(self).queue@,
            },
    {
        if self.closed {
            return Err(TrySendError::Closed(item));
        }
        if self.queue.len() >= self.capacity {
            return Err(TrySendError::Full(item));
        }
        self.queue.push_back(item);
        Ok(())
    }

    /// Hands `item` on, waiting for room where there is none: the item joins
    /// the others whatever the capacity. It comes back if the far end is gone.
    pub fn send(&mut self, item: T) -> (r: Result<(), T>)
        ensures
            final(self).capacity == old(self).capacity,
            final(self).closed == old(self).closed,
            match r {
                Ok(()) => !old(self).closed && final(self).queue@ == old(self).queue@.push(item),
                Err(back) => old(self).closed && back == item && final(self).queue@
                    == old(self).queue@,
            },
    {
        if self.closed {
            return Err(item);
        }
        self.queue.push_back(item);
        Ok(())
    }

    /// Collects the oldest item that was handed on.
    pub fn try_recv(&mut self) -> (r: Option<T>)
        ensures
            final(self).capacity == old(self).capacity,
            final(self).closed == old(self).closed,
            match r {
                Some(item) => old(self).queue@.len() > 0 && item == old(self).queue@[0]
                    && final(self).queue@ == old(self).queue@.drop_first(),
                None => old(self).queue@.len() == 0 && final(self).queue@ == old(self).queue@,
            },
    {
        let r = self.queue.pop_front();
        assert(r is Some ==> self.queue@ =~= old(self).queue@.drop_first());
        r
    }

    /// Marks the far end as gone.
    pub fn close(&mut self)
        ensures
            final(self).closed,
            final(self).queue@ == old(self).queue@,
            final(self).capacity == old(self).capacity,
    {
        self.closed = true;
    }

    /// Sets how many items may wait to be collected.
    pub fn set_capacity(&mut self, capacity: usize)
        ensures
            final(self).capacity == capacity,
            final(self).queue@ == old(self).queue@,
            final(self).closed == old(self).closed,
    {
        self.capacity = capacity;
    }
}

} // verus!
