//! Whether the transfer is to stop.

use crate::error::BraidError;
use vstd::prelude::*;

verus! {

/// Remembers that a shutdown was asked for.
#[derive(Debug, Clone, Copy, PartialEq, Eq, Structural)]
pub struct ShutdownManager {
    flag: bool,
}

impl ShutdownManager {
    /// Whether a shutdown was asked for.
    pub closed spec fn requested(self) -> bool {
        self.flag
    }

    /// No shutdown was asked for yet.
    pub fn new() -> (r: Self)
        ensures
            !r.requested(),
    {
        ShutdownManager { flag: false }
    }

    /// Whether a shutdown was asked for.
    pub fn is_shutting_down(&self) -> (r: bool)
        ensures
            r == self.requested(),
    {
        self.flag
    }

    /// An error once a shutdown was asked for.
    pub fn check(&self) -> (r: Result<(), BraidError>)
        ensures
            match r {
                Ok(()) => !self.requested(),
                Err(e) => self.requested() && e is Shutdown,
            },
    {
        if self.flag {
            Err(BraidError::Shutdown)
        } else {
            Ok(())
        }
    }

    /// Asks for a shutdown. Tells whether this is the first time: then those who
    /// wait for it are to be told.
    pub fn initiate(&mut self) -> (r: bool)
        ensures
            final(self).requested(),
            r == !old(self).requested(),
            old(self).requested() ==> *final(self) == *old(self),
    {
        let first = !self.flag;
        self.flag = true;
        first
    }
}

impl Default for ShutdownManager {
    fn default() -> (r: Self)
        ensures
            !r.requested(),
    {
        ShutdownManager::new()
    }
}

} // verus!
