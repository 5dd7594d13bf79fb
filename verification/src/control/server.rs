//! Accepting the control connection, with retries.

use vstd::prelude::*;

verus! {

/// The longest wait between two attempts, in nanoseconds.
pub const MAX_RETRY_DELAY_NS: u64 = 60_000_000_000;

/// What to do after an attempt timed out.
#[derive(Debug, Clone, Copy, PartialEq, Eq, Structural)]
pub enum RetryAction {
    /// Wait for this many nanoseconds, then try again.
    RetryAfter(u64),
    /// Report the timeout.
    GiveUp,
}

/// Twice the delay, but no more than the longest.
pub open spec fn doubled(delay_ns: u64) -> u64 {
    if delay_ns * 2 <= MAX_RETRY_DELAY_NS {
        (delay_ns * 2) as u64
    } else {
        MAX_RETRY_DELAY_NS
    }
}

/// The delay after the `k`-th attempt, counted from 1.
pub open spec fn delay_after(initial_ns: u64, k: nat) -> u64
    decreases k,
{
    if k <= 1 {
        initial_ns
    } else {
        doubled(delay_after(initial_ns, (k - 1) as nat))
    }
}

/// Attempts with exponential backoff.
#[derive(Debug, Clone, Copy, PartialEq, Eq, Structural)]
pub struct RetrySchedule {
    /// The attempt that comes next or is under way, counted from 1.
    pub attempt: u32,
    /// How many attempts there are.
    pub max_retries: u32,
    /// The delay after the attempt.
    pub delay_ns: u64,
}

impl RetrySchedule {
    /// Whether the attempts so far followed the delays from `initial_ns` on.
    pub open spec fn on_schedule(self, initial_ns: u64) -> bool {
        self.attempt >= 1 && self.delay_ns == delay_after(initial_ns, self.attempt as nat)
    }

    /// A schedule of `max_retries` attempts.
    pub fn new(max_retries: u32, initial_delay_ns: u64) -> (r: Self)
        ensures
            r == (RetrySchedule { attempt: 1, max_retries, delay_ns: initial_delay_ns }),
            r.on_schedule(initial_delay_ns),
    {
        RetrySchedule { attempt: 1, max_retries, delay_ns: initial_delay_ns }
    }

    /// Whether there is an attempt to make; with no attempts at all the
    /// outcome is a timeout.
    pub fn may_try(&self) -> (r: bool)
        ensures
            r == (self.attempt <= self.max_retries),
    {
        self.attempt <= self.max_retries
    }

    /// An attempt timed out.
    pub fn on_timeout(&mut self) -> (r: RetryAction)
        requires
            old(self).attempt <= old(self).max_retries,
        ensures
            if old(self).attempt == old(self).max_retries {
                r == RetryAction::GiveUp && *final(self) == *old(self)
            } else {
                r == RetryAction::RetryAfter(old(self).delay_ns) && *final(self)
                    == (RetrySchedule {
                    attempt: (old(self).attempt + 1) as u32,
                    delay_ns: doubled(old(self).delay_ns),
                    ..*old(self)
                })
            },
            forall|initial: u64|
                #[trigger] old(self).on_schedule(initial) ==> final(self).on_schedule(initial) && (
                r matches RetryAction::RetryAfter(wait) ==> wait == delay_after(
                    initial,
                    old(self).attempt as nat,
                )),
    {
        if self.attempt == self.max_retries {
            return RetryAction::GiveUp;
        }
        let delay: u64 = self.delay_ns;
        self.attempt = self.attempt + 1;
        self.delay_ns = if delay <= MAX_RETRY_DELAY_NS / 2 {
            delay * 2
        } else {
            MAX_RETRY_DELAY_NS
        };
        RetryAction::RetryAfter(delay)
    }
}

/// The delays double from one attempt to the next until they reach the longest
/// delay, and then stay there.
pub proof fn lemma_delays_double(initial_ns: u64, k: nat)
    requires
        k >= 1,
    ensures
        delay_after(initial_ns, k + 1) == doubled(delay_after(initial_ns, k)),
        delay_after(initial_ns, k + 1) <= MAX_RETRY_DELAY_NS,
        delay_after(initial_ns, k) == MAX_RETRY_DELAY_NS ==> delay_after(initial_ns, k + 1)
            == MAX_RETRY_DELAY_NS,
        initial_ns <= MAX_RETRY_DELAY_NS ==> delay_after(initial_ns, k) <= delay_after(
            initial_ns,
            k + 1,
        ),
    decreases k,
{
    if k > 1 {
        lemma_delays_double(initial_ns, (k - 1) as nat);
    }
}

} // verus!
