//! Which channels still work.

use crate::time;
use std::time::{Duration, Instant};
use vstd::prelude::*;

verus! {

/// Health of one channel.
#[derive(Debug)]
pub struct ChannelState {
    /// Whether the channel is in use.
    pub alive: bool,
    /// Failures since the last success.
    pub consecutive_failures: u32,
    /// All failures.
    pub total_failures: u64,
    /// When a send last succeeded.
    pub last_success: Option<Instant>,
    /// When a send last failed.
    pub last_failure: Option<Instant>,
}

impl Default for ChannelState {
    fn default() -> (r: Self)
        ensures
            r == fresh_channel(),
            r.alive,
            r.consecutive_failures == 0 && r.total_failures == 0,
            r.last_success is None && r.last_failure is None,
    {
        ChannelState {
            alive: true,
            consecutive_failures: 0,
            total_failures: 0,
            last_success: None,
            last_failure: None,
        }
    }
}

/// A channel that was not used yet.
pub open spec fn fresh_channel() -> ChannelState {
    ChannelState {
        alive: true,
        consecutive_failures: 0,
        total_failures: 0,
        last_success: None,
        last_failure: None,
    }
}

/// How many of the channels are alive.
pub open spec fn alive_among(channels: Seq<ChannelState>) -> nat
    decreases channels.len(),
{
    if channels.len() == 0 {
        0
    } else {
        alive_among(channels.drop_last()) + if channels.last().alive {
            1nat
        } else {
            0nat
        }
    }
}

/// Health of all channels.
#[derive(Debug)]
pub struct ChannelHealth {
    pub channels: Vec<ChannelState>,
    /// How many failures in a row make a channel dead.
    pub max_consecutive_failures: u32,
    /// How long a channel may go without a success.
    pub activity_timeout: Duration,
}

impl ChannelHealth {
    /// Whether only the channel at `i` may differ from `before`.
    pub open spec fn same_but(self, before: ChannelHealth, i: int) -> bool {
        &&& self.channels@.len() == before.channels@.len()
        &&& self.max_consecutive_failures == before.max_consecutive_failures
        &&& self.activity_timeout == before.activity_timeout
        &&& forall|j: int|
            0 <= j < self.channels@.len() && j != i ==> #[trigger] self.channels@[j]
                == before.channels@[j]
    }

    /// Health of `channel_count` channels that were not used yet.
    pub fn new(
        channel_count: usize,
        max_consecutive_failures: u32,
        activity_timeout: Duration,
    ) -> (r: Self)
        ensures
            r.channels@ == Seq::new(channel_count as nat, |i: int| fresh_channel()),
            r.channels@.len() == channel_count,
            forall|i: int|
                0 <= i < channel_count ==> {
                    let c = #[trigger] r.channels@[i];
                    &&& c.alive
                    &&& c.consecutive_failures == 0 && c.total_failures == 0
                    &&& c.last_success is None && c.last_failure is None
                },
            r.max_consecutive_failures == max_consecutive_failures,
            r.activity_timeout == activity_timeout,
    {
        let mut channels: Vec<ChannelState> = Vec::new();
        let mut i: usize = 0;
        while i < channel_count
            invariant
                i <= channel_count,
                channels@ == Seq::new(i as nat, |j: int| fresh_channel()),
            decreases channel_count - i,
        {
            channels.push(ChannelState::default());
            i = i + 1;
            assert(channels@ =~= Seq::new(i as nat, |j: int| fresh_channel()));
        }
        ChannelHealth { channels, max_consecutive_failures, activity_timeout }
    }

    /// A send on the channel succeeded: it is alive, whatever was before. An
    /// unknown channel is ignored.
    pub fn record_success(&mut self, channel_index: usize)
        ensures
            final(self).same_but(*old(self), channel_index as int),
            final(self).channels@.len() == old(self).channels@.len(),
            final(self).max_consecutive_failures == old(self).max_consecutive_failures,
            final(self).activity_timeout == old(self).activity_timeout,
            forall|j: int|
                0 <= j < old(self).channels@.len() && j != channel_index ==> (
                #[trigger] final(self).channels@[j]) == old(self).channels@[j],
            channel_index < old(self).channels@.len() ==> {
                let before = old(self).channels@[channel_index as int];
                let after = final(self).channels@[channel_index as int];
                &&& after.last_success is Some
                &&& after == (ChannelState {
                    alive: true,
                    consecutive_failures: 0,
                    last_success: after.last_success,
                    ..before
                })
            },
    {
        if channel_index < self.channels.len() {
            self.channels[channel_index].alive = true;
            self.channels[channel_index].consecutive_failures = 0;
            self.channels[channel_index].last_success = Some(Instant::now());
        }
    }

    /// A send on the channel failed. With enough failures in a row the channel
    /// is dead; reported is whether this one made it so. An unknown channel is
    /// ignored.
    pub fn record_failure(&mut self, channel_index: usize) -> (r: bool)
        requires
            channel_index < old(self).channels@.len() ==> {
                &&& old(self).channels@[channel_index as int].consecutive_failures < u32::MAX
                &&& old(self).channels@[channel_index as int].total_failures < u64::MAX
            },
        ensures
            final(self).same_but(*old(self), channel_index as int),
            final(self).channels@.len() == old(self).channels@.len(),
            final(self).max_consecutive_failures == old(self).max_consecutive_failures,
            final(self).activity_timeout == old(self).activity_timeout,
            forall|j: int|
                0 <= j < old(self).channels@.len() && j != channel_index ==> (
                #[trigger] final(self).channels@[j]) == old(self).channels@[j],
            channel_index >= old(self).channels@.len() ==> !r,
            channel_index < old(self).channels@.len() ==> {
                let before = old(self).channels@[channel_index as int];
                let after = final(self).channels@[channel_index as int];
                let count = before.consecutive_failures + 1;
                &&& r == (before.alive && count >= old(self).max_consecutive_failures)
                &&& after.last_failure is Some
                &&& after == (ChannelState {
                    alive: before.alive && !r,
                    consecutive_failures: count as u32,
                    total_failures: (before.total_failures + 1) as u64,
                    last_failure: after.last_failure,
                    ..before
                })
            },
    {
        if channel_index < self.channels.len() {
            self.channels[channel_index].consecutive_failures = self.channels[channel_index].consecutive_failures
                + 1;
            self.channels[channel_index].total_failures = self.channels[channel_index].total_failures
                + 1;
            self.channels[channel_index].last_failure = Some(Instant::now());
            if self.channels[channel_index].consecutive_failures >= self.max_consecutive_failures
                && self.channels[channel_index].alive {
                self.channels[channel_index].alive = false;
                return true;
            }
        }
        false
    }

    /// Whether the channel is alive. An unknown channel is not.
    pub fn is_alive(&self, channel_index: usize) -> (r: bool)
        ensures
            r == (channel_index < self.channels@.len() && self.channels@[channel_index as int].alive),
    {
        if channel_index < self.channels.len() {
            self.channels[channel_index].alive
        } else {
            false
        }
    }

    /// Whether the channel went without a success for too long: the last
    /// success is further back than the timeout, or there was none but there
    /// were failures. An unknown channel is not stale. Where there was a
    /// success, the answer depends on the clock.
    pub fn is_stale(&self, channel_index: usize) -> (r: bool)
        ensures
            channel_index >= self.channels@.len() ==> !r,
            channel_index < self.channels@.len() && self.channels@[channel_index as int].last_success
                is None ==> r == (self.channels@[channel_index as int].last_failure is Some),
    {
        if channel_index >= self.channels.len() {
            return false;
        }
        let since: Option<u128> = match &self.channels[channel_index].last_success {
            Some(last) => Some(last.elapsed().as_nanos()),
            None => None,
        };
        self.is_stale_after(channel_index, since)
    }

    /// Whether the channel is stale, given how many nanoseconds ago a send on
    /// it last succeeded.
    pub fn is_stale_after(&self, channel_index: usize, since_success: Option<u128>) -> (r: bool)
        ensures
            r == (channel_index < self.channels@.len() && match since_success {
                Some(ns) => ns > time::nanos_of(self.activity_timeout),
                None => self.channels@[channel_index as int].last_failure is Some,
            }),
    {
        if channel_index >= self.channels.len() {
            return false;
        }
        match since_success {
            Some(ns) => ns > self.activity_timeout.as_nanos(),
            None => self.channels[channel_index].last_failure.is_some(),
        }
    }

    /// How many channels are alive.
    pub fn alive_count(&self) -> (r: usize)
        ensures
            r == alive_among(self.channels@),
    {
        let mut count: usize = 0;
        let mut i: usize = 0;
        assert(self.channels@.take(0) =~= Seq::empty());
        while i < self.channels.len()
            invariant
                i <= self.channels@.len(),
                count <= i,
                count == alive_among(self.channels@.take(i as int)),
            decreases self.channels@.len() - i,
        {
            assert(self.channels@.take(i + 1).drop_last() =~= self.channels@.take(i as int));
            if self.channels[i].alive {
                count = count + 1;
            }
            i = i + 1;
        }
        assert(self.channels@.take(i as int) =~= self.channels@);
        count
    }

    /// How many channels there are.
    pub fn total_count(&self) -> (r: usize)
        ensures
            r == self.channels@.len(),
    {
        self.channels.len()
    }

    /// Whether no channel is alive.
    pub fn all_dead(&self) -> (r: bool)
        ensures
            r == (forall|i: int|
                0 <= i < self.channels@.len() ==> !(#[trigger] self.channels@[i]).alive),
    {
        proof {
            lemma_none_alive(self.channels@);
        }
        self.alive_count() == 0
    }

    /// Failures since the last success; 0 for an unknown channel.
    pub fn consecutive_failures(&self, channel_index: usize) -> (r: u32)
        ensures
            r == (if channel_index < self.channels@.len() {
                self.channels@[channel_index as int].consecutive_failures
            } else {
                0
            }),
    {
        if channel_index < self.channels.len() {
            self.channels[channel_index].consecutive_failures
        } else {
            0
        }
    }

    /// All failures; 0 for an unknown channel.
    pub fn total_failures(&self, channel_index: usize) -> (r: u64)
        ensures
            r == (if channel_index < self.channels@.len() {
                self.channels@[channel_index as int].total_failures
            } else {
                0
            }),
    {
        if channel_index < self.channels.len() {
            self.channels[channel_index].total_failures
        } else {
            0
        }
    }

    /// Makes all channels alive, with no failures in a row.
    pub fn reset_all(&mut self)
        ensures
            final(self).max_consecutive_failures == old(self).max_consecutive_failures,
            final(self).activity_timeout == old(self).activity_timeout,
            final(self).channels@.len() == old(self).channels@.len(),
            forall|i: int|
                0 <= i < old(self).channels@.len() ==> #[trigger] final(self).channels@[i] == (
                ChannelState { alive: true, consecutive_failures: 0, ..old(self).channels@[i] }),
    {
        let mut i: usize = 0;
        while i < self.channels.len()
            invariant
                i <= self.channels@.len(),
                self.channels@.len() == old(self).channels@.len(),
                self.max_consecutive_failures == old(self).max_consecutive_failures,
                self.activity_timeout == old(self).activity_timeout,
                forall|j: int|
                    0 <= j < i ==> #[trigger] self.channels@[j] == (ChannelState {
                        alive: true,
                        consecutive_failures: 0,
                        ..old(self).channels@[j]
                    }),
                forall|j: int|
                    i <= j < self.channels@.len() ==> #[trigger] self.channels@[j]
                        == old(self).channels@[j],
            decreases self.channels@.len() - i,
        {
            self.channels[i].alive = true;
            self.channels[i].consecutive_failures = 0;
            i = i + 1;
        }
    }
}

impl Default for ChannelHealth {
    fn default() -> (r: Self)
        ensures
            r.channels@ == seq![fresh_channel()],
            r.max_consecutive_failures == 3,
            time::nanos_of(r.activity_timeout) == 30_000_000_000,
    {
        let r = ChannelHealth::new(1, 3, Duration::from_secs(30));
        assert(r.channels@ =~= seq![fresh_channel()]);
        r
    }
}

/// Each channel that is alive counts for one, the others for nothing.
pub proof fn lemma_alive_are_counted(channels: Seq<ChannelState>, c: ChannelState)
    ensures
        alive_among(Seq::empty()) == 0,
        c.alive ==> alive_among(channels.push(c)) == alive_among(channels) + 1,
        !c.alive ==> alive_among(channels.push(c)) == alive_among(channels),
{
    assert(channels.push(c).drop_last() =~= channels);
}

/// No channel is counted exactly where none is alive, and all are counted
/// exactly where all are.
pub proof fn lemma_none_alive(channels: Seq<ChannelState>)
    ensures
        alive_among(channels) <= channels.len(),
        alive_among(channels) == 0 <==> (forall|i: int|
            0 <= i < channels.len() ==> !(#[trigger] channels[i]).alive),
        alive_among(channels) == channels.len() <==> (forall|i: int|
            0 <= i < channels.len() ==> (#[trigger] channels[i]).alive),
    decreases channels.len(),
{
    if channels.len() > 0 {
        let init = channels.drop_last();
        lemma_none_alive(init);
        let last = channels.len() - 1;
        if forall|i: int| 0 <= i < channels.len() ==> !(#[trigger] channels[i]).alive {
            assert forall|i: int| 0 <= i < init.len() implies !(#[trigger] init[i]).alive by {
                assert(!channels[i].alive);
            }
            assert(!channels[last].alive);
        }
        if alive_among(channels) == 0 {
            assert forall|i: int| 0 <= i < channels.len() implies !(#[trigger] channels[i]).alive by {
                if i < last {
                    assert(!init[i].alive);
                }
            }
        }
        if forall|i: int| 0 <= i < channels.len() ==> (#[trigger] channels[i]).alive {
            assert forall|i: int| 0 <= i < init.len() implies (#[trigger] init[i]).alive by {
                assert(channels[i].alive);
            }
            assert(channels[last].alive);
        }
        if alive_among(channels) == channels.len() {
            assert forall|i: int| 0 <= i < channels.len() implies (#[trigger] channels[i]).alive by {
                if i < last {
                    assert(init[i].alive);
                }
            }
        }
    }
}

} // verus!
