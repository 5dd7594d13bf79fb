//! The number of channels: one more at a time, as long as throughput gains from
//! it.
//!
//! Smoothing the throughput is up to the caller. The adaptor says what to
//! measure and when to compare, and is told the verdict.

use crate::adaptive::chunk_size;
use crate::adaptive::chunk_size::clamp;
use crate::adaptive::window;
pub use crate::adaptive::window::ThroughputSample;
use crate::adaptive::window::WindowTotals;
use vstd::prelude::*;

verus! {

/// Fewest channels.
pub const MIN_CHANNELS: usize = 1;

/// Most channels.
pub const MAX_CHANNELS: usize = 256;

/// How many channels to start with.
pub const DEFAULT_INITIAL_CHANNELS: usize = 4;

/// Shortest time between two changes, in seconds.
pub const DEFAULT_MIN_INTERVAL_SECS: u64 = 10;

/// Longest time between two changes, in seconds.
pub const DEFAULT_MAX_INTERVAL_SECS: u64 = 20;

/// How long without a sample until nothing is changed any more.
pub const THROUGHPUT_TIMEOUT_NS: u64 = 30_000_000_000;

/// How many samples are compared before and after a change.
pub const THROUGHPUT_WINDOW: usize = 10;

/// What to do about the number of channels.
#[derive(Debug, Clone, Copy, PartialEq, Eq, Structural)]
pub enum TickAction {
    /// Nothing.
    Wait,
    /// Open one more.
    AddChannel,
    /// Close one.
    RemoveChannel,
    /// Open no more: there is nothing to gain.
    Plateau,
}

/// What a tick asks for.
#[derive(Debug, Clone, Copy, PartialEq, Eq, Structural)]
pub enum Tick {
    /// Nothing.
    Idle,
    /// The samples since the last change are to be compared with the ones
    /// before. The verdict goes to `conclude`.
    Compare(WindowTotals),
    /// It is time for one more channel. The samples so far are the new baseline,
    /// where there are any.
    Ramp(Option<WindowTotals>),
}

/// How throughput has changed since the last change of the number of channels.
#[derive(Debug, Clone, Copy, PartialEq, Eq, Structural)]
pub enum Verdict {
    /// There is nothing to compare with.
    NoBaseline,
    /// It has gone up by more than the threshold.
    Improved,
    /// It has gone down.
    Degraded,
    /// Neither.
    Stable,
}

/// The action that a verdict calls for.
pub open spec fn action_for(verdict: Verdict) -> TickAction {
    match verdict {
        Verdict::NoBaseline | Verdict::Improved => TickAction::AddChannel,
        Verdict::Degraded => TickAction::RemoveChannel,
        Verdict::Stable => TickAction::Plateau,
    }
}

/// An adaptor, as seen from outside.
#[verifier::ext_equal]
pub struct ChannelCountModel {
    pub current: usize,
    pub min: usize,
    pub max: usize,
    pub min_interval_secs: u64,
    pub max_interval_secs: u64,
    /// When the adaptor was first used, in nanoseconds.
    pub started_ns: Option<u64>,
    /// When the number was last changed, in nanoseconds.
    pub last_change_ns: Option<u64>,
    /// Samples before the next change.
    pub before: Seq<ThroughputSample>,
    /// Samples since the last change.
    pub since: Seq<ThroughputSample>,
    pub plateau: bool,
    /// When the last sample came, in nanoseconds.
    pub last_sample_ns: Option<u64>,
    pub disabled: bool,
    pub fixed: usize,
}

impl ChannelCountModel {
    /// All counts are in range, and the windows are no larger than they should
    /// be.
    pub open spec fn wf(self) -> bool {
        &&& 0 < self.min <= self.max
        &&& self.min <= self.current <= self.max
        &&& self.min <= self.fixed <= self.max
        &&& self.min_interval_secs <= self.max_interval_secs
        &&& self.before.len() <= THROUGHPUT_WINDOW
        &&& self.since.len() <= THROUGHPUT_WINDOW
    }

    /// The number of channels in force.
    pub open spec fn count(self) -> usize {
        if self.disabled {
            self.fixed
        } else {
            self.current
        }
    }

    /// With `now_ns` as the time of the first use, if there was none before.
    pub open spec fn used(self, now_ns: u64) -> ChannelCountModel {
        ChannelCountModel {
            started_ns: Some(
                match self.started_ns {
                    Some(start_ns) => start_ns,
                    None => now_ns,
                },
            ),
            ..self
        }
    }

    /// After a sample that came at `now_ns`: it is one before the first change, or
    /// one since the last.
    pub open spec fn sampled(self, sample: ThroughputSample, now_ns: u64) -> ChannelCountModel {
        if self.disabled {
            self
        } else if self.last_change_ns is Some {
            ChannelCountModel {
                last_sample_ns: Some(now_ns),
                since: window::slid(self.since, sample, THROUGHPUT_WINDOW as nat),
                ..self.used(now_ns)
            }
        } else {
            ChannelCountModel {
                last_sample_ns: Some(now_ns),
                before: window::slid(self.before, sample, THROUGHPUT_WINDOW as nat),
                ..self.used(now_ns)
            }
        }
    }

    /// After the number was changed to `count` at `now_ns`.
    pub open spec fn changed(self, count: usize, now_ns: u64) -> ChannelCountModel {
        ChannelCountModel {
            current: count,
            last_change_ns: Some(now_ns),
            since: Seq::empty(),
            plateau: false,
            ..self
        }
    }

    /// After a channel was added at `now_ns`.
    pub open spec fn added(self, now_ns: u64) -> ChannelCountModel {
        if self.disabled {
            self
        } else {
            self.changed(chunk_size::clamped(self.current + 1, self.min, self.max), now_ns)
        }
    }

    /// After a channel was removed at `now_ns`.
    pub open spec fn removed(self, now_ns: u64) -> ChannelCountModel {
        if self.disabled {
            self
        } else {
            self.changed(chunk_size::clamped(self.current - 1, self.min, self.max), now_ns)
        }
    }

    /// Whether no samples have come for too long, since the last one or since the
    /// first use.
    pub open spec fn is_starved(self, now_ns: u64) -> bool {
        match (self.last_sample_ns, self.started_ns) {
            (Some(last_ns), _) => now_ns > last_ns + THROUGHPUT_TIMEOUT_NS,
            (None, Some(start_ns)) => now_ns > start_ns + THROUGHPUT_TIMEOUT_NS,
            (None, None) => false,
        }
    }

    /// Whether the number may be raised at all at `now_ns`.
    pub open spec fn may_grow(self, now_ns: u64) -> bool {
        !self.disabled && !self.is_starved(now_ns) && !self.plateau && self.current < self.max
    }

    /// How long ago the last change was, or the first use where there was none.
    pub open spec fn elapsed_ns(self, now_ns: u64) -> int {
        match (self.last_change_ns, self.started_ns) {
            (Some(last_ns), _) if now_ns >= last_ns => now_ns - last_ns,
            (None, Some(start_ns)) if now_ns >= start_ns => now_ns - start_ns,
            _ => 0,
        }
    }

    /// The time to let pass before the next change: somewhere between the
    /// shortest and the longest, depending on the number of channels.
    pub open spec fn interval_ns(self) -> int {
        self.min_interval_secs * 1_000_000_000 + (self.max_interval_secs - self.min_interval_secs)
            * 1000 * jitter(self.current)
    }

    /// What is asked for at `now_ns`.
    pub open spec fn tick(self, now_ns: u64) -> Tick {
        if !self.may_grow(now_ns) {
            Tick::Idle
        } else if self.since.len() >= THROUGHPUT_WINDOW {
            Tick::Compare(window::totals_of(self.since))
        } else if self.elapsed_ns(now_ns) >= self.interval_ns() {
            Tick::Ramp(
                if self.before.len() > 0 {
                    Some(window::totals_of(self.before))
                } else {
                    None
                },
            )
        } else {
            Tick::Idle
        }
    }

    /// After the tick at `now_ns`.
    pub open spec fn ticked(self, now_ns: u64) -> ChannelCountModel {
        if self.disabled {
            self
        } else if self.tick(now_ns) is Ramp {
            ChannelCountModel { before: Seq::empty(), ..self.used(now_ns) }
        } else {
            self.used(now_ns)
        }
    }
}

/// A number below a million that spreads the counts.
pub open spec fn jitter(channels: usize) -> u64 {
    (channels as u64).wrapping_mul(0x9e37_79b9_7f4a_7c15) % 1_000_000
}

/// Chooses the number of channels.
#[derive(Debug)]
pub struct ChannelCountAdaptor {
    current_channels: usize,
    min_channels: usize,
    max_channels: usize,
    min_interval_secs: u64,
    max_interval_secs: u64,
    started_ns: Option<u64>,
    last_change_ns: Option<u64>,
    pre_change_samples: Vec<ThroughputSample>,
    post_change_samples: Vec<ThroughputSample>,
    plateau: bool,
    last_throughput_ns: Option<u64>,
    disabled: bool,
    fixed_channel_count: usize,
}

impl ChannelCountAdaptor {
    /// The adaptor as seen from outside.
    pub closed spec fn model(self) -> ChannelCountModel {
        ChannelCountModel {
            current: self.current_channels,
            min: self.min_channels,
            max: self.max_channels,
            min_interval_secs: self.min_interval_secs,
            max_interval_secs: self.max_interval_secs,
            started_ns: self.started_ns,
            last_change_ns: self.last_change_ns,
            before: self.pre_change_samples@,
            since: self.post_change_samples@,
            plateau: self.plateau,
            last_sample_ns: self.last_throughput_ns,
            disabled: self.disabled,
            fixed: self.fixed_channel_count,
        }
    }

    /// All counts are in range.
    pub open spec fn wf(self) -> bool {
        self.model().wf()
    }

    /// An adaptor that starts at `initial_channels`, brought into range.
    pub fn new(
        initial_channels: usize,
        min_channels: usize,
        max_channels: usize,
        min_interval_secs: u64,
        max_interval_secs: u64,
    ) -> (r: Self)
        requires
            min_channels > 0,
            max_channels >= min_channels,
            max_interval_secs >= min_interval_secs,
        ensures
            r.wf(),
            r.model() == (ChannelCountModel {
                current: chunk_size::clamped(initial_channels as int, min_channels, max_channels),
                min: min_channels,
                max: max_channels,
                min_interval_secs,
                max_interval_secs,
                started_ns: None,
                last_change_ns: None,
                before: Seq::empty(),
                since: Seq::empty(),
                plateau: false,
                last_sample_ns: None,
                disabled: false,
                fixed: chunk_size::clamped(initial_channels as int, min_channels, max_channels),
            }),
    {
        let count: usize = clamp(initial_channels, min_channels, max_channels);
        ChannelCountAdaptor {
            current_channels: count,
            min_channels,
            max_channels,
            min_interval_secs,
            max_interval_secs,
            started_ns: None,
            last_change_ns: None,
            pre_change_samples: Vec::new(),
            post_change_samples: Vec::new(),
            plateau: false,
            last_throughput_ns: None,
            disabled: false,
            fixed_channel_count: count,
        }
    }

    /// An adaptor over the whole range of counts, with the default intervals.
    pub fn new_default() -> (r: Self)
        ensures
            r.wf(),
            r.model() == (ChannelCountModel {
                current: DEFAULT_INITIAL_CHANNELS,
                min: MIN_CHANNELS,
                max: MAX_CHANNELS,
                min_interval_secs: DEFAULT_MIN_INTERVAL_SECS,
                max_interval_secs: DEFAULT_MAX_INTERVAL_SECS,
                started_ns: None,
                last_change_ns: None,
                before: Seq::empty(),
                since: Seq::empty(),
                plateau: false,
                last_sample_ns: None,
                disabled: false,
                fixed: DEFAULT_INITIAL_CHANNELS,
            }),
            r.model().current == 4 && r.model().fixed == 4,
            r.model().min == 1 && r.model().max == 256,
            r.model().min_interval_secs == 10 && r.model().max_interval_secs == 20,
    {
        Self::new(
            DEFAULT_INITIAL_CHANNELS,
            MIN_CHANNELS,
            MAX_CHANNELS,
            DEFAULT_MIN_INTERVAL_SECS,
            DEFAULT_MAX_INTERVAL_SECS,
        )
    }

    /// Keeps the number at `fixed_count`, brought into range, from now on.
    pub fn set_fixed(&mut self, fixed_count: usize)
        requires
            old(self).wf(),
        ensures
            final(self).wf(),
            final(self).model() == (ChannelCountModel {
                disabled: true,
                fixed: chunk_size::clamped(
                    fixed_count as int,
                    old(self).model().min,
                    old(self).model().max,
                ),
                ..old(self).model()
            }),
    {
        self.fixed_channel_count = clamp(fixed_count, self.min_channels, self.max_channels);
        self.disabled = true;
    }

    /// Whether the number is fixed.
    pub fn is_disabled(&self) -> (r: bool)
        ensures
            r == self.model().disabled,
    {
        self.disabled
    }

    /// The number of channels in force.
    pub fn current_channel_count(&self) -> (r: usize)
        ensures
            r == self.model().count(),
    {
        if self.disabled {
            self.fixed_channel_count
        } else {
            self.current_channels
        }
    }

    /// Fewest channels.
    pub fn min_channels(&self) -> (r: usize)
        ensures
            r == self.model().min,
    {
        self.min_channels
    }

    /// Most channels.
    pub fn max_channels(&self) -> (r: usize)
        ensures
            r == self.model().max,
    {
        self.max_channels
    }

    /// Whether one more channel gained nothing.
    pub fn is_plateau(&self) -> (r: bool)
        ensures
            r == self.model().plateau,
    {
        self.plateau
    }

    /// How many samples there are from before the next change.
    pub fn pre_change_sample_count(&self) -> (r: usize)
        ensures
            r == self.model().before.len(),
    {
        self.pre_change_samples.len()
    }

    /// How many samples there are since the last change.
    pub fn post_change_sample_count(&self) -> (r: usize)
        ensures
            r == self.model().since.len(),
    {
        self.post_change_samples.len()
    }

    /// Takes in a sample that came at `now_ns`.
    pub fn record_throughput(&mut self, sample: ThroughputSample, now_ns: u64)
        requires
            old(self).wf(),
        ensures
            final(self).wf(),
            final(self).model() == old(self).model().sampled(sample, now_ns),
    {
        if self.disabled {
            return;
        }
        self.note_use(now_ns);
        self.last_throughput_ns = Some(now_ns);
        if self.last_change_ns.is_some() {
            window::slide(&mut self.post_change_samples, sample, THROUGHPUT_WINDOW);
        } else {
            window::slide(&mut self.pre_change_samples, sample, THROUGHPUT_WINDOW);
        }
    }

    fn note_use(&mut self, now_ns: u64)
        ensures
            final(self).model() == old(self).model().used(now_ns),
    {
        if self.started_ns.is_none() {
            self.started_ns = Some(now_ns);
        }
    }

    fn change(&mut self, count: usize, now_ns: u64) -> (r: WindowTotals)
        ensures
            final(self).model() == old(self).model().changed(count, now_ns),
            r == window::totals_of(old(self).model().before),
    {
        self.current_channels = count;
        self.last_change_ns = Some(now_ns);
        self.post_change_samples.clear();
        self.plateau = false;
        window::totals(&self.pre_change_samples)
    }

    /// Takes note that a channel was added at `now_ns`. Says what the samples
    /// before come to, which the new baseline is smoothed with.
    pub fn notify_channel_added(&mut self, now_ns: u64) -> (r: Option<WindowTotals>)
        requires
            old(self).wf(),
        ensures
            final(self).wf(),
            final(self).model() == old(self).model().added(now_ns),
            r == (if old(self).model().disabled {
                None
            } else {
                Some(window::totals_of(old(self).model().before))
            }),
    {
        if self.disabled {
            return None;
        }
        let count: usize = if self.current_channels < self.max_channels {
            self.current_channels + 1
        } else {
            self.max_channels
        };
        Some(self.change(count, now_ns))
    }

    /// Takes note that a channel was removed at `now_ns`. Says what the samples
    /// before come to, which the new baseline is smoothed with.
    pub fn notify_channel_removed(&mut self, now_ns: u64) -> (r: Option<WindowTotals>)
        requires
            old(self).wf(),
        ensures
            final(self).wf(),
            final(self).model() == old(self).model().removed(now_ns),
            r == (if old(self).model().disabled {
                None
            } else {
                Some(window::totals_of(old(self).model().before))
            }),
    {
        if self.disabled {
            return None;
        }
        let count: usize = if self.current_channels > self.min_channels {
            self.current_channels - 1
        } else {
            self.min_channels
        };
        Some(self.change(count, now_ns))
    }

    fn may_grow(&self, now_ns: u64) -> (r: bool)
        ensures
            r == self.model().may_grow(now_ns),
    {
        if self.disabled || self.plateau || self.current_channels >= self.max_channels {
            return false;
        }
        match (self.last_throughput_ns, self.started_ns) {
            (Some(last_ns), _) => now_ns as u128 <= last_ns as u128 + THROUGHPUT_TIMEOUT_NS as u128,
            (None, Some(start_ns)) => now_ns as u128 <= start_ns as u128
                + THROUGHPUT_TIMEOUT_NS as u128,
            (None, None) => true,
        }
    }

    /// Says what is due at `now_ns`.
    pub fn tick(&mut self, now_ns: u64) -> (r: Tick)
        requires
            old(self).wf(),
        ensures
            final(self).wf(),
            r == old(self).model().tick(now_ns),
            final(self).model() == old(self).model().ticked(now_ns),
    {
        if self.disabled {
            return Tick::Idle;
        }
        let start_ns: u64 = match self.started_ns {
            Some(start_ns) => start_ns,
            None => now_ns,
        };
        self.note_use(now_ns);
        if !self.may_grow(now_ns) {
            return Tick::Idle;
        }
        if self.post_change_samples.len() >= THROUGHPUT_WINDOW {
            return Tick::Compare(window::totals(&self.post_change_samples));
        }
        let elapsed_ns: u64 = match self.last_change_ns {
            Some(last_ns) => now_ns.saturating_sub(last_ns),
            None => now_ns.saturating_sub(start_ns),
        };
        let spread: u64 = (self.current_channels as u64).wrapping_mul(0x9e37_79b9_7f4a_7c15)
            % 1_000_000;
        let range: u64 = self.max_interval_secs - self.min_interval_secs;
        proof {
            assert(range as u128 * 1000 * (spread as u128) < 0xffff_ffff_ffff_ffff * 1000 * 1_000_000 + 1)
                by (nonlinear_arith)
                requires
                    range <= 0xffff_ffff_ffff_ffff,
                    spread < 1_000_000,
            ;
            assert(range as u128 * 1000 * (spread as u128) >= 0) by (nonlinear_arith)
                requires
                    range >= 0,
                    spread >= 0,
            ;
        }
        let interval_ns: u128 = self.min_interval_secs as u128 * 1_000_000_000 + range as u128
            * 1000 * (spread as u128);
        if (elapsed_ns as u128) < interval_ns {
            return Tick::Idle;
        }
        let baseline: Option<WindowTotals> = if self.pre_change_samples.len() > 0 {
            Some(window::totals(&self.pre_change_samples))
        } else {
            None
        };
        self.pre_change_samples.clear();
        Tick::Ramp(baseline)
    }

    /// Says what the verdict on the last change calls for, and remembers a
    /// plateau.
    pub fn conclude(&mut self, verdict: Verdict) -> (r: TickAction)
        requires
            old(self).wf(),
        ensures
            final(self).wf(),
            r == action_for(verdict),
            final(self).model() == (ChannelCountModel {
                plateau: verdict is Stable,
                ..old(self).model()
            }),
    {
        match verdict {
            Verdict::NoBaseline | Verdict::Improved => {
                self.plateau = false;
                TickAction::AddChannel
            },
            Verdict::Degraded => {
                self.plateau = false;
                TickAction::RemoveChannel
            },
            Verdict::Stable => {
                self.plateau = true;
                TickAction::Plateau
            },
        }
    }

    /// Starts over from the default number with no samples.
    pub fn reset(&mut self)
        requires
            old(self).wf(),
        ensures
            final(self).wf(),
            final(self).model() == (ChannelCountModel {
                current: chunk_size::clamped(
                    DEFAULT_INITIAL_CHANNELS as int,
                    old(self).model().min,
                    old(self).model().max,
                ),
                started_ns: None,
                last_change_ns: None,
                before: Seq::empty(),
                since: Seq::empty(),
                plateau: false,
                last_sample_ns: None,
                ..old(self).model()
            }),
            old(self).model().min <= 4 <= old(self).model().max ==> final(self).model().current
                == 4,
    {
        self.current_channels = clamp(
            DEFAULT_INITIAL_CHANNELS,
            self.min_channels,
            self.max_channels,
        );
        self.started_ns = None;
        self.last_change_ns = None;
        self.pre_change_samples.clear();
        self.post_change_samples.clear();
        self.plateau = false;
        self.last_throughput_ns = None;
    }
}

/// Whatever happens, the number in force stays in range, and changes by one at
/// most.
pub proof fn lemma_count_stays_in_range(m: ChannelCountModel, sample: ThroughputSample, now_ns: u64)
    requires
        m.wf(),
    ensures
        m.min <= m.count() <= m.max,
        m.sampled(sample, now_ns).wf(),
        m.sampled(sample, now_ns).count() == m.count(),
        m.ticked(now_ns).wf(),
        m.ticked(now_ns).count() == m.count(),
        m.added(now_ns).wf(),
        m.count() <= m.added(now_ns).count() <= m.count() + 1,
        m.removed(now_ns).wf(),
        m.count() - 1 <= m.removed(now_ns).count() <= m.count(),
{
}

/// A fixed number stays as it is, and nothing is asked for.
pub proof fn lemma_fixed_count_stays(m: ChannelCountModel, sample: ThroughputSample, now_ns: u64)
    requires
        m.disabled,
    ensures
        m.sampled(sample, now_ns) == m,
        m.added(now_ns) == m,
        m.removed(now_ns) == m,
        m.tick(now_ns) is Idle,
        m.ticked(now_ns) == m,
{
}

/// A plateau lasts until the number of channels is changed: until then nothing
/// is asked for.
pub proof fn lemma_plateau_lasts(m: ChannelCountModel, sample: ThroughputSample, now_ns: u64)
    requires
        m.plateau,
    ensures
        m.tick(now_ns) is Idle,
        m.ticked(now_ns).plateau,
        m.sampled(sample, now_ns).plateau,
{
}

/// Without samples for 30 seconds, nothing is asked for.
pub proof fn lemma_no_samples_no_change(m: ChannelCountModel, now_ns: u64)
    requires
        m.last_sample_ns matches Some(last_ns) ==> now_ns > last_ns + 30_000_000_000,
        m.last_sample_ns is None ==> (m.started_ns matches Some(start_ns) && now_ns > start_ns
            + 30_000_000_000),
    ensures
        m.tick(now_ns) is Idle,
{
}

/// Channels are added as time goes by: while there are too few samples to judge the
/// last change, one more is asked for once the interval has passed since that, or
/// since the first use where there was no change, and not before.
pub proof fn lemma_ramps_with_time(m: ChannelCountModel, now_ns: u64)
    requires
        m.wf(),
        m.may_grow(now_ns),
        m.since.len() < THROUGHPUT_WINDOW,
    ensures
        m.tick(now_ns) is Ramp <==> m.elapsed_ns(now_ns) >= m.interval_ns(),
        m.tick(now_ns) is Idle <==> m.elapsed_ns(now_ns) < m.interval_ns(),
        m.last_change_ns is None && (m.started_ns matches Some(start_ns) && now_ns >= start_ns
            + m.max_interval_secs * 1_000_000_000) ==> m.tick(now_ns) is Ramp,
        m.last_change_ns matches Some(last_ns) && now_ns >= last_ns + m.max_interval_secs
            * 1_000_000_000 ==> m.tick(now_ns) is Ramp,
{
    lemma_interval_in_bounds(m);
}

/// The time between two changes is never shorter than the shortest interval
/// and never longer than the longest.
pub proof fn lemma_interval_in_bounds(m: ChannelCountModel)
    requires
        m.wf(),
    ensures
        m.min_interval_secs * 1_000_000_000 <= m.interval_ns() <= m.max_interval_secs
            * 1_000_000_000,
{
    let range = m.max_interval_secs - m.min_interval_secs;
    let j = jitter(m.current) as int;
    assert(0 <= range * 1000 * j <= range * 1_000_000_000) by (nonlinear_arith)
        requires
            0 <= range,
            0 <= j < 1_000_000,
    ;
}

} // verus!
