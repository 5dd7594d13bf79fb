//! What the measured throughput does to the chunk size and the number of channels.

use crate::adaptive::channels;
use crate::adaptive::channels::{ChannelCountModel, Tick, TickAction, Verdict};
use crate::adaptive::chunk_size;
use crate::adaptive::chunk_size::ChunkSizeModel;
use crate::adaptive::window;
use crate::adaptive::window::ThroughputSample;
use vstd::prelude::*;

verus! {

/// A window keeps the latest samples in the order in which they came: the newest is
/// the last, and only where there is no room, the oldest leaves.
pub proof fn lemma_window_keeps_the_latest(
    samples: Seq<ThroughputSample>,
    sample: ThroughputSample,
    size: nat,
)
    requires
        0 < size,
        samples.len() <= size,
    ensures
        ({
            let after = window::slid(samples, sample, size);
            &&& after.len() == (if samples.len() < size {
                samples.len() + 1
            } else {
                size
            })
            &&& after[after.len() - 1] == sample
            &&& forall|k: int|
                1 <= k < after.len() ==> (#[trigger] after[after.len() - 1 - k])
                    == samples[samples.len() - k]
        }),
{
}

/// The bytes and the times of all samples count, each on its own side.
pub proof fn lemma_samples_add_up(samples: Seq<ThroughputSample>, sample: ThroughputSample)
    ensures
        window::bytes_in(Seq::empty()) == 0,
        window::nanos_in(Seq::empty()) == 0,
        window::bytes_in(samples.push(sample)) == window::bytes_in(samples) + sample.bytes,
        window::nanos_in(samples.push(sample)) == window::nanos_in(samples) + sample.duration_ns,
        window::bytes_in(samples) <= u128::MAX ==> window::totals_of(samples).bytes
            == window::bytes_in(samples),
        window::nanos_in(samples) <= u128::MAX ==> window::totals_of(samples).duration_ns
            == window::nanos_in(samples),
{
    assert(samples.push(sample).drop_last() =~= samples);
}

/// A value in range stays; one out of range becomes the bound that it is beyond.
pub proof fn lemma_nearest_in_range(value: int, low: usize, high: usize)
    requires
        low <= high,
    ensures
        low <= value <= high ==> chunk_size::clamped(value, low, high) == value,
        value <= low ==> chunk_size::clamped(value, low, high) == low,
        value >= high ==> chunk_size::clamped(value, low, high) == high,
{
}

/// The size grows by a quarter of itself where throughput has improved, and halves
/// where it has not, as far as the bounds let it. Nothing else changes.
pub proof fn lemma_size_follows_the_throughput(m: ChunkSizeModel, improved: bool)
    requires
        m.wf(),
        !m.disabled,
    ensures
        m.adjusted(improved) == (ChunkSizeModel { current: m.adjusted(improved).current, ..m }),
        m.shrunk() == m.adjusted(false),
        4 * (m.adjusted(true).current - m.current) <= m.current,
        m.adjusted(true).current < m.max ==> 4 * (m.adjusted(true).current - m.current)
            > m.current - 4,
        2 * m.adjusted(false).current >= m.current - 1,
        m.adjusted(false).current > m.min ==> 2 * m.adjusted(false).current <= m.current,
        m.min <= m.adjusted(improved).current <= m.max,
{
}

/// The size in force is the fixed one where it is fixed, and the current one else.
pub proof fn lemma_size_in_force(m: ChunkSizeModel)
    ensures
        m.disabled ==> m.size() == m.fixed,
        !m.disabled ==> m.size() == m.current,
{
}

/// Throughput is compared exactly when the window is full and took some time.
pub proof fn lemma_full_windows_are_measured(m: ChunkSizeModel, sample: ThroughputSample)
    requires
        m.wf(),
        !m.disabled,
    ensures
        m.sampled(sample) == (ChunkSizeModel {
            samples: window::slid(m.samples, sample, m.window_size as nat),
            ..m
        }),
        m.is_measurable() <==> m.samples.len() == m.window_size && window::nanos_in(m.samples)
            != 0,
{
}

/// The time from the last change, or from the first use where there was no change.
pub open spec fn reference_time(m: ChannelCountModel, now_ns: u64) -> u64 {
    match m.last_change_ns {
        Some(at_ns) => at_ns,
        None => match m.started_ns {
            Some(at_ns) => at_ns,
            None => now_ns,
        },
    }
}

/// Whether a sample came, or the adaptor was first used, in the last 30 seconds.
pub open spec fn is_recent(m: ChannelCountModel, now_ns: u64) -> bool {
    match m.last_sample_ns {
        Some(at_ns) => now_ns <= at_ns + 30_000_000_000,
        None => match m.started_ns {
            Some(at_ns) => now_ns <= at_ns + 30_000_000_000,
            None => true,
        },
    }
}

/// The time between two changes: the shortest one, and of the rest up to the longest
/// one as many millionths as the number of channels times a constant gives.
pub proof fn lemma_interval_is_spread(m: ChannelCountModel)
    ensures
        m.interval_ns() == m.min_interval_secs * 1_000_000_000 + (m.max_interval_secs
            - m.min_interval_secs) * 1000 * ((m.current as u64).wrapping_mul(
            11400714819323198485,
        ) % 1_000_000),
{
}

/// A tick asks for nothing where the number is fixed or at its top, where a plateau was
/// reached, or where there were no samples for too long. Else the ten samples since the
/// last change are compared once they are there. Until then one more channel is asked
/// for as soon as the interval is over, and what the samples before come to is handed
/// out with it and forgotten.
pub proof fn lemma_tick_by_cases(m: ChannelCountModel, now_ns: u64)
    requires
        m.wf(),
    ensures
        ({
            let open = !m.disabled && !m.plateau && m.current < m.max && is_recent(m, now_ns);
            let due = now_ns - reference_time(m, now_ns) >= m.interval_ns();
            let full = m.since.len() == 10;
            let nothing_to_wait_for = m.interval_ns() == 0;
            &&& m.tick(now_ns) is Compare <==> open && full
            &&& m.tick(now_ns) is Ramp <==> open && !full && (due || nothing_to_wait_for)
            &&& m.tick(now_ns) matches Tick::Compare(sums) ==> sums == window::totals_of(m.since)
            &&& m.tick(now_ns) matches Tick::Ramp(sums) ==> sums == (if m.before.len() == 0 {
                None
            } else {
                Some(window::totals_of(m.before))
            })
        }),
        m.ticked(now_ns).before == (if m.tick(now_ns) is Ramp {
            Seq::empty()
        } else {
            m.before
        }),
        !m.disabled ==> m.ticked(now_ns) == (ChannelCountModel {
            before: m.ticked(now_ns).before,
            started_ns: Some(
                if m.started_ns is Some {
                    m.started_ns->0
                } else {
                    now_ns
                },
            ),
            ..m
        }),
{
    channels::lemma_interval_in_bounds(m);
}

/// A sample is one before the first change or one since the last, and its time is kept.
pub proof fn lemma_sample_is_filed(m: ChannelCountModel, sample: ThroughputSample, now_ns: u64)
    requires
        !m.disabled,
    ensures
        ({
            let after = m.sampled(sample, now_ns);
            &&& after == ChannelCountModel {
                last_sample_ns: Some(now_ns),
                started_ns: Some(
                    if m.started_ns is Some {
                        m.started_ns->0
                    } else {
                        now_ns
                    },
                ),
                before: if m.last_change_ns is None {
                    window::slid(m.before, sample, 10)
                } else {
                    m.before
                },
                since: if m.last_change_ns is None {
                    m.since
                } else {
                    window::slid(m.since, sample, 10)
                },
                ..m
            }
        }),
{
}

/// A channel that was added or removed changes the number by one as far as the bounds
/// let it. The time of the change is kept, the samples since the last one are gone, and
/// a plateau is over.
pub proof fn lemma_change_is_noted(m: ChannelCountModel, now_ns: u64)
    requires
        m.wf(),
        !m.disabled,
    ensures
        m.added(now_ns).current == (if m.current == m.max {
            m.max as int
        } else {
            m.current + 1
        }),
        m.removed(now_ns).current == (if m.current == m.min {
            m.min as int
        } else {
            m.current - 1
        }),
        forall|after: ChannelCountModel|
            #![trigger after.wf()]
            after == m.added(now_ns) || after == m.removed(now_ns) ==> after == (
            ChannelCountModel {
                current: after.current,
                last_change_ns: Some(now_ns),
                since: Seq::empty(),
                plateau: false,
                ..m
            }),
{
}

/// The number in force is the fixed one where it is fixed, and the current one else.
pub proof fn lemma_count_in_force(m: ChannelCountModel)
    ensures
        m.disabled ==> m.count() == m.fixed,
        !m.disabled ==> m.count() == m.current,
{
}

/// A channel is added while throughput gains from it or there is nothing to compare
/// with, and one is removed only where throughput has gone down.
pub proof fn lemma_action_follows_the_verdict(verdict: Verdict)
    ensures
        channels::action_for(verdict) is AddChannel <==> verdict is NoBaseline
            || verdict is Improved,
        channels::action_for(verdict) is RemoveChannel <==> verdict is Degraded,
        channels::action_for(verdict) is Plateau <==> verdict is Stable,
        channels::action_for(verdict) != TickAction::Wait,
{
}

} // verus!
