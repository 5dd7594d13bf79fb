//! Windows of throughput samples.

use vstd::prelude::*;

verus! {

/// Bytes that were transferred, and how long it took.
#[derive(Debug, Clone, Copy, PartialEq, Eq, Structural)]
pub struct ThroughputSample {
    pub bytes: u64,
    pub duration_ns: u64,
}

/// What the samples of a window come to.
#[derive(Debug, Clone, Copy, PartialEq, Eq, Structural)]
pub struct WindowTotals {
    pub bytes: u128,
    pub duration_ns: u128,
}

/// The bytes of all samples.
pub open spec fn bytes_in(samples: Seq<ThroughputSample>) -> nat
    decreases samples.len(),
{
    if samples.len() == 0 {
        0
    } else {
        bytes_in(samples.drop_last()) + samples.last().bytes as nat
    }
}

/// How long all samples took together.
pub open spec fn nanos_in(samples: Seq<ThroughputSample>) -> nat
    decreases samples.len(),
{
    if samples.len() == 0 {
        0
    } else {
        nanos_in(samples.drop_last()) + samples.last().duration_ns as nat
    }
}

/// What the samples come to.
pub open spec fn totals_of(samples: Seq<ThroughputSample>) -> WindowTotals {
    WindowTotals { bytes: bytes_in(samples) as u128, duration_ns: nanos_in(samples) as u128 }
}

/// The window after one more sample: the latest `size` samples.
pub open spec fn slid(samples: Seq<ThroughputSample>, sample: ThroughputSample, size: nat) -> Seq<
    ThroughputSample,
> {
    let all = samples.push(sample);
    if all.len() > size {
        all.skip(1)
    } else {
        all
    }
}

proof fn lemma_totals_bounded(samples: Seq<ThroughputSample>)
    ensures
        bytes_in(samples) <= samples.len() * 0xffff_ffff_ffff_ffff,
        nanos_in(samples) <= samples.len() * 0xffff_ffff_ffff_ffff,
    decreases samples.len(),
{
    if samples.len() > 0 {
        lemma_totals_bounded(samples.drop_last());
    }
}

/// Adds the samples up.
pub fn totals(samples: &Vec<ThroughputSample>) -> (r: WindowTotals)
    ensures
        r == totals_of(samples@),
        r.bytes == bytes_in(samples@),
        r.duration_ns == nanos_in(samples@),
{
    let mut bytes: u128 = 0;
    let mut duration_ns: u128 = 0;
    let count: usize = samples.len();
    let mut i: usize = 0;
    while i < count
        invariant
            i <= count == samples@.len(),
            bytes == bytes_in(samples@.take(i as int)),
            duration_ns == nanos_in(samples@.take(i as int)),
        decreases count - i,
    {
        proof {
            let more = samples@.take(i + 1);
            assert(more.drop_last() =~= samples@.take(i as int));
            assert(more.last() == samples@[i as int]);
            lemma_totals_bounded(more);
            assert(more.len() * 0xffff_ffff_ffff_ffff <= u128::MAX);
        }
        bytes += samples[i].bytes as u128;
        duration_ns += samples[i].duration_ns as u128;
        i += 1;
    }
    assert(samples@.take(i as int) =~= samples@);
    WindowTotals { bytes, duration_ns }
}

/// Takes one more sample into a window of `size` samples.
pub fn slide(samples: &mut Vec<ThroughputSample>, sample: ThroughputSample, size: usize)
    requires
        old(samples)@.len() <= size,
    ensures
        final(samples)@ == slid(old(samples)@, sample, size as nat),
{
    if samples.len() < size {
        samples.push(sample);
    } else {
        samples.push(sample);
        samples.remove(0);
        assert(samples@ =~= old(samples)@.push(sample).skip(1));
    }
}

} // verus!
