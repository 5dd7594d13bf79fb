//! The chunk size: grows by a quarter while throughput improves, halves when
//! it does not.
//!
//! Smoothing the throughput is up to the caller. The adaptor says when there is
//! something to compare, and is told the verdict.

use crate::adaptive::window;
pub use crate::adaptive::window::ThroughputSample;
use crate::adaptive::window::WindowTotals;
use vstd::prelude::*;

verus! {

/// Smallest chunk size.
pub const MIN_CHUNK: usize = 1024;

/// Largest chunk size: what the length field of a chunk header can hold.
pub const MAX_CHUNK: usize = 65535;

/// How many samples a window holds by default.
pub const DEFAULT_WINDOW_SIZE: usize = 100;

/// The chunk size to start with.
pub const DEFAULT_INITIAL_CHUNK: usize = 65535;

/// `value`, brought into the range.
pub open spec fn clamped(value: int, low: usize, high: usize) -> usize {
    if value < low {
        low
    } else if value > high {
        high
    } else {
        value as usize
    }
}

/// Brings `value` into the range.
pub fn clamp(value: usize, low: usize, high: usize) -> (r: usize)
    requires
        low <= high,
    ensures
        r == clamped(value as int, low, high),
        low <= r <= high,
{
    if value < low {
        low
    } else if value > high {
        high
    } else {
        value
    }
}

/// An adaptor, as seen from outside.
#[verifier::ext_equal]
pub struct ChunkSizeModel {
    pub current: usize,
    pub min: usize,
    pub max: usize,
    pub window_size: usize,
    pub samples: Seq<ThroughputSample>,
    pub disabled: bool,
    pub fixed: usize,
}

impl ChunkSizeModel {
    /// All sizes are in range, and the window is no larger than it should be.
    pub open spec fn wf(self) -> bool {
        &&& 0 < self.min <= self.max
        &&& self.min <= self.current <= self.max
        &&& self.min <= self.fixed <= self.max
        &&& 0 < self.window_size
        &&& self.samples.len() <= self.window_size
    }

    /// The chunk size in force.
    pub open spec fn size(self) -> usize {
        if self.disabled {
            self.fixed
        } else {
            self.current
        }
    }

    /// After a sample.
    pub open spec fn sampled(self, sample: ThroughputSample) -> ChunkSizeModel {
        if self.disabled {
            self
        } else {
            ChunkSizeModel {
                samples: window::slid(self.samples, sample, self.window_size as nat),
                ..self
            }
        }
    }

    /// Whether the window is full and took any time at all.
    pub open spec fn is_measurable(self) -> bool {
        !self.disabled && self.samples.len() >= self.window_size && window::nanos_in(self.samples)
            > 0
    }

    /// After a comparison with the throughput before.
    pub open spec fn adjusted(self, improved: bool) -> ChunkSizeModel {
        if self.disabled {
            self
        } else if improved {
            ChunkSizeModel {
                current: clamped(self.current + self.current / 4, self.min, self.max),
                ..self
            }
        } else {
            self.shrunk()
        }
    }

    /// With the chunk size halved.
    pub open spec fn shrunk(self) -> ChunkSizeModel {
        ChunkSizeModel { current: clamped((self.current / 2) as int, self.min, self.max), ..self }
    }
}

/// Chooses the chunk size.
#[derive(Debug)]
pub struct ChunkSizeAdaptor {
    current_chunk_size: usize,
    min_chunk: usize,
    max_chunk: usize,
    window_size: usize,
    samples: Vec<ThroughputSample>,
    disabled: bool,
    fixed_chunk_size: usize,
}

impl ChunkSizeAdaptor {
    /// The adaptor as seen from outside.
    pub closed spec fn model(self) -> ChunkSizeModel {
        ChunkSizeModel {
            current: self.current_chunk_size,
            min: self.min_chunk,
            max: self.max_chunk,
            window_size: self.window_size,
            samples: self.samples@,
            disabled: self.disabled,
            fixed: self.fixed_chunk_size,
        }
    }

    /// All sizes are in range.
    pub open spec fn wf(self) -> bool {
        self.model().wf()
    }

    /// An adaptor that starts at `initial_chunk_size`, brought into range.
    pub fn new(
        initial_chunk_size: usize,
        min_chunk: usize,
        max_chunk: usize,
        window_size: usize,
    ) -> (r: Self)
        requires
            min_chunk > 0,
            max_chunk >= min_chunk,
            window_size > 0,
        ensures
            r.wf(),
            r.model() == (ChunkSizeModel {
                current: clamped(initial_chunk_size as int, min_chunk, max_chunk),
                min: min_chunk,
                max: max_chunk,
                window_size,
                samples: Seq::empty(),
                disabled: false,
                fixed: clamped(initial_chunk_size as int, min_chunk, max_chunk),
            }),
    {
        let size: usize = clamp(initial_chunk_size, min_chunk, max_chunk);
        ChunkSizeAdaptor {
            current_chunk_size: size,
            min_chunk,
            max_chunk,
            window_size,
            samples: Vec::new(),
            disabled: false,
            fixed_chunk_size: size,
        }
    }

    /// An adaptor over the whole range of sizes, with the default window.
    pub fn new_default() -> (r: Self)
        ensures
            r.wf(),
            r.model() == (ChunkSizeModel {
                current: DEFAULT_INITIAL_CHUNK,
                min: MIN_CHUNK,
                max: MAX_CHUNK,
                window_size: DEFAULT_WINDOW_SIZE,
                samples: Seq::empty(),
                disabled: false,
                fixed: DEFAULT_INITIAL_CHUNK,
            }),
            r.model().current == 65535 && r.model().fixed == 65535,
            r.model().min == 1024 && r.model().max == 65535,
            r.model().window_size == 100,
    {
        Self::new(DEFAULT_INITIAL_CHUNK, MIN_CHUNK, MAX_CHUNK, DEFAULT_WINDOW_SIZE)
    }

    /// Keeps the size at `fixed_size`, brought into range, from now on.
    pub fn set_fixed(&mut self, fixed_size: usize)
        requires
            old(self).wf(),
        ensures
            final(self).wf(),
            final(self).model() == (ChunkSizeModel {
                disabled: true,
                fixed: clamped(fixed_size as int, old(self).model().min, old(self).model().max),
                ..old(self).model()
            }),
    {
        self.fixed_chunk_size = clamp(fixed_size, self.min_chunk, self.max_chunk);
        self.disabled = true;
    }

    /// Whether the size is fixed.
    pub fn is_disabled(&self) -> (r: bool)
        ensures
            r == self.model().disabled,
    {
        self.disabled
    }

    /// The chunk size in force.
    pub fn current_chunk_size(&self) -> (r: usize)
        ensures
            r == self.model().size(),
    {
        if self.disabled {
            self.fixed_chunk_size
        } else {
            self.current_chunk_size
        }
    }

    /// The smallest size.
    pub fn min_chunk(&self) -> (r: usize)
        ensures
            r == self.model().min,
    {
        self.min_chunk
    }

    /// The largest size.
    pub fn max_chunk(&self) -> (r: usize)
        ensures
            r == self.model().max,
    {
        self.max_chunk
    }

    /// How many samples the window holds.
    pub fn sample_count(&self) -> (r: usize)
        ensures
            r == self.model().samples.len(),
    {
        self.samples.len()
    }

    /// How many samples the window may hold.
    pub fn window_size(&self) -> (r: usize)
        ensures
            r == self.model().window_size,
    {
        self.window_size
    }

    /// Takes a sample in. Once the window is full, says what it comes to: the
    /// throughput is then to be smoothed and compared, and the verdict handed to
    /// `adjust`. A window that took no time is not compared.
    pub fn record_throughput(&mut self, sample: ThroughputSample) -> (r: Option<WindowTotals>)
        requires
            old(self).wf(),
        ensures
            final(self).wf(),
            final(self).model() == old(self).model().sampled(sample),
            r == (if final(self).model().is_measurable() {
                Some(window::totals_of(final(self).model().samples))
            } else {
                None
            }),
    {
        if self.disabled {
            return None;
        }
        window::slide(&mut self.samples, sample, self.window_size);
        if self.samples.len() < self.window_size {
            return None;
        }
        let totals = window::totals(&self.samples);
        if totals.duration_ns == 0 {
            return None;
        }
        Some(totals)
    }

    /// Grows the size by a quarter if the smoothed throughput has improved, and
    /// halves it otherwise.
    pub fn adjust(&mut self, improved: bool)
        requires
            old(self).wf(),
        ensures
            final(self).wf(),
            final(self).model() == old(self).model().adjusted(improved),
    {
        if self.disabled {
            return;
        }
        if improved {
            let grown: usize = self.current_chunk_size.saturating_add(self.current_chunk_size / 4);
            self.current_chunk_size = clamp(grown, self.min_chunk, self.max_chunk);
        } else {
            self.shrink();
        }
    }

    fn shrink(&mut self)
        requires
            old(self).wf(),
        ensures
            final(self).wf(),
            final(self).model() == old(self).model().shrunk(),
    {
        self.current_chunk_size = clamp(
            self.current_chunk_size / 2,
            self.min_chunk,
            self.max_chunk,
        );
    }

    /// Halves the size at once: a chunk came with a wrong checksum.
    pub fn record_crc_error(&mut self)
        requires
            old(self).wf(),
        ensures
            final(self).wf(),
            final(self).model() == (if old(self).model().disabled {
                old(self).model()
            } else {
                old(self).model().shrunk()
            }),
    {
        if !self.disabled {
            self.shrink();
        }
    }

    /// Starts over from the default size with an empty window.
    pub fn reset(&mut self)
        requires
            old(self).wf(),
        ensures
            final(self).wf(),
            final(self).model() == (ChunkSizeModel {
                current: clamped(
                    DEFAULT_INITIAL_CHUNK as int,
                    old(self).model().min,
                    old(self).model().max,
                ),
                samples: Seq::empty(),
                ..old(self).model()
            }),
            old(self).model().min <= 65535 <= old(self).model().max
                ==> final(self).model().current == 65535,
    {
        self.current_chunk_size = clamp(DEFAULT_INITIAL_CHUNK, self.min_chunk, self.max_chunk);
        self.samples.clear();
    }
}

/// Whatever happens, the size in force stays in range.
pub proof fn lemma_size_stays_in_range(
    m: ChunkSizeModel,
    sample: ThroughputSample,
    improved: bool,
)
    requires
        m.wf(),
    ensures
        m.min <= m.size() <= m.max,
        m.sampled(sample).wf(),
        m.sampled(sample).size() == m.size(),
        m.adjusted(improved).wf(),
        m.shrunk().wf(),
{
}

/// A fixed size stays as it is, whatever is measured.
pub proof fn lemma_fixed_size_stays(m: ChunkSizeModel, sample: ThroughputSample, improved: bool)
    requires
        m.disabled,
    ensures
        m.sampled(sample) == m,
        m.adjusted(improved) == m,
        !m.is_measurable(),
{
}

/// An improvement never makes chunks smaller, and a decline never makes them
/// larger. Where there is still room, the size does change.
pub proof fn lemma_adjustment_follows_the_verdict(m: ChunkSizeModel)
    requires
        m.wf(),
        !m.disabled,
    ensures
        m.adjusted(true).size() >= m.size(),
        m.adjusted(false).size() <= m.size(),
        m.size() < m.max && m.size() >= 4 ==> m.adjusted(true).size() > m.size(),
        m.size() > m.min ==> m.adjusted(false).size() < m.size(),
{
}

} // verus!
