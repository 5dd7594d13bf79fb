use braid::adaptive::channels::{
    ChannelCountAdaptor, Tick, TickAction, Verdict, DEFAULT_INITIAL_CHANNELS, MAX_CHANNELS,
    MIN_CHANNELS, THROUGHPUT_TIMEOUT_NS, THROUGHPUT_WINDOW,
};
use braid::adaptive::chunk_size::{
    ChunkSizeAdaptor, DEFAULT_INITIAL_CHUNK, DEFAULT_WINDOW_SIZE, MAX_CHUNK, MIN_CHUNK,
};
use braid::adaptive::window::{ThroughputSample, WindowTotals};

const GROWTH_FACTOR: f64 = 1.25;
const SHRINK_FACTOR: f64 = 0.5;

/// A chunk size adaptor with the smoothing of the measured throughput.
struct Chunks {
    adaptor: ChunkSizeAdaptor,
    ewma: f64,
}

impl Chunks {
    fn new(initial: usize, min: usize, max: usize, window: usize) -> Self {
        Chunks { adaptor: ChunkSizeAdaptor::new(initial, min, max, window), ewma: 0.0 }
    }

    fn record(&mut self, bytes: u64, duration_ns: u64) {
        let sample = ThroughputSample { bytes, duration_ns };
        if let Some(totals) = self.adaptor.record_throughput(sample) {
            let ewma = smooth(self.ewma, rate(&totals));
            self.adaptor.adjust(ewma > self.ewma);
            self.ewma = ewma;
        }
    }

    fn fill_window(&mut self, bytes: u64, duration_ns: u64) {
        for _ in 0..self.adaptor.window_size() {
            self.record(bytes, duration_ns);
        }
    }
}

fn rate(totals: &WindowTotals) -> f64 {
    if totals.duration_ns == 0 {
        0.0
    } else {
        totals.bytes as f64 / totals.duration_ns as f64
    }
}

fn smooth(prev: f64, current: f64) -> f64 {
    if prev == 0.0 {
        current
    } else {
        prev * 0.7 + current * 0.3
    }
}

/// A channel count adaptor with the smoothing of the measured throughput.
struct Channels {
    adaptor: ChannelCountAdaptor,
    before: f64,
    after: f64,
    now_ns: u64,
}

impl Channels {
    fn new(initial: usize, min: usize, max: usize, min_secs: u64, max_secs: u64) -> Self {
        Channels {
            adaptor: ChannelCountAdaptor::new(initial, min, max, min_secs, max_secs),
            before: 0.0,
            after: 0.0,
            now_ns: 1_000_000_000,
        }
    }

    fn fill(&mut self, bytes: u64, duration_ns: u64) {
        for _ in 0..THROUGHPUT_WINDOW {
            self.adaptor.record_throughput(ThroughputSample { bytes, duration_ns }, self.now_ns);
        }
    }

    fn added(&mut self) {
        if let Some(totals) = self.adaptor.notify_channel_added(self.now_ns) {
            self.before = smooth(self.before, rate(&totals));
            self.after = 0.0;
        }
    }

    fn removed(&mut self) {
        if let Some(totals) = self.adaptor.notify_channel_removed(self.now_ns) {
            self.before = smooth(self.before, rate(&totals));
            self.after = 0.0;
        }
    }

    fn tick(&mut self) -> TickAction {
        match self.adaptor.tick(self.now_ns) {
            Tick::Idle => TickAction::Wait,
            Tick::Compare(totals) => {
                self.after = smooth(self.after, rate(&totals));
                let change = (self.after - self.before) / self.before;
                let verdict = if self.before == 0.0 {
                    Verdict::NoBaseline
                } else if change > 0.05 {
                    Verdict::Improved
                } else if change < 0.0 {
                    Verdict::Degraded
                } else {
                    Verdict::Stable
                };
                self.adaptor.conclude(verdict)
            }
            Tick::Ramp(baseline) => {
                if let Some(totals) = baseline {
                    self.before = smooth(self.before, rate(&totals));
                }
                TickAction::AddChannel
            }
        }
    }
}

#[test]
fn starts_at_default_chunk() {
    let a = ChunkSizeAdaptor::new_default();
    assert_eq!(a.current_chunk_size(), DEFAULT_INITIAL_CHUNK);
    assert_eq!(a.min_chunk(), MIN_CHUNK);
    assert_eq!(a.max_chunk(), MAX_CHUNK);
    assert_eq!(a.window_size(), DEFAULT_WINDOW_SIZE);
}

#[test]
fn clamps_initial_chunk_size() {
    let a = ChunkSizeAdaptor::new(0, MIN_CHUNK, MAX_CHUNK, 10);
    assert_eq!(a.current_chunk_size(), MIN_CHUNK);

    let a = ChunkSizeAdaptor::new(2_000_000, MIN_CHUNK, MAX_CHUNK, 10);
    assert_eq!(a.current_chunk_size(), MAX_CHUNK);
}

#[test]
fn chunk_size_custom_bounds() {
    let a = ChunkSizeAdaptor::new(4096, 2048, 8192, 10);
    assert_eq!(a.min_chunk(), 2048);
    assert_eq!(a.max_chunk(), 8192);
    assert_eq!(a.current_chunk_size(), 4096);
}

#[test]
fn grows_on_throughput_improvement() {
    let mut a = Chunks::new(MIN_CHUNK, MIN_CHUNK, MAX_CHUNK, 3);
    a.fill_window(1024, 1_000_000);
    let before = a.adaptor.current_chunk_size();
    a.fill_window(1024, 100_000);
    let after = a.adaptor.current_chunk_size();
    assert!(after > before, "expected growth from {} to >{}", before, before);
}

#[test]
fn growth_is_25_percent_single_step() {
    let mut a = Chunks::new(4096, MIN_CHUNK, MAX_CHUNK, 3);
    a.fill_window(4096, 1_000_000);
    let before = a.adaptor.current_chunk_size();
    a.record(4096, 100_000);
    let expected_growth = (before as f64 * GROWTH_FACTOR) as usize;
    assert_eq!(a.adaptor.current_chunk_size(), expected_growth);
}

#[test]
fn shrinks_on_throughput_degradation() {
    let mut a = Chunks::new(MAX_CHUNK, MIN_CHUNK, MAX_CHUNK, 3);
    a.fill_window(1048576, 100_000);
    let before = a.adaptor.current_chunk_size();
    a.fill_window(1048576, 1_000_000);
    let after = a.adaptor.current_chunk_size();
    assert!(after < before, "expected shrink from {} to <{}", before, before);
}

#[test]
fn shrink_is_50_percent_single_step() {
    let mut a = Chunks::new(65536, MIN_CHUNK, MAX_CHUNK, 3);
    a.fill_window(65536, 100_000);
    let before = a.adaptor.current_chunk_size();
    a.record(65536, 1_000_000);
    let expected_shrink = (before as f64 * SHRINK_FACTOR) as usize;
    assert_eq!(a.adaptor.current_chunk_size(), expected_shrink);
}

#[test]
fn growth_capped_at_max() {
    let mut a = Chunks::new(MAX_CHUNK, MIN_CHUNK, MAX_CHUNK, 3);
    a.fill_window(MAX_CHUNK as u64, 1_000_000);
    a.fill_window(MAX_CHUNK as u64, 100_000);
    assert_eq!(a.adaptor.current_chunk_size(), MAX_CHUNK);
}

#[test]
fn shrink_capped_at_min() {
    let mut a = Chunks::new(MIN_CHUNK, MIN_CHUNK, MAX_CHUNK, 3);
    a.fill_window(MIN_CHUNK as u64, 100_000);
    a.fill_window(MIN_CHUNK as u64, 1_000_000);
    assert_eq!(a.adaptor.current_chunk_size(), MIN_CHUNK);
}

#[test]
fn crc_error_triggers_immediate_shrink() {
    let mut a = ChunkSizeAdaptor::new(65536, MIN_CHUNK, MAX_CHUNK, 5);
    let before = a.current_chunk_size();
    a.record_crc_error();
    let expected = (before as f64 * SHRINK_FACTOR) as usize;
    assert_eq!(a.current_chunk_size(), expected);
}

#[test]
fn crc_error_shrink_capped_at_min() {
    let mut a = ChunkSizeAdaptor::new(MIN_CHUNK, MIN_CHUNK, MAX_CHUNK, 5);
    a.record_crc_error();
    assert_eq!(a.current_chunk_size(), MIN_CHUNK);
}

#[test]
fn chunk_size_ewma_smooths_throughput_measurements() {
    let mut a = Chunks::new(MIN_CHUNK, MIN_CHUNK, MAX_CHUNK, 3);
    a.fill_window(1024, 1_000_000);
    let after_first = a.adaptor.current_chunk_size();
    a.fill_window(1024, 1_000_000);
    let after_second = a.adaptor.current_chunk_size();
    assert!(after_second <= after_first, "same throughput should not cause growth");
}

#[test]
fn disabled_mode_returns_fixed_size() {
    let mut a = ChunkSizeAdaptor::new_default();
    a.set_fixed(8192);
    assert!(a.is_disabled());
    assert_eq!(a.current_chunk_size(), 8192);
    assert_eq!(
        a.record_throughput(ThroughputSample { bytes: 999999, duration_ns: 1 }),
        None
    );
    a.adjust(true);
    assert_eq!(a.current_chunk_size(), 8192);
    a.record_crc_error();
    assert_eq!(a.current_chunk_size(), 8192);
}

#[test]
fn disabled_mode_clamps_fixed_size() {
    let mut a = ChunkSizeAdaptor::new_default();
    a.set_fixed(0);
    assert_eq!(a.current_chunk_size(), MIN_CHUNK);
    a.set_fixed(9_999_999);
    assert_eq!(a.current_chunk_size(), MAX_CHUNK);
}

#[test]
fn chunk_size_reset_restores_initial_state() {
    let mut a = Chunks::new(65536, MIN_CHUNK, MAX_CHUNK, 5);
    a.fill_window(65536, 100_000);
    a.fill_window(65536, 1_000_000);
    assert!(a.adaptor.current_chunk_size() < 65536);
    assert_eq!(a.adaptor.sample_count(), 5);
    a.adaptor.reset();
    assert_eq!(a.adaptor.current_chunk_size(), DEFAULT_INITIAL_CHUNK);
    assert_eq!(a.adaptor.sample_count(), 0);
}

#[test]
fn window_fills_and_ages_out() {
    let mut a = Chunks::new(MIN_CHUNK, MIN_CHUNK, MAX_CHUNK, 3);
    assert_eq!(a.adaptor.sample_count(), 0);
    a.record(1024, 1000);
    a.record(1024, 1000);
    assert_eq!(a.adaptor.sample_count(), 2);
    a.record(1024, 1000);
    assert_eq!(a.adaptor.sample_count(), 3);
    a.record(1024, 1000);
    assert_eq!(a.adaptor.sample_count(), 3);
}

#[test]
fn window_totals_cover_the_latest_samples() {
    let mut a = ChunkSizeAdaptor::new(MIN_CHUNK, MIN_CHUNK, MAX_CHUNK, 2);
    assert_eq!(a.record_throughput(ThroughputSample { bytes: 1, duration_ns: 10 }), None);
    assert_eq!(
        a.record_throughput(ThroughputSample { bytes: 2, duration_ns: 20 }),
        Some(WindowTotals { bytes: 3, duration_ns: 30 })
    );
    assert_eq!(
        a.record_throughput(ThroughputSample { bytes: u64::MAX, duration_ns: u64::MAX }),
        Some(WindowTotals { bytes: u64::MAX as u128 + 2, duration_ns: u64::MAX as u128 + 20 })
    );
}

#[test]
fn zero_duration_does_not_crash() {
    let mut a = Chunks::new(MIN_CHUNK, MIN_CHUNK, MAX_CHUNK, 3);
    for _ in 0..3 {
        a.record(1024, 0);
    }
    assert_eq!(a.adaptor.current_chunk_size(), MIN_CHUNK);
}

#[test]
fn custom_window_size() {
    let mut a = Chunks::new(MIN_CHUNK, MIN_CHUNK, MAX_CHUNK, 10);
    assert_eq!(a.adaptor.window_size(), 10);
    a.fill_window(1024, 1_000_000);
    assert_eq!(a.adaptor.sample_count(), 10);
}

#[test]
fn multiple_aimd_cycles() {
    let mut a = Chunks::new(4096, MIN_CHUNK, MAX_CHUNK, 3);
    a.fill_window(4096, 1_000_000);
    a.fill_window(4096, 100_000);
    assert!(a.adaptor.current_chunk_size() > 4096);
    let mid = a.adaptor.current_chunk_size();
    a.fill_window(4096, 1_000_000);
    assert!(a.adaptor.current_chunk_size() < mid);
}

#[test]
fn chunk_size_adaptor_defaults() {
    let adaptor = ChunkSizeAdaptor::new_default();
    assert_eq!(adaptor.current_chunk_size(), DEFAULT_INITIAL_CHUNK);
}

#[test]
fn chunk_size_adaptor_fixed_mode() {
    let mut adaptor = ChunkSizeAdaptor::new_default();
    adaptor.set_fixed(8192);
    assert!(adaptor.is_disabled());
    assert_eq!(adaptor.current_chunk_size(), 8192);
}

#[test]
fn chunk_size_adaptor_adaptive_mode() {
    let adaptor = ChunkSizeAdaptor::new(4096, 1024, 1048576, 10);
    assert!(!adaptor.is_disabled());
    assert_eq!(adaptor.current_chunk_size(), 4096);
}

#[test]
fn channel_count_adaptor_defaults() {
    let adaptor = ChannelCountAdaptor::new_default();
    assert_eq!(adaptor.current_channel_count(), DEFAULT_INITIAL_CHANNELS);
}

#[test]
fn channel_count_adaptor_fixed_mode() {
    let mut adaptor = ChannelCountAdaptor::new_default();
    adaptor.set_fixed(8);
    assert!(adaptor.is_disabled());
    assert_eq!(adaptor.current_channel_count(), 8);
}

#[test]
fn starts_at_default_channels() {
    let a = ChannelCountAdaptor::new_default();
    assert_eq!(a.current_channel_count(), DEFAULT_INITIAL_CHANNELS);
    assert_eq!(a.min_channels(), MIN_CHANNELS);
    assert_eq!(a.max_channels(), MAX_CHANNELS);
    assert!(!a.is_plateau());
    assert!(!a.is_disabled());
}

#[test]
fn clamps_initial_channel_count() {
    let a = ChannelCountAdaptor::new(0, MIN_CHANNELS, MAX_CHANNELS, 10, 20);
    assert_eq!(a.current_channel_count(), MIN_CHANNELS);

    let a = ChannelCountAdaptor::new(999, MIN_CHANNELS, MAX_CHANNELS, 10, 20);
    assert_eq!(a.current_channel_count(), MAX_CHANNELS);
}

#[test]
fn channels_custom_bounds() {
    let a = ChannelCountAdaptor::new(8, 2, 16, 5, 10);
    assert_eq!(a.min_channels(), 2);
    assert_eq!(a.max_channels(), 16);
    assert_eq!(a.current_channel_count(), 8);
}

#[test]
fn tick_returns_add_channel_after_interval() {
    let mut a = Channels::new(4, 1, 256, 0, 0);
    a.fill(65536, 1_000_000);
    assert_eq!(a.tick(), TickAction::AddChannel, "expected AddChannel after interval");
}

#[test]
fn tick_returns_none_before_interval() {
    let mut a = Channels::new(4, 1, 256, 60, 60);
    a.fill(65536, 1_000_000);
    assert_eq!(a.tick(), TickAction::Wait, "expected None before interval");
}

#[test]
fn improved_throughput_returns_add_channel() {
    let mut a = Channels::new(4, 1, 256, 0, 0);
    a.fill(65536, 1_000_000);
    a.added();
    a.fill(65536, 100_000);
    assert_eq!(a.tick(), TickAction::AddChannel);
}

#[test]
fn degraded_throughput_returns_remove_channel() {
    let mut a = Channels::new(4, 1, 256, 0, 0);
    a.fill(65536, 100_000);
    a.added();
    a.fill(65536, 1_000_000);
    assert_eq!(a.tick(), TickAction::RemoveChannel);
}

#[test]
fn plateau_detected_when_throughput_stable() {
    let mut a = Channels::new(4, 1, 256, 0, 0);
    a.fill(65536, 1_000_000);
    a.added();
    a.fill(65536, 1_000_000);
    assert_eq!(a.tick(), TickAction::Plateau, "stable throughput should plateau");
    assert_eq!(a.tick(), TickAction::Wait, "plateau should persist");
    assert!(a.adaptor.is_plateau());
    a.removed();
    assert!(!a.adaptor.is_plateau());
}

#[test]
fn disabled_mode_returns_fixed_count() {
    let mut a = Channels::new(4, 1, 256, 10, 20);
    a.adaptor.set_fixed(8);
    assert!(a.adaptor.is_disabled());
    assert_eq!(a.adaptor.current_channel_count(), 8);
    assert_eq!(a.tick(), TickAction::Wait);
    a.adaptor.record_throughput(ThroughputSample { bytes: 999999, duration_ns: 1 }, 5);
    assert_eq!(a.adaptor.current_channel_count(), 8);
}

#[test]
fn disabled_mode_clamps_fixed_count() {
    let mut a = ChannelCountAdaptor::new_default();
    a.set_fixed(0);
    assert_eq!(a.current_channel_count(), MIN_CHANNELS);
    a.set_fixed(999);
    assert_eq!(a.current_channel_count(), MAX_CHANNELS);
}

#[test]
fn tick_returns_none_at_max_channels() {
    let mut a = Channels::new(MAX_CHANNELS, MIN_CHANNELS, MAX_CHANNELS, 0, 0);
    a.fill(65536, 1_000_000);
    assert_eq!(a.tick(), TickAction::Wait, "should not add beyond max channels");
}

#[test]
fn tick_returns_none_after_throughput_timeout() {
    let mut a = Channels::new(4, 1, 256, 0, 0);
    a.fill(65536, 1_000_000);
    a.now_ns += THROUGHPUT_TIMEOUT_NS + 1_000_000_000;
    assert_eq!(a.tick(), TickAction::Wait, "should pause after throughput timeout");
}

#[test]
fn notify_channel_added_increments_count() {
    let mut a = Channels::new(4, 1, 256, 0, 0);
    assert_eq!(a.adaptor.current_channel_count(), 4);
    a.added();
    assert_eq!(a.adaptor.current_channel_count(), 5);
}

#[test]
fn notify_channel_added_capped_at_max() {
    let mut a = Channels::new(MAX_CHANNELS, MIN_CHANNELS, MAX_CHANNELS, 0, 0);
    a.added();
    assert_eq!(a.adaptor.current_channel_count(), MAX_CHANNELS);
}

#[test]
fn notify_channel_removed_decrements_count() {
    let mut a = Channels::new(4, 1, 256, 0, 0);
    a.removed();
    assert_eq!(a.adaptor.current_channel_count(), 3);
}

#[test]
fn notify_channel_removed_capped_at_min() {
    let mut a = Channels::new(MIN_CHANNELS, MIN_CHANNELS, MAX_CHANNELS, 0, 0);
    a.removed();
    assert_eq!(a.adaptor.current_channel_count(), MIN_CHANNELS);
}

#[test]
fn channels_reset_restores_initial_state() {
    let mut a = Channels::new(8, 1, 256, 0, 0);
    a.fill(65536, 100_000);
    a.added();
    a.fill(65536, 1_000_000);
    assert_eq!(a.adaptor.current_channel_count(), 9);
    assert!(a.adaptor.post_change_sample_count() > 0);
    a.adaptor.reset();
    assert_eq!(a.adaptor.current_channel_count(), DEFAULT_INITIAL_CHANNELS);
    assert_eq!(a.adaptor.pre_change_sample_count(), 0);
    assert_eq!(a.adaptor.post_change_sample_count(), 0);
    assert!(!a.adaptor.is_plateau());
}

#[test]
fn multiple_ramp_up_cycles() {
    let mut a = Channels::new(4, 1, 256, 0, 0);
    a.fill(65536, 1_000_000);
    a.added();
    a.fill(65536, 100_000);
    assert_eq!(a.tick(), TickAction::AddChannel);
    a.added();
    a.fill(65536, 10_000_000);
    assert_eq!(a.tick(), TickAction::RemoveChannel);
}

#[test]
fn zero_duration_samples_do_not_crash() {
    let mut a = Channels::new(4, 1, 256, 0, 0);
    a.fill(65536, 0);
    assert_eq!(a.tick(), TickAction::AddChannel);
}

#[test]
fn channels_ewma_smooths_throughput_measurements() {
    let mut a = Channels::new(4, 1, 256, 0, 0);
    a.fill(65536, 1_000_000);
    a.added();
    a.fill(65536, 1_000_000);
    assert_eq!(a.tick(), TickAction::Plateau);
}

#[test]
fn tick_with_no_samples_returns_add_channel() {
    let mut a = Channels::new(4, 1, 256, 0, 0);
    assert_eq!(a.tick(), TickAction::AddChannel);
}

#[test]
fn ramp_waits_for_the_jittered_interval() {
    let mut a = ChannelCountAdaptor::new(4, 1, 256, 10, 20);
    a.notify_channel_added(0);
    let spread = (5u64.wrapping_mul(0x9e37_79b9_7f4a_7c15) % 1_000_000) * 10_000;
    let due = 10_000_000_000 + spread;
    assert_eq!(a.tick(due - 1), Tick::Idle);
    assert_eq!(a.tick(due), Tick::Ramp(None));
}

#[test]
fn first_channel_is_added_after_the_interval() {
    let mut a = Channels::new(4, 1, 256, 5, 5);
    a.fill(65536, 1_000_000);
    assert_eq!(a.tick(), TickAction::Wait);
    a.now_ns += 5_000_000_000 - 1;
    assert_eq!(a.tick(), TickAction::Wait);
    a.now_ns += 1;
    assert_eq!(a.tick(), TickAction::AddChannel);
}

#[test]
fn nothing_is_added_without_any_sample_for_long() {
    let mut a = ChannelCountAdaptor::new(4, 1, 256, 0, 0);
    assert!(matches!(a.tick(0), Tick::Ramp(None)));
    assert!(matches!(a.tick(THROUGHPUT_TIMEOUT_NS), Tick::Ramp(None)));
    assert_eq!(a.tick(THROUGHPUT_TIMEOUT_NS + 1), Tick::Idle);
}

#[test]
fn samples_after_a_verdict_stay_with_the_change() {
    let mut a = ChannelCountAdaptor::new(4, 1, 256, 0, 0);
    let sample = ThroughputSample { bytes: 10, duration_ns: 1 };
    a.notify_channel_added(0);
    a.record_throughput(sample, 0);
    assert_eq!((a.pre_change_sample_count(), a.post_change_sample_count()), (0, 1));
    a.conclude(Verdict::Improved);
    a.record_throughput(sample, 0);
    assert_eq!((a.pre_change_sample_count(), a.post_change_sample_count()), (0, 2));
    a.notify_channel_added(0);
    a.record_throughput(sample, 0);
    assert_eq!((a.pre_change_sample_count(), a.post_change_sample_count()), (0, 1));
}
