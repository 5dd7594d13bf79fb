//! Flow control: how full the receiver is, and what the sender does about it.

use crate::channel::Outlet;
use crate::protocol::control::{ControlMessage, MessageModel};
use crate::sender::queue;
use vstd::prelude::*;

pub mod laws;

verus! {

/// How often the receiver reports its fullness, in nanoseconds.
pub const DEFAULT_STATUS_INTERVAL_NS: u64 = 100_000_000;

/// From how many percent on the level is yellow.
pub const GREEN_MAX_PERCENT: u128 = 50;

/// From how many percent on the level is orange.
pub const YELLOW_MAX_PERCENT: u128 = 80;

/// From how many percent on the level is red.
pub const ORANGE_MAX_PERCENT: u128 = 95;

/// The part of the chunk size that is left at the level yellow, in percent.
pub const YELLOW_REDUCTION_PERCENT: u8 = 75;

/// How full a buffer is.
#[derive(Debug, Clone, Copy, PartialEq, Eq, Hash, Structural)]
pub enum FullnessLevel {
    /// Below 50%: normal operation.
    Green,
    /// From 50% on: chunks are made smaller.
    Yellow,
    /// From 80% on: splitting is paused.
    Orange,
    /// From 95% on: all sending is paused.
    Red,
}

/// Whether `occupancy` is at least `percent` percent of `capacity`.
pub open spec fn at_least(occupancy: nat, capacity: nat, percent: nat) -> bool {
    capacity > 0 && occupancy * 100 >= capacity * percent
}

impl FullnessLevel {
    /// The level for `occupancy` out of `capacity`; nothing of nothing is green.
    pub open spec fn of(occupancy: nat, capacity: nat) -> FullnessLevel {
        if at_least(occupancy, capacity, 95) {
            FullnessLevel::Red
        } else if at_least(occupancy, capacity, 80) {
            FullnessLevel::Orange
        } else if at_least(occupancy, capacity, 50) {
            FullnessLevel::Yellow
        } else {
            FullnessLevel::Green
        }
    }

    /// Orange or red.
    pub open spec fn severe(self) -> bool {
        self == FullnessLevel::Orange || self == FullnessLevel::Red
    }

    /// The level for `occupancy` out of `capacity`.
    pub fn from_fraction(occupancy: usize, capacity: usize) -> (r: Self)
        ensures
            r == FullnessLevel::of(occupancy as nat, capacity as nat),
            capacity == 0 ==> r == FullnessLevel::Green,
            capacity > 0 ==> {
                &&& r == FullnessLevel::Red <==> occupancy * 100 >= capacity * 95
                &&& r == FullnessLevel::Orange <==> capacity * 80 <= occupancy * 100 < capacity * 95
                &&& r == FullnessLevel::Yellow <==> capacity * 50 <= occupancy * 100 < capacity * 80
                &&& r == FullnessLevel::Green <==> occupancy * 100 < capacity * 50
            },
    {
        let scaled: u128 = occupancy as u128 * 100;
        let whole: u128 = capacity as u128;
        if whole == 0 {
            FullnessLevel::Green
        } else if scaled >= whole * ORANGE_MAX_PERCENT {
            FullnessLevel::Red
        } else if scaled >= whole * YELLOW_MAX_PERCENT {
            FullnessLevel::Orange
        } else if scaled >= whole * GREEN_MAX_PERCENT {
            FullnessLevel::Yellow
        } else {
            FullnessLevel::Green
        }
    }

    /// Yellow, orange or red.
    pub fn is_pressured(&self) -> (r: bool)
        ensures
            r == (*self != FullnessLevel::Green),
    {
        matches!(self, FullnessLevel::Yellow | FullnessLevel::Orange | FullnessLevel::Red)
    }

    /// Orange or red.
    pub fn is_severe(&self) -> (r: bool)
        ensures
            r == self.severe(),
            r == (*self == FullnessLevel::Orange || *self == FullnessLevel::Red),
    {
        matches!(self, FullnessLevel::Orange | FullnessLevel::Red)
    }

    /// Red.
    pub fn is_critical(&self) -> (r: bool)
        ensures
            r == (*self == FullnessLevel::Red),
    {
        matches!(self, FullnessLevel::Red)
    }
}

/// More in the same buffer never lowers the level.
pub proof fn lemma_level_grows_with_occupancy(low: nat, high: nat, capacity: nat)
    requires
        low <= high,
    ensures
        FullnessLevel::of(low, capacity).severe() ==> FullnessLevel::of(high, capacity).severe(),
        FullnessLevel::of(low, capacity) == FullnessLevel::Red ==> FullnessLevel::of(high, capacity)
            == FullnessLevel::Red,
        FullnessLevel::of(high, capacity) == FullnessLevel::Green ==> FullnessLevel::of(
            low,
            capacity,
        ) == FullnessLevel::Green,
{
}

/// Counters of flow control. They wrap around on overflow.
#[derive(Debug, Clone, Copy, PartialEq, Eq, Structural)]
pub struct FlowStats {
    /// How often a pause began.
    pub total_pauses: u64,
    /// How often a pause ended.
    pub total_resumes: u64,
    /// The highest fullness seen, in millionths.
    pub max_fullness: u64,
    /// Status messages sent.
    pub status_messages_sent: u64,
    /// Status messages received.
    pub status_messages_received: u64,
    /// How often chunks were made smaller.
    pub chunk_size_reductions: u64,
    /// Refusals sent.
    pub nacks_sent: u64,
}

/// All counters at zero.
pub open spec fn no_flow_yet() -> FlowStats {
    FlowStats {
        total_pauses: 0,
        total_resumes: 0,
        max_fullness: 0,
        status_messages_sent: 0,
        status_messages_received: 0,
        chunk_size_reductions: 0,
        nacks_sent: 0,
    }
}

impl Default for FlowStats {
    fn default() -> (r: Self)
        ensures
            r == no_flow_yet(),
            r.total_pauses == 0 && r.total_resumes == 0 && r.max_fullness == 0,
            r.status_messages_sent == 0 && r.status_messages_received == 0,
            r.chunk_size_reductions == 0 && r.nacks_sent == 0,
    {
        FlowStats {
            total_pauses: 0,
            total_resumes: 0,
            max_fullness: 0,
            status_messages_sent: 0,
            status_messages_received: 0,
            chunk_size_reductions: 0,
            nacks_sent: 0,
        }
    }
}

/// `occupancy` out of `capacity` in millionths, rounded down; nothing of
/// nothing is 0. What is more than full counts as full.
pub open spec fn millionths(occupancy: nat, capacity: nat) -> u64 {
    if capacity == 0 {
        0
    } else if occupancy >= capacity {
        1_000_000
    } else {
        (occupancy * 1_000_000 / capacity) as u64
    }
}

/// Fullness is a number from 0 to a million, whatever the occupancy, and a
/// million is reached exactly where the buffer is full.
pub proof fn lemma_fullness_in_range(occupancy: nat, capacity: nat)
    ensures
        millionths(occupancy, capacity) <= 1_000_000,
        capacity > 0 ==> (millionths(occupancy, capacity) == 1_000_000 <==> occupancy >= capacity),
{
    if 0 < capacity && occupancy < capacity {
        assert(0 <= occupancy * 1_000_000 / capacity < 1_000_000) by (nonlinear_arith)
            requires
                occupancy < capacity,
        ;
    }
}

impl FlowStats {
    /// Counts the beginning of a pause.
    pub fn record_pause(&mut self)
        ensures
            *final(self) == (FlowStats {
                total_pauses: old(self).total_pauses.wrapping_add(1),
                ..*old(self)
            }),
    {
        self.total_pauses = self.total_pauses.wrapping_add(1);
    }

    /// Counts the end of a pause.
    pub fn record_resume(&mut self)
        ensures
            *final(self) == (FlowStats {
                total_resumes: old(self).total_resumes.wrapping_add(1),
                ..*old(self)
            }),
    {
        self.total_resumes = self.total_resumes.wrapping_add(1);
    }

    /// Notes a fullness, given in millionths; more than a million counts as a
    /// million.
    pub fn record_fullness(&mut self, fullness: u64)
        ensures
            *final(self) == (FlowStats {
                max_fullness: {
                    let noted = if fullness <= 1_000_000 {
                        fullness
                    } else {
                        1_000_000
                    };
                    if noted > old(self).max_fullness {
                        noted
                    } else {
                        old(self).max_fullness
                    }
                },
                ..*old(self)
            }),
    {
        let noted: u64 = if fullness <= 1_000_000 {
            fullness
        } else {
            1_000_000
        };
        if noted > self.max_fullness {
            self.max_fullness = noted;
        }
    }

    /// Counts a status message that was sent.
    pub fn record_status_sent(&mut self)
        ensures
            *final(self) == (FlowStats {
                status_messages_sent: old(self).status_messages_sent.wrapping_add(1),
                ..*old(self)
            }),
    {
        self.status_messages_sent = self.status_messages_sent.wrapping_add(1);
    }

    /// Counts a status message that was received.
    pub fn record_status_received(&mut self)
        ensures
            *final(self) == (FlowStats {
                status_messages_received: old(self).status_messages_received.wrapping_add(1),
                ..*old(self)
            }),
    {
        self.status_messages_received = self.status_messages_received.wrapping_add(1);
    }

    /// Counts that chunks were made smaller.
    pub fn record_chunk_size_reduction(&mut self)
        ensures
            *final(self) == (FlowStats {
                chunk_size_reductions: old(self).chunk_size_reductions.wrapping_add(1),
                ..*old(self)
            }),
    {
        self.chunk_size_reductions = self.chunk_size_reductions.wrapping_add(1);
    }

    /// Counts a refusal that was sent.
    pub fn record_nack(&mut self)
        ensures
            *final(self) == (FlowStats {
                nacks_sent: old(self).nacks_sent.wrapping_add(1),
                ..*old(self)
            }),
    {
        self.nacks_sent = self.nacks_sent.wrapping_add(1);
    }
}

/// Tracks how full a buffer is.
#[derive(Debug, Clone, Copy, PartialEq, Eq, Structural)]
pub struct FlowController {
    pub current_level: FullnessLevel,
    pub previous_level: FullnessLevel,
    pub capacity: usize,
    pub current_occupancy: usize,
    pub flow_stats: FlowStats,
}

/// How large chunks are made at a level that have `full` bytes at the level green.
pub open spec fn sized(level: FullnessLevel, full: usize) -> int {
    match level {
        FullnessLevel::Green => full as int,
        FullnessLevel::Yellow => full * 75 / 100,
        _ => 0,
    }
}

/// What the receiver reports of itself.
pub open spec fn status_report(occupancy: usize, queued_bytes: u32, capacity: usize) -> MessageModel {
    MessageModel::QueueStatus {
        queued_chunks: occupancy as u32,
        queued_bytes,
        total_capacity: capacity as u32,
    }
}

impl FlowController {
    /// After the occupancy was set to `occupancy`.
    pub open spec fn updated(self, occupancy: usize) -> FlowController {
        let level = FullnessLevel::of(occupancy as nat, self.capacity as nat);
        let fullness = millionths(occupancy as nat, self.capacity as nat);
        let was = self.current_level;
        FlowController {
            current_level: level,
            previous_level: if level != was {
                was
            } else {
                self.previous_level
            },
            current_occupancy: occupancy,
            flow_stats: FlowStats {
                max_fullness: if fullness > self.flow_stats.max_fullness {
                    fullness
                } else {
                    self.flow_stats.max_fullness
                },
                total_pauses: if level.severe() && !was.severe() {
                    self.flow_stats.total_pauses.wrapping_add(1)
                } else {
                    self.flow_stats.total_pauses
                },
                total_resumes: if !level.severe() && was.severe() {
                    self.flow_stats.total_resumes.wrapping_add(1)
                } else {
                    self.flow_stats.total_resumes
                },
                ..self.flow_stats
            },
            ..self
        }
    }

    /// Whether as many pauses began as ended, or one more while one lasts.
    pub open spec fn pauses_match(self) -> bool {
        self.flow_stats.total_pauses == self.flow_stats.total_resumes + if self.current_level.severe() {
            1int
        } else {
            0int
        }
    }

    /// A controller for an empty buffer.
    pub fn new(total_capacity: usize) -> (r: Self)
        ensures
            r == (FlowController {
                current_level: FullnessLevel::Green,
                previous_level: FullnessLevel::Green,
                capacity: total_capacity,
                current_occupancy: 0,
                flow_stats: no_flow_yet(),
            }),
            r.pauses_match(),
            r.flow_stats.total_pauses == 0 && r.flow_stats.total_resumes == 0,
            r.flow_stats.max_fullness == 0 && r.flow_stats.status_messages_sent == 0,
            r.flow_stats.status_messages_received == 0 && r.flow_stats.nacks_sent == 0,
            r.flow_stats.chunk_size_reductions == 0,
    {
        FlowController {
            current_level: FullnessLevel::Green,
            previous_level: FullnessLevel::Green,
            capacity: total_capacity,
            current_occupancy: 0,
            flow_stats: FlowStats::default(),
        }
    }

    /// Sets the occupancy. Returns the level, and whether it changed.
    pub fn update_occupancy(&mut self, occupancy: usize) -> (r: (FullnessLevel, bool))
        ensures
            *final(self) == old(self).updated(occupancy),
            r.0 == FullnessLevel::of(occupancy as nat, old(self).capacity as nat),
            r.1 == (r.0 != old(self).current_level),
            r.0 == final(self).current_level,
            final(self).current_occupancy == occupancy,
            final(self).capacity == old(self).capacity,
            final(self).previous_level == (if r.1 {
                old(self).current_level
            } else {
                old(self).previous_level
            }),
    {
        self.current_occupancy = occupancy;
        let fullness: u64 = self.fullness_millionths();
        self.flow_stats.record_fullness(fullness);
        let new_level = FullnessLevel::from_fraction(occupancy, self.capacity);
        let changed: bool = new_level != self.current_level;
        if changed {
            self.previous_level = self.current_level;
            self.current_level = new_level;
            if self.current_level.is_severe() && !self.previous_level.is_severe() {
                self.flow_stats.record_pause();
            }
            if !self.current_level.is_severe() && self.previous_level.is_severe() {
                self.flow_stats.record_resume();
            }
        }
        (self.current_level, changed)
    }

    /// The current level.
    pub fn level(&self) -> (r: FullnessLevel)
        ensures
            r == self.current_level,
    {
        self.current_level
    }

    /// The level before the current one.
    pub fn prev_level(&self) -> (r: FullnessLevel)
        ensures
            r == self.previous_level,
    {
        self.previous_level
    }

    /// The current fullness in millionths.
    pub fn fullness_millionths(&self) -> (r: u64)
        ensures
            r == millionths(self.current_occupancy as nat, self.capacity as nat),
            r <= 1_000_000,
            self.capacity == 0 ==> r == 0,
            self.current_occupancy >= self.capacity > 0 ==> r == 1_000_000,
            self.current_occupancy < self.capacity ==> r * self.capacity <= self.current_occupancy
                * 1_000_000 < (r + 1) * self.capacity,
    {
        proof {
            lemma_fullness_in_range(self.current_occupancy as nat, self.capacity as nat);
            laws::lemma_fullness_is_the_ratio(self.current_occupancy as nat, self.capacity as nat);
        }
        if self.capacity == 0 {
            0
        } else if self.current_occupancy >= self.capacity {
            1_000_000
        } else {
            (self.current_occupancy as u128 * 1_000_000 / self.capacity as u128) as u64
        }
    }

    /// The current occupancy.
    pub fn occupancy(&self) -> (r: usize)
        ensures
            r == self.current_occupancy,
    {
        self.current_occupancy
    }

    /// The capacity.
    pub fn total_capacity(&self) -> (r: usize)
        ensures
            r == self.capacity,
    {
        self.capacity
    }

    /// Changes the capacity. The level follows with the next update.
    pub fn set_total_capacity(&mut self, capacity: usize)
        ensures
            *final(self) == (FlowController { capacity, ..*old(self) }),
    {
        self.capacity = capacity;
    }

    /// The counters.
    pub fn stats(&self) -> (r: FlowStats)
        ensures
            r == self.flow_stats,
    {
        self.flow_stats
    }

    /// The part of the chunk size to use, in percent: all of it at the level
    /// green, less at yellow, nothing above.
    pub fn chunk_size_percent(&self) -> (r: u8)
        ensures
            r == match self.current_level {
                FullnessLevel::Green => 100u8,
                FullnessLevel::Yellow => 75u8,
                _ => 0u8,
            },
    {
        match self.current_level {
            FullnessLevel::Green => 100,
            FullnessLevel::Yellow => YELLOW_REDUCTION_PERCENT,
            FullnessLevel::Orange => 0,
            FullnessLevel::Red => 0,
        }
    }

    /// How large chunks are made that have `full` bytes at the level green; 0
    /// where none are made.
    pub fn chunk_size(&self, full: usize) -> (r: usize)
        ensures
            r == match self.current_level {
                FullnessLevel::Green => full as int,
                FullnessLevel::Yellow => full * 75 / 100,
                _ => 0,
            },
            r == sized(self.current_level, full),
    {
        match self.current_level {
            FullnessLevel::Green => full,
            FullnessLevel::Yellow => {
                let percent: u128 = YELLOW_REDUCTION_PERCENT as u128;
                assert(full * percent <= 75 * 0xffff_ffff_ffff_ffff) by (nonlinear_arith)
                    requires
                        percent == 75,
                        0 <= full <= 0xffff_ffff_ffff_ffff,
                ;
                (full as u128 * percent / 100) as usize
            },
            FullnessLevel::Orange => 0,
            FullnessLevel::Red => 0,
        }
    }

    /// Whether to pause splitting.
    pub fn should_pause_splitting(&self) -> (r: bool)
        ensures
            r == self.current_level.severe(),
            r == (self.current_level == FullnessLevel::Orange || self.current_level
                == FullnessLevel::Red),
    {
        self.current_level.is_severe()
    }

    /// Whether to stop all sending.
    pub fn should_stop_all(&self) -> (r: bool)
        ensures
            r == (self.current_level == FullnessLevel::Red),
    {
        self.current_level.is_critical()
    }

    /// Whether normal operation goes on.
    pub fn should_resume(&self) -> (r: bool)
        ensures
            r == (self.current_level == FullnessLevel::Green),
    {
        self.current_level == FullnessLevel::Green
    }
}

/// The highest fullness seen stays a number from 0 to a million.
pub proof fn lemma_max_fullness_in_range(c: FlowController, occupancy: usize)
    requires
        c.flow_stats.max_fullness <= 1_000_000,
    ensures
        c.updated(occupancy).flow_stats.max_fullness <= 1_000_000,
        c.updated(occupancy).flow_stats.max_fullness >= c.flow_stats.max_fullness,
{
    lemma_fullness_in_range(occupancy as nat, c.capacity as nat);
}

/// Pauses and resumes alternate: whatever the occupancy does, as many pauses
/// have ended as began, or one less while a pause lasts.
pub proof fn lemma_pauses_alternate(c: FlowController, occupancy: usize)
    requires
        c.pauses_match(),
        c.flow_stats.total_pauses < u64::MAX,
    ensures
        c.updated(occupancy).pauses_match(),
{
}

/// The receiver's side: reports how full it is.
#[derive(Debug, Clone, Copy, PartialEq, Eq, Structural)]
pub struct ReceiverMonitor {
    pub total_capacity: usize,
    pub flow_controller: FlowController,
}

impl ReceiverMonitor {
    /// A monitor for a buffer with the given capacity.
    pub fn new(total_capacity: usize) -> (r: Self)
        ensures
            r.total_capacity == total_capacity,
            r.flow_controller == (FlowController {
                current_level: FullnessLevel::Green,
                previous_level: FullnessLevel::Green,
                capacity: total_capacity,
                current_occupancy: 0,
                flow_stats: no_flow_yet(),
            }),
    {
        ReceiverMonitor { total_capacity, flow_controller: FlowController::new(total_capacity) }
    }

    /// Takes in the occupancy and makes the status message about it.
    /// `queued_bytes` is what the message says of the bytes.
    pub fn check_and_report(&mut self, occupancy: usize, queued_bytes: u32) -> (r: ControlMessage)
        ensures
            final(self).total_capacity == old(self).total_capacity,
            final(self).flow_controller == old(self).flow_controller.updated(occupancy),
            r@ == (MessageModel::QueueStatus {
                queued_chunks: occupancy as u32,
                queued_bytes,
                total_capacity: old(self).total_capacity as u32,
            }),
            r@ == status_report(occupancy, queued_bytes, old(self).total_capacity),
    {
        let _ = self.flow_controller.update_occupancy(occupancy);
        ControlMessage::QueueStatus {
            queued_chunks: occupancy as u32,
            queued_bytes,
            total_capacity: self.total_capacity as u32,
        }
    }

    /// Notes that the status message was sent.
    pub fn on_sent(&mut self)
        ensures
            *final(self) == (ReceiverMonitor {
                flow_controller: FlowController {
                    flow_stats: FlowStats {
                        status_messages_sent: old(
                            self,
                        ).flow_controller.flow_stats.status_messages_sent.wrapping_add(1),
                        ..old(self).flow_controller.flow_stats
                    },
                    ..old(self).flow_controller
                },
                ..*old(self)
            }),
    {
        self.flow_controller.flow_stats.record_status_sent();
    }

    /// The counters.
    pub fn stats(&self) -> (r: FlowStats)
        ensures
            r == self.flow_controller.flow_stats,
    {
        self.flow_controller.flow_stats
    }

    /// The controller.
    pub fn controller(&self) -> (r: &FlowController)
        ensures
            *r == self.flow_controller,
    {
        &self.flow_controller
    }
}

/// The sender's side: acts on the receiver's reports.
pub struct SenderReactor {
    pub flow_controller: FlowController,
    pub flow_pause_tx: Option<Outlet<bool>>,
    /// Whether sending was paused and not resumed since.
    pub paused: bool,
}

/// What a receiver is told that has become full. It is about no chunk in
/// particular.
pub open spec fn refusal() -> MessageModel {
    MessageModel::Nack { sequence_number: 0, reason: 0 }
}

/// What a reactor holds.
#[verifier::ext_equal]
pub struct ReactorModel {
    pub controller: FlowController,
    pub signals: Option<queue::SignalModel>,
    pub paused: bool,
}

impl ReactorModel {
    /// After sending was paused or resumed; that is signalled if there is a
    /// channel.
    pub open spec fn signalled(self, pause: bool) -> ReactorModel {
        ReactorModel {
            signals: match self.signals {
                Some(s) => Some(s.signalled(pause)),
                None => None,
            },
            paused: pause,
            ..self
        }
    }

    /// With other counters.
    pub open spec fn with_stats(self, flow_stats: FlowStats) -> ReactorModel {
        ReactorModel { controller: FlowController { flow_stats, ..self.controller }, ..self }
    }

    /// After a report that `occupancy` is taken.
    pub open spec fn on_status(self, occupancy: usize) -> ReactorModel {
        let was = self.controller.current_level;
        let m = ReactorModel { controller: self.controller.updated(occupancy), ..self };
        let level = m.controller.current_level;
        let stats = m.controller.flow_stats;
        if level == was {
            m
        } else {
            match level {
                FullnessLevel::Green => if m.paused {
                    m.signalled(false)
                } else {
                    m
                },
                FullnessLevel::Yellow => m.with_stats(
                    FlowStats {
                        chunk_size_reductions: stats.chunk_size_reductions.wrapping_add(1),
                        ..stats
                    },
                ),
                FullnessLevel::Orange => m.signalled(true),
                FullnessLevel::Red => m.with_stats(
                    FlowStats { nacks_sent: stats.nacks_sent.wrapping_add(1), ..stats },
                ).signalled(true),
            }
        }
    }

    /// After a message: a status report is counted and acted on.
    pub open spec fn on_message(self, msg: MessageModel) -> ReactorModel {
        match msg {
            MessageModel::QueueStatus { queued_chunks, .. } => {
                let stats = self.controller.flow_stats;
                self.with_stats(
                    FlowStats {
                        status_messages_received: stats.status_messages_received.wrapping_add(1),
                        ..stats
                    },
                ).on_status(queued_chunks as usize)
            },
            _ => self,
        }
    }

    /// Whether the message is what makes the level red.
    pub open spec fn turns_red(self, msg: MessageModel) -> bool {
        self.controller.current_level != FullnessLevel::Red && self.on_message(
            msg,
        ).controller.current_level == FullnessLevel::Red
    }
}

/// A reactor that has got no reports yet, for a receiver with the given capacity.
pub open spec fn unreported(
    total_capacity: usize,
    signals: Option<queue::SignalModel>,
) -> ReactorModel {
    ReactorModel {
        controller: FlowController {
            current_level: FullnessLevel::Green,
            previous_level: FullnessLevel::Green,
            capacity: total_capacity,
            current_occupancy: 0,
            flow_stats: no_flow_yet(),
        },
        signals,
        paused: false,
    }
}

impl SenderReactor {
    /// What the reactor holds.
    pub open spec fn model(self) -> ReactorModel {
        ReactorModel {
            controller: self.flow_controller,
            signals: queue::signal_model(self.flow_pause_tx),
            paused: self.paused,
        }
    }

    /// A reactor that expects a receiver with the given capacity.
    pub fn new(total_capacity: usize, flow_pause_tx: Option<Outlet<bool>>) -> (r: Self)
        ensures
            r.model() == unreported(total_capacity, queue::signal_model(flow_pause_tx)),
            r.flow_controller.capacity == total_capacity,
            r.flow_controller.current_level == FullnessLevel::Green,
            r.flow_controller.current_occupancy == 0,
            r.flow_pause_tx == flow_pause_tx,
            !r.paused,
    {
        SenderReactor {
            flow_controller: FlowController::new(total_capacity),
            flow_pause_tx,
            paused: false,
        }
    }

    /// Pauses or resumes sending, and signals that if there is a channel with
    /// room.
    fn signal(&mut self, pause: bool)
        ensures
            final(self).model() == old(self).model().signalled(pause),
    {
        match self.flow_pause_tx.take() {
            Some(tx) => {
                let mut tx = tx;
                let _ = tx.try_send(pause);
                self.flow_pause_tx = Some(tx);
            },
            None => {},
        }
        self.paused = pause;
    }

    /// Acts on a message: a status report is counted and acted on, anything
    /// else is ignored. Returned is the refusal to send to a receiver that has
    /// just become full.
    pub fn process_message(&mut self, msg: &ControlMessage) -> (r: Option<ControlMessage>)
        ensures
            final(self).model() == old(self).model().on_message(msg@),
            r is Some <==> old(self).model().turns_red(msg@),
            r is Some ==> r->Some_0@ == refusal(),
            r is Some ==> r->Some_0@ == (MessageModel::Nack { sequence_number: 0, reason: 0 }),
            r is Some <==> (msg@ matches MessageModel::QueueStatus { queued_chunks, .. }
                && old(self).flow_controller.current_level != FullnessLevel::Red
                && old(self).flow_controller.capacity > 0 && queued_chunks * 100 >= old(
                self,
            ).flow_controller.capacity * 95),
            !(msg@ is QueueStatus) ==> final(self).model() == old(self).model(),
    {
        proof {
            laws::lemma_red_is_refused_once(self.model(), msg@);
        }
        match msg {
            ControlMessage::QueueStatus { queued_chunks, .. } => {
                self.flow_controller.flow_stats.record_status_received();
                if self.handle_queue_status(*queued_chunks as usize) {
                    return Some(ControlMessage::Nack { sequence_number: 0, reason: 0 });
                }
                None
            },
            _ => None,
        }
    }

    /// Acts on a report that `occupancy` is taken: back at the level green,
    /// sending is resumed if it was paused; at yellow chunks are made smaller;
    /// at orange and red sending is paused, and at red a refusal is counted.
    /// Reports whether the receiver is to be sent one.
    fn handle_queue_status(&mut self, occupancy: usize) -> (r: bool)
        ensures
            final(self).model() == old(self).model().on_status(occupancy),
            r == (old(self).model().controller.current_level != FullnessLevel::Red
                && final(self).model().controller.current_level == FullnessLevel::Red),
    {
        let (level, changed) = self.flow_controller.update_occupancy(occupancy);
        if !changed {
            return false;
        }
        match level {
            FullnessLevel::Green => {
                if self.paused {
                    self.signal(false);
                }
            },
            FullnessLevel::Yellow => {
                self.flow_controller.flow_stats.record_chunk_size_reduction();
            },
            FullnessLevel::Orange => {
                self.signal(true);
            },
            FullnessLevel::Red => {
                self.flow_controller.flow_stats.record_nack();
                self.signal(true);
            },
        }
        matches!(level, FullnessLevel::Red)
    }

    /// The counters.
    pub fn stats(&self) -> (r: FlowStats)
        ensures
            r == self.model().controller.flow_stats,
    {
        self.flow_controller.flow_stats
    }

    /// The controller.
    pub fn controller(&self) -> (r: &FlowController)
        ensures
            *r == self.model().controller,
    {
        &self.flow_controller
    }
}

/// Sending that was paused is resumed once the receiver is below half full
/// again, whatever the levels in between were; and it is not resumed before
/// that.
pub proof fn lemma_resumes_at_green(m: ReactorModel, occupancy: usize)
    requires
        m.paused,
        m.controller.current_level != FullnessLevel::Green,
    ensures
        m.on_status(occupancy).paused <==> FullnessLevel::of(
            occupancy as nat,
            m.controller.capacity as nat,
        ) != FullnessLevel::Green,
        !m.on_status(occupancy).paused ==> m.on_status(occupancy).signals == m.signalled(
            false,
        ).signals,
{
}

/// While the receiver is at the level orange or red, sending is paused.
pub proof fn lemma_severe_means_paused(m: ReactorModel, occupancy: usize)
    requires
        m.controller.current_level.severe() ==> m.paused,
    ensures
        m.on_status(occupancy).controller.current_level.severe() ==> m.on_status(occupancy).paused,
{
}

} // verus!
