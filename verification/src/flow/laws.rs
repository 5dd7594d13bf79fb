//! What the levels and the reactions to them come to.

use crate::flow::{millionths, FlowController, FlowStats, FullnessLevel, ReactorModel};
use crate::protocol::control::MessageModel;
use crate::sender::queue::SignalModel;
use vstd::prelude::*;

verus! {

/// The levels by percentage of the capacity: red from 95 percent on, orange from
/// 80, yellow from 50, green below. Without a capacity the level is green.
pub proof fn lemma_levels_by_percentage(occupancy: nat, capacity: nat)
    ensures
        ({
            let level = FullnessLevel::of(occupancy, capacity);
            &&& capacity == 0 ==> level == FullnessLevel::Green
            &&& capacity > 0 ==> {
                &&& level == FullnessLevel::Red <==> occupancy * 100 >= capacity * 95
                &&& level == FullnessLevel::Orange || level == FullnessLevel::Red <==> occupancy
                    * 100 >= capacity * 80
                &&& level == FullnessLevel::Green <==> occupancy * 100 < capacity * 50
            }
        }),
{
}

/// Fullness in millionths is the ratio, rounded down.
pub proof fn lemma_fullness_is_the_ratio(occupancy: nat, capacity: nat)
    ensures
        capacity == 0 ==> millionths(occupancy, capacity) == 0,
        occupancy >= capacity > 0 ==> millionths(occupancy, capacity) == 1_000_000,
        occupancy < capacity ==> {
            let part = millionths(occupancy, capacity) as int;
            part * capacity <= occupancy * 1_000_000 < (part + 1) * capacity
        },
{
    if occupancy < capacity {
        let whole = occupancy * 1_000_000;
        let part = whole / capacity;
        assert(0 <= part < 1_000_000 && part * capacity <= whole < (part + 1) * capacity)
            by (nonlinear_arith)
            requires
                part == whole / capacity,
                whole == occupancy * 1_000_000,
                0 <= occupancy < capacity,
        ;
    }
}

/// What a change of the occupancy does: a pause begins where the buffer comes to be
/// filled by 80 percent or more and was not, and ends where it no longer is. The
/// highest fullness is kept, the capacity and all other counters stay.
pub proof fn lemma_update_follows_the_occupancy(c: FlowController, occupancy: usize)
    ensures
        ({
            let after = c.updated(occupancy);
            let was_severe = c.current_level == FullnessLevel::Orange || c.current_level
                == FullnessLevel::Red;
            let is_severe = c.capacity > 0 && occupancy * 100 >= c.capacity * 80;
            &&& after.capacity == c.capacity
            &&& after.current_occupancy == occupancy
            &&& after.current_level == FullnessLevel::Red <==> c.capacity > 0 && occupancy * 100
                >= c.capacity * 95
            &&& after.current_level == FullnessLevel::Green <==> c.capacity == 0 || occupancy * 100
                < c.capacity * 50
            &&& is_severe <==> after.current_level == FullnessLevel::Orange || after.current_level
                == FullnessLevel::Red
            &&& after.current_level != c.current_level ==> after.previous_level == c.current_level
            &&& after.current_level == c.current_level ==> after.previous_level == c.previous_level
            &&& after.flow_stats.total_pauses == (if is_severe && !was_severe {
                c.flow_stats.total_pauses.wrapping_add(1)
            } else {
                c.flow_stats.total_pauses
            })
            &&& after.flow_stats.total_resumes == (if was_severe && !is_severe {
                c.flow_stats.total_resumes.wrapping_add(1)
            } else {
                c.flow_stats.total_resumes
            })
            &&& after.flow_stats.max_fullness >= c.flow_stats.max_fullness
            &&& c.capacity > 0 && occupancy >= c.capacity ==> after.flow_stats.max_fullness
                >= 1_000_000
            &&& occupancy < c.capacity ==> (after.flow_stats.max_fullness + 1) * c.capacity
                > occupancy * 1_000_000
            &&& after.flow_stats.max_fullness == c.flow_stats.max_fullness
                || after.flow_stats.max_fullness * c.capacity <= occupancy * 1_000_000
            &&& after.flow_stats.status_messages_sent == c.flow_stats.status_messages_sent
            &&& after.flow_stats.status_messages_received == c.flow_stats.status_messages_received
            &&& after.flow_stats.chunk_size_reductions == c.flow_stats.chunk_size_reductions
            &&& after.flow_stats.nacks_sent == c.flow_stats.nacks_sent
        }),
{
    let after = c.updated(occupancy);
    let cap = c.capacity as int;
    let most = after.flow_stats.max_fullness as int;
    let part = millionths(occupancy as nat, c.capacity as nat) as int;
    lemma_fullness_is_the_ratio(occupancy as nat, c.capacity as nat);
    if occupancy < c.capacity {
        assert((most + 1) * cap >= (part + 1) * cap) by (nonlinear_arith)
            requires
                most >= part,
                cap >= 0,
        ;
    } else {
        assert(1_000_000 * cap <= occupancy * 1_000_000);
        assert(part * cap <= occupancy * 1_000_000) by (nonlinear_arith)
            requires
                part <= 1_000_000,
                0 <= cap <= occupancy,
        ;
    }
}

/// A signal is added to those that are out where the channel is open and has room,
/// and nothing else happens to them.
pub proof fn lemma_signal_is_added(s: SignalModel, signal: bool)
    ensures
        ({
            let after = s.signalled(signal);
            &&& after.capacity == s.capacity && after.closed == s.closed
            &&& !s.closed && s.sent.len() < s.capacity ==> after.sent == s.sent.push(signal)
            &&& s.closed || s.sent.len() >= s.capacity ==> after.sent == s.sent
        }),
{
}

/// What a report does. Sending is paused from 80 percent of the capacity on, and
/// resumed below 50; in between it stays as it was. That is signalled where the
/// level changes: a pause on each way to orange or red, the end of a pause on the
/// way to green. A smaller chunk size is counted on the way to yellow, a refusal on
/// the way to red.
pub proof fn lemma_report_is_acted_on(m: ReactorModel, occupancy: usize)
    requires
        m.controller.current_level == FullnessLevel::Orange || m.controller.current_level
            == FullnessLevel::Red ==> m.paused,
        m.controller.current_level == FullnessLevel::Green ==> !m.paused,
    ensures
        ({
            let after = m.on_status(occupancy);
            let capacity = m.controller.capacity;
            let was = m.controller.current_level;
            let level = after.controller.current_level;
            let changed = level != was;
            let severe = capacity > 0 && occupancy * 100 >= capacity * 80;
            let green = capacity == 0 || occupancy * 100 < capacity * 50;
            let signal = changed && (severe || (green && m.paused));
            &&& level == FullnessLevel::Red <==> capacity > 0 && occupancy * 100 >= capacity * 95
            &&& severe <==> level == FullnessLevel::Orange || level == FullnessLevel::Red
            &&& green <==> level == FullnessLevel::Green
            &&& severe ==> after.paused
            &&& green ==> !after.paused
            &&& !severe && !green ==> after.paused == m.paused
            &&& after.controller.current_occupancy == occupancy
            &&& after.controller.capacity == capacity
            &&& after.controller.flow_stats.chunk_size_reductions == (if changed && level
                == FullnessLevel::Yellow {
                m.controller.flow_stats.chunk_size_reductions.wrapping_add(1)
            } else {
                m.controller.flow_stats.chunk_size_reductions
            })
            &&& after.controller.flow_stats.nacks_sent == (if changed && level
                == FullnessLevel::Red {
                m.controller.flow_stats.nacks_sent.wrapping_add(1)
            } else {
                m.controller.flow_stats.nacks_sent
            })
            &&& after.controller.flow_stats.status_messages_received
                == m.controller.flow_stats.status_messages_received
            &&& m.signals is None <==> after.signals is None
            &&& m.signals matches Some(s) ==> {
                let t = after.signals->Some_0;
                &&& t.capacity == s.capacity && t.closed == s.closed
                &&& t.sent == (if signal && !s.closed && s.sent.len() < s.capacity {
                    s.sent.push(severe)
                } else {
                    s.sent
                })
            }
        }),
{
    lemma_levels_by_percentage(occupancy as nat, m.controller.capacity as nat);
}

/// A status report is counted, and acted on with the number of chunks that it
/// names. Any other message changes nothing.
pub proof fn lemma_only_reports_count(m: ReactorModel, msg: MessageModel)
    ensures
        match msg {
            MessageModel::QueueStatus { queued_chunks, .. } => {
                let counted = ReactorModel {
                    controller: FlowController {
                        flow_stats: FlowStats {
                            status_messages_received:
                                m.controller.flow_stats.status_messages_received.wrapping_add(1),
                            ..m.controller.flow_stats
                        },
                        ..m.controller
                    },
                    ..m
                };
                &&& m.on_message(msg) == counted.on_status(queued_chunks as usize)
                &&& m.on_message(msg).controller.flow_stats.status_messages_received
                    == m.controller.flow_stats.status_messages_received.wrapping_add(1)
                &&& m.on_message(msg).controller.current_occupancy == queued_chunks
            },
            _ => m.on_message(msg) == m,
        },
{
}

/// A refusal is due exactly where a report brings a receiver to 95 percent of its
/// capacity that was not at the level red before.
pub proof fn lemma_red_is_refused_once(m: ReactorModel, msg: MessageModel)
    ensures
        m.turns_red(msg) <==> (msg matches MessageModel::QueueStatus { queued_chunks, .. }
            && m.controller.current_level != FullnessLevel::Red && m.controller.capacity > 0
            && queued_chunks * 100 >= m.controller.capacity * 95),
{
}

} // verus!
