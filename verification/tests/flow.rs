use braid::channel::Outlet;
use braid::flow::{FlowController, FlowStats, FullnessLevel, ReceiverMonitor, SenderReactor};
use braid::protocol::control::ControlMessage;

fn status(queued_chunks: u32, total_capacity: u32) -> ControlMessage {
    ControlMessage::QueueStatus { queued_chunks, queued_bytes: queued_chunks, total_capacity }
}

#[test]
fn fullness_green_below_50() {
    assert_eq!(FullnessLevel::from_fraction(0, 100), FullnessLevel::Green);
    assert_eq!(FullnessLevel::from_fraction(25, 100), FullnessLevel::Green);
    assert_eq!(FullnessLevel::from_fraction(49, 100), FullnessLevel::Green);
}

#[test]
fn fullness_yellow_50_to_80() {
    assert_eq!(FullnessLevel::from_fraction(50, 100), FullnessLevel::Yellow);
    assert_eq!(FullnessLevel::from_fraction(65, 100), FullnessLevel::Yellow);
    assert_eq!(FullnessLevel::from_fraction(79, 100), FullnessLevel::Yellow);
}

#[test]
fn fullness_orange_80_to_95() {
    assert_eq!(FullnessLevel::from_fraction(80, 100), FullnessLevel::Orange);
    assert_eq!(FullnessLevel::from_fraction(90, 100), FullnessLevel::Orange);
    assert_eq!(FullnessLevel::from_fraction(94, 100), FullnessLevel::Orange);
}

#[test]
fn fullness_red_95_plus() {
    assert_eq!(FullnessLevel::from_fraction(95, 100), FullnessLevel::Red);
    assert_eq!(FullnessLevel::from_fraction(99, 100), FullnessLevel::Red);
    assert_eq!(FullnessLevel::from_fraction(100, 100), FullnessLevel::Red);
}

#[test]
fn fullness_level_predicates() {
    assert!(!FullnessLevel::Green.is_pressured());
    assert!(FullnessLevel::Yellow.is_pressured());
    assert!(FullnessLevel::Orange.is_pressured());
    assert!(FullnessLevel::Red.is_pressured());

    assert!(!FullnessLevel::Green.is_severe());
    assert!(!FullnessLevel::Yellow.is_severe());
    assert!(FullnessLevel::Orange.is_severe());
    assert!(FullnessLevel::Red.is_severe());

    assert!(!FullnessLevel::Green.is_critical());
    assert!(!FullnessLevel::Yellow.is_critical());
    assert!(!FullnessLevel::Orange.is_critical());
    assert!(FullnessLevel::Red.is_critical());
}

#[test]
fn controller_starts_green() {
    let ctrl = FlowController::new(100);
    assert_eq!(ctrl.level(), FullnessLevel::Green);
    assert_eq!(ctrl.fullness_millionths(), 0);
}

#[test]
fn controller_update_occupancy_tracks_level() {
    let mut ctrl = FlowController::new(100);

    let (level, changed) = ctrl.update_occupancy(30);
    assert_eq!(level, FullnessLevel::Green);
    assert!(!changed, "first update should not be a change from initial");

    let (level, changed) = ctrl.update_occupancy(60);
    assert_eq!(level, FullnessLevel::Yellow);
    assert!(changed);

    let (level, changed) = ctrl.update_occupancy(85);
    assert_eq!(level, FullnessLevel::Orange);
    assert!(changed);

    let (level, changed) = ctrl.update_occupancy(96);
    assert_eq!(level, FullnessLevel::Red);
    assert!(changed);
}

#[test]
fn controller_transitions_back_to_green() {
    let mut ctrl = FlowController::new(100);

    ctrl.update_occupancy(80);
    assert_eq!(ctrl.level(), FullnessLevel::Orange);

    ctrl.update_occupancy(40);
    assert_eq!(ctrl.level(), FullnessLevel::Green);
    assert_eq!(ctrl.prev_level(), FullnessLevel::Orange);
}

#[test]
fn controller_chunk_size_multiplier() {
    let mut ctrl = FlowController::new(100);

    ctrl.update_occupancy(10);
    assert_eq!(ctrl.chunk_size_percent(), 100);

    ctrl.update_occupancy(60);
    assert_eq!(ctrl.chunk_size_percent(), 75);
    assert_eq!(ctrl.chunk_size(65_535), 49_151);

    ctrl.update_occupancy(85);
    assert_eq!(ctrl.chunk_size_percent(), 0);

    ctrl.update_occupancy(96);
    assert_eq!(ctrl.chunk_size_percent(), 0);
}

#[test]
fn controller_should_pause_and_stop() {
    let mut ctrl = FlowController::new(100);

    ctrl.update_occupancy(10);
    assert!(!ctrl.should_pause_splitting());
    assert!(!ctrl.should_stop_all());

    ctrl.update_occupancy(85);
    assert!(ctrl.should_pause_splitting());
    assert!(!ctrl.should_stop_all());

    ctrl.update_occupancy(96);
    assert!(ctrl.should_pause_splitting());
    assert!(ctrl.should_stop_all());
}

#[test]
fn controller_should_resume_after_drop_below_50() {
    let mut ctrl = FlowController::new(100);

    ctrl.update_occupancy(85);
    ctrl.update_occupancy(40);
    assert!(ctrl.should_resume());
}

#[test]
fn controller_fullness_ratio() {
    let mut ctrl = FlowController::new(200);
    ctrl.update_occupancy(50);
    assert_eq!(ctrl.fullness_millionths(), 250_000);

    ctrl.update_occupancy(150);
    assert_eq!(ctrl.fullness_millionths(), 750_000);
}

#[test]
fn controller_zero_capacity_does_not_panic() {
    let mut ctrl = FlowController::new(0);
    assert_eq!(ctrl.fullness_millionths(), 0);
    let (level, _) = ctrl.update_occupancy(0);
    assert_eq!(level, FullnessLevel::Green);
}

#[test]
fn stats_track_max_fullness() {
    let mut stats = FlowStats::default();
    stats.record_fullness(500_000);
    stats.record_fullness(800_000);
    stats.record_fullness(300_000);
    assert_eq!(stats.max_fullness, 800_000);
}

#[test]
fn stats_track_pause_resume() {
    let mut stats = FlowStats::default();
    stats.record_pause();
    stats.record_pause();
    stats.record_resume();
    assert_eq!(stats.total_pauses, 2);
    assert_eq!(stats.total_resumes, 1);
}

#[test]
fn stats_track_all_counters() {
    let mut stats = FlowStats::default();
    stats.record_status_sent();
    stats.record_status_received();
    stats.record_chunk_size_reduction();
    stats.record_nack();

    assert_eq!(stats.status_messages_sent, 1);
    assert_eq!(stats.status_messages_received, 1);
    assert_eq!(stats.chunk_size_reductions, 1);
    assert_eq!(stats.nacks_sent, 1);
}

#[test]
fn controller_records_pause_on_orange_entry() {
    let mut ctrl = FlowController::new(100);
    ctrl.update_occupancy(85);
    assert_eq!(ctrl.stats().total_pauses, 1);
}

#[test]
fn controller_records_resume_on_exit_from_severe() {
    let mut ctrl = FlowController::new(100);
    ctrl.update_occupancy(85);
    assert_eq!(ctrl.stats().total_pauses, 1);

    ctrl.update_occupancy(40);
    assert_eq!(ctrl.stats().total_resumes, 1);
}

#[test]
fn controller_records_pause_on_red_entry() {
    let mut ctrl = FlowController::new(100);
    ctrl.update_occupancy(96);
    assert_eq!(ctrl.stats().total_pauses, 1);
}

#[test]
fn receiver_monitor_sends_queue_status() {
    let mut monitor = ReceiverMonitor::new(10);
    match monitor.check_and_report(0, 0) {
        ControlMessage::QueueStatus { queued_chunks, queued_bytes: _, total_capacity: _ } => {
            assert_eq!(queued_chunks, 0);
        }
        other => panic!("expected QueueStatus, got: {:?}", other),
    }
    monitor.on_sent();
    assert_eq!(monitor.stats().status_messages_sent, 1);
    assert_eq!(
        monitor.check_and_report(6, 6),
        ControlMessage::QueueStatus { queued_chunks: 6, queued_bytes: 6, total_capacity: 10 }
    );
}

#[test]
fn receiver_monitor_creation() {
    let monitor = ReceiverMonitor::new(10);
    assert_eq!(monitor.controller().level(), FullnessLevel::Green);
}

#[test]
fn sender_reactor_green_resumes_sending() {
    let mut reactor = SenderReactor::new(100, Some(Outlet::new(16)));
    reactor.process_message(&status(85, 100));
    reactor.process_message(&status(30, 100));
    assert_eq!(reactor.stats().status_messages_received, 2);
    let mut signals = reactor.flow_pause_tx.take().unwrap();
    assert_eq!(signals.try_recv(), Some(true));
    assert_eq!(signals.try_recv(), Some(false));
    assert_eq!(signals.try_recv(), None);
}

#[test]
fn sender_reactor_yellow_sends_multiplier() {
    let mut reactor = SenderReactor::new(100, None);
    reactor.process_message(&status(60, 100));
    assert_eq!(reactor.stats().chunk_size_reductions, 1);
}

#[test]
fn sender_reactor_red_sends_nack_and_pause() {
    let mut reactor = SenderReactor::new(100, Some(Outlet::new(16)));
    let nack = ControlMessage::Nack { sequence_number: 0, reason: 0 };
    assert_eq!(reactor.process_message(&status(96, 100)), Some(nack));
    assert_eq!(reactor.process_message(&status(97, 100)), None);
    assert_eq!(reactor.stats().nacks_sent, 1);
    assert_eq!(reactor.flow_pause_tx.take().unwrap().try_recv(), Some(true));
}

#[test]
fn sender_reactor_ignores_non_queue_status() {
    let mut reactor = SenderReactor::new(100, None);
    reactor.process_message(&ControlMessage::Ack { sequence_number: 42 });
    assert_eq!(reactor.stats().status_messages_received, 0);
}

#[test]
fn full_cycle_green_to_red_to_green() {
    let mut reactor = SenderReactor::new(100, None);
    for occupancy in [10, 60, 85, 96, 30] {
        reactor.process_message(&status(occupancy, 100));
    }
    let stats = reactor.stats();
    assert_eq!(stats.status_messages_received, 5);
    assert_eq!(stats.total_pauses, 1);
    assert_eq!(stats.total_resumes, 1);
    assert_eq!(stats.chunk_size_reductions, 1);
    assert_eq!(stats.nacks_sent, 1);
    assert!(stats.max_fullness >= 950_000);
}

#[test]
fn test_queue_status_reaches_sender_reactor() {
    let mut reactor = SenderReactor::new(1000, None);
    reactor.process_message(&status(600, 1000));
    assert_eq!(
        reactor.stats().status_messages_received,
        1,
        "reactor should have received one QueueStatus"
    );
    assert_eq!(
        reactor.controller().level(),
        FullnessLevel::Yellow,
        "600/1000 occupancy should map to Yellow zone"
    );
}

#[test]
fn resume_comes_at_green_and_not_before() {
    let mut reactor = SenderReactor::new(100, Some(Outlet::new(16)));
    for occupancy in [96, 60, 55, 49] {
        reactor.process_message(&status(occupancy, 100));
    }
    let mut signals = reactor.flow_pause_tx.take().unwrap();
    assert_eq!(signals.try_recv(), Some(true));
    assert_eq!(signals.try_recv(), Some(false));
    assert_eq!(signals.try_recv(), None);
}

#[test]
fn more_than_full_counts_as_full() {
    let mut c = FlowController::new(100);
    c.update_occupancy(150);
    assert_eq!(c.fullness_millionths(), 1_000_000);
    assert_eq!(c.stats().max_fullness, 1_000_000);
    c.update_occupancy(33);
    assert_eq!(c.fullness_millionths(), 330_000);
    assert_eq!(FlowController::new(0).fullness_millionths(), 0);
    let mut stats = FlowStats::default();
    stats.record_fullness(2_000_000);
    assert_eq!(stats.max_fullness, 1_000_000);
}

#[test]
fn changed_capacity_changes_the_fullness() {
    let mut c = FlowController::new(100);
    c.update_occupancy(50);
    assert_eq!(c.fullness_millionths(), 500_000);
    c.set_total_capacity(200);
    assert_eq!(c.total_capacity(), 200);
    assert_eq!(c.occupancy(), 50);
    assert_eq!(c.fullness_millionths(), 250_000);
}
