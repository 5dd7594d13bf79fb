use braid::sender::health::ChannelHealth;
use std::time::Duration;

#[test]
fn initial_state_all_alive() {
    let health = ChannelHealth::new(4, 3, Duration::from_secs(30));
    assert_eq!(health.total_count(), 4);
    assert_eq!(health.alive_count(), 4);
    assert!(!health.all_dead());
}

#[test]
fn record_failure_marks_channel_dead() {
    let mut health = ChannelHealth::new(2, 2, Duration::from_secs(30));
    assert!(!health.record_failure(0));
    assert!(health.is_alive(0));
    assert!(health.record_failure(0));
    assert!(!health.is_alive(0));
    assert_eq!(health.alive_count(), 1);
}

#[test]
fn record_success_resets_failures() {
    let mut health = ChannelHealth::new(1, 2, Duration::from_secs(30));
    health.record_failure(0);
    health.record_success(0);
    assert!(health.is_alive(0));
    assert_eq!(health.consecutive_failures(0), 0);
}

#[test]
fn all_dead_detected() {
    let mut health = ChannelHealth::new(2, 1, Duration::from_secs(30));
    assert!(!health.all_dead());
    health.record_failure(0);
    health.record_failure(1);
    assert!(health.all_dead());
}

#[test]
fn total_failures_tracked() {
    let mut health = ChannelHealth::new(1, 3, Duration::from_secs(30));
    health.record_failure(0);
    health.record_failure(0);
    health.record_success(0);
    health.record_failure(0);
    assert_eq!(health.total_failures(0), 3);
}

#[test]
fn out_of_range_graceful() {
    let health = ChannelHealth::new(2, 3, Duration::from_secs(30));
    assert!(!health.is_alive(5));
    assert_eq!(health.consecutive_failures(5), 0);
    assert_eq!(health.total_failures(5), 0);
}

#[test]
fn reset_all_restores_alive() {
    let mut health = ChannelHealth::new(4, 1, Duration::from_secs(30));
    health.record_failure(0);
    health.record_failure(1);
    health.record_failure(2);
    assert_eq!(health.alive_count(), 1);
    health.reset_all();
    assert_eq!(health.alive_count(), 4);
}

#[test]
fn default_has_one_channel() {
    let health: ChannelHealth = Default::default();
    assert_eq!(health.total_count(), 1);
    assert_eq!(health.max_consecutive_failures, 3);
}

#[test]
fn staleness_goes_by_the_last_success() {
    let mut health = ChannelHealth::new(1, 3, Duration::from_secs(30));
    health.record_success(0);
    assert!(!health.is_stale(0));
    assert!(!health.is_stale_after(0, Some(30_000_000_000)));
    assert!(health.is_stale_after(0, Some(30_000_000_001)));
}
