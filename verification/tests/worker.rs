//! Heartbeats.

use nexus::worker::{ms_of_reading, Heartbeat};
use std::time::{Duration, Instant};

fn wait(pause: Duration) {
    let start = Instant::now();
    while start.elapsed() < pause {}
}

#[test]
fn heartbeat_age_grows_then_resets() {
    let mut hb = Heartbeat::new();
    assert!(hb.age_ms() < 1000);
    wait(Duration::from_millis(15));
    assert!(hb.age_ms() >= 10);
    hb.beat();
    assert!(hb.age_ms() < 10);
}

#[test]
fn heartbeat_ages_at_given_times() {
    let mut hb = Heartbeat::new_at(1_000);
    assert_eq!(hb.age_at(1_000), 0);
    assert_eq!(hb.age_at(1_250), 250);
    // A clock that was set back shows no age.
    assert_eq!(hb.age_at(400), 0);
    hb.beat_at(2_000);
    assert_eq!(hb.age_at(2_001), 1);
}

#[test]
fn default_heartbeat_has_never_beaten() {
    assert_eq!(Heartbeat::default().age_at(77), 77);
    // The system clock reads well past the year 2001.
    assert!(Heartbeat::default().age_ms() > 1_000_000_000_000);
}

#[test]
fn clock_readings_in_milliseconds() {
    assert_eq!(ms_of_reading(None), 0);
    assert_eq!(ms_of_reading(Some(1_700_000_000_000)), 1_700_000_000_000);
    assert_eq!(ms_of_reading(Some(1u128 << 64)), 0);
    assert_eq!(ms_of_reading(Some((1u128 << 64) + 5)), 5);
}
