use frame_analyzer::{frametime_ns, FrameSignal, FrametimeTracker};

fn records(stamps: &[u64]) -> Vec<Vec<u8>> {
    stamps.iter().map(|s| FrameSignal::new(*s).to_bytes()).collect()
}

#[test]
fn frametime_is_plain_difference_when_ordered() {
    assert_eq!(frametime_ns(1033, 1016), 17);
    assert_eq!(frametime_ns(7, 7), 0);
    assert_eq!(frametime_ns(u64::MAX, 0), u64::MAX);
}

#[test]
fn frametime_saturates_when_out_of_order() {
    assert_eq!(frametime_ns(1016, 1033), 0);
    assert_eq!(frametime_ns(0, u64::MAX), 0);
}

#[test]
fn tracker_starts_empty() {
    assert_eq!(FrametimeTracker::new().last_timestamp_ns, 0);
}

#[test]
fn observe_advances_last_timestamp() {
    let mut tracker = FrametimeTracker::new();
    assert_eq!(tracker.observe(1000), 1000);
    assert_eq!(tracker.observe(1016), 16);
    assert_eq!(tracker.observe(1010), 0);
    assert_eq!(tracker.last_timestamp_ns, 1010);
}

#[test]
fn drain_reports_last_pair_of_burst() {
    let mut tracker = FrametimeTracker::new();
    assert_eq!(tracker.drain(&records(&[1000, 1016, 1033])), 17);
    assert_eq!(tracker.last_timestamp_ns, 1033);
}

#[test]
fn drain_of_single_record_measures_from_previous_drain() {
    let mut tracker = FrametimeTracker::new();
    tracker.drain(&records(&[1000]));
    assert_eq!(tracker.drain(&records(&[1016])), 16);
}

#[test]
fn drain_of_nothing_is_zero_and_keeps_state() {
    let mut tracker = FrametimeTracker::new();
    tracker.drain(&records(&[500]));
    assert_eq!(tracker.drain(&Vec::new()), 0);
    assert_eq!(tracker.last_timestamp_ns, 500);
}

#[test]
fn drain_skips_truncated_records() {
    let mut tracker = FrametimeTracker::new();
    tracker.drain(&records(&[1000]));
    let mut burst = records(&[1016]);
    burst.push(vec![1, 2, 3]);
    assert_eq!(tracker.drain(&burst), 16);
    assert_eq!(tracker.last_timestamp_ns, 1016);
    assert_eq!(tracker.drain(&vec![vec![9u8; 4]]), 0);
    assert_eq!(tracker.last_timestamp_ns, 1016);
}
