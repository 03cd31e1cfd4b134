use velos::aggregator::{DetectionAggregator, DEFAULT_RETENTION_MS, DEFAULT_WINDOW_DURATION_MS};

const MOTORBIKE: i32 = 1;
const CAR: i32 = 2;

#[test]
fn default_window_duration_and_retention() {
    let agg = DetectionAggregator::default();
    assert_eq!(agg.window_duration_ms, 300_000, "default 5 min windows");
    assert_eq!(agg.retention_ms, 3_600_000, "default 1 hr retention");
    assert_eq!(DEFAULT_WINDOW_DURATION_MS, 300_000);
    assert_eq!(DEFAULT_RETENTION_MS, 3_600_000);
}

#[test]
fn ingest_single_event_creates_window() {
    let mut agg = DetectionAggregator::new(300_000, 3_600_000);
    let start = agg.ingest(1, 1_000_000, MOTORBIKE, 3);
    assert_eq!(start, 900_000);

    let window = agg.latest_window(1).expect("should have a window");
    assert_eq!(window.start_ms, 900_000); // floor(1_000_000 / 300_000) * 300_000
    assert_eq!(window.end_ms, 1_200_000);
    assert_eq!(*window.counts.get(&MOTORBIKE).unwrap(), 3);
}

#[test]
fn ingest_two_events_same_window_accumulates() {
    let mut agg = DetectionAggregator::new(300_000, 3_600_000);
    agg.ingest(1, 1_000_000, CAR, 5);
    agg.ingest(1, 1_100_000, CAR, 3);

    let window = agg.latest_window(1).unwrap();
    assert_eq!(*window.counts.get(&CAR).unwrap(), 8);
}

#[test]
fn ingest_events_in_different_windows() {
    let mut agg = DetectionAggregator::new(300_000, 3_600_000);
    // Window 1: 0..300_000
    agg.ingest(1, 100_000, MOTORBIKE, 2);
    // Window 2: 300_000..600_000
    agg.ingest(1, 400_000, MOTORBIKE, 4);

    // Total across both windows
    assert_eq!(agg.total_count(1, MOTORBIKE), 6);

    // Latest window should be the second one
    let latest = agg.latest_window(1).unwrap();
    assert_eq!(latest.start_ms, 300_000);
}

#[test]
fn gc_removes_old_windows() {
    let mut agg = DetectionAggregator::new(300_000, 3_600_000);
    // Window at time 0..300_000
    agg.ingest(1, 100_000, CAR, 1);
    // GC at time 4_000_000 (window end 300_000 <= 4_000_000 - 3_600_000 = 400_000)
    agg.gc(4_000_000);
    assert!(agg.latest_window(1).is_none(), "old window should be GC'd");
}

#[test]
fn gc_retains_recent_windows() {
    let mut agg = DetectionAggregator::new(300_000, 3_600_000);
    // Window at 3_600_000..3_900_000
    agg.ingest(1, 3_700_000, CAR, 1);
    // GC at time 4_000_000 (window end 3_900_000 > 4_000_000 - 3_600_000 = 400_000)
    agg.gc(4_000_000);
    assert!(agg.latest_window(1).is_some(), "recent window should be retained");
}

#[test]
fn gc_boundary_window_ending_at_cutoff_is_removed() {
    let mut agg = DetectionAggregator::new(300_000, 3_600_000);
    agg.ingest(1, 100_000, CAR, 1); // 0..300_000
    agg.ingest(1, 350_000, CAR, 2); // 300_000..600_000
    agg.gc(3_900_000); // cutoff 300_000
    assert_eq!(agg.total_count(1, CAR), 2);
    assert!(!agg.has_window(1, 0));
    assert!(agg.has_window(1, 300_000));
}

#[test]
fn cameras_and_classes_are_separate() {
    let mut agg = DetectionAggregator::default();
    agg.ingest(1, 10, CAR, 4);
    agg.ingest(2, 10, CAR, 7);
    agg.ingest(1, 10, MOTORBIKE, 9);
    assert_eq!(agg.total_count(1, CAR), 4);
    assert_eq!(agg.total_count(2, CAR), 7);
    assert_eq!(agg.total_count(1, MOTORBIKE), 9);
    assert_eq!(agg.total_count(3, CAR), 0);
    assert!(agg.latest_window(3).is_none());
    assert_eq!(agg.count_at(1, 0, MOTORBIKE), 9);
    assert_eq!(agg.count_at(1, 300_000, MOTORBIKE), 0);
}

#[test]
fn negative_timestamps_round_toward_zero() {
    let mut agg = DetectionAggregator::new(300_000, 3_600_000);
    let start = agg.ingest(1, -1, CAR, 1);
    assert_eq!(start, 0);
    let w = agg.latest_window(1).unwrap();
    assert_eq!((w.start_ms, w.end_ms), (0, 300_000));
}

#[test]
fn latest_window_picks_greatest_start_not_last_created() {
    let mut agg = DetectionAggregator::new(300_000, 3_600_000);
    agg.ingest(1, 700_000, CAR, 1);
    agg.ingest(1, 100_000, CAR, 1);
    assert_eq!(agg.latest_window(1).unwrap().start_ms, 600_000);
}

#[test]
fn negative_duration_rounds_start_toward_zero() {
    let mut agg = DetectionAggregator::new(-300_000, 3_600_000);
    let start = agg.ingest(1, 1_000_000, CAR, 2);
    assert_eq!(start, 900_000);
    let w = agg.latest_window(1).unwrap();
    assert_eq!((w.start_ms, w.end_ms), (900_000, 600_000));
    let start2 = agg.ingest(1, -1_000_000, CAR, 1);
    assert_eq!(start2, -900_000);
    assert_eq!(agg.total_count(1, CAR), 3);
}

#[test]
fn extreme_duration_and_timestamp() {
    let mut agg = DetectionAggregator::new(i64::MIN, 0);
    assert_eq!(agg.ingest(1, -1, CAR, 1), 0);
    assert_eq!(agg.ingest(1, i64::MAX, CAR, 1), 0);
    assert_eq!(agg.count_at(1, 0, CAR), 2);
    assert_eq!(agg.latest_window(1).unwrap().end_ms, i64::MIN);
}

#[test]
fn each_timestamp_falls_in_one_window() {
    let mut agg = DetectionAggregator::new(100, 3_600_000);
    for t in [5i64, 150, 99, 100, 250, 199] {
        let start = agg.ingest(7, t, CAR, 1);
        assert!(start <= t && t < start + 100);
    }
    assert_eq!(agg.count_at(7, 0, CAR), 2);
    assert_eq!(agg.count_at(7, 100, CAR), 3);
    assert_eq!(agg.count_at(7, 200, CAR), 1);
}
