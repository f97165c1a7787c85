use positioning::estimator::{fused_beacon_count, matched_readings, window_start};
use positioning::signals::SignalReadings;
use positioning::units::DistanceUnit;

fn three_readings() -> SignalReadings {
    let mut readings = SignalReadings::new();
    readings.add("B1".to_string(), -49);
    readings.add("B2".to_string(), -52);
    readings.add("B3".to_string(), -77);
    readings
}

#[test]
fn test_matched_readings_uses_first_three() {
    let readings = three_readings();
    let ids = vec![
        "B1".to_string(),
        "B2".to_string(),
        "B3".to_string(),
        "B4".to_string(),
    ];
    let matched = matched_readings(&readings, &ids, 3);
    assert_eq!(matched, vec![(0, -49), (1, -52), (2, -77)]);
}

#[test]
fn test_matched_readings_skips_missing_ids() {
    let readings = three_readings();
    let ids = vec!["B1".to_string(), "B9".to_string(), "B3".to_string()];
    let matched = matched_readings(&readings, &ids, 3);
    assert_eq!(matched, vec![(0, -49), (2, -77)]);
}

#[test]
fn test_matched_readings_limit_beyond_list() {
    let readings = three_readings();
    let ids = vec!["B2".to_string(), "B3".to_string()];
    let matched = matched_readings(&readings, &ids, 10);
    assert_eq!(matched, vec![(0, -52), (1, -77)]);
}

#[test]
fn test_matched_readings_empty_list() {
    let readings = three_readings();
    let ids: Vec<String> = Vec::new();
    let matched = matched_readings(&readings, &ids, 3);
    assert!(matched.is_empty());
}

#[test]
fn test_fused_beacon_count_empty_is_zero() {
    let counts: Vec<usize> = Vec::new();
    assert_eq!(fused_beacon_count(&counts), 0);
}

#[test]
fn test_fused_beacon_count_takes_maximum() {
    assert_eq!(fused_beacon_count(&vec![3, 5, 4]), 5);
    assert_eq!(fused_beacon_count(&vec![2]), 2);
    assert_eq!(fused_beacon_count(&vec![0, 0]), 0);
}

#[test]
fn test_window_start_inside_history() {
    assert_eq!(window_start(10, 3), 7);
    assert_eq!(window_start(10, 9), 1);
}

#[test]
fn test_window_covers_whole_history_when_large() {
    assert_eq!(window_start(4, 4), 0);
    assert_eq!(window_start(4, 9), 0);
    assert_eq!(window_start(0, 2), 0);
}

#[test]
fn test_distance_unit_equality() {
    assert_eq!(DistanceUnit::Meter, DistanceUnit::Meter);
    assert_ne!(DistanceUnit::Meter, DistanceUnit::Centimeter);
    let unit = DistanceUnit::Millimeter;
    let copy = unit;
    assert_eq!(unit, copy);
}
