use positioning::signals::{SignalMeasurement, SignalReadings};
use std::collections::HashMap;

#[test]
fn test_signal_readings() {
    let mut readings = SignalReadings::new();
    readings.add("B1".to_string(), -50);
    readings.add("B2".to_string(), -60);
    assert_eq!(readings.count(), 2);
    assert_eq!(readings.get("B1"), Some(-50));
}

#[test]
fn test_algorithm_module_signal_readings_variations() {
    let mut signals1 = SignalReadings::new();
    signals1.add("B1".to_string(), -50);
    signals1.add("B2".to_string(), -60);
    signals1.add("B3".to_string(), -70);
    assert_eq!(signals1.count(), 3);

    let measurements = vec![
        SignalMeasurement::new("B1".to_string(), -50),
        SignalMeasurement::new("B2".to_string(), -60),
        SignalMeasurement::new("B3".to_string(), -70),
    ];
    let signals2 = SignalReadings::from_measurements(measurements);
    assert_eq!(signals2.count(), 3);

    let signals3 = SignalReadings::from_pairs(vec![("B1", -50), ("B2", -60), ("B3", -70)]);
    assert_eq!(signals3.count(), 3);

    let mut map = HashMap::new();
    map.insert("B1".to_string(), -50);
    map.insert("B2".to_string(), -60);
    map.insert("B3".to_string(), -70);
    let signals4 = SignalReadings::from_hashmap(map);
    assert_eq!(signals4.count(), 3);

    assert_eq!(signals1.get("B1"), signals2.get("B1"));
    assert_eq!(signals2.get("B2"), signals3.get("B2"));
    assert_eq!(signals3.get("B3"), signals4.get("B3"));
}

#[test]
fn test_latest_report_overwrites() {
    let mut readings = SignalReadings::new();
    readings.add("B1".to_string(), -50);
    readings.add("B1".to_string(), -58);
    assert_eq!(readings.count(), 1);
    assert_eq!(readings.get("B1"), Some(-58));
}

#[test]
fn test_get_missing_beacon_is_none() {
    let mut readings = SignalReadings::new();
    readings.add("B1".to_string(), -50);
    assert_eq!(readings.get("B2"), None);
    assert!(readings.contains("B1"));
    assert!(!readings.contains("B2"));
}

#[test]
fn test_clear_discards_everything() {
    let mut readings = SignalReadings::new();
    readings.add("B1".to_string(), -50);
    readings.add("B2".to_string(), -60);
    readings.clear();
    assert_eq!(readings.count(), 0);
    assert_eq!(readings.get("B1"), None);
}

#[test]
fn test_add_multiple_last_wins() {
    let mut readings = SignalReadings::new();
    readings.add_multiple(vec![
        ("B1".to_string(), -50),
        ("B2".to_string(), -60),
        ("B1".to_string(), -65),
    ]);
    assert_eq!(readings.count(), 2);
    assert_eq!(readings.get("B1"), Some(-65));
    assert_eq!(readings.get("B2"), Some(-60));
}

#[test]
fn test_from_measurements_last_wins() {
    let measurements = vec![
        SignalMeasurement::new("B1".to_string(), -41),
        SignalMeasurement::with_timestamp("B1".to_string(), -47, 1200),
    ];
    let readings = SignalReadings::from_measurements(measurements);
    assert_eq!(readings.count(), 1);
    assert_eq!(readings.get("B1"), Some(-47));
}

#[test]
fn test_from_hashmap_keeps_each_value() {
    let mut map = HashMap::new();
    map.insert("north".to_string(), -44);
    map.insert("south".to_string(), -61);
    map.insert("west".to_string(), -73);
    let readings = SignalReadings::from_hashmap(map);
    assert_eq!(readings.count(), 3);
    assert_eq!(readings.get("north"), Some(-44));
    assert_eq!(readings.get("south"), Some(-61));
    assert_eq!(readings.get("west"), Some(-73));
    assert_eq!(readings.get("east"), None);
}

#[test]
fn test_all_lists_one_entry_per_beacon() {
    let mut readings = SignalReadings::new();
    readings.add("B1".to_string(), -50);
    readings.add("B2".to_string(), -60);
    readings.add("B1".to_string(), -55);
    let entries = readings.all();
    assert_eq!(entries.len(), 2);
    let as_map: HashMap<String, i16> = entries.iter().cloned().collect();
    assert_eq!(as_map.get("B1"), Some(&-55));
    assert_eq!(as_map.get("B2"), Some(&-60));
}

#[test]
fn test_measurement_fields() {
    let plain = SignalMeasurement::new("B7".to_string(), -52);
    assert_eq!(plain.beacon_id, "B7");
    assert_eq!(plain.rssi, -52);
    assert_eq!(plain.timestamp_ms, None);

    let stamped = SignalMeasurement::with_timestamp("B8".to_string(), -63, 987);
    assert_eq!(stamped.beacon_id, "B8");
    assert_eq!(stamped.rssi, -63);
    assert_eq!(stamped.timestamp_ms, Some(987));
}

#[test]
fn test_default_is_empty() {
    let readings = SignalReadings::default();
    assert_eq!(readings.count(), 0);
}

#[test]
fn test_clone_keeps_readings() {
    let mut readings = SignalReadings::new();
    readings.add("B1".to_string(), -50);
    let copy = readings.clone();
    readings.add("B2".to_string(), -60);
    assert_eq!(copy.count(), 1);
    assert_eq!(copy.get("B1"), Some(-50));
    assert_eq!(copy.get("B2"), None);
}
