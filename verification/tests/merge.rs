use aircraft_aggregator::AircraftData;
use aircraft_aggregator::AircraftMap;

fn record(altitude: Option<u32>, speed: Option<u32>) -> AircraftData {
    AircraftData { altitude, speed }
}

#[test]
fn combine_prefers_the_newer_fields() {
    let newer = record(None, Some(200));
    let older = record(Some(100), None);
    assert_eq!(newer.combine_with(older), record(Some(100), Some(200)));

    let newer = record(Some(7), Some(8));
    let older = record(Some(1), Some(2));
    assert_eq!(newer.combine_with(older), record(Some(7), Some(8)));

    let newer = record(None, None);
    let older = record(Some(1), Some(2));
    assert_eq!(newer.combine_with(older), record(Some(1), Some(2)));
}

#[test]
fn empty_record_reports_nothing() {
    assert_eq!(AircraftData::empty(), record(None, None));
}

#[test]
fn map_insert_get_remove() {
    let mut map = AircraftMap::new();
    assert_eq!(map.len(), 0);
    assert_eq!(map.get(&"X1".to_string()), None);

    map.insert("X1".to_string(), record(Some(100), None));
    assert_eq!(map.len(), 1);
    assert_eq!(map.get(&"X1".to_string()), Some(record(Some(100), None)));

    map.insert("X1".to_string(), record(Some(300), None));
    assert_eq!(map.len(), 1);
    assert_eq!(map.get(&"X1".to_string()), Some(record(Some(300), None)));

    map.insert("Y2".to_string(), record(None, Some(50)));
    assert_eq!(map.len(), 2);

    assert_eq!(map.remove(&"X1".to_string()), Some(record(Some(300), None)));
    assert_eq!(map.len(), 1);
    assert_eq!(map.remove(&"X1".to_string()), None);
    assert_eq!(map.get(&"Y2".to_string()), Some(record(None, Some(50))));
}

#[test]
fn duplicate_is_value_equal() {
    let mut map = AircraftMap::new();
    map.insert("X1".to_string(), record(Some(1), Some(2)));
    let copy = map.duplicate();
    assert_eq!(copy.len(), 1);
    assert_eq!(copy.get(&"X1".to_string()), Some(record(Some(1), Some(2))));
}

#[test]
fn merge_combines_overlapping_keys() {
    let mut accumulated = AircraftMap::new();
    accumulated.insert("X1".to_string(), record(Some(100), None));

    let mut incoming = AircraftMap::new();
    incoming.insert("X1".to_string(), record(None, Some(200)));
    incoming.insert("Y2".to_string(), record(Some(50), None));

    accumulated.merge_from(incoming);

    assert_eq!(accumulated.len(), 2);
    assert_eq!(
        accumulated.get(&"X1".to_string()),
        Some(record(Some(100), Some(200)))
    );
    assert_eq!(accumulated.get(&"Y2".to_string()), Some(record(Some(50), None)));
}

#[test]
fn merge_keeps_disjoint_keys() {
    let mut accumulated = AircraftMap::new();
    accumulated.insert("A1".to_string(), record(Some(1), None));

    let mut incoming = AircraftMap::new();
    incoming.insert("B2".to_string(), record(Some(2), None));

    accumulated.merge_from(incoming);

    assert_eq!(accumulated.len(), 2);
    assert_eq!(accumulated.get(&"A1".to_string()), Some(record(Some(1), None)));
    assert_eq!(accumulated.get(&"B2".to_string()), Some(record(Some(2), None)));
}
