use position_share::Coordinate;
use position_share::Positions;
use position_share::Probability;

#[test]
fn add_keeps_canonical_order_regardless_of_arrival() {
    let mut positions = Positions::new();
    let id_late = positions.add(50, Coordinate::new(5, 0, 0));
    let id_early = positions.add(10, Coordinate::new(1, 0, 0));
    let id_middle = positions.add(30, Coordinate::new(3, 0, 0));
    assert_ne!(id_late, id_early);
    assert_ne!(id_late, id_middle);
    assert_eq!(positions.len(), 3);

    let all = positions.filter_by_time(i64::MIN, i64::MAX);
    let timestamps: Vec<i64> = all.iter().map(|d| d.timestamp).collect();
    assert_eq!(timestamps, vec![10, 30, 50]);
    assert_eq!(all[0].id, id_early);
    assert_eq!(all[1].id, id_middle);
    assert_eq!(all[2].id, id_late);
}

#[test]
fn equal_timestamps_order_by_identity() {
    let mut positions = Positions::new();
    let first = positions.add(7, Coordinate::new(1, 1, 1));
    let second = positions.add(7, Coordinate::new(2, 2, 2));
    let all = positions.filter_by_time(7, 7);
    assert_eq!(all.len(), 2);
    assert_eq!(all[0].id, first);
    assert_eq!(all[1].id, second);
    assert!(first < second);
}

#[test]
fn filter_by_time_is_inclusive_and_ordered() {
    let mut positions = Positions::new();
    for t in 0..5i64 {
        positions.add(t, Coordinate::new(t, 0, 0));
    }
    let window = positions.filter_by_time(1, 3);
    let timestamps: Vec<i64> = window.iter().map(|d| d.timestamp).collect();
    assert_eq!(timestamps, vec![1, 2, 3]);
    assert!(positions.filter_by_time(10, 20).is_empty());
    assert_eq!(positions.filter_by_time(0, 4).len(), 5);
}

#[test]
fn recorded_transmissions_are_read_back() {
    let mut positions = Positions::new();
    let id = positions.add(0, Coordinate::new(0, 0, 0));
    let recipient: u128 = 42;
    positions.record_transmission(recipient, id, Probability::one_hundred());
    // The estimate reaches the search through the embedded history; a fresh
    // store answers 0% for everything.
    let fresh = Positions::new();
    assert_eq!(fresh.len(), 0);
}
