use puzzles::sensors::{Pos, RangeUnion, SensorInfo};

#[test]
fn test_range_union() {
    let mut r = RangeUnion::default();
    assert_eq!(r.count(), 0);
    r.add(0..1);
    assert_eq!(r.count(), 1);
    r.add(0..2);
    assert_eq!(r.count(), 2);
    r.add(-2..3);
    assert_eq!(r.count(), 5);
    r.add(100..200);
    assert_eq!(r.count(), 105);
}

#[test]
fn manhattan_distance_is_coordinate_sum() {
    let a = Pos { x: 8, y: 7 };
    let b = Pos { x: 2, y: 10 };
    assert_eq!(a.manhattan_distance(&b), 9);
    assert_eq!(b.manhattan_distance(&a), 9);
    assert_eq!(a.manhattan_distance(&a), 0);
}

#[test]
fn empty_and_no_beacon_ranges() {
    let si = SensorInfo { sensor: Pos { x: 8, y: 7 }, beacon: Pos { x: 2, y: 10 } };
    // radius 9; on the beacon's own line the run is 2..15, minus the beacon.
    let r = si.get_empty_range(10);
    assert_eq!((r.start, r.end), (2, 15));
    let nb = si.get_no_beacon_range(10);
    assert_eq!((nb.start, nb.end), (3, 15));
    // far away the run is empty
    let far = si.get_empty_range(100);
    assert!(far.start >= far.end);
}

#[test]
fn singular_gap_is_found() {
    let mut r = RangeUnion::default();
    r.add(0..5);
    r.add(6..10);
    assert_eq!(r.find_singular_missing_item_in_range(&(0..10)), Some(5));
    // a covered search range has no missing cell
    assert_eq!(r.find_singular_missing_item_in_range(&(0..5)), None);
    // two missing cells are not singular
    let mut r2 = RangeUnion::default();
    r2.add(0..5);
    r2.add(7..10);
    assert_eq!(r2.find_singular_missing_item_in_range(&(0..10)), None);
}

#[test]
fn singular_overlap_cases() {
    assert_eq!(RangeUnion::get_singular_overlap(&(0..6), &(5..10)), Some(5));
    assert_eq!(RangeUnion::get_singular_overlap(&(5..10), &(0..6)), Some(5));
    assert_eq!(RangeUnion::get_singular_overlap(&(3..4), &(0..10)), Some(3));
    assert_eq!(RangeUnion::get_singular_overlap(&(0..3), &(7..9)), None);
}
