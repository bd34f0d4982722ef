use aurascan::tracking::{locate_detection, TrackIds};

#[test]
fn locate_within_first_metadata() {
    let v = vec![vec![true, false, true], vec![true]];
    assert_eq!(locate_detection(&v, 0), Some((0, 0)));
    assert_eq!(locate_detection(&v, 1), Some((0, 2)));
}

#[test]
fn locate_skips_detections_without_location() {
    let v = vec![vec![false, true], vec![false, true, true]];
    assert_eq!(locate_detection(&v, 0), Some((0, 1)));
    assert_eq!(locate_detection(&v, 2), Some((1, 2)));
}

#[test]
fn locate_misses_first_of_later_metadata() {
    let v = vec![vec![true], vec![true, true]];
    // Index 1 is the first located detection of the second metadata.
    assert_eq!(locate_detection(&v, 1), None);
    assert_eq!(locate_detection(&v, 2), Some((1, 1)));
    assert_eq!(locate_detection(&v, 3), None);
    assert_eq!(locate_detection(&vec![vec![false], vec![true]], 0), None);
    assert_eq!(locate_detection(&vec![], 0), None);
}

#[test]
fn track_ids_are_stable_and_distinct() {
    let mut t = TrackIds::new();
    assert_eq!(t.id_for(0xdead), 0);
    assert_eq!(t.id_for(0xbeef), 1);
    assert_eq!(t.id_for(0xdead), 0);
    assert_eq!(t.id_for(u128::MAX), 2);
    assert_eq!(t.id_for(0xbeef), 1);
}
