use aurascan::detectioncrop::{find_track, TrackLock};

#[test]
fn lock_takes_best_when_free() {
    let mut l = TrackLock::new(2);
    assert_eq!(l.pick(&vec![], None, false), None);
    assert_eq!(l.pick(&vec![5, 9], Some(1), false), Some(9));
}

#[test]
fn lock_switches_only_when_beaten() {
    let mut l = TrackLock::new(2);
    l.pick(&vec![5, 9], Some(0), false);
    assert_eq!(l.pick(&vec![5, 9], Some(1), false), Some(5));
    assert_eq!(l.pick(&vec![5, 9], Some(1), true), Some(9));
}

#[test]
fn lock_survives_grace_frames() {
    let mut l = TrackLock::new(2);
    l.pick(&vec![5], Some(0), false);
    assert_eq!(l.pick(&vec![7], Some(0), false), Some(5));
    assert_eq!(l.pick(&vec![7], Some(0), false), Some(5));
    assert_eq!(l.pick(&vec![7], Some(0), false), Some(7));
    assert_eq!(l.pick(&vec![], None, false), Some(7));
}

#[test]
fn lock_drops_to_nothing_after_grace() {
    let mut l = TrackLock::new(0);
    l.pick(&vec![5], Some(0), false);
    assert_eq!(l.pick(&vec![], None, false), None);
}

#[test]
fn find_first_detection_of_track() {
    let tracks = vec![None, Some(3), Some(4), Some(3)];
    assert_eq!(find_track(&tracks, 3), Some(1));
    assert_eq!(find_track(&tracks, 4), Some(2));
    assert_eq!(find_track(&tracks, 5), None);
    assert_eq!(find_track(&vec![], 5), None);
}

#[test]
fn lock_getters() {
    let mut l = TrackLock::new(3);
    assert_eq!(l.locked_id(), None);
    l.pick(&vec![2], Some(0), false);
    assert_eq!(l.locked_id(), Some(2));
    l.pick(&vec![4], Some(0), false);
    assert_eq!(l.missing(), 1);
}
