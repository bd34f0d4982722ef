use aurascan::faceselector::FaceSelector;

#[test]
fn selects_best_face_first() {
    let mut s = FaceSelector::new(2);
    assert_eq!(s.select(&vec![], None, false), None);
    assert_eq!(s.select(&vec![3, 4], Some(1), false), Some(4));
    assert_eq!(s.current_id(), Some(4));
}

#[test]
fn keeps_face_unless_beaten() {
    let mut s = FaceSelector::new(2);
    s.select(&vec![3, 4], Some(1), false);
    assert_eq!(s.select(&vec![3, 4], Some(0), false), Some(4));
    assert_eq!(s.select(&vec![3, 4], Some(0), true), Some(3));
}

#[test]
fn missing_face_reports_nothing_until_dropped() {
    let mut s = FaceSelector::new(1);
    s.select(&vec![3], Some(0), false);
    assert_eq!(s.select(&vec![8], Some(0), false), None);
    assert_eq!(s.missing(), 1);
    assert_eq!(s.select(&vec![8], Some(0), false), Some(8));
    assert_eq!(s.missing(), 0);
}
