use aurascan::cameras::{contains_ir, first_of_each_key, is_ir_camera};

#[test]
fn ir_names() {
    assert!(contains_ir("IR Camera"));
    assert!(contains_ir("Integrated IR Camera"));
    assert!(contains_ir("Integrated Camera IR"));
    assert!(!contains_ir("Integrated Camera"));
    assert!(!contains_ir("IRIS Camera"));
    assert!(!contains_ir("Camera IRx"));
    assert!(!contains_ir("IR"));
    assert!(contains_ir(" IR"));
    assert!(contains_ir("IR "));
    assert!(!contains_ir(""));
}

#[test]
fn ir_camera_sources() {
    assert!(is_ir_camera(true, None, "Camera"));
    assert!(is_ir_camera(false, Some("Front IR"), "Camera"));
    assert!(is_ir_camera(false, None, "IR Camera"));
    assert!(!is_ir_camera(false, Some("Front"), "Camera"));
    assert!(!is_ir_camera(false, None, "Camera"));
}

#[test]
fn one_camera_per_object() {
    let keys = vec![Some(4), Some(7), None, Some(4), None, Some(9)];
    assert_eq!(first_of_each_key(&keys), vec![0, 1, 2, 5]);
    assert!(first_of_each_key(&vec![]).is_empty());
}
