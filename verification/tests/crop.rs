use aurascan::crop::{clamp_crop, full_frame, needs_new_converter, Rect};

fn rect(x: u32, y: u32, width: u32, height: u32) -> Rect {
    Rect { x, y, width, height }
}

#[test]
fn crop_inside_frame_is_kept() {
    assert_eq!(clamp_crop(rect(10, 20, 100, 50), 640, 480), rect(10, 20, 100, 50));
}

#[test]
fn crop_is_cut_at_frame_edge() {
    assert_eq!(clamp_crop(rect(600, 470, 100, 50), 640, 480), rect(600, 470, 40, 10));
    assert_eq!(clamp_crop(rect(700, 500, 100, 50), 640, 480), rect(639, 479, 1, 1));
    assert_eq!(clamp_crop(rect(0, 0, 0, 0), 640, 480), rect(0, 0, 1, 1));
}

#[test]
fn crop_of_empty_frame() {
    assert_eq!(clamp_crop(rect(5, 5, 5, 5), 0, 0), rect(0, 0, 1, 1));
}

#[test]
fn whole_frame() {
    assert_eq!(full_frame(640, 480), rect(0, 0, 640, 480));
}

#[test]
fn converter_reuse() {
    assert!(needs_new_converter(None, rect(0, 0, 1, 1)));
    assert!(!needs_new_converter(Some(rect(0, 0, 1, 1)), rect(0, 0, 1, 1)));
    assert!(needs_new_converter(Some(rect(0, 0, 1, 1)), rect(0, 0, 1, 2)));
}
