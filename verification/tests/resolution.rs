use aurascan::resolution::{listing_order, CapsSummary, ResolutionSelection};

fn caps(w: i32, h: i32) -> CapsSummary {
    CapsSummary { has_drm_format: false, width: Some(w), height: Some(h) }
}

#[test]
fn listing_sorts_by_pixel_count() {
    let entries = vec![caps(640, 480), caps(1920, 1080), caps(1280, 720), caps(320, 240)];
    assert_eq!(listing_order(&entries), vec![1, 2, 0, 3]);
}

#[test]
fn listing_skips_drm_and_incomplete_entries() {
    let entries = vec![
        CapsSummary { has_drm_format: true, width: Some(1920), height: Some(1080) },
        caps(640, 480),
        CapsSummary { has_drm_format: false, width: None, height: Some(720) },
        CapsSummary { has_drm_format: false, width: Some(1280), height: None },
        caps(1280, 720),
    ];
    assert_eq!(listing_order(&entries), vec![4, 1]);
    assert!(listing_order(&Vec::new()).is_empty());
}

#[test]
fn listing_keeps_order_of_equal_areas() {
    let entries = vec![caps(640, 480), caps(480, 640), caps(1280, 720), caps(640, 480)];
    assert_eq!(listing_order(&entries), vec![2, 0, 1, 3]);
}

#[test]
fn first_device_selects_first_entry() {
    let mut s = ResolutionSelection::new();
    assert_eq!(s.selected, None);
    assert_eq!(s.device_changed(0), None);
    assert_eq!(s.selected, None);
    assert_eq!(s.device_changed(3), Some(0));
    assert_eq!(s.selected, Some(0));
    assert_eq!(s.device_changed(5), None);
    assert_eq!(s.selected, Some(0));
}

#[test]
fn user_selection() {
    let mut s = ResolutionSelection::new();
    assert_eq!(s.resolution_selected(u32::MAX, 3), None);
    assert_eq!(s.selected, None);
    assert_eq!(s.resolution_selected(2, 3), Some(Some(2)));
    assert_eq!(s.selected, Some(2));
    assert_eq!(s.resolution_selected(2, 3), None);
    assert_eq!(s.resolution_selected(7, 3), Some(None));
    assert_eq!(s.selected, Some(7));
}
