use aurascan::scrfd::{
    anchor_centers, anchor_counts_agree, feature_map, greedy_keep, grid_centers, ModelKind, ModelType,
    NUM_ANCHORS,
};

#[test]
fn kps_models() {
    assert!(ModelType::Scrfd2_5gKps.is_kps());
    assert!(ModelType::Scrfd10gKps.is_kps());
    assert!(ModelType::Scrfd500mKps.is_kps());
    assert!(!ModelType::Scrfd1g.is_kps());
    assert!(!ModelType::Scrfd2_5g.is_kps());
    assert!(!ModelType::Scrfd10g.is_kps());
    assert!(!ModelType::Scrfd34g.is_kps());
    assert!(!ModelType::Scrfd500m.is_kps());
}

#[test]
fn model_kind_from_tensor_groups() {
    assert_eq!(ModelKind::from_tensor_groups(true, false), Some(ModelKind::Kps));
    assert_eq!(ModelKind::from_tensor_groups(true, true), Some(ModelKind::Kps));
    assert_eq!(ModelKind::from_tensor_groups(false, true), Some(ModelKind::Normal));
    assert_eq!(ModelKind::from_tensor_groups(false, false), None);
}

#[test]
fn anchor_centers_of_a_small_input() {
    // A 16 by 8 input at stride 8: two cells per row, one row, two anchors per cell.
    let c = anchor_centers(8, 16, 8);
    assert_eq!(c, vec![(0, 0), (0, 0), (8, 0), (8, 0)]);
    assert_eq!(NUM_ANCHORS, 2);
}

#[test]
fn anchor_centers_drop_partial_cells() {
    let c = anchor_centers(8, 20, 17);
    assert_eq!(c.len(), 2 * 2 * NUM_ANCHORS);
    assert_eq!(c[4], (0, 8));
    assert_eq!(c[7], (8, 8));
}

#[test]
fn anchor_centers_of_the_model_input() {
    let c = anchor_centers(32, 640, 640);
    assert_eq!(c.len(), 20 * 20 * 2);
    assert_eq!(c[2 * 21], (32, 32));
    assert_eq!(grid_centers(3, 2, 5)[10], (10, 5));
}

#[test]
fn feature_map_covers_the_frame() {
    assert_eq!(feature_map(640, 480, 8, 80 * 60 * 2), Some((80, 60)));
    assert_eq!(feature_map(641, 481, 8, 81 * 61 * 2), Some((81, 61)));
    assert_eq!(feature_map(641, 481, 8, 80 * 60 * 2), None);
    assert_eq!(feature_map(0, 0, 16, 0), Some((0, 0)));
    assert_eq!(feature_map(u32::MAX, 1, 1, 0), None);
}

#[test]
fn anchor_counts() {
    assert!(anchor_counts_agree(12, 12, None));
    assert!(anchor_counts_agree(12, 12, Some(12)));
    assert!(!anchor_counts_agree(12, 12, Some(10)));
    assert!(!anchor_counts_agree(12, 11, None));
}

#[test]
fn nms_keeps_best_of_each_cluster() {
    // Detections 0 and 1 overlap, 2 stands alone, 3 overlaps 2.
    let sup = vec![
        vec![false, true, false, false],
        vec![true, false, false, false],
        vec![false, false, false, true],
        vec![false, false, true, false],
    ];
    assert_eq!(greedy_keep(&sup), vec![0, 2]);
}

#[test]
fn nms_suppressed_detection_does_not_suppress() {
    // 1 is suppressed by 0; 2 overlaps only 1, so it stays.
    let sup = vec![
        vec![false, true, false],
        vec![true, false, true],
        vec![false, true, false],
    ];
    assert_eq!(greedy_keep(&sup), vec![0, 2]);
    assert_eq!(greedy_keep(&Vec::new()), Vec::<usize>::new());
}
