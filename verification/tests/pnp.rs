use aurascan::pnp::{dist_coeffs_count_valid, intrinsics_configured};

#[test]
fn distortion_coefficient_counts() {
    for n in [0usize, 4, 5, 8, 12, 14] {
        assert!(dist_coeffs_count_valid(n));
    }
    for n in [1usize, 3, 6, 13, 15, 100] {
        assert!(!dist_coeffs_count_valid(n));
    }
    assert!(intrinsics_configured(true, 5));
    assert!(!intrinsics_configured(false, 5));
    assert!(!intrinsics_configured(true, 2));
}
