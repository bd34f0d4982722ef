use aurascan::frame::pack_rgb_rows;

#[test]
fn packs_rows_dropping_padding() {
    let data: Vec<u8> = (0u8..16).collect();
    let r = pack_rgb_rows(&data, 2, 2, 8);
    assert_eq!(r, vec![0, 1, 2, 3, 4, 5, 8, 9, 10, 11, 12, 13]);
}

#[test]
fn short_last_row_stays_zero() {
    let data: Vec<u8> = (1u8..=14).collect();
    let r = pack_rgb_rows(&data, 2, 2, 8);
    assert_eq!(r, vec![1, 2, 3, 4, 5, 6, 0, 0, 0, 0, 0, 0]);
}

#[test]
fn rows_past_the_plane_stay_zero() {
    let data: Vec<u8> = vec![7; 6];
    let r = pack_rgb_rows(&data, 1, 3, 3);
    assert_eq!(r, vec![7, 7, 7, 7, 7, 7, 0, 0, 0]);
    assert_eq!(pack_rgb_rows(&[], 4, 0, 12), Vec::<u8>::new());
}
