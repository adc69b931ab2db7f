use softraster::depth::{depth_range, normalize_depth, normalize_depths, DepthRange, DEPTH_ONE};
use softraster::raster_z::DEPTH_CLEAR;

#[test]
fn depth_one_is_nearer_than_a_cleared_pixel() {
    assert_eq!(DEPTH_ONE, 1 << 24);
    assert!(DEPTH_ONE < DEPTH_CLEAR);
}

#[test]
fn depth_range_finds_the_least_z_and_the_extent() {
    let r = depth_range(&[5, -3, 12, 0]).unwrap();
    assert_eq!((r.z_min, r.extent), (-3, 15));
    let r = depth_range(&[7]).unwrap();
    assert_eq!((r.z_min, r.extent), (7, 1));
    let r = depth_range(&[i32::MAX, i32::MIN]).unwrap();
    assert_eq!((r.z_min, r.extent), (i32::MIN, u32::MAX));
}

#[test]
fn depth_range_of_no_vertex_is_none() {
    assert!(depth_range(&[]).is_none());
}

#[test]
fn a_collapsed_range_is_widened_to_one() {
    let r = depth_range(&[4, 4, 4]).unwrap();
    assert_eq!((r.z_min, r.extent), (4, 1));
    assert_eq!(normalize_depths(&[4, 4, 4]), vec![0, 0, 0]);
    let r = depth_range(&[i32::MAX, i32::MAX]).unwrap();
    assert_eq!((r.z_min, r.extent), (i32::MAX, 1));
    assert_eq!(normalize_depths(&[i32::MAX, i32::MAX]), vec![0, 0]);
}

#[test]
fn normalize_depth_is_linear_and_rounds_down() {
    let r = DepthRange { z_min: -3, extent: 15 };
    // (z + 3) * 2^24 / 15
    assert_eq!(normalize_depth(-3, &r), 0);
    assert_eq!(normalize_depth(12, &r), 16_777_216);
    assert_eq!(normalize_depth(0, &r), 3_355_443);
    assert_eq!(normalize_depth(5, &r), 8_947_848);
    assert_eq!(normalize_depth(-2, &r), 1_118_481);
}

#[test]
fn the_nearest_vertex_has_depth_zero_and_the_farthest_depth_one() {
    let zs = [5, -3, 12, 0, 12, -3];
    let d = normalize_depths(&zs);
    assert_eq!(d, vec![8_947_848, 0, DEPTH_ONE, 3_355_443, DEPTH_ONE, 0]);
    for x in &d {
        assert!(*x <= DEPTH_ONE);
    }
}

#[test]
fn normalized_depth_spans_the_widest_range() {
    let d = normalize_depths(&[i32::MIN, 0, i32::MAX, -1]);
    assert_eq!(d[0], 0);
    assert_eq!(d[2], DEPTH_ONE);
    // 2^31 * 2^24 / (2^32 - 1) and (2^31 - 1) * 2^24 / (2^32 - 1)
    assert_eq!(d[1], 8_388_608);
    assert_eq!(d[3], 8_388_607);
}

#[test]
fn normalized_depth_keeps_the_order_of_z() {
    let zs = [-50, -7, -7, 0, 3, 4, 1000];
    let d = normalize_depths(&zs);
    for k in 1..zs.len() {
        assert!(d[k - 1] <= d[k]);
    }
    assert_eq!(d[1], d[2]);
}

#[test]
fn normalize_depths_of_no_vertex_is_empty() {
    assert!(normalize_depths(&[]).is_empty());
}
