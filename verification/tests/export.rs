use softraster::export::{channels, to_rgba_bytes};
use softraster::raster::rgb;

#[test]
fn channels_takes_a_pixel_apart() {
    assert_eq!(channels(0x1234_5678), (0x34, 0x56, 0x78, 0x12));
    assert_eq!(channels(0), (0, 0, 0, 0));
    assert_eq!(channels(0xFFFF_FFFF), (255, 255, 255, 255));
    assert_eq!(channels(0xFF00_0000), (0, 0, 0, 255));
}

#[test]
fn channels_undoes_rgb() {
    for (r, g, b) in [(0u8, 0u8, 0u8), (255, 255, 255), (8, 10, 14), (128, 160, 220), (1, 2, 3)] {
        assert_eq!(channels(rgb(r, g, b)), (r, g, b, 255));
    }
}

#[test]
fn to_rgba_bytes_lays_the_pixels_out_row_by_row() {
    let buf = [
        0xFF01_0203u32,
        0x8011_1213,
        0x0021_2223,
        0xFF31_3233,
        0x7F41_4243,
        0x0151_5253,
    ];
    let bytes = to_rgba_bytes(&buf, 3, 2).unwrap();
    assert_eq!(
        bytes,
        vec![
            0x01, 0x02, 0x03, 0xFF, 0x11, 0x12, 0x13, 0x80, 0x21, 0x22, 0x23, 0x00, 0x31, 0x32,
            0x33, 0xFF, 0x41, 0x42, 0x43, 0x7F, 0x51, 0x52, 0x53, 0x01,
        ]
    );
    // the same pixels as one column
    assert_eq!(to_rgba_bytes(&buf, 1, 6).unwrap(), bytes);
}

#[test]
fn to_rgba_bytes_of_an_empty_image_is_empty() {
    assert_eq!(to_rgba_bytes(&[], 0, 0), Some(vec![]));
    assert_eq!(to_rgba_bytes(&[], 0, 7), Some(vec![]));
    assert_eq!(to_rgba_bytes(&[], 7, 0), Some(vec![]));
}

#[test]
fn to_rgba_bytes_refuses_a_side_beyond_u32() {
    if usize::BITS > 32 {
        let wide = u32::MAX as usize + 1;
        assert_eq!(to_rgba_bytes(&[], wide, 0), None);
        assert_eq!(to_rgba_bytes(&[], 0, wide), None);
    }
}
