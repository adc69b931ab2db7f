use softraster::raster;
use softraster::raster::{put_pixel, rgb};

#[test]
fn rgb_packs_opaque_argb() {
    assert_eq!(rgb(0, 0, 0), 0xFF00_0000);
    assert_eq!(rgb(255, 255, 255), 0xFFFF_FFFF);
    assert_eq!(rgb(8, 10, 14), 0xFF08_0A0E);
    assert_eq!(rgb(0x12, 0x34, 0x56), 0xFF12_3456);
}

#[test]
fn put_pixel_writes_inside_the_grid() {
    let mut buf = vec![0u32; 12];
    put_pixel(&mut buf, 4, 3, 1, 2, 7);
    let mut want = vec![0u32; 12];
    want[2 * 4 + 1] = 7;
    assert_eq!(buf, want);
}

#[test]
fn put_pixel_ignores_positions_outside_the_grid() {
    let mut buf = vec![0u32; 12];
    put_pixel(&mut buf, 4, 3, -1, 0, 7);
    put_pixel(&mut buf, 4, 3, 0, -1, 7);
    put_pixel(&mut buf, 4, 3, 4, 0, 7);
    put_pixel(&mut buf, 4, 3, 0, 3, 7);
    put_pixel(&mut buf, 4, 3, i32::MAX, i32::MIN, 7);
    assert_eq!(buf, vec![0u32; 12]);
}

fn grid(rows: &[&str]) -> Vec<u32> {
    let mut out = Vec::new();
    for r in rows {
        for ch in r.chars() {
            out.push(if ch == '#' { 1 } else { 0 });
        }
    }
    out
}

#[test]
fn line_horizontal_and_vertical() {
    let mut buf = vec![0u32; 5 * 4];
    raster::line(&mut buf, 5, 4, 0, 1, 4, 1, 1);
    assert_eq!(buf, grid(&[".....", "#####", ".....", "....."]));
    let mut buf = vec![0u32; 5 * 4];
    raster::line(&mut buf, 5, 4, 2, 3, 2, 0, 1);
    assert_eq!(buf, grid(&["..#..", "..#..", "..#..", "..#.."]));
}

#[test]
fn line_single_point() {
    let mut buf = vec![0u32; 9];
    raster::line(&mut buf, 3, 3, 1, 1, 1, 1, 1);
    assert_eq!(buf, grid(&["...", ".#.", "..."]));
}

#[test]
fn line_shallow_slope_rounds_ties_forward() {
    // from (0,0) to (4,2): the ideal height at x = 1 is one half, which
    // rounds up to the next row
    let mut buf = vec![0u32; 5 * 3];
    raster::line(&mut buf, 5, 3, 0, 0, 4, 2, 1);
    assert_eq!(buf, grid(&["#....", ".##..", "...##"]));
}

#[test]
fn line_steep_and_reversed() {
    let mut buf = vec![0u32; 3 * 5];
    raster::line(&mut buf, 3, 5, 2, 4, 0, 0, 1);
    assert_eq!(buf, grid(&["#..", "#..", ".#.", ".#.", "..#"]));
}

#[test]
fn line_is_clipped_to_the_grid() {
    let mut buf = vec![0u32; 3 * 3];
    raster::line(&mut buf, 3, 3, -2, -2, 5, 5, 1);
    assert_eq!(buf, grid(&["#..", ".#.", "..#"]));
    let mut buf = vec![0u32; 3 * 3];
    raster::line(&mut buf, 3, 3, -5, 1, 10, 1, 1);
    assert_eq!(buf, grid(&["...", "###", "..."]));
}
