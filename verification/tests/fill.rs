use softraster::raster_fill::{edge, tri_fill};

fn grid(rows: &[&str]) -> Vec<u32> {
    let mut out = Vec::new();
    for r in rows {
        for ch in r.chars() {
            out.push(if ch == '.' { 0 } else { ch.to_digit(10).unwrap() });
        }
    }
    out
}

#[test]
fn edge_is_the_cross_product_of_the_two_offsets() {
    // (px - ax) * (by - ay) - (py - ay) * (bx - ax)
    assert_eq!(edge(0, 0, 4, 0, 0, 3), -12);
    assert_eq!(edge(0, 0, 0, 3, 4, 0), 12);
    assert_eq!(edge(1, 1, 5, 3, 3, 2), 0);
    assert_eq!(edge(2, 3, 7, 11, -4, 6), (-4 - 2) * (11 - 3) - (6 - 3) * (7 - 2));
}

#[test]
fn edge_does_not_overflow_on_extreme_coordinates() {
    let lo = i32::MIN;
    let hi = i32::MAX;
    let d = hi as i128 - lo as i128;
    assert_eq!(edge(lo, lo, hi, hi, hi, lo), d * d);
    assert_eq!(edge(lo, lo, hi, hi, lo, hi), -(d * d));
}

#[test]
fn tri_fill_paints_the_closed_triangle() {
    let mut buf = vec![0u32; 8 * 6];
    tri_fill(&mut buf, 8, 6, [(1, 1), (6, 1), (1, 4)], 1);
    assert_eq!(
        buf,
        grid(&["........", ".111111.", ".1111...", ".11.....", ".1......", "........"])
    );
}

#[test]
fn tri_fill_paints_the_same_pixels_for_either_winding() {
    let mut a = vec![0u32; 8 * 6];
    let mut b = vec![0u32; 8 * 6];
    tri_fill(&mut a, 8, 6, [(1, 1), (6, 1), (1, 4)], 1);
    tri_fill(&mut b, 8, 6, [(1, 1), (1, 4), (6, 1)], 1);
    assert_eq!(a, b);
}

#[test]
fn tri_fill_is_clipped_to_the_grid() {
    let mut buf = vec![0u32; 8 * 6];
    tri_fill(&mut buf, 8, 6, [(-3, -2), (10, 2), (2, 9)], 1);
    assert_eq!(
        buf,
        grid(&["1111....", "1111111.", "11111111", "11111111", "11111111", ".111111."])
    );
}

#[test]
fn tri_fill_skips_a_triangle_of_zero_area() {
    let mut buf = vec![0u32; 8 * 6];
    tri_fill(&mut buf, 8, 6, [(0, 0), (3, 3), (5, 5)], 1);
    tri_fill(&mut buf, 8, 6, [(2, 2), (2, 2), (2, 2)], 1);
    tri_fill(&mut buf, 8, 6, [(1, 4), (6, 4), (3, 4)], 1);
    assert_eq!(buf, vec![0u32; 8 * 6]);
}

#[test]
fn tri_fill_keeps_what_lies_outside_the_triangle() {
    let mut buf = vec![7u32; 4 * 4];
    tri_fill(&mut buf, 4, 4, [(0, 0), (2, 0), (0, 2)], 1);
    assert_eq!(buf, grid(&["1117", "1177", "1777", "7777"]));
}

#[test]
fn tri_fill_on_an_empty_grid_does_nothing() {
    let mut buf: Vec<u32> = Vec::new();
    tri_fill(&mut buf, 0, 5, [(0, 0), (2, 0), (0, 2)], 1);
    tri_fill(&mut buf, 5, 0, [(0, 0), (2, 0), (0, 2)], 1);
    assert!(buf.is_empty());
}

#[test]
fn tri_fill_handles_corners_far_outside_the_grid() {
    let mut buf = vec![0u32; 3 * 3];
    tri_fill(
        &mut buf,
        3,
        3,
        [(i32::MIN, i32::MIN), (i32::MAX, i32::MIN), (0, i32::MAX)],
        1,
    );
    assert_eq!(buf, vec![1u32; 9]);
}
