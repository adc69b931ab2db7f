use softraster::frame::{gather_faces, Face, Frame};
use softraster::raster::rgb;
use softraster::raster_z::{tri_fill_z, DEPTH_CLEAR};

const FAR: u32 = DEPTH_CLEAR;

fn grid(rows: &[&str]) -> Vec<u32> {
    let mut out = Vec::new();
    for r in rows {
        for ch in r.chars() {
            out.push(if ch == '.' { 0 } else { ch.to_digit(10).unwrap() });
        }
    }
    out
}

#[test]
fn tri_fill_z_samples_pixel_centres_and_interpolates_depth() {
    let mut buf = vec![0u32; 8 * 6];
    let mut depth = vec![FAR; 8 * 6];
    tri_fill_z(1, &mut buf, &mut depth, 8, 6, [(1, 1, 100), (7, 1, 700), (1, 5, 500)]);
    assert_eq!(
        buf,
        grid(&["........", ".11111..", ".1111...", ".11.....", ".1......", "........"])
    );
    // the depth is the plane through the three vertices, taken at the
    // centre of each pixel: 100 x + 100 y - 100 at (x + 1/2, y + 1/2)
    let mut want = vec![FAR; 8 * 6];
    for (x, y, z) in [
        (1, 1, 200),
        (2, 1, 300),
        (3, 1, 400),
        (4, 1, 500),
        (5, 1, 600),
        (1, 2, 300),
        (2, 2, 400),
        (3, 2, 500),
        (4, 2, 600),
        (1, 3, 400),
        (2, 3, 500),
        (1, 4, 500),
    ] {
        want[y * 8 + x] = z;
    }
    assert_eq!(depth, want);
}

#[test]
fn tri_fill_z_rounds_the_depth_down() {
    // the centre of pixel (0, 0) has the weights 1/2, 1/4, 1/4
    let mut buf = vec![0u32; 4];
    let mut depth = vec![FAR; 4];
    tri_fill_z(1, &mut buf, &mut depth, 2, 2, [(0, 0, 1), (2, 0, 2), (0, 2, 4)]);
    // 1/2 + 2/4 + 4/4 = 2
    assert_eq!(depth[0], 2);
    let mut buf = vec![0u32; 4];
    let mut depth = vec![FAR; 4];
    tri_fill_z(1, &mut buf, &mut depth, 2, 2, [(0, 0, 1), (2, 0, 2), (0, 2, 5)]);
    // 1/2 + 2/4 + 5/4 = 2 + 1/4
    assert_eq!(depth[0], 2);
    let mut buf = vec![0u32; 4];
    let mut depth = vec![FAR; 4];
    tri_fill_z(1, &mut buf, &mut depth, 2, 2, [(0, 0, 3), (2, 0, 2), (0, 2, 5)]);
    // 3/2 + 2/4 + 5/4 = 3 + 1/4
    assert_eq!(depth[0], 3);
}

#[test]
fn tri_fill_z_gives_the_same_result_for_either_winding() {
    let mut buf_a = vec![0u32; 8 * 6];
    let mut depth_a = vec![FAR; 8 * 6];
    let mut buf_b = vec![0u32; 8 * 6];
    let mut depth_b = vec![FAR; 8 * 6];
    tri_fill_z(1, &mut buf_a, &mut depth_a, 8, 6, [(1, 1, 101), (7, 1, 703), (1, 5, 507)]);
    tri_fill_z(1, &mut buf_b, &mut depth_b, 8, 6, [(1, 5, 507), (7, 1, 703), (1, 1, 101)]);
    assert_eq!(buf_a, buf_b);
    assert_eq!(depth_a, depth_b);
}

#[test]
fn a_covered_pixel_takes_the_colour_only_where_the_triangle_is_nearer() {
    let mut buf = vec![0u32; 4 * 4];
    let mut depth = vec![FAR; 4 * 4];
    // flat triangle at depth 50 over the upper left half
    depth[0] = 50; // equal: not nearer
    depth[1] = 49; // nearer surface already there
    depth[2] = 51; // farther surface already there
    depth[15] = 0;
    tri_fill_z(1, &mut buf, &mut depth, 4, 4, [(0, 0, 50), (4, 0, 50), (0, 4, 50)]);
    assert_eq!(buf, grid(&["..11", "111.", "11..", "1..."]));
    let mut want = vec![FAR; 16];
    for i in [2, 3, 4, 5, 6, 8, 9, 12] {
        want[i] = 50;
    }
    want[0] = 50;
    want[1] = 49;
    want[15] = 0;
    assert_eq!(depth, want);
}

#[test]
fn a_collinear_triangle_writes_nothing() {
    let mut buf = vec![3u32; 6 * 6];
    let mut depth = vec![FAR; 6 * 6];
    tri_fill_z(1, &mut buf, &mut depth, 6, 6, [(0, 0, 0), (3, 3, 0), (5, 5, 0)]);
    tri_fill_z(1, &mut buf, &mut depth, 6, 6, [(1, 2, 0), (1, 2, 0), (4, 4, 0)]);
    tri_fill_z(1, &mut buf, &mut depth, 6, 6, [(0, 3, 0), (5, 3, 0), (2, 3, 0)]);
    assert_eq!(buf, vec![3u32; 36]);
    assert_eq!(depth, vec![FAR; 36]);
}

#[test]
fn a_triangle_at_the_cleared_depth_is_not_drawn() {
    let mut buf = vec![0u32; 9];
    let mut depth = vec![FAR; 9];
    tri_fill_z(1, &mut buf, &mut depth, 3, 3, [(0, 0, FAR), (6, 0, FAR), (0, 6, FAR)]);
    assert_eq!(buf, vec![0u32; 9]);
    assert_eq!(depth, vec![FAR; 9]);
}

#[test]
fn tri_fill_z_on_an_empty_grid_does_nothing() {
    let mut buf: Vec<u32> = Vec::new();
    let mut depth: Vec<u32> = Vec::new();
    tri_fill_z(1, &mut buf, &mut depth, 0, 4, [(0, 0, 0), (6, 0, 0), (0, 6, 0)]);
    assert!(buf.is_empty() && depth.is_empty());
}

#[test]
fn tri_fill_z_handles_corners_far_outside_the_grid() {
    let mut buf = vec![0u32; 9];
    let mut depth = vec![FAR; 9];
    tri_fill_z(
        1,
        &mut buf,
        &mut depth,
        3,
        3,
        [
            (i32::MIN, i32::MIN, 0xFFFF_FFFE),
            (i32::MAX, i32::MIN, 0xFFFF_FFFE),
            (0, i32::MAX, 0xFFFF_FFFE),
        ],
    );
    assert_eq!(buf, vec![1u32; 9]);
    assert_eq!(depth, vec![0xFFFF_FFFEu32; 9]);
}

#[test]
fn a_farther_copy_of_a_triangle_is_fully_hidden() {
    let mut frame = Frame::new(8, 6, 0).unwrap();
    let front = Face { v: [(1, 1, 100), (7, 1, 700), (1, 5, 500)], color: 1, normal_z: -1 };
    let behind = Face { v: [(1, 1, 101), (7, 1, 701), (1, 5, 501)], color: 2, normal_z: -1 };
    frame.draw(&[front], false);
    let color = frame.color.clone();
    let depth = frame.depth.clone();
    assert!(color.contains(&1));
    frame.draw(&[behind], false);
    assert_eq!(frame.color, color);
    assert_eq!(frame.depth, depth);
}

#[test]
fn a_nearer_triangle_drawn_later_covers_the_farther() {
    let mut frame = Frame::new(4, 4, 0).unwrap();
    let far = Face { v: [(0, 0, 9), (4, 0, 9), (0, 4, 9)], color: 1, normal_z: -1 };
    let near = Face { v: [(0, 0, 5), (2, 0, 5), (0, 2, 5)], color: 2, normal_z: -1 };
    frame.draw(&[far, near], false);
    assert_eq!(frame.color, grid(&["2211", "211.", "11..", "1..."]));
}

fn scene() -> Vec<Face> {
    vec![
        Face { v: [(0, 0, 1000), (8, 0, 9001), (0, 6, 4003)], color: 1, normal_z: -1 },
        Face { v: [(8, 6, 2007), (8, 0, 3011), (0, 6, 8017)], color: 2, normal_z: -3 },
        Face { v: [(2, 1, 5023), (7, 3, 5023), (3, 5, 5023)], color: 3, normal_z: -1 },
        Face { v: [(0, 3, 529), (8, 2, 9531), (4, 6, 6037)], color: 4, normal_z: -2 },
    ]
}

fn permutations(n: usize) -> Vec<Vec<usize>> {
    if n == 0 {
        return vec![vec![]];
    }
    let mut out = Vec::new();
    for p in permutations(n - 1) {
        for at in 0..n {
            let mut q = p.clone();
            q.insert(at, n - 1);
            out.push(q);
        }
    }
    out
}

#[test]
fn the_frame_does_not_depend_on_the_order_of_the_faces() {
    let faces = scene();
    let mut first = Frame::new(8, 6, 0).unwrap();
    first.draw(&faces, false);
    // no two faces tie for the nearest depth at any pixel of this scene
    assert_eq!(
        first.color,
        grid(&["11111112", "11111122", "11133222", "14443222", "11432222", "12242222"])
    );
    for p in permutations(4) {
        let shuffled: Vec<Face> = p.iter().map(|&k| faces[k]).collect();
        let mut frame = Frame::new(8, 6, 0).unwrap();
        frame.draw(&shuffled, false);
        assert_eq!(frame.color, first.color);
        assert_eq!(frame.depth, first.depth);
    }
}

#[test]
fn faces_that_tie_in_depth_show_the_one_drawn_first() {
    let a = Face { v: [(0, 0, 7), (4, 0, 7), (0, 4, 7)], color: 1, normal_z: -1 };
    let b = Face { v: [(0, 0, 7), (4, 0, 7), (0, 4, 7)], color: 2, normal_z: -1 };
    let mut ab = Frame::new(4, 4, 0).unwrap();
    ab.draw(&[a, b], false);
    let mut ba = Frame::new(4, 4, 0).unwrap();
    ba.draw(&[b, a], false);
    assert_eq!(ab.color, grid(&["1111", "111.", "11..", "1..."]));
    assert_eq!(ba.color, grid(&["2222", "222.", "22..", "2..."]));
    assert_eq!(ab.depth, ba.depth);
}

#[test]
fn culling_removes_the_faces_whose_normal_has_no_negative_z() {
    let faces = vec![
        Face { v: [(0, 0, 10), (8, 0, 10), (0, 6, 10)], color: 1, normal_z: -1 },
        Face { v: [(8, 6, 5), (8, 0, 5), (0, 6, 5)], color: 2, normal_z: 1 },
        Face { v: [(2, 1, 3), (7, 3, 3), (3, 5, 3)], color: 3, normal_z: 0 },
        Face { v: [(0, 3, 1), (3, 2, 1), (2, 6, 1)], color: 4, normal_z: i32::MIN },
        Face { v: [(5, 0, 1), (8, 0, 1), (8, 3, 1)], color: 5, normal_z: i32::MAX },
    ];
    let kept = vec![faces[0], faces[3]];
    let mut culled = Frame::new(8, 6, 0).unwrap();
    culled.draw(&faces, true);
    let mut only_kept = Frame::new(8, 6, 0).unwrap();
    only_kept.draw(&kept, false);
    assert_eq!(culled.color, only_kept.color);
    assert_eq!(culled.depth, only_kept.depth);
    assert!(culled.color.contains(&1) && culled.color.contains(&4));
    assert!(!culled.color.contains(&2));
    assert!(!culled.color.contains(&3));
    assert!(!culled.color.contains(&5));
    let mut all = Frame::new(8, 6, 0).unwrap();
    all.draw(&faces, false);
    assert!(all.color.contains(&2) && all.color.contains(&3) && all.color.contains(&5));
}

#[test]
fn culling_changes_nothing_where_every_face_is_a_front_face() {
    let faces = scene();
    let mut with = Frame::new(8, 6, 0).unwrap();
    with.draw(&faces, true);
    let mut without = Frame::new(8, 6, 0).unwrap();
    without.draw(&faces, false);
    assert_eq!(with.color, without.color);
    assert_eq!(with.depth, without.depth);
}

#[test]
fn the_stored_depth_is_the_least_depth_of_the_faces_over_a_pixel() {
    let mut frame = Frame::new(2, 2, 0).unwrap();
    let faces = [
        Face { v: [(0, 0, 30), (4, 0, 30), (0, 4, 30)], color: 1, normal_z: -1 },
        Face { v: [(0, 0, 10), (4, 0, 10), (0, 4, 10)], color: 2, normal_z: -1 },
        Face { v: [(0, 0, 20), (4, 0, 20), (0, 4, 20)], color: 3, normal_z: -1 },
    ];
    frame.draw(&faces, false);
    assert_eq!(frame.depth, vec![10u32; 4]);
    assert_eq!(frame.color, vec![2u32; 4]);
}

#[test]
fn a_new_frame_is_cleared() {
    let frame = Frame::new(3, 2, rgb(8, 10, 14)).unwrap();
    assert_eq!(frame.width, 3);
    assert_eq!(frame.height, 2);
    assert_eq!(frame.color, vec![0xFF08_0A0Eu32; 6]);
    assert_eq!(frame.depth, vec![0xFFFF_FFFFu32; 6]);
}

#[test]
fn a_frame_too_large_to_count_is_refused() {
    assert!(Frame::new(usize::MAX, 2, 0).is_none());
    assert!(Frame::new(usize::MAX / 2 + 1, 2, 0).is_none());
    assert!(Frame::new(0, usize::MAX, 0).is_some());
}

#[test]
fn reset_clears_both_buffers() {
    let mut frame = Frame::new(4, 4, 9).unwrap();
    frame.draw(&scene(), false);
    assert!(frame.color != vec![9u32; 16]);
    frame.reset(5);
    assert_eq!(frame.color, vec![5u32; 16]);
    assert_eq!(frame.depth, vec![FAR; 16]);
    assert_eq!((frame.width, frame.height), (4, 4));
}

#[test]
fn gather_faces_looks_the_vertices_up() {
    let vertices = [(0, 0, 1), (4, 0, 2), (0, 4, 3), (4, 4, 4)];
    let triangles = [[0u32, 1, 2], [3, 2, 1]];
    let faces = gather_faces(&vertices, &triangles, &[7, 8], &[-1, 2]);
    assert_eq!(faces.len(), 2);
    assert_eq!(faces[0].v, [(0, 0, 1), (4, 0, 2), (0, 4, 3)]);
    assert_eq!(faces[0].color, 7);
    assert_eq!(faces[0].normal_z, -1);
    assert_eq!(faces[1].v, [(4, 4, 4), (0, 4, 3), (4, 0, 2)]);
    assert_eq!(faces[1].color, 8);
    assert_eq!(faces[1].normal_z, 2);
    assert!(gather_faces(&vertices, &[], &[], &[]).is_empty());
}
