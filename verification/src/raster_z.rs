//! Depth-tested filling of a triangle: pixels are sampled at their centres,
//! depth is interpolated across the triangle, and the nearer surface wins.
//!
//! Depth is a fixed-point number held in a `u32`: smaller is nearer, and
//! [`DEPTH_CLEAR`] is farther than anything a triangle can write over.

use vstd::prelude::*;
use crate::geometry::{edge_value, lemma_product_bound, max3, min3, Corners};
use crate::grid::{col, lemma_cell, lemma_index, row};
use crate::raster::put_pixel;
use crate::scan::{clipped_span, Scan};

verus! {

/// The depth of a pixel that no triangle has covered.
pub const DEPTH_CLEAR: u32 = 0xFFFF_FFFF;

/// A screen-space vertex: pixel position and depth.
pub type Vertex = (i32, i32, u32);

/// The corners of a triangle of vertices, on a grid twice as fine as the
/// pixel grid, on which the centre of pixel `(x, y)` is `(2x + 1, 2y + 1)`.
pub open spec fn fine_corners(v: [Vertex; 3]) -> Corners {
    Corners {
        x0: 2 * v[0].0,
        y0: 2 * v[0].1,
        x1: 2 * v[1].0,
        y1: 2 * v[1].1,
        x2: 2 * v[2].0,
        y2: 2 * v[2].1,
    }
}

/// The centre of pixel `(x, y)` lies in the closed triangle, whatever its
/// winding; a triangle of zero area covers nothing.
pub open spec fn covers(v: [Vertex; 3], x: int, y: int) -> bool {
    fine_corners(v).contains(2 * x + 1, 2 * y + 1)
}

/// The size of a number.
pub open spec fn magnitude(a: int) -> int {
    if a < 0 {
        -a
    } else {
        a
    }
}

/// The depth of the triangle at the centre of pixel `(x, y)`: the depths of
/// the three vertices weighed by the barycentric weights of the centre,
/// rounded down. It is meant for pixels that the triangle covers.
pub open spec fn depth_at(v: [Vertex; 3], x: int, y: int) -> int {
    let c = fine_corners(v);
    let px = 2 * x + 1;
    let py = 2 * y + 1;
    (magnitude(c.w0(px, py)) * v[0].2 + magnitude(c.w1(px, py)) * v[1].2 + magnitude(
        c.w2(px, py),
    ) * v[2].2) / magnitude(c.area())
}

/// The triangle wins the pixel stored at index `i`: it covers the pixel's
/// centre, and is strictly nearer there than what the depth buffer holds.
pub open spec fn wins(depth: Seq<u32>, w: int, v: [Vertex; 3], i: int) -> bool {
    covers(v, col(w, i), row(w, i)) && depth_at(v, col(w, i), row(w, i)) < depth[i]
}

/// The depth buffer after the triangle was drawn.
pub open spec fn depth_after(depth: Seq<u32>, w: int, v: [Vertex; 3]) -> Seq<u32> {
    Seq::new(
        depth.len(),
        |i: int|
            if wins(depth, w, v, i) {
                depth_at(v, col(w, i), row(w, i)) as u32
            } else {
                depth[i]
            },
    )
}

/// The colour buffer after the triangle was drawn over the depth buffer `depth`.
pub open spec fn color_after(
    buf: Seq<u32>,
    depth: Seq<u32>,
    w: int,
    v: [Vertex; 3],
    color: u32,
) -> Seq<u32> {
    Seq::new(
        buf.len(),
        |i: int|
            if wins(depth, w, v, i) {
                color
            } else {
                buf[i]
            },
    )
}

/// On a covered pixel the interpolated depth lies between the least and the
/// greatest depth of the three vertices.
pub proof fn lemma_depth_between(v: [Vertex; 3], x: int, y: int)
    requires
        covers(v, x, y),
    ensures
        min3(v[0].2 as int, v[1].2 as int, v[2].2 as int) <= depth_at(v, x, y) <= max3(
            v[0].2 as int,
            v[1].2 as int,
            v[2].2 as int,
        ),
{
    let c = fine_corners(v);
    let px = 2 * x + 1;
    let py = 2 * y + 1;
    c.lemma_weights_sum(px, py);
    let m0 = magnitude(c.w0(px, py));
    let m1 = magnitude(c.w1(px, py));
    let m2 = magnitude(c.w2(px, py));
    let d = magnitude(c.area());
    assert(m0 + m1 + m2 == d);
    lemma_weighted_mean(d, m0, m1, m2, v[0].2 as int, v[1].2 as int, v[2].2 as int);
}

/// The mean of three values under weights that are not negative, rounded
/// down, lies between the least and the greatest of them.
pub proof fn lemma_weighted_mean(d: int, m0: int, m1: int, m2: int, z0: int, z1: int, z2: int)
    requires
        d > 0,
        m0 >= 0,
        m1 >= 0,
        m2 >= 0,
        m0 + m1 + m2 == d,
    ensures
        min3(z0, z1, z2) <= (m0 * z0 + m1 * z1 + m2 * z2) / d <= max3(z0, z1, z2),
{
    let n = m0 * z0 + m1 * z1 + m2 * z2;
    let lo = min3(z0, z1, z2);
    let hi = max3(z0, z1, z2);
    assert(d * lo <= n <= d * hi) by (nonlinear_arith)
        requires
            m0 >= 0,
            m1 >= 0,
            m2 >= 0,
            m0 + m1 + m2 == d,
            n == m0 * z0 + m1 * z1 + m2 * z2,
            lo <= z0 <= hi,
            lo <= z1 <= hi,
            lo <= z2 <= hi,
    {
        assert(m0 * lo <= m0 * z0 <= m0 * hi);
        assert(m1 * lo <= m1 * z1 <= m1 * hi);
        assert(m2 * lo <= m2 * z2 <= m2 * hi);
        assert(m0 * lo + m1 * lo + m2 * lo == d * lo);
        assert(m0 * hi + m1 * hi + m2 * hi == d * hi);
    }
    vstd::arithmetic::div_mod::lemma_fundamental_div_mod(n, d);
    vstd::arithmetic::div_mod::lemma_mod_bound(n, d);
    let q = n / d;
    assert(lo <= q <= hi) by (nonlinear_arith)
        requires
            d > 0,
            d * lo <= n <= d * hi,
            n == d * q + n % d,
            0 <= n % d < d,
    ;
}

/// A pixel whose centre lies in a triangle of nonzero area takes the colour
/// and the depth of the triangle if, and only if, the depth of the triangle
/// there is less than the depth stored for the pixel; otherwise both buffers
/// keep what they held. A pixel whose centre lies outside keeps it too.
pub proof fn lemma_pixel_after(
    buf: Seq<u32>,
    depth: Seq<u32>,
    w: int,
    v: [Vertex; 3],
    color: u32,
    i: int,
)
    requires
        0 <= i < depth.len(),
        buf.len() == depth.len(),
    ensures
        ({
            let near = depth_at(v, col(w, i), row(w, i));
            let inside = covers(v, col(w, i), row(w, i));
            &&& inside && near < depth[i] ==> color_after(buf, depth, w, v, color)[i] == color
                && depth_after(depth, w, v)[i] == near
            &&& !(inside && near < depth[i]) ==> color_after(buf, depth, w, v, color)[i] == buf[i]
                && depth_after(depth, w, v)[i] == depth[i]
        }),
{
    if covers(v, col(w, i), row(w, i)) {
        lemma_depth_between(v, col(w, i), row(w, i));
    }
}

/// The winding of a triangle does not matter: with two vertices exchanged
/// it covers the same pixels at the same depths, and so draws the same.
pub proof fn lemma_winding_does_not_matter(
    buf: Seq<u32>,
    depth: Seq<u32>,
    w: int,
    v: [Vertex; 3],
    color: u32,
)
    ensures
        forall|x: int, y: int| covers([v[0], v[2], v[1]], x, y) == covers(v, x, y),
        forall|x: int, y: int| depth_at([v[0], v[2], v[1]], x, y) == depth_at(v, x, y),
        color_after(buf, depth, w, [v[0], v[2], v[1]], color) == color_after(
            buf,
            depth,
            w,
            v,
            color,
        ),
        depth_after(depth, w, [v[0], v[2], v[1]]) == depth_after(depth, w, v),
{
    let r = [v[0], v[2], v[1]];
    let c = fine_corners(v);
    assert(fine_corners(r) == c.reversed());
    assert forall|x: int, y: int| covers(r, x, y) == covers(v, x, y) && depth_at(r, x, y)
        == depth_at(v, x, y) by {
        c.lemma_reversed(2 * x + 1, 2 * y + 1);
    }
    assert(color_after(buf, depth, w, r, color) =~= color_after(buf, depth, w, v, color));
    assert(depth_after(depth, w, r) =~= depth_after(depth, w, v));
}

/// A cleared pixel is farther than any surface: a triangle whose vertices
/// have depths below `DEPTH_CLEAR` is drawn at every cleared pixel that it
/// covers.
pub proof fn lemma_cleared_pixel_is_won(depth: Seq<u32>, w: int, v: [Vertex; 3], i: int)
    requires
        0 <= i < depth.len(),
        depth[i] == DEPTH_CLEAR,
        covers(v, col(w, i), row(w, i)),
        v[0].2 < DEPTH_CLEAR,
        v[1].2 < DEPTH_CLEAR,
        v[2].2 < DEPTH_CLEAR,
    ensures
        wins(depth, w, v, i),
{
    lemma_depth_between(v, col(w, i), row(w, i));
}

/// Twice the signed area of the triangle in pixel units; zero exactly when
/// the three positions lie on one line.
pub open spec fn signed_area(v: [Vertex; 3]) -> int {
    edge_value(
        v[0].0 as int,
        v[0].1 as int,
        v[1].0 as int,
        v[1].1 as int,
        v[2].0 as int,
        v[2].1 as int,
    )
}

/// The area term on the fine grid is four times the one in pixel units.
pub proof fn lemma_fine_area(v: [Vertex; 3])
    ensures
        fine_corners(v).area() == 4 * signed_area(v),
{
    let a = v[2].0 - v[0].0;
    let b = v[1].1 - v[0].1;
    let c = v[2].1 - v[0].1;
    let d = v[1].0 - v[0].0;
    assert((2 * a) * (2 * b) - (2 * c) * (2 * d) == 4 * (a * b - c * d)) by (nonlinear_arith);
    assert(2 * v[2].0 - 2 * v[0].0 == 2 * a);
    assert(2 * v[1].1 - 2 * v[0].1 == 2 * b);
    assert(2 * v[2].1 - 2 * v[0].1 == 2 * c);
    assert(2 * v[1].0 - 2 * v[0].0 == 2 * d);
}

/// A triangle whose three positions lie on one line writes no pixel and
/// leaves the depth buffer as it was.
pub proof fn lemma_flat_triangle_draws_nothing(
    buf: Seq<u32>,
    depth: Seq<u32>,
    w: int,
    v: [Vertex; 3],
    color: u32,
)
    requires
        signed_area(v) == 0,
    ensures
        color_after(buf, depth, w, v, color) == buf,
        depth_after(depth, w, v) == depth,
{
    lemma_fine_area(v);
    assert(color_after(buf, depth, w, v, color) =~= buf);
    assert(depth_after(depth, w, v) =~= depth);
}

/// A second triangle at the same positions, with no vertex nearer than in
/// the first, is hidden behind the first: drawn after it, it changes
/// neither buffer.
pub proof fn lemma_farther_copy_is_hidden(
    buf: Seq<u32>,
    depth: Seq<u32>,
    w: int,
    v: [Vertex; 3],
    color: u32,
    behind: [Vertex; 3],
    other_color: u32,
)
    requires
        buf.len() == depth.len(),
        forall|k: int|
            0 <= k < 3 ==> behind[k].0 == v[k].0 && behind[k].1 == v[k].1 && behind[k].2 >= v[k].2,
    ensures
        color_after(
            color_after(buf, depth, w, v, color),
            depth_after(depth, w, v),
            w,
            behind,
            other_color,
        ) == color_after(buf, depth, w, v, color),
        depth_after(depth_after(depth, w, v), w, behind) == depth_after(depth, w, v),
{
    let buf1 = color_after(buf, depth, w, v, color);
    let depth1 = depth_after(depth, w, v);
    assert(fine_corners(behind) == fine_corners(v));
    assert forall|i: int| 0 <= i < depth.len() implies !wins(depth1, w, behind, i) by {
        let x = col(w, i);
        let y = row(w, i);
        if covers(v, x, y) {
            let c = fine_corners(v);
            let px = 2 * x + 1;
            let py = 2 * y + 1;
            c.lemma_weights_sum(px, py);
            lemma_depth_between(v, x, y);
            lemma_weighted_mean_grows(
                magnitude(c.area()),
                magnitude(c.w0(px, py)),
                magnitude(c.w1(px, py)),
                magnitude(c.w2(px, py)),
                v[0].2 as int,
                v[1].2 as int,
                v[2].2 as int,
                behind[0].2 as int,
                behind[1].2 as int,
                behind[2].2 as int,
            );
        }
    }
    assert(color_after(buf1, depth1, w, behind, other_color) =~= buf1);
    assert(depth_after(depth1, w, behind) =~= depth1);
}

/// The weighted mean does not fall when no value falls.
pub proof fn lemma_weighted_mean_grows(
    d: int,
    m0: int,
    m1: int,
    m2: int,
    z0: int,
    z1: int,
    z2: int,
    t0: int,
    t1: int,
    t2: int,
)
    requires
        d > 0,
        m0 >= 0,
        m1 >= 0,
        m2 >= 0,
        z0 <= t0,
        z1 <= t1,
        z2 <= t2,
    ensures
        (m0 * z0 + m1 * z1 + m2 * z2) / d <= (m0 * t0 + m1 * t1 + m2 * t2) / d,
{
    assert(m0 * z0 + m1 * z1 + m2 * z2 <= m0 * t0 + m1 * t1 + m2 * t2) by (nonlinear_arith)
        requires
            m0 >= 0,
            m1 >= 0,
            m2 >= 0,
            z0 <= t0,
            z1 <= t1,
            z2 <= t2,
    {
        assert(m0 * z0 <= m0 * t0);
        assert(m1 * z1 <= m1 * t1);
        assert(m2 * z2 <= m2 * t2);
    }
    vstd::arithmetic::div_mod::lemma_div_is_ordered(
        m0 * z0 + m1 * z1 + m2 * z2,
        m0 * t0 + m1 * t1 + m2 * t2,
        d,
    );
}

/// The edge function over coordinates of the fine grid, computed exactly.
fn edge_fine(ax: i64, ay: i64, bx: i64, by: i64, px: i64, py: i64) -> (e: i128)
    requires
        -0x1_0000_0000 <= ax <= 0x1_0000_0000,
        -0x1_0000_0000 <= ay <= 0x1_0000_0000,
        -0x1_0000_0000 <= bx <= 0x1_0000_0000,
        -0x1_0000_0000 <= by <= 0x1_0000_0000,
        -0x1_0000_0000 <= px <= 0x1_0000_0000,
        -0x1_0000_0000 <= py <= 0x1_0000_0000,
    ensures
        e == edge_value(ax as int, ay as int, bx as int, by as int, px as int, py as int),
        -0x8_0000_0000_0000_0000 <= e <= 0x8_0000_0000_0000_0000,
{
    let pax: i128 = px as i128 - ax as i128;
    let bay: i128 = by as i128 - ay as i128;
    let pay: i128 = py as i128 - ay as i128;
    let bax: i128 = bx as i128 - ax as i128;
    proof {
        lemma_product_bound(pax as int, bay as int, 0x2_0000_0000, 0x2_0000_0000);
        lemma_product_bound(pay as int, bax as int, 0x2_0000_0000, 0x2_0000_0000);
    }
    pax * bay - pay * bax
}

/// The colour buffer while the triangle is drawn: of the pixels that the
/// triangle wins, those hold `color` that the scan has passed.
spec fn color_begun(
    buf: Seq<u32>,
    depth: Seq<u32>,
    w: int,
    v: [Vertex; 3],
    color: u32,
    s: Scan,
) -> Seq<u32> {
    Seq::new(
        buf.len(),
        |i: int|
            if s.passed(col(w, i), row(w, i)) && wins(depth, w, v, i) {
                color
            } else {
                buf[i]
            },
    )
}

/// The depth buffer while the triangle is drawn.
spec fn depth_begun(depth: Seq<u32>, w: int, v: [Vertex; 3], s: Scan) -> Seq<u32> {
    Seq::new(
        depth.len(),
        |i: int|
            if s.passed(col(w, i), row(w, i)) && wins(depth, w, v, i) {
                depth_at(v, col(w, i), row(w, i)) as u32
            } else {
                depth[i]
            },
    )
}

/// Draws the triangle `v` in `color` with a depth test. The centre of each
/// pixel is tested against the three edges; where it lies in the triangle,
/// the depth interpolated there is compared with the depth buffer, and only
/// a strictly smaller depth writes both buffers. A triangle of zero area
/// writes nothing.
pub fn tri_fill_z(
    color: u32,
    buf: &mut [u32],
    depth: &mut [u32],
    w: usize,
    h: usize,
    v: [Vertex; 3],
)
    requires
        old(buf).len() == w * h,
        old(depth).len() == w * h,
    ensures
        final(buf)@ == color_after(old(buf)@, old(depth)@, w as int, v, color),
        final(depth)@ == depth_after(old(depth)@, w as int, v),
{
    let ghost buf0 = buf@;
    let ghost depth0 = depth@;
    let ghost c = fine_corners(v);
    if w == 0 || h == 0 {
        assert(w * h == 0) by (nonlinear_arith)
            requires
                w == 0 || h == 0,
        ;
        assert(buf@ =~= color_after(buf0, depth0, w as int, v, color));
        assert(depth@ =~= depth_after(depth0, w as int, v));
        return ;
    }
    let (x0, y0, z0) = v[0];
    let (x1, y1, z1) = v[1];
    let (x2, y2, z2) = v[2];

    let (min_x, max_x) = clipped_span(x0, x1, x2, w);
    let (min_y, max_y) = clipped_span(y0, y1, y2, h);

    let fx0: i64 = 2 * (x0 as i64);
    let fy0: i64 = 2 * (y0 as i64);
    let fx1: i64 = 2 * (x1 as i64);
    let fy1: i64 = 2 * (y1 as i64);
    let fx2: i64 = 2 * (x2 as i64);
    let fy2: i64 = 2 * (y2 as i64);

    let area: i128 = edge_fine(fx0, fy0, fx1, fy1, fx2, fy2);
    if area == 0 {
        assert(buf@ =~= color_after(buf0, depth0, w as int, v, color));
        assert(depth@ =~= depth_after(depth0, w as int, v));
        return ;
    }
    let span: i128 = if area < 0 { -area } else { area };
    let mut y: i64 = min_y as i64;
    proof {
        let start = Scan {
            min_x: min_x as int,
            max_x: max_x as int,
            min_y: min_y as int,
            x: min_x as int,
            y: y as int,
        };
        assert(buf@ =~= color_begun(buf0, depth0, w as int, v, color, start));
        assert(depth@ =~= depth_begun(depth0, w as int, v, start));
    }
    while y <= max_y as i64
        invariant
            min_y <= y,
            y <= max_y + 1 || max_y < min_y,
            0 <= min_x,
            0 <= min_y,
            max_x < w,
            max_y < h,
            c == fine_corners(v),
            c.area() == area,
            area != 0,
            span == magnitude(area as int),
            buf0.len() == w * h,
            depth0.len() == w * h,
            w * h <= usize::MAX,
            (x0, y0, z0) == v[0],
            (x1, y1, z1) == v[1],
            (x2, y2, z2) == v[2],
            fx0 == 2 * x0,
            fy0 == 2 * y0,
            fx1 == 2 * x1,
            fy1 == 2 * y1,
            fx2 == 2 * x2,
            fy2 == 2 * y2,
            buf@ == color_begun(
                buf0,
                depth0,
                w as int,
                v,
                color,
                Scan {
                    min_x: min_x as int,
                    max_x: max_x as int,
                    min_y: min_y as int,
                    x: min_x as int,
                    y: y as int,
                },
            ),
            depth@ == depth_begun(
                depth0,
                w as int,
                v,
                Scan {
                    min_x: min_x as int,
                    max_x: max_x as int,
                    min_y: min_y as int,
                    x: min_x as int,
                    y: y as int,
                },
            ),
        decreases max_y + 1 - y,
    {
        let py: i64 = 2 * y + 1;
        let mut x: i64 = min_x as i64;
        while x <= max_x as i64
            invariant
                min_x <= x,
                x <= max_x + 1 || max_x < min_x,
                min_y <= y <= max_y,
                py == 2 * y + 1,
                0 <= min_x,
                0 <= min_y,
                max_x < w,
                max_y < h,
                c == fine_corners(v),
                c.area() == area,
                area != 0,
                span == magnitude(area as int),
                buf0.len() == w * h,
                depth0.len() == w * h,
                w * h <= usize::MAX,
                (x0, y0, z0) == v[0],
                (x1, y1, z1) == v[1],
                (x2, y2, z2) == v[2],
                fx0 == 2 * x0,
                fy0 == 2 * y0,
                fx1 == 2 * x1,
                fy1 == 2 * y1,
                fx2 == 2 * x2,
                fy2 == 2 * y2,
                buf@ == color_begun(
                    buf0,
                    depth0,
                    w as int,
                    v,
                    color,
                    Scan {
                        min_x: min_x as int,
                        max_x: max_x as int,
                        min_y: min_y as int,
                        x: x as int,
                        y: y as int,
                    },
                ),
                depth@ == depth_begun(
                    depth0,
                    w as int,
                    v,
                    Scan {
                        min_x: min_x as int,
                        max_x: max_x as int,
                        min_y: min_y as int,
                        x: x as int,
                        y: y as int,
                    },
                ),
            decreases max_x + 1 - x,
        {
            let px: i64 = 2 * x + 1;
            let w0: i128 = edge_fine(fx1, fy1, fx2, fy2, px, py);
            let w1: i128 = edge_fine(fx2, fy2, fx0, fy0, px, py);
            let w2: i128 = edge_fine(fx0, fy0, fx1, fy1, px, py);
            proof {
                lemma_index(w as int, h as int, x as int, y as int);
            }
            let idx: usize = y as usize * w + x as usize;
            if (w0 >= 0 && w1 >= 0 && w2 >= 0) || (w0 <= 0 && w1 <= 0 && w2 <= 0) {
                let m0: i128 = if w0 < 0 { -w0 } else { w0 };
                let m1: i128 = if w1 < 0 { -w1 } else { w1 };
                let m2: i128 = if w2 < 0 { -w2 } else { w2 };
                proof {
                    lemma_product_bound(m0 as int, z0 as int, 0x8_0000_0000_0000_0000, 0x1_0000_0000);
                    lemma_product_bound(m1 as int, z1 as int, 0x8_0000_0000_0000_0000, 0x1_0000_0000);
                    lemma_product_bound(m2 as int, z2 as int, 0x8_0000_0000_0000_0000, 0x1_0000_0000);
                    lemma_depth_between(v, x as int, y as int);
                }
                let z: i128 = (m0 * (z0 as i128) + m1 * (z1 as i128) + m2 * (z2 as i128)) / span;
                assert(z == depth_at(v, x as int, y as int));
                if z < depth[idx] as i128 {
                    depth[idx] = z as u32;
                    put_pixel(buf, w, h, x as i32, y as i32, color);
                }
            }
            proof {
                let next = Scan {
                    min_x: min_x as int,
                    max_x: max_x as int,
                    min_y: min_y as int,
                    x: x + 1,
                    y: y as int,
                };
                assert forall|i: int| 0 <= i < buf0.len() implies buf@[i] == color_begun(
                    buf0,
                    depth0,
                    w as int,
                    v,
                    color,
                    next,
                )[i] && depth@[i] == depth_begun(depth0, w as int, v, next)[i] by {
                    lemma_cell(w as int, h as int, i);
                }
                assert(buf@ =~= color_begun(buf0, depth0, w as int, v, color, next));
                assert(depth@ =~= depth_begun(depth0, w as int, v, next));
            }
            x = x + 1;
        }
        proof {
            // the end of one row is the start of the next
            let end = Scan {
                min_x: min_x as int,
                max_x: max_x as int,
                min_y: min_y as int,
                x: x as int,
                y: y as int,
            };
            let start = Scan {
                min_x: min_x as int,
                max_x: max_x as int,
                min_y: min_y as int,
                x: min_x as int,
                y: y + 1,
            };
            assert(color_begun(buf0, depth0, w as int, v, color, end) =~= color_begun(
                buf0,
                depth0,
                w as int,
                v,
                color,
                start,
            ));
            assert(depth_begun(depth0, w as int, v, end) =~= depth_begun(
                depth0,
                w as int,
                v,
                start,
            ));
        }
        y = y + 1;
    }
    proof {
        // the triangle lies in its bounding box, so the scan has passed
        // every pixel of the grid whose centre lies in the triangle
        assert forall|i: int| 0 <= i < buf0.len() implies buf@[i] == color_after(
            buf0,
            depth0,
            w as int,
            v,
            color,
        )[i] && depth@[i] == depth_after(depth0, w as int, v)[i] by {
            lemma_cell(w as int, h as int, i);
            let px = col(w as int, i);
            let py = row(w as int, i);
            if covers(v, px, py) {
                c.lemma_contained_in_box(2 * px + 1, 2 * py + 1);
            }
        }
        assert(buf@ =~= color_after(buf0, depth0, w as int, v, color));
        assert(depth@ =~= depth_after(depth0, w as int, v));
    }
}

} // verus!
