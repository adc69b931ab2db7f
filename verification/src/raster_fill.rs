//! Flat filling of a triangle given by three integer pixel positions.

use vstd::prelude::*;
use crate::geometry::{edge_value, lemma_product_bound, Corners};
use crate::grid::{col, lemma_cell, lemma_index, row};
use crate::raster::put_pixel;
use crate::scan::{clipped_span, Scan};

verus! {

/// The edge function of the segment from `a` to `b` at `p`, computed exactly.
pub fn edge(ax: i32, ay: i32, bx: i32, by: i32, px: i32, py: i32) -> (e: i128)
    ensures
        e == edge_value(ax as int, ay as int, bx as int, by as int, px as int, py as int),
{
    let pax: i128 = px as i128 - ax as i128;
    let bay: i128 = by as i128 - ay as i128;
    let pay: i128 = py as i128 - ay as i128;
    let bax: i128 = bx as i128 - ax as i128;
    proof {
        lemma_product_bound(pax as int, bay as int, 0x1_0000_0000, 0x1_0000_0000);
        lemma_product_bound(pay as int, bax as int, 0x1_0000_0000, 0x1_0000_0000);
    }
    pax * bay - pay * bax
}

/// The corners of a triangle of pixel positions.
pub open spec fn corners(t: [(i32, i32); 3]) -> Corners {
    Corners {
        x0: t[0].0 as int,
        y0: t[0].1 as int,
        x1: t[1].0 as int,
        y1: t[1].1 as int,
        x2: t[2].0 as int,
        y2: t[2].1 as int,
    }
}

/// The buffer after the triangle was filled: every pixel of the grid that
/// lies in the closed triangle holds `color`, every other is as before.
pub open spec fn filled(buf: Seq<u32>, w: int, t: [(i32, i32); 3], color: u32) -> Seq<u32> {
    Seq::new(
        buf.len(),
        |i: int|
            if corners(t).contains(col(w, i), row(w, i)) {
                color
            } else {
                buf[i]
            },
    )
}

/// The buffer while the triangle is filled: of the pixels in the closed
/// triangle, those hold `color` that the scan has passed.
spec fn fill_begun(buf: Seq<u32>, w: int, c: Corners, color: u32, s: Scan) -> Seq<u32> {
    Seq::new(
        buf.len(),
        |i: int|
            if s.passed(col(w, i), row(w, i)) && c.contains(col(w, i), row(w, i)) {
                color
            } else {
                buf[i]
            },
    )
}

/// Fills the triangle `t` with `color`, whatever its winding. A pixel is
/// painted when the edge functions at its position do not disagree in sign;
/// a triangle of zero area paints nothing.
pub fn tri_fill(buf: &mut [u32], w: usize, h: usize, t: [(i32, i32); 3], color: u32)
    requires
        old(buf).len() == w * h,
    ensures
        final(buf)@ == filled(old(buf)@, w as int, t, color),
{
    let ghost before = buf@;
    let ghost c = corners(t);
    if w == 0 || h == 0 {
        assert(w * h == 0) by (nonlinear_arith)
            requires
                w == 0 || h == 0,
        ;
        assert(buf@ =~= filled(before, w as int, t, color));
        return ;
    }
    let (x0, y0) = t[0];
    let (x1, y1) = t[1];
    let (x2, y2) = t[2];

    let (min_x, max_x) = clipped_span(x0, x1, x2, w);
    let (min_y, max_y) = clipped_span(y0, y1, y2, h);

    let area: i128 = edge(x0, y0, x1, y1, x2, y2);
    if area == 0 {
        assert(buf@ =~= filled(before, w as int, t, color));
        return ;
    }
    let mut y: i64 = min_y as i64;
    assert(buf@ =~= fill_begun(
        before,
        w as int,
        c,
        color,
        Scan { min_x: min_x as int, max_x: max_x as int, min_y: min_y as int, x: min_x as int, y: y as int },
    ));
    while y <= max_y as i64
        invariant
            min_y <= y,
            y <= max_y + 1 || max_y < min_y,
            0 <= min_x,
            0 <= min_y,
            max_x < w,
            max_y < h,
            c == corners(t),
            c.area() != 0,
            before.len() == w * h,
            (x0, y0) == t[0],
            (x1, y1) == t[1],
            (x2, y2) == t[2],
            buf@ == fill_begun(
                before,
                w as int,
                c,
                color,
                Scan {
                    min_x: min_x as int,
                    max_x: max_x as int,
                    min_y: min_y as int,
                    x: min_x as int,
                    y: y as int,
                },
            ),
        decreases max_y + 1 - y,
    {
        let mut x: i64 = min_x as i64;
        while x <= max_x as i64
            invariant
                min_x <= x,
                x <= max_x + 1 || max_x < min_x,
                min_y <= y <= max_y,
                0 <= min_x,
                0 <= min_y,
                max_x < w,
                max_y < h,
                c == corners(t),
                c.area() != 0,
                before.len() == w * h,
                (x0, y0) == t[0],
                (x1, y1) == t[1],
                (x2, y2) == t[2],
                buf@ == fill_begun(
                    before,
                    w as int,
                    c,
                    color,
                    Scan {
                        min_x: min_x as int,
                        max_x: max_x as int,
                        min_y: min_y as int,
                        x: x as int,
                        y: y as int,
                    },
                ),
            decreases max_x + 1 - x,
        {
            let w0: i128 = edge(x1, y1, x2, y2, x as i32, y as i32);
            let w1: i128 = edge(x2, y2, x0, y0, x as i32, y as i32);
            let w2: i128 = edge(x0, y0, x1, y1, x as i32, y as i32);
            if (w0 >= 0 && w1 >= 0 && w2 >= 0) || (w0 <= 0 && w1 <= 0 && w2 <= 0) {
                put_pixel(buf, w, h, x as i32, y as i32, color);
            }
            proof {
                let next = Scan {
                    min_x: min_x as int,
                    max_x: max_x as int,
                    min_y: min_y as int,
                    x: x + 1,
                    y: y as int,
                };
                lemma_index(w as int, h as int, x as int, y as int);
                assert forall|i: int| 0 <= i < before.len() implies buf@[i] == fill_begun(
                    before,
                    w as int,
                    c,
                    color,
                    next,
                )[i] by {
                    lemma_cell(w as int, h as int, i);
                }
                assert(buf@ =~= fill_begun(before, w as int, c, color, next));
            }
            x = x + 1;
        }
        proof {
            // the end of one row is the start of the next
            assert(fill_begun(
                before,
                w as int,
                c,
                color,
                Scan {
                    min_x: min_x as int,
                    max_x: max_x as int,
                    min_y: min_y as int,
                    x: x as int,
                    y: y as int,
                },
            ) =~= fill_begun(
                before,
                w as int,
                c,
                color,
                Scan {
                    min_x: min_x as int,
                    max_x: max_x as int,
                    min_y: min_y as int,
                    x: min_x as int,
                    y: y + 1,
                },
            ));
        }
        y = y + 1;
    }
    proof {
        // the triangle lies in its bounding box, so the scan has passed
        // every pixel of the grid that lies in the triangle
        assert forall|i: int| 0 <= i < before.len() implies buf@[i] == filled(
            before,
            w as int,
            t,
            color,
        )[i] by {
            lemma_cell(w as int, h as int, i);
            let px = col(w as int, i);
            let py = row(w as int, i);
            if c.contains(px, py) {
                c.lemma_contained_in_box(px, py);
            }
        }
        assert(buf@ =~= filled(before, w as int, t, color));
    }
}

} // verus!
