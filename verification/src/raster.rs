//! Packed colours, single-pixel writes and lines.

use vstd::prelude::*;
use crate::grid::{col, in_grid, lemma_cell, lemma_index, row};
use crate::line::Segment;

verus! {

/// The packed value of an opaque colour: alpha `0xFF` in the top byte, then
/// red, green and blue.
pub open spec fn rgb_value(r: u8, g: u8, b: u8) -> int {
    0xFF00_0000 + r * 0x1_0000 + g * 0x100 + b
}

/// Packs three channels into one opaque `0xAARRGGBB` pixel.
pub fn rgb(r: u8, g: u8, b: u8) -> (c: u32)
    ensures
        c == rgb_value(r, g, b),
{
    assert((0xFFu32 << 24) | ((r as u32) << 16) | ((g as u32) << 8) | (b as u32)
        == 0xFF00_0000u32 + (r as u32) * 0x1_0000u32 + (g as u32) * 0x100u32 + (b as u32))
        by (bit_vector);
    (0xFFu32 << 24) | ((r as u32) << 16) | ((g as u32) << 8) | (b as u32)
}

/// Writes `color` at `(x, y)`; a position outside the grid is ignored.
pub fn put_pixel(buf: &mut [u32], w: usize, h: usize, x: i32, y: i32, color: u32)
    requires
        old(buf).len() == w * h,
    ensures
        final(buf)@ == if in_grid(w as int, h as int, x as int, y as int) {
            old(buf)@.update(y * w + x, color)
        } else {
            old(buf)@
        },
        final(buf)@.len() == old(buf)@.len(),
{
    if x >= 0 && y >= 0 && (x as usize) < w && (y as usize) < h {
        assert(0 <= y * w && y * w + x < w * h) by (nonlinear_arith)
            requires
                0 <= x < w,
                0 <= y < h,
        ;
        buf[y as usize * w + x as usize] = color;
    }
}

/// The line between two pixel positions.
pub open spec fn segment(x0: i32, y0: i32, x1: i32, y1: i32) -> Segment {
    Segment { x0: x0 as int, y0: y0 as int, x1: x1 as int, y1: y1 as int }
}

/// The buffer after the line was drawn: every pixel of the grid that is a
/// pixel of the line holds `color`, every other is as before.
pub open spec fn line_drawn(buf: Seq<u32>, w: int, s: Segment, color: u32) -> Seq<u32> {
    Seq::new(
        buf.len(),
        |i: int|
            if s.has(col(w, i), row(w, i)) {
                color
            } else {
                buf[i]
            },
    )
}

/// The buffer while the line is drawn: of the pixels of the line, those
/// hold `color` that lie fewer than `done` steps along it.
spec fn line_begun(buf: Seq<u32>, w: int, s: Segment, color: u32, done: int) -> Seq<u32> {
    Seq::new(
        buf.len(),
        |i: int|
            if s.has(col(w, i), row(w, i)) && s.progress(col(w, i), row(w, i)) < done {
                color
            } else {
                buf[i]
            },
    )
}

/// Draws the line from `(x0, y0)` to `(x1, y1)`, both ends included, by
/// stepping along it with an integer error term. Pixels outside the grid are
/// skipped.
pub fn line(buf: &mut [u32], w: usize, h: usize, x0: i32, y0: i32, x1: i32, y1: i32, color: u32)
    requires
        old(buf).len() == w * h,
    ensures
        final(buf)@ == line_drawn(old(buf)@, w as int, segment(x0, y0, x1, y1), color),
{
    let ghost before = buf@;
    let ghost s = segment(x0, y0, x1, y1);
    let dx: i64 = if x0 < x1 { x1 as i64 - x0 as i64 } else { x0 as i64 - x1 as i64 };
    let sx: i64 = if x0 < x1 { 1 } else { -1 };
    let dy: i64 = if y0 < y1 { y0 as i64 - y1 as i64 } else { y1 as i64 - y0 as i64 };
    let sy: i64 = if y0 < y1 { 1 } else { -1 };
    let mut err: i64 = dx + dy;
    let mut x: i64 = x0 as i64;
    let mut y: i64 = y0 as i64;
    proof {
        s.lemma_has_ends();
        assert(s.dx() * 0 - s.dy() * 0 == 0) by (nonlinear_arith);
        assert(buf@ =~= line_begun(before, w as int, s, color, 0));
    }
    loop
        invariant_except_break
            buf@ == line_begun(before, w as int, s, color, s.progress(x as int, y as int)),
        invariant
            before.len() == w * h,
            buf@.len() == before.len(),
            s == segment(x0, y0, x1, y1),
            dx == s.dx(),
            dy == -s.dy(),
            sx == if x0 < x1 { 1int } else { -1int },
            sy == if y0 < y1 { 1int } else { -1int },
            s.has(x as int, y as int),
            2 * err == s.deviation(x as int, y as int) + 2 * s.dx() - 2 * s.dy(),
        ensures
            buf@ == line_drawn(before, w as int, s, color),
        decreases s.dx() + s.dy() - s.along_x(x as int) - s.along_y(y as int),
    {
        let ghost done = s.progress(x as int, y as int);
        put_pixel(buf, w, h, x as i32, y as i32, color);
        proof {
            // the pixel just drawn is the only pixel of the line at this step
            assert forall|i: int| 0 <= i < before.len() implies buf@[i] == line_begun(
                before,
                w as int,
                s,
                color,
                done + 1,
            )[i] by {
                let px = col(w as int, i);
                let py = row(w as int, i);
                assert(w > 0) by (nonlinear_arith)
                    requires
                        0 <= i < w * h,
                ;
                lemma_cell(w as int, h as int, i);
                if in_grid(w as int, h as int, x as int, y as int) {
                    lemma_index(w as int, h as int, x as int, y as int);
                }
                if s.has(px, py) && s.progress(px, py) == done {
                    s.lemma_one_pixel_per_step(px, py, x as int, y as int);
                }
            }
            assert(buf@ =~= line_begun(before, w as int, s, color, done + 1));
        }
        if x == x1 as i64 && y == y1 as i64 {
            proof {
                assert(buf@ =~= line_drawn(before, w as int, s, color));
            }
            break ;
        }
        let e2: i64 = err * 2;
        proof {
            s.lemma_step(x as int, y as int);
        }
        if e2 >= dy {
            err = err + dy;
            x = x + sx;
        }
        if e2 <= dx {
            err = err + dx;
            y = y + sy;
        }
    }
}

} // verus!
