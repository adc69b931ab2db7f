//! The scan over the bounding box of a triangle, clipped to the grid.

use vstd::prelude::*;
use crate::geometry::{max3, min3};

verus! {

/// The least of three coordinates, but not below 0, and the greatest of
/// them, but below `n`: the part of their span that lies on a grid of
/// `n` pixels. It is empty, the first above the second, where the span
/// misses the grid.
pub fn clipped_span(a: i32, b: i32, c: i32, n: usize) -> (r: (i32, i32))
    requires
        n > 0,
    ensures
        r.0 == if min3(a as int, b as int, c as int) > 0 {
            min3(a as int, b as int, c as int)
        } else {
            0
        },
        r.1 == if max3(a as int, b as int, c as int) < n - 1 {
            max3(a as int, b as int, c as int)
        } else {
            n - 1
        },
{
    let lo: i32 = if a <= b && a <= c {
        a
    } else if b <= c {
        b
    } else {
        c
    };
    let hi: i32 = if a >= b && a >= c {
        a
    } else if b >= c {
        b
    } else {
        c
    };
    let first: i32 = if lo > 0 { lo } else { 0 };
    let last: i32 = if n - 1 > 0x7FFF_FFFF || (hi as i64) < (n - 1) as i64 {
        hi
    } else {
        (n - 1) as i32
    };
    (first, last)
}

/// A scan of a box of pixels, row by row from the top and from the left in
/// each row, standing at `(x, y)`.
pub struct Scan {
    pub min_x: int,
    pub max_x: int,
    pub min_y: int,
    pub x: int,
    pub y: int,
}

impl Scan {
    /// The scan has passed the pixel `(px, py)` of the box.
    pub open spec fn passed(self, px: int, py: int) -> bool {
        self.min_x <= px <= self.max_x && ((self.min_y <= py < self.y) || (py == self.y && px
            < self.x))
    }
}

} // verus!
