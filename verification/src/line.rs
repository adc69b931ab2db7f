//! The pixels of a straight line between two pixel positions.

use vstd::prelude::*;

verus! {

/// A line from `(x0, y0)` to `(x1, y1)`.
pub struct Segment {
    pub x0: int,
    pub y0: int,
    pub x1: int,
    pub y1: int,
}

impl Segment {
    /// The extent of the line along x.
    pub open spec fn dx(self) -> int {
        if self.x0 < self.x1 {
            self.x1 - self.x0
        } else {
            self.x0 - self.x1
        }
    }

    /// The extent of the line along y.
    pub open spec fn dy(self) -> int {
        if self.y0 < self.y1 {
            self.y1 - self.y0
        } else {
            self.y0 - self.y1
        }
    }

    /// How many steps `x` lies from the start, counted towards the end.
    pub open spec fn along_x(self, x: int) -> int {
        if self.x0 < self.x1 {
            x - self.x0
        } else {
            self.x0 - x
        }
    }

    /// How many steps `y` lies from the start, counted towards the end.
    pub open spec fn along_y(self, y: int) -> int {
        if self.y0 < self.y1 {
            y - self.y0
        } else {
            self.y0 - y
        }
    }

    /// How far `(x, y)` is off the ideal line, as the cross product of its
    /// offset from the start with the extent of the line, doubled: positive
    /// where the point is ahead along y, negative where it is ahead along x.
    pub open spec fn deviation(self, x: int, y: int) -> int {
        2 * (self.dx() * self.along_y(y) - self.dy() * self.along_x(x))
    }

    /// Whether `(x, y)` is a pixel of the line.
    ///
    /// The line has one pixel for each step along its longer extent, from
    /// the start to the end: the one nearest to the ideal line and, of two
    /// equally near, the one farther along the shorter extent.
    pub open spec fn has(self, x: int, y: int) -> bool {
        let dev = self.deviation(x, y);
        &&& 0 <= self.along_x(x) <= self.dx()
        &&& 0 <= self.along_y(y) <= self.dy()
        &&& if self.dx() >= self.dy() {
            -self.dx() < dev <= self.dx() || self.dx() == 0
        } else {
            -self.dy() <= dev < self.dy()
        }
    }

    /// The step count of `(x, y)` along the longer extent of the line.
    pub open spec fn progress(self, x: int, y: int) -> int {
        if self.dx() >= self.dy() {
            self.along_x(x)
        } else {
            self.along_y(y)
        }
    }

    /// Both ends are pixels of the line.
    pub proof fn lemma_has_ends(self)
        ensures
            self.has(self.x0, self.y0),
            self.has(self.x1, self.y1),
    {
        let dx = self.dx();
        let dy = self.dy();
        assert(dx * 0 - dy * 0 == 0) by (nonlinear_arith);
        assert(dx * dy - dy * dx == 0) by (nonlinear_arith);
    }

    /// The line has no two pixels at the same step along its longer extent.
    pub proof fn lemma_one_pixel_per_step(self, xa: int, ya: int, xb: int, yb: int)
        requires
            self.has(xa, ya),
            self.has(xb, yb),
            self.progress(xa, ya) == self.progress(xb, yb),
        ensures
            xa == xb,
            ya == yb,
    {
        let dx = self.dx();
        let dy = self.dy();
        let ia = self.along_x(xa);
        let ja = self.along_y(ya);
        let ib = self.along_x(xb);
        let jb = self.along_y(yb);
        if dx >= dy {
            assert(ja == jb) by (nonlinear_arith)
                requires
                    ia == ib,
                    0 <= ja <= dy,
                    0 <= jb <= dy,
                    dy <= dx,
                    -dx < 2 * (dx * ja - dy * ia) <= dx || dx == 0,
                    -dx < 2 * (dx * jb - dy * ib) <= dx || dx == 0,
            {
                if dx > 0 {
                    assert(dx * ja - dx * jb == dx * (ja - jb));
                    if ja > jb {
                        assert(dx * (ja - jb) >= dx);
                    }
                    if ja < jb {
                        assert(dx * (ja - jb) <= -dx);
                    }
                }
            }
        } else {
            assert(ia == ib) by (nonlinear_arith)
                requires
                    ja == jb,
                    0 < dy,
                    -dy <= 2 * (dx * ja - dy * ia) < dy,
                    -dy <= 2 * (dx * jb - dy * ib) < dy,
            {
                assert(dy * ia - dy * ib == dy * (ia - ib));
                if ia > ib {
                    assert(dy * (ia - ib) >= dy);
                }
                if ia < ib {
                    assert(dy * (ia - ib) <= -dy);
                }
            }
        }
    }

    /// One step of the line: from a pixel of the line that is not its end,
    /// the sign of the error term `deviation + 2 dx - 2 dy` against `-dy`
    /// and `dx` tells the steps along x and y that lead to the next pixel
    /// of the line, one step farther along the longer extent.
    pub proof fn lemma_step(self, x: int, y: int)
        requires
            self.has(x, y),
            x != self.x1 || y != self.y1,
        ensures
            ({
                let e2 = self.deviation(x, y) + 2 * self.dx() - 2 * self.dy();
                let sx: int = if self.x0 < self.x1 { 1 } else { -1 };
                let sy: int = if self.y0 < self.y1 { 1 } else { -1 };
                let x2 = if e2 >= -self.dy() { x + sx } else { x };
                let y2 = if e2 <= self.dx() { y + sy } else { y };
                &&& self.has(x2, y2)
                &&& self.progress(x2, y2) == self.progress(x, y) + 1
                &&& self.deviation(x2, y2) == self.deviation(x, y) + (if e2 <= self.dx() {
                    2 * self.dx()
                } else {
                    0
                }) - (if e2 >= -self.dy() { 2 * self.dy() } else { 0 })
            }),
    {
        let ex = self.dx();
        let ey = self.dy();
        let i = self.along_x(x);
        let j = self.along_y(y);
        let d = ex * j - ey * i;
        assert(ex * (j + 1) - ey * i == d + ex) by (nonlinear_arith)
            requires
                d == ex * j - ey * i,
        ;
        assert(ex * j - ey * (i + 1) == d - ey) by (nonlinear_arith)
            requires
                d == ex * j - ey * i,
        ;
        assert(ex * (j + 1) - ey * (i + 1) == d + ex - ey) by (nonlinear_arith)
            requires
                d == ex * j - ey * i,
        ;
        if i == ex {
            assert(d <= -ex && (ex == 0 ==> d == 0)) by (nonlinear_arith)
                requires
                    d == ex * j - ey * i,
                    i == ex,
                    0 <= j < ey,
                    0 <= ex,
            {
                assert(ex * j - ey * ex == ex * (j - ey));
                assert(ex * (j - ey) <= ex * (-1));
            }
        }
        if j == ey {
            assert(d >= ey) by (nonlinear_arith)
                requires
                    d == ex * j - ey * i,
                    j == ey,
                    0 <= i < ex,
                    0 <= ey,
            {
                assert(ex * ey - ey * i == ey * (ex - i));
                assert(ey * (ex - i) >= ey * 1);
            }
        }
    }
}

} // verus!
