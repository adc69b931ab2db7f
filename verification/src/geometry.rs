//! The edge function of a triangle and the closed inside test built on it,
//! over mathematical integers.

use vstd::prelude::*;

verus! {

/// The edge function of the directed segment from `a` to `b`, taken at `p`:
/// positive on one side of the line, negative on the other, zero on the line.
pub open spec fn edge_value(ax: int, ay: int, bx: int, by: int, px: int, py: int) -> int {
    (px - ax) * (by - ay) - (py - ay) * (bx - ax)
}

/// Three corners of a triangle.
pub struct Corners {
    pub x0: int,
    pub y0: int,
    pub x1: int,
    pub y1: int,
    pub x2: int,
    pub y2: int,
}

impl Corners {
    /// Twice the signed area: the edge function of the first edge at the third corner.
    pub open spec fn area(self) -> int {
        edge_value(self.x0, self.y0, self.x1, self.y1, self.x2, self.y2)
    }

    /// The edge value that weighs the first corner.
    pub open spec fn w0(self, px: int, py: int) -> int {
        edge_value(self.x1, self.y1, self.x2, self.y2, px, py)
    }

    /// The edge value that weighs the second corner.
    pub open spec fn w1(self, px: int, py: int) -> int {
        edge_value(self.x2, self.y2, self.x0, self.y0, px, py)
    }

    /// The edge value that weighs the third corner.
    pub open spec fn w2(self, px: int, py: int) -> int {
        edge_value(self.x0, self.y0, self.x1, self.y1, px, py)
    }

    /// The three edge values at `p` do not disagree in sign.
    pub open spec fn same_side(self, px: int, py: int) -> bool {
        ||| (self.w0(px, py) >= 0 && self.w1(px, py) >= 0 && self.w2(px, py) >= 0)
        ||| (self.w0(px, py) <= 0 && self.w1(px, py) <= 0 && self.w2(px, py) <= 0)
    }

    /// `p` lies in the closed triangle, whatever its winding; a triangle of
    /// zero area contains nothing.
    pub open spec fn contains(self, px: int, py: int) -> bool {
        self.area() != 0 && self.same_side(px, py)
    }

    /// The least x of the corners.
    pub open spec fn min_x(self) -> int {
        min3(self.x0, self.x1, self.x2)
    }

    /// The greatest x of the corners.
    pub open spec fn max_x(self) -> int {
        max3(self.x0, self.x1, self.x2)
    }

    /// The least y of the corners.
    pub open spec fn min_y(self) -> int {
        min3(self.y0, self.y1, self.y2)
    }

    /// The greatest y of the corners.
    pub open spec fn max_y(self) -> int {
        max3(self.y0, self.y1, self.y2)
    }

    /// The three edge values at any point add up to the area term.
    pub proof fn lemma_weights_sum(self, px: int, py: int)
        ensures
            self.w0(px, py) + self.w1(px, py) + self.w2(px, py) == self.area(),
    {
        let Corners { x0, y0, x1, y1, x2, y2 } = self;
        lemma_edge_about(x1, y1, x2, y2, px, py);
        lemma_edge_about(x2, y2, x0, y0, px, py);
        lemma_edge_about(x0, y0, x1, y1, px, py);
        lemma_area_about(x0, y0, x1, y1, x2, y2, px, py);
    }

    /// The edge values are barycentric weights: weighing the corners by them
    /// gives the point itself, scaled by the area term.
    pub proof fn lemma_weighted_corners(self, px: int, py: int)
        ensures
            self.w0(px, py) * self.x0 + self.w1(px, py) * self.x1 + self.w2(px, py) * self.x2
                == self.area() * px,
            self.w0(px, py) * self.y0 + self.w1(px, py) * self.y1 + self.w2(px, py) * self.y2
                == self.area() * py,
    {
        let Corners { x0, y0, x1, y1, x2, y2 } = self;
        self.lemma_weights_sum(px, py);
        lemma_edge_about(x1, y1, x2, y2, px, py);
        lemma_edge_about(x2, y2, x0, y0, px, py);
        lemma_edge_about(x0, y0, x1, y1, px, py);
        lemma_moments_vanish(x0 - px, y0 - py, x1 - px, y1 - py, x2 - px, y2 - py);
        lemma_shifted_sum(self.w0(px, py), self.w1(px, py), self.w2(px, py), x0, x1, x2, px);
        lemma_shifted_sum(self.w0(px, py), self.w1(px, py), self.w2(px, py), y0, y1, y2, py);
    }

    /// The same triangle with its second and third corner exchanged: the
    /// other winding.
    pub open spec fn reversed(self) -> Corners {
        Corners {
            x0: self.x0,
            y0: self.y0,
            x1: self.x2,
            y1: self.y2,
            x2: self.x1,
            y2: self.y1,
        }
    }

    /// Reversing the winding negates the area term and every edge value,
    /// and exchanges the second weight with the third.
    pub proof fn lemma_reversed(self, px: int, py: int)
        ensures
            self.reversed().area() == -self.area(),
            self.reversed().w0(px, py) == -self.w0(px, py),
            self.reversed().w1(px, py) == -self.w2(px, py),
            self.reversed().w2(px, py) == -self.w1(px, py),
            self.reversed().contains(px, py) == self.contains(px, py),
    {
        let Corners { x0, y0, x1, y1, x2, y2 } = self;
        lemma_edge_about(x1, y1, x2, y2, px, py);
        lemma_edge_about(x2, y2, x1, y1, px, py);
        lemma_edge_about(x2, y2, x0, y0, px, py);
        lemma_edge_about(x0, y0, x2, y2, px, py);
        lemma_edge_about(x0, y0, x1, y1, px, py);
        lemma_edge_about(x1, y1, x0, y0, px, py);
        self.lemma_weights_sum(px, py);
        self.reversed().lemma_weights_sum(px, py);
    }

    /// A point of the triangle lies in the bounding box of its corners.
    pub proof fn lemma_contained_in_box(self, px: int, py: int)
        requires
            self.contains(px, py),
        ensures
            self.min_x() <= px <= self.max_x(),
            self.min_y() <= py <= self.max_y(),
    {
        self.lemma_weights_sum(px, py);
        self.lemma_weighted_corners(px, py);
        let a = self.area();
        let w0 = self.w0(px, py);
        let w1 = self.w1(px, py);
        let w2 = self.w2(px, py);
        lemma_convex_bound(a, w0, w1, w2, self.x0, self.x1, self.x2, px);
        lemma_convex_bound(a, w0, w1, w2, self.y0, self.y1, self.y2, py);
    }
}

/// The edge function written over the offsets of `a` and `b` from `p`.
proof fn lemma_edge_about(ax: int, ay: int, bx: int, by: int, px: int, py: int)
    ensures
        edge_value(ax, ay, bx, by, px, py) == (bx - px) * (ay - py) - (ax - px) * (by - py),
{
    let ua = ax - px;
    let va = ay - py;
    let ub = bx - px;
    let vb = by - py;
    assert((0 - ua) * (vb - va) - (0 - va) * (ub - ua) == ub * va - ua * vb) by (nonlinear_arith);
    assert(px - ax == 0 - ua);
    assert(py - ay == 0 - va);
    assert(by - ay == vb - va);
    assert(bx - ax == ub - ua);
}

/// The area term is the sum of the three edge values at any point `p`,
/// each written over the offsets of the corners from `p`.
proof fn lemma_area_about(x0: int, y0: int, x1: int, y1: int, x2: int, y2: int, px: int, py: int)
    ensures
        edge_value(x0, y0, x1, y1, x2, y2) == ((x2 - px) * (y1 - py) - (x1 - px) * (y2 - py)) + ((x0
            - px) * (y2 - py) - (x2 - px) * (y0 - py)) + ((x1 - px) * (y0 - py) - (x0 - px) * (y1
            - py)),
{
    let u0 = x0 - px;
    let v0 = y0 - py;
    let u1 = x1 - px;
    let v1 = y1 - py;
    let u2 = x2 - px;
    let v2 = y2 - py;
    assert((u2 - u0) * (v1 - v0) - (v2 - v0) * (u1 - u0) == (u2 * v1 - u1 * v2) + (u0 * v2 - u2
        * v0) + (u1 * v0 - u0 * v1)) by (nonlinear_arith);
    assert(x2 - x0 == u2 - u0);
    assert(y1 - y0 == v1 - v0);
    assert(y2 - y0 == v2 - v0);
    assert(x1 - x0 == u1 - u0);
}

/// Weighed by the edge values, the offsets of the corners from the point cancel.
proof fn lemma_moments_vanish(u0: int, v0: int, u1: int, v1: int, u2: int, v2: int)
    ensures
        (u2 * v1 - u1 * v2) * u0 + (u0 * v2 - u2 * v0) * u1 + (u1 * v0 - u0 * v1) * u2 == 0,
        (u2 * v1 - u1 * v2) * v0 + (u0 * v2 - u2 * v0) * v1 + (u1 * v0 - u0 * v1) * v2 == 0,
{
    assert((u2 * v1 - u1 * v2) * u0 + (u0 * v2 - u2 * v0) * u1 + (u1 * v0 - u0 * v1) * u2 == 0)
        by (nonlinear_arith);
    assert((u2 * v1 - u1 * v2) * v0 + (u0 * v2 - u2 * v0) * v1 + (u1 * v0 - u0 * v1) * v2 == 0)
        by (nonlinear_arith);
}

/// If the weighted offsets from `p` cancel, the weighted values give `p` times the sum of the weights.
proof fn lemma_shifted_sum(w0: int, w1: int, w2: int, v0: int, v1: int, v2: int, p: int)
    requires
        w0 * (v0 - p) + w1 * (v1 - p) + w2 * (v2 - p) == 0,
    ensures
        w0 * v0 + w1 * v1 + w2 * v2 == (w0 + w1 + w2) * p,
{
    assert(w0 * v0 + w1 * v1 + w2 * v2 == (w0 + w1 + w2) * p) by (nonlinear_arith)
        requires
            w0 * (v0 - p) + w1 * (v1 - p) + w2 * (v2 - p) == 0,
    ;
}

/// A product of two factors of bounded size is bounded by the product of the bounds.
pub proof fn lemma_product_bound(a: int, b: int, ma: int, mb: int)
    requires
        -ma <= a <= ma,
        -mb <= b <= mb,
    ensures
        -(ma * mb) <= a * b <= ma * mb,
{
    assert(-(ma * mb) <= a * b <= ma * mb) by (nonlinear_arith)
        requires
            -ma <= a <= ma,
            -mb <= b <= mb,
    {
        assert((ma - a) * (mb - b) >= 0);
        assert((ma + a) * (mb + b) >= 0);
        assert((ma - a) * (mb + b) >= 0);
        assert((ma + a) * (mb - b) >= 0);
    }
}

/// The least of three numbers.
pub open spec fn min3(a: int, b: int, c: int) -> int {
    if a <= b && a <= c {
        a
    } else if b <= c {
        b
    } else {
        c
    }
}

/// The greatest of three numbers.
pub open spec fn max3(a: int, b: int, c: int) -> int {
    if a >= b && a >= c {
        a
    } else if b >= c {
        b
    } else {
        c
    }
}

/// A combination of three values with weights of one sign, divided by the
/// sum of the weights, lies between the least and the greatest of them.
pub proof fn lemma_convex_bound(a: int, w0: int, w1: int, w2: int, v0: int, v1: int, v2: int, p: int)
    requires
        a != 0,
        w0 + w1 + w2 == a,
        (w0 >= 0 && w1 >= 0 && w2 >= 0) || (w0 <= 0 && w1 <= 0 && w2 <= 0),
        w0 * v0 + w1 * v1 + w2 * v2 == a * p,
    ensures
        min3(v0, v1, v2) <= p <= max3(v0, v1, v2),
{
    let lo = min3(v0, v1, v2);
    let hi = max3(v0, v1, v2);
    assert(lo <= p <= hi) by (nonlinear_arith)
        requires
            a != 0,
            w0 + w1 + w2 == a,
            (w0 >= 0 && w1 >= 0 && w2 >= 0) || (w0 <= 0 && w1 <= 0 && w2 <= 0),
            w0 * v0 + w1 * v1 + w2 * v2 == a * p,
            lo <= v0 <= hi,
            lo <= v1 <= hi,
            lo <= v2 <= hi,
    {
        if w0 >= 0 && w1 >= 0 && w2 >= 0 {
            assert(w0 * lo <= w0 * v0 <= w0 * hi);
            assert(w1 * lo <= w1 * v1 <= w1 * hi);
            assert(w2 * lo <= w2 * v2 <= w2 * hi);
            assert(w0 * lo + w1 * lo + w2 * lo == a * lo);
            assert(w0 * hi + w1 * hi + w2 * hi == a * hi);
            assert(a * lo <= a * p <= a * hi);
            assert(a > 0);
        } else {
            assert(w0 * lo >= w0 * v0 >= w0 * hi);
            assert(w1 * lo >= w1 * v1 >= w1 * hi);
            assert(w2 * lo >= w2 * v2 >= w2 * hi);
            assert(w0 * lo + w1 * lo + w2 * lo == a * lo);
            assert(w0 * hi + w1 * hi + w2 * hi == a * hi);
            assert(a * lo >= a * p >= a * hi);
            assert(a < 0);
        }
    }
}

} // verus!
