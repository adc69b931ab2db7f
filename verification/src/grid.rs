//! The pixel grid: `w` by `h` pixels stored row by row from the top left,
//! pixel `(x, y)` at index `y * w + x`.

use vstd::prelude::*;

verus! {

/// Whether `(x, y)` names a pixel of a `w` by `h` grid.
pub open spec fn in_grid(w: int, h: int, x: int, y: int) -> bool {
    0 <= x < w && 0 <= y < h
}

/// The column of the pixel stored at index `i` of a row-major grid `w` wide.
pub open spec fn col(w: int, i: int) -> int {
    i % w
}

/// The row of the pixel stored at index `i` of a row-major grid `w` wide.
pub open spec fn row(w: int, i: int) -> int {
    i / w
}

/// Every index of the grid names one pixel of it.
pub proof fn lemma_cell(w: int, h: int, i: int)
    requires
        0 <= i < w * h,
        0 < w,
    ensures
        in_grid(w, h, col(w, i), row(w, i)),
        row(w, i) * w + col(w, i) == i,
{
    vstd::arithmetic::div_mod::lemma_fundamental_div_mod(i, w);
    vstd::arithmetic::div_mod::lemma_mod_bound(i, w);
    let q = i / w;
    let r = i % w;
    assert(w * q == q * w) by (nonlinear_arith);
    assert(0 <= q < h) by (nonlinear_arith)
        requires
            q * w + r == i,
            0 <= r < w,
            0 <= i < w * h,
    ;
}

/// Every pixel of the grid is stored at one index, from which it is found again.
pub proof fn lemma_index(w: int, h: int, x: int, y: int)
    requires
        in_grid(w, h, x, y),
    ensures
        0 <= y * w + x < w * h,
        col(w, y * w + x) == x,
        row(w, y * w + x) == y,
{
    assert(0 <= y * w && y * w + x < w * h) by (nonlinear_arith)
        requires
            0 <= x < w,
            0 <= y < h,
    ;
    vstd::arithmetic::div_mod::lemma_fundamental_div_mod_converse(y * w + x, w, y, x);
}

} // verus!
