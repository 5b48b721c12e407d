//! Geometry of a `width` x `height` torus whose cells are stored row-major
//! in one flat sequence: position `x + y * width`.

use vstd::prelude::*;
use vstd::arithmetic::div_mod::{
    lemma_fundamental_div_mod, lemma_fundamental_div_mod_converse, lemma_mod_bound,
};

verus! {

/// Linear position of the cell at column `x`, row `y`, each coordinate
/// taken modulo its dimension.
pub open spec fn wrap_pos(w: int, h: int, x: int, y: int) -> int {
    (x % w) + (y % h) * w
}

/// Column offset of neighbour `k`. The eight neighbours are numbered row
/// above (left, centre, right), same row (left, right), row below (left,
/// centre, right).
pub open spec fn offset_x(k: int) -> int {
    if k == 0 || k == 3 || k == 5 {
        -1
    } else if k == 1 || k == 6 {
        0
    } else {
        1
    }
}

/// Row offset of neighbour `k`, numbered as for `offset_x`.
pub open spec fn offset_y(k: int) -> int {
    if k < 3 {
        -1
    } else if k < 5 {
        0
    } else {
        1
    }
}

/// Linear position of neighbour `k` of the cell at linear position `p`.
pub open spec fn neighbour_pos(w: int, h: int, p: int, k: int) -> int {
    wrap_pos(w, h, p % w + offset_x(k), p / w + offset_y(k))
}

/// One step of `d` (-1, 0 or 1) from `a` on a cycle of length `n`.
pub proof fn lemma_step_mod(a: int, d: int, n: int)
    requires
        0 <= a < n,
        -1 <= d <= 1,
    ensures
        (a + d) % n == (if a + d < 0 {
            n - 1
        } else if a + d >= n {
            0
        } else {
            a + d
        }),
{
    if a + d < 0 {
        lemma_fundamental_div_mod_converse(a + d, n, -1, n - 1);
    } else if a + d >= n {
        lemma_fundamental_div_mod_converse(a + d, n, 1, 0);
    } else {
        lemma_fundamental_div_mod_converse(a + d, n, 0, a + d);
    }
}

/// Stepping by `d` from `a` lands on `b` exactly when stepping by `-d` from
/// `b` lands on `a`.
proof fn lemma_step_inverse(a: int, b: int, d: int, n: int)
    requires
        0 <= a < n,
        0 <= b < n,
        -1 <= d <= 1,
    ensures
        ((a + d) % n == b) <==> ((b - d) % n == a),
{
    lemma_step_mod(a, d, n);
    lemma_step_mod(b, -d, n);
}

/// The pair (column, row) of a linear position within the grid.
pub proof fn lemma_split_pos(w: int, h: int, p: int)
    requires
        w >= 1,
        h >= 1,
        0 <= p < w * h,
    ensures
        0 <= p % w < w,
        0 <= p / w < h,
        p == p % w + (p / w) * w,
{
    lemma_fundamental_div_mod(p, w);
    lemma_mod_bound(p, w);
    assert(p == p % w + (p / w) * w) by (nonlinear_arith)
        requires
            p == w * (p / w) + (p % w),
    ;
    assert(0 <= p / w < h) by (nonlinear_arith)
        requires
            p == w * (p / w) + (p % w),
            0 <= p % w < w,
            0 <= p < w * h,
            w >= 1,
    ;
}

/// A column and row within the grid give a position within the grid, and
/// that position gives them back.
pub proof fn lemma_join_pos(w: int, h: int, x: int, y: int)
    requires
        w >= 1,
        h >= 1,
        0 <= x < w,
        0 <= y < h,
    ensures
        0 <= x + y * w < w * h,
        (x + y * w) % w == x,
        (x + y * w) / w == y,
{
    lemma_fundamental_div_mod_converse(x + y * w, w, y, x);
    assert(0 <= x + y * w < w * h) by (nonlinear_arith)
        requires
            0 <= x < w,
            0 <= y < h,
    ;
}

/// Every wrapped position lies within the grid.
pub proof fn lemma_wrap_pos_bounds(w: int, h: int, x: int, y: int)
    requires
        w >= 1,
        h >= 1,
    ensures
        0 <= wrap_pos(w, h, x, y) < w * h,
{
    lemma_join_pos(w, h, x % w, y % h);
}

/// Neighbour `k` of `p` is `q` exactly when neighbour `7 - k` (the opposite
/// direction) of `q` is `p`.
pub proof fn lemma_neighbour_symmetric(w: int, h: int, p: int, q: int, k: int)
    requires
        w >= 1,
        h >= 1,
        0 <= p < w * h,
        0 <= q < w * h,
        0 <= k < 8,
    ensures
        (neighbour_pos(w, h, p, k) == q) <==> (neighbour_pos(w, h, q, 7 - k) == p),
{
    lemma_split_pos(w, h, p);
    lemma_split_pos(w, h, q);
    let (px, py, qx, qy) = (p % w, p / w, q % w, q / w);
    let (ax, ay) = ((px + offset_x(k)) % w, (py + offset_y(k)) % h);
    let (bx, by) = ((qx + offset_x(7 - k)) % w, (qy + offset_y(7 - k)) % h);
    lemma_step_mod(px, offset_x(k), w);
    lemma_step_mod(py, offset_y(k), h);
    lemma_step_mod(qx, offset_x(7 - k), w);
    lemma_step_mod(qy, offset_y(7 - k), h);
    lemma_join_pos(w, h, ax, ay);
    lemma_join_pos(w, h, bx, by);
    lemma_join_pos(w, h, qx, qy);
    lemma_join_pos(w, h, px, py);
    lemma_step_inverse(px, qx, offset_x(k), w);
    lemma_step_inverse(py, qy, offset_y(k), h);
}

/// Moving a whole width along a row, or a whole height along a column,
/// reaches the same cell: reading at `(x, y)`, `(x + w, y)` and `(x, y + h)`
/// gives the same result.
pub proof fn lemma_wrap_periodic(w: int, h: int, x: int, y: int)
    requires
        w >= 1,
        h >= 1,
    ensures
        wrap_pos(w, h, x + w, y) == wrap_pos(w, h, x, y),
        wrap_pos(w, h, x, y + h) == wrap_pos(w, h, x, y),
{
    lemma_fundamental_div_mod(x, w);
    lemma_fundamental_div_mod(y, h);
    lemma_mod_bound(x, w);
    lemma_mod_bound(y, h);
    assert(x + w == (x / w + 1) * w + x % w) by (nonlinear_arith)
        requires
            x == w * (x / w) + (x % w),
    ;
    assert(y + h == (y / h + 1) * h + y % h) by (nonlinear_arith)
        requires
            y == h * (y / h) + (y % h),
    ;
    lemma_fundamental_div_mod_converse(x + w, w, x / w + 1, x % w);
    lemma_fundamental_div_mod_converse(y + h, h, y / h + 1, y % h);
}

} // verus!
