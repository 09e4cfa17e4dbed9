//! Arithmetic facts about the row-major index mapping.
use vstd::prelude::*;

verus! {

/// A cell inside a `w` by `h` plane has an index below `w * h`.
pub proof fn lemma_index2_bound(x: int, y: int, w: int, h: int)
    requires
        0 <= x < w,
        0 <= y < h,
    ensures
        0 <= x + w * y < w * h,
{
    assert(w * y <= w * (h - 1)) by (nonlinear_arith)
        requires 0 <= y < h, 0 <= w;
    assert(w * (h - 1) + w == w * h) by (nonlinear_arith);
    assert(0 <= w * y) by (nonlinear_arith)
        requires 0 <= y, 0 <= w;
}

/// Two cells of a row width `w` have the same index only when they are the same cell.
pub proof fn lemma_index2_injective(x1: int, y1: int, x2: int, y2: int, w: int)
    requires
        0 <= x1 < w,
        0 <= x2 < w,
        0 <= y1,
        0 <= y2,
        x1 + w * y1 == x2 + w * y2,
    ensures
        x1 == x2,
        y1 == y2,
{
    if y1 < y2 {
        assert(w * y1 + w <= w * y2) by (nonlinear_arith)
            requires y1 < y2, 0 <= w;
    } else if y2 < y1 {
        assert(w * y2 + w <= w * y1) by (nonlinear_arith)
            requires y2 < y1, 0 <= w;
    }
}

/// Row-major indices order cells by row first, then by column.
pub proof fn lemma_index2_order(x1: int, y1: int, x2: int, y2: int, w: int)
    requires
        0 <= x1 < w,
        0 <= x2 < w,
        0 <= y1,
        0 <= y2,
        x1 + w * y1 < x2 + w * y2,
    ensures
        y1 < y2 || (y1 == y2 && x1 < x2),
{
    if y2 < y1 {
        assert(w * y2 + w <= w * y1) by (nonlinear_arith)
            requires
                y2 < y1,
                0 <= w,
        ;
    }
}

/// The row-major index of a cell gives the cell back by division and remainder.
pub proof fn lemma_index2_div_mod(x: int, y: int, w: int)
    requires
        0 <= x < w,
        0 <= y,
    ensures
        (x + w * y) / w == y,
        (x + w * y) % w == x,
{
    assert(x + w * y == y * w + x) by (nonlinear_arith);
    vstd::arithmetic::div_mod::lemma_fundamental_div_mod_converse(x + w * y, w, y, x);
}

/// The three-dimensional row-major index is the two-dimensional one of a
/// plane whose rows are stacked plane after plane.
pub proof fn lemma_index3_nested(x: int, y: int, z: int, w: int, h: int)
    ensures
        x + w * y + w * h * z == x + w * (y + h * z),
{
    assert(w * y + w * h * z == w * (y + h * z)) by (nonlinear_arith);
}

/// A cell inside a `w` by `h` by `d` box has an index below `w * h * d`.
pub proof fn lemma_index3_bound(x: int, y: int, z: int, w: int, h: int, d: int)
    requires
        0 <= x < w,
        0 <= y < h,
        0 <= z < d,
    ensures
        0 <= x + w * y + w * h * z < w * h * d,
{
    lemma_index3_nested(x, y, z, w, h);
    lemma_index2_bound(y, z, h, d);
    lemma_index2_bound(x, y + h * z, w, h * d);
    assert(w * (h * d) == w * h * d) by (nonlinear_arith);
}

/// Two cells of a box `w` wide and `h` high have the same index only when
/// they are the same cell.
pub proof fn lemma_index3_injective(
    x1: int,
    y1: int,
    z1: int,
    x2: int,
    y2: int,
    z2: int,
    w: int,
    h: int,
)
    requires
        0 <= x1 < w,
        0 <= x2 < w,
        0 <= y1 < h,
        0 <= y2 < h,
        0 <= z1,
        0 <= z2,
        x1 + w * y1 + w * h * z1 == x2 + w * y2 + w * h * z2,
    ensures
        x1 == x2,
        y1 == y2,
        z1 == z2,
{
    lemma_index3_nested(x1, y1, z1, w, h);
    lemma_index3_nested(x2, y2, z2, w, h);
    assert(0 <= h * z1 && 0 <= h * z2) by (nonlinear_arith)
        requires
            0 <= h,
            0 <= z1,
            0 <= z2,
    ;
    lemma_index2_injective(x1, y1 + h * z1, x2, y2 + h * z2, w);
    lemma_index2_injective(y1, z1, y2, z2, h);
}

/// The three-dimensional row-major index gives the cell back by division and remainder.
pub proof fn lemma_index3_div_mod(x: int, y: int, z: int, w: int, h: int)
    requires
        0 <= x < w,
        0 <= y < h,
        0 <= z,
    ensures
        (x + w * y + w * h * z) % w == x,
        ((x + w * y + w * h * z) / w) % h == y,
        ((x + w * y + w * h * z) / w) / h == z,
{
    lemma_index3_nested(x, y, z, w, h);
    assert(0 <= h * z) by (nonlinear_arith)
        requires
            0 <= h,
            0 <= z,
    ;
    lemma_index2_div_mod(x, y + h * z, w);
    lemma_index2_div_mod(y, z, h);
}

} // verus!
