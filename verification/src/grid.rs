use vstd::prelude::*;

verus! {

/// The linear index of column `x`, row `y` in a row-major grid of width `w`.
pub open spec fn row_major(x: int, y: int, w: int) -> int {
    y * w + x
}

/// In-bounds row-major coordinates index inside the `w * h` cell store.
pub proof fn lemma_row_major_bound(x: int, y: int, w: int, h: int)
    requires
        0 <= x < w,
        0 <= y < h,
    ensures
        0 <= row_major(x, y, w) < w * h,
{
    assert(0 <= y * w + x < w * h) by (nonlinear_arith)
        requires
            0 <= x < w,
            0 <= y < h,
    ;
}

/// Distinct in-bounds coordinates have distinct row-major indices.
pub proof fn lemma_row_major_distinct(x1: int, y1: int, x2: int, y2: int, w: int)
    requires
        0 <= x1 < w,
        0 <= x2 < w,
        0 <= y1,
        0 <= y2,
        (x1, y1) != (x2, y2),
    ensures
        row_major(x1, y1, w) != row_major(x2, y2, w),
{
    if y1 != y2 {
        assert(y1 * w + x1 != y2 * w + x2) by (nonlinear_arith)
            requires
                0 <= x1 < w,
                0 <= x2 < w,
                y1 != y2,
        ;
    }
}

/// A grid bounded by `0x8000` cells per axis has at most `0x4000_0000`
/// cells, so its row-major indices fit comfortably in a `usize`.
pub proof fn lemma_grid_size_bound(w: int, h: int)
    requires
        0 <= w <= 0x8000,
        0 <= h <= 0x8000,
    ensures
        w * h <= 0x4000_0000,
{
    assert(w * h <= 0x4000_0000) by (nonlinear_arith)
        requires
            0 <= w <= 0x8000,
            0 <= h <= 0x8000,
    ;
}

/// Every linear index below `w * h` is the row-major index of exactly one
/// in-bounds coordinate pair, recovered by division and remainder.
pub proof fn lemma_row_major_inverse(idx: int, w: int, h: int)
    requires
        0 < w,
        0 <= idx < w * h,
    ensures
        0 <= idx % w < w,
        0 <= idx / w < h,
        idx == row_major(idx % w, idx / w, w),
{
    vstd::arithmetic::div_mod::lemma_fundamental_div_mod(idx, w);
    vstd::arithmetic::div_mod::lemma_mod_division_less_than_divisor(idx, w);
    vstd::arithmetic::div_mod::lemma_div_pos_is_pos(idx, w);
    vstd::arithmetic::div_mod::lemma_multiply_divide_lt(idx, w, h);
    assert(w * (idx / w) == (idx / w) * w) by (nonlinear_arith);
}

} // verus!
