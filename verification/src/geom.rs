//! Arithmetic facts about row-major indexing used by the image code.

use vstd::prelude::*;

verus! {

/// A row-major position inside a `w`-wide row block stays below the block.
pub proof fn lemma_row_major_lt(w: int, x: int, y: int, h: int)
    requires
        0 <= x < w,
        0 <= y < h,
    ensures
        0 <= y * w + x < h * w,
        y * w + x < w * h,
        y * w + x < (y + 1) * w,
        y * w <= y * w + x,
{
    assert((y + 1) * w == y * w + w) by (nonlinear_arith);
    assert((y + 1) * w <= h * w) by (nonlinear_arith)
        requires y + 1 <= h, w >= 0;
    assert(h * w == w * h) by (nonlinear_arith);
    assert(0 <= y * w) by (nonlinear_arith)
        requires y >= 0, w >= 0;
}

/// Row-major positions of distinct cells differ.
pub proof fn lemma_row_major_injective(w: int, x1: int, y1: int, x2: int, y2: int)
    requires
        0 <= x1 < w,
        0 <= x2 < w,
        0 <= y1,
        0 <= y2,
        y1 * w + x1 == y2 * w + x2,
    ensures
        x1 == x2,
        y1 == y2,
{
    vstd::arithmetic::div_mod::lemma_fundamental_div_mod_converse(y1 * w + x1, w, y1, x1);
    vstd::arithmetic::div_mod::lemma_fundamental_div_mod_converse(y2 * w + x2, w, y2, x2);
}

/// `(y + 1) * w == y * w + w`.
pub proof fn lemma_next_row(w: int, y: int)
    ensures
        (y + 1) * w == y * w + w,
{
    assert((y + 1) * w == y * w + w) by (nonlinear_arith);
}

} // verus!
