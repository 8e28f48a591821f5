//! Arithmetic facts about row-major flat indexing of a width x height grid.

use vstd::prelude::*;

verus! {

/// A pixel at row `i`, column `j` of a `w`-wide, `h`-high grid has a flat
/// index strictly below `w * h`.
pub proof fn lemma_flat_bound(i: int, j: int, w: int, h: int)
    requires
        0 <= i < h,
        0 <= j < w,
    ensures
        0 <= i * w + j < w * h,
{
    assert(i * w + j < w * h) by (nonlinear_arith)
        requires
            0 <= i < h,
            0 <= j < w,
    ;
    assert(0 <= i * w + j) by (nonlinear_arith)
        requires
            0 <= i,
            0 <= j,
            0 <= w,
    ;
}

/// Row and column are recovered from a flat index by division and remainder.
pub proof fn lemma_flat_inverse(i: int, j: int, w: int)
    requires
        0 <= i,
        0 <= j < w,
    ensures
        (i * w + j) / w == i,
        (i * w + j) % w == j,
{
    assert((i * w + j) / w == i && (i * w + j) % w == j) by (nonlinear_arith)
        requires
            0 <= i,
            0 <= j < w,
    ;
}

/// A flat index below `w * h` decodes to an in-bounds row and column.
pub proof fn lemma_unflatten(k: int, w: int, h: int)
    requires
        0 <= k < w * h,
        0 < w,
    ensures
        0 <= k / w < h,
        0 <= k % w < w,
        k == (k / w) * w + k % w,
{
    assert(0 <= k / w < h && 0 <= k % w < w && k == (k / w) * w + k % w) by (nonlinear_arith)
        requires
            0 <= k < w * h,
            0 < w,
    ;
}

} // verus!
