//! Laws of the morphology engine. The central results: opening and closing
//! (as the engine composes them from one dilation and one erosion with the
//! same disk) are idempotent for every odd disk side. The proofs go through
//! the classical adjunction facts — dilation-after-erosion shrinks,
//! erosion-after-dilation grows erosion outputs back — which hold here for
//! symmetric structuring elements under the zero-padding border policy.

use vstd::prelude::*;
use crate::raster::GridView;
use crate::raster::lemma_grid_ext;
use crate::indexing::lemma_flat_bound;
use crate::indexing::lemma_flat_inverse;
use crate::indexing::lemma_unflatten;
use crate::morph::se_wf;
use crate::morph::se_center;
use crate::morph::disk_cell;
use crate::morph::disk_v;
use crate::morph::dil_term;
use crate::morph::dil_fold;
use crate::morph::dil_at;
use crate::morph::ero_term;
use crate::morph::ero_fold;
use crate::morph::ero_at;
use crate::morph::dilate_v;
use crate::morph::erode_v;
use crate::morph::opening_v;
use crate::morph::closing_v;

verus! {

/// The structuring-element cell at row `di`, column `dj`.
pub open spec fn se_at(se: GridView<u8>, di: int, dj: int) -> u8 {
    se.grid[di * se.width + dj]
}

/// A symmetric structuring element: square of odd side, equal on cells
/// mirrored through the center.
pub open spec fn se_sym(se: GridView<u8>) -> bool {
    &&& se_wf(se)
    &&& se.width % 2 == 1
    &&& forall|di: int, dj: int|
        0 <= di < se.width && 0 <= dj < se.width ==> #[trigger] se_at(se, di, dj) == se_at(
            se,
            2 * (se.width as int / 2) - di,
            2 * (se.width as int / 2) - dj,
        )
}

/// Pointwise order on equally shaped rasters, borders included.
pub open spec fn le_v(a: GridView<u8>, b: GridView<u8>) -> bool {
    &&& a.same_dims(b)
    &&& forall|i: int, j: int| #[trigger] a.pad(i, j) <= b.pad(i, j)
}

/// The raster is zero wherever the element anchored there sticks out of
/// bounds. Every erosion output has this property under zero padding.
pub open spec fn border_zero(h: GridView<u8>, se: GridView<u8>) -> bool {
    forall|i: int, j: int, di: int, dj: int|
        h.in_bounds(i, j) && 0 <= di < se.width && 0 <= dj < se.width && #[trigger] se_at(
            se,
            di,
            dj,
        ) == 255 && !h.in_bounds(i + di - se_center(se), j + dj - se_center(se)) ==> #[trigger] h
            .pix(i, j) == 0
}

/// The disk element of any odd side is symmetric.
pub proof fn lemma_disk_sym(size: nat)
    requires
        1 <= size,
        size % 2 == 1,
    ensures
        se_sym(disk_v(size)),
{
    let d = disk_v(size);
    let c = size as int / 2;
    assert forall|di: int, dj: int| 0 <= di < d.width && 0 <= dj < d.width implies #[trigger] se_at(
        d,
        di,
        dj,
    ) == se_at(d, 2 * c - di, 2 * c - dj) by {
        let mi = 2 * c - di;
        let mj = 2 * c - dj;
        lemma_flat_bound(di, dj, size as int, size as int);
        lemma_flat_inverse(di, dj, size as int);
        lemma_flat_bound(mi, mj, size as int, size as int);
        lemma_flat_inverse(mi, mj, size as int);
        assert((mi - c) * (mi - c) == (di - c) * (di - c)) by (nonlinear_arith)
            requires
                mi == 2 * c - di,
        ;
        assert((mj - c) * (mj - c) == (dj - c) * (dj - c)) by (nonlinear_arith)
            requires
                mj == 2 * c - dj,
        ;
        assert(disk_cell(size as int, di, dj) == disk_cell(size as int, mi, mj));
    }
}

/// The dilation fold dominates each of its terms.
pub proof fn lemma_dil_fold_ge(
    g: GridView<u8>,
    se: GridView<u8>,
    i: int,
    j: int,
    m: nat,
    k0: int,
)
    requires
        0 <= k0 < m,
    ensures
        dil_fold(g, se, i, j, m) >= dil_term(g, se, i, j, k0),
    decreases m,
{
    if k0 < m - 1 {
        lemma_dil_fold_ge(g, se, i, j, (m - 1) as nat, k0);
    }
}

/// A bound on every term bounds the dilation fold.
pub proof fn lemma_dil_fold_le(
    g: GridView<u8>,
    se: GridView<u8>,
    i: int,
    j: int,
    m: nat,
    b: u8,
)
    requires
        forall|k0: int| 0 <= k0 < m ==> #[trigger] dil_term(g, se, i, j, k0) <= b,
    ensures
        dil_fold(g, se, i, j, m) <= b,
    decreases m,
{
    if m > 0 {
        lemma_dil_fold_le(g, se, i, j, (m - 1) as nat, b);
    }
}

/// The erosion fold is dominated by each of its terms.
pub proof fn lemma_ero_fold_le(
    g: GridView<u8>,
    se: GridView<u8>,
    i: int,
    j: int,
    m: nat,
    k0: int,
)
    requires
        0 <= k0 < m,
    ensures
        ero_fold(g, se, i, j, m) <= ero_term(g, se, i, j, k0),
    decreases m,
{
    if k0 < m - 1 {
        lemma_ero_fold_le(g, se, i, j, (m - 1) as nat, k0);
    }
}

/// A bound under every term bounds the erosion fold from below.
pub proof fn lemma_ero_fold_ge(
    g: GridView<u8>,
    se: GridView<u8>,
    i: int,
    j: int,
    m: nat,
    b: u8,
)
    requires
        forall|k0: int| 0 <= k0 < m ==> #[trigger] ero_term(g, se, i, j, k0) >= b,
    ensures
        ero_fold(g, se, i, j, m) >= b,
    decreases m,
{
    if m > 0 {
        lemma_ero_fold_ge(g, se, i, j, (m - 1) as nat, b);
    }
}

/// Folds are monotone in the raster.
pub proof fn lemma_dil_fold_mono(
    g1: GridView<u8>,
    g2: GridView<u8>,
    se: GridView<u8>,
    i: int,
    j: int,
    m: nat,
)
    requires
        le_v(g1, g2),
    ensures
        dil_fold(g1, se, i, j, m) <= dil_fold(g2, se, i, j, m),
    decreases m,
{
    if m > 0 {
        lemma_dil_fold_mono(g1, g2, se, i, j, (m - 1) as nat);
        let c = se_center(se);
        let di = (m - 1) / se.width as int;
        let dj = (m - 1) % se.width as int;
        assert(g1.pad(i + di - c, j + dj - c) <= g2.pad(i + di - c, j + dj - c));
    }
}

pub proof fn lemma_ero_fold_mono(
    g1: GridView<u8>,
    g2: GridView<u8>,
    se: GridView<u8>,
    i: int,
    j: int,
    m: nat,
)
    requires
        le_v(g1, g2),
    ensures
        ero_fold(g1, se, i, j, m) <= ero_fold(g2, se, i, j, m),
    decreases m,
{
    if m > 0 {
        lemma_ero_fold_mono(g1, g2, se, i, j, (m - 1) as nat);
        let c = se_center(se);
        let di = (m - 1) / se.width as int;
        let dj = (m - 1) % se.width as int;
        assert(g1.pad(i + di - c, j + dj - c) <= g2.pad(i + di - c, j + dj - c));
    }
}

/// Dilation is monotone.
pub proof fn lemma_dilate_v_mono(g1: GridView<u8>, g2: GridView<u8>, se: GridView<u8>)
    requires
        g1.wf(),
        g2.wf(),
        le_v(g1, g2),
    ensures
        le_v(dilate_v(g1, se), dilate_v(g2, se)),
{
    let a = dilate_v(g1, se);
    let b = dilate_v(g2, se);
    assert forall|i: int, j: int| #[trigger] a.pad(i, j) <= b.pad(i, j) by {
        if a.in_bounds(i, j) {
            lemma_flat_bound(i, j, g1.width as int, g1.height as int);
            lemma_flat_inverse(i, j, g1.width as int);
            lemma_dil_fold_mono(g1, g2, se, i, j, se.grid.len());
            assert(a.pix(i, j) == dil_at(g1, se, i, j));
            assert(b.pix(i, j) == dil_at(g2, se, i, j));
        }
    }
}

/// Erosion is monotone.
pub proof fn lemma_erode_v_mono(g1: GridView<u8>, g2: GridView<u8>, se: GridView<u8>)
    requires
        g1.wf(),
        g2.wf(),
        le_v(g1, g2),
    ensures
        le_v(erode_v(g1, se), erode_v(g2, se)),
{
    let a = erode_v(g1, se);
    let b = erode_v(g2, se);
    assert forall|i: int, j: int| #[trigger] a.pad(i, j) <= b.pad(i, j) by {
        if a.in_bounds(i, j) {
            lemma_flat_bound(i, j, g1.width as int, g1.height as int);
            lemma_flat_inverse(i, j, g1.width as int);
            lemma_ero_fold_mono(g1, g2, se, i, j, se.grid.len());
            assert(a.pix(i, j) == ero_at(g1, se, i, j));
            assert(b.pix(i, j) == ero_at(g2, se, i, j));
        }
    }
}

/// Every erosion output is zero where the element sticks out of bounds.
pub proof fn lemma_erode_border_zero(g: GridView<u8>, se: GridView<u8>)
    requires
        g.wf(),
        se_wf(se),
    ensures
        border_zero(erode_v(g, se), se),
{
    let e = erode_v(g, se);
    let c = se_center(se);
    assert forall|i: int, j: int, di: int, dj: int|
        e.in_bounds(i, j) && 0 <= di < se.width && 0 <= dj < se.width && #[trigger] se_at(
            se,
            di,
            dj,
        ) == 255 && !e.in_bounds(i + di - c, j + dj - c) implies #[trigger] e.pix(i, j) == 0 by {
        lemma_flat_bound(i, j, g.width as int, g.height as int);
        lemma_flat_inverse(i, j, g.width as int);
        assert(e.pix(i, j) == ero_at(g, se, i, j));
        let k0 = di * se.width as int + dj;
        lemma_flat_bound(di, dj, se.width as int, se.width as int);
        lemma_flat_inverse(di, dj, se.width as int);
        lemma_ero_fold_le(g, se, i, j, se.grid.len(), k0);
        assert(ero_term(g, se, i, j, k0) == g.pad(i + di - c, j + dj - c));
        assert(g.pad(i + di - c, j + dj - c) == 0);
    }
}

/// Dilation after erosion never grows a raster (with a symmetric element).
pub proof fn lemma_dil_ero_anti(g: GridView<u8>, se: GridView<u8>)
    requires
        g.wf(),
        se_sym(se),
    ensures
        le_v(dilate_v(erode_v(g, se), se), g),
{
    let e = erode_v(g, se);
    let a = dilate_v(e, se);
    let sw = se.width as int;
    let c = se_center(se);
    assert forall|i: int, j: int| #[trigger] a.pad(i, j) <= g.pad(i, j) by {
        if a.in_bounds(i, j) {
            lemma_flat_bound(i, j, g.width as int, g.height as int);
            lemma_flat_inverse(i, j, g.width as int);
            assert(a.pix(i, j) == dil_at(e, se, i, j));
            let b = g.pix(i, j);
            assert forall|k0: int| 0 <= k0 < se.grid.len() implies #[trigger] dil_term(
                e,
                se,
                i,
                j,
                k0,
            ) <= b by {
                lemma_unflatten(k0, sw, sw);
                let di = k0 / sw;
                let dj = k0 % sw;
                if se.grid[k0] == 255 {
                    let i2 = i + di - c;
                    let j2 = j + dj - c;
                    if e.in_bounds(i2, j2) {
                        lemma_flat_bound(i2, j2, g.width as int, g.height as int);
                        lemma_flat_inverse(i2, j2, g.width as int);
                        assert(e.pix(i2, j2) == ero_at(g, se, i2, j2));
                        let mi = 2 * c - di;
                        let mj = 2 * c - dj;
                        let k1 = mi * sw + mj;
                        lemma_flat_bound(mi, mj, sw, sw);
                        lemma_flat_inverse(mi, mj, sw);
                        assert(se_at(se, di, dj) == se.grid[k0]);
                        assert(se.grid[k1] == se_at(se, mi, mj));
                        assert(se_at(se, mi, mj) == se_at(se, di, dj)) by {
                            assert(se_at(se, mi, mj) == se_at(se, 2 * c - mi, 2 * c - mj));
                        }
                        lemma_ero_fold_le(g, se, i2, j2, se.grid.len(), k1);
                        assert(ero_term(g, se, i2, j2, k1) == g.pad(i2 + mi - c, j2 + mj - c));
                        assert(i2 + mi - c == i && j2 + mj - c == j);
                        assert(g.pad(i, j) == b);
                    }
                }
            }
            lemma_dil_fold_le(e, se, i, j, se.grid.len(), b);
        }
    }
}

/// Erosion after dilation restores at least the original, on rasters that
/// are zero along the border band (as every erosion output is).
pub proof fn lemma_ero_dil_ext(h: GridView<u8>, se: GridView<u8>)
    requires
        h.wf(),
        se_sym(se),
        border_zero(h, se),
    ensures
        le_v(h, erode_v(dilate_v(h, se), se)),
{
    let d = dilate_v(h, se);
    let a = erode_v(d, se);
    let sw = se.width as int;
    let c = se_center(se);
    assert forall|i: int, j: int| #[trigger] h.pad(i, j) <= a.pad(i, j) by {
        if h.in_bounds(i, j) {
            lemma_flat_bound(i, j, h.width as int, h.height as int);
            lemma_flat_inverse(i, j, h.width as int);
            assert(a.pix(i, j) == ero_at(d, se, i, j));
            let b = h.pix(i, j);
            if exists|di: int, dj: int|
                0 <= di < se.width && 0 <= dj < se.width && #[trigger] se_at(se, di, dj) == 255
                    && !h.in_bounds(i + di - c, j + dj - c) {
                // The element sticks out at (i, j): h is zero there.
                assert(b == 0);
            } else {
                assert forall|k0: int| 0 <= k0 < se.grid.len() implies #[trigger] ero_term(
                    d,
                    se,
                    i,
                    j,
                    k0,
                ) >= b by {
                    lemma_unflatten(k0, sw, sw);
                    let di = k0 / sw;
                    let dj = k0 % sw;
                    if se.grid[k0] == 255 {
                        assert(se_at(se, di, dj) == se.grid[k0]);
                        let i2 = i + di - c;
                        let j2 = j + dj - c;
                        assert(h.in_bounds(i2, j2));
                        lemma_flat_bound(i2, j2, h.width as int, h.height as int);
                        lemma_flat_inverse(i2, j2, h.width as int);
                        assert(d.pix(i2, j2) == dil_at(h, se, i2, j2));
                        let mi = 2 * c - di;
                        let mj = 2 * c - dj;
                        let k1 = mi * sw + mj;
                        lemma_flat_bound(mi, mj, sw, sw);
                        lemma_flat_inverse(mi, mj, sw);
                        assert(se.grid[k1] == se_at(se, mi, mj));
                        assert(se_at(se, mi, mj) == se_at(se, di, dj)) by {
                            assert(se_at(se, mi, mj) == se_at(se, 2 * c - mi, 2 * c - mj));
                        }
                        lemma_dil_fold_ge(h, se, i2, j2, se.grid.len(), k1);
                        assert(dil_term(h, se, i2, j2, k1) == h.pad(i2 + mi - c, j2 + mj - c));
                        assert(i2 + mi - c == i && j2 + mj - c == j);
                        assert(h.pad(i, j) == b);
                    }
                }
                lemma_ero_fold_ge(d, se, i, j, se.grid.len(), b);
            }
        }
    }
}

/// Two rasters each pointwise below the other are equal.
pub proof fn lemma_le_antisym(a: GridView<u8>, b: GridView<u8>)
    requires
        a.wf(),
        b.wf(),
        le_v(a, b),
        le_v(b, a),
    ensures
        a == b,
{
    assert forall|i: int, j: int| a.in_bounds(i, j) implies a.pix(i, j) == b.pix(i, j) by {
        assert(a.pad(i, j) <= b.pad(i, j));
        assert(b.pad(i, j) <= a.pad(i, j));
    }
    lemma_grid_ext(a, b);
}

/// Opening — one dilation then one erosion with the same disk — is
/// idempotent for every odd disk side.
pub proof fn lemma_opening_idempotent(g: GridView<u8>, size: nat)
    requires
        g.wf(),
        1 <= size,
        size % 2 == 1,
    ensures
        opening_v(opening_v(g, size), size) == opening_v(g, size),
{
    let d = disk_v(size);
    lemma_disk_sym(size);
    let a = dilate_v(g, d);
    let once = erode_v(a, d);
    let twice = erode_v(dilate_v(once, d), d);
    assert(opening_v(g, size) == once);
    assert(opening_v(opening_v(g, size), size) == twice);
    // Downwards: dilation-after-erosion applied to a shrinks, then erosion
    // keeps the order.
    lemma_dil_ero_anti(a, d);
    lemma_erode_v_mono(dilate_v(once, d), a, d);
    // Upwards: once is an erosion output, so erosion-after-dilation grows
    // it back.
    lemma_erode_border_zero(a, d);
    lemma_ero_dil_ext(once, d);
    lemma_le_antisym(twice, once);
}

/// Closing — one erosion then one dilation with the same disk — is
/// idempotent for every odd disk side.
pub proof fn lemma_closing_idempotent(g: GridView<u8>, size: nat)
    requires
        g.wf(),
        1 <= size,
        size % 2 == 1,
    ensures
        closing_v(closing_v(g, size), size) == closing_v(g, size),
{
    let d = disk_v(size);
    lemma_disk_sym(size);
    let e = erode_v(g, d);
    let once = dilate_v(e, d);
    let twice = dilate_v(erode_v(once, d), d);
    assert(closing_v(g, size) == once);
    assert(closing_v(closing_v(g, size), size) == twice);
    // Downwards: dilation-after-erosion applied to once shrinks.
    lemma_dil_ero_anti(once, d);
    // Upwards: e is an erosion output; grow it back under the composition,
    // then dilation keeps the order.
    lemma_erode_border_zero(g, d);
    lemma_ero_dil_ext(e, d);
    lemma_dilate_v_mono(e, erode_v(once, d), d);
    lemma_le_antisym(twice, once);
}

} // verus!
