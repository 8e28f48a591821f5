//! Pointwise image algebra on 8-bit rasters: bitwise complement, union and
//! intersection, absolute difference, thresholding, scale-and-offset,
//! min/max location and range normalization.

use vstd::prelude::*;
use crate::raster::GridView;
use crate::raster::Raster;
use crate::raster::RasterError;
use crate::raster::uniform_view;

verus! {

/// Bitwise complement of every sample (`255 - v` on 8-bit samples).
pub open spec fn not_v(g: GridView<u8>) -> GridView<u8> {
    GridView {
        width: g.width,
        height: g.height,
        grid: Seq::new(g.grid.len(), |k: int| (255 - g.grid[k]) as u8),
    }
}

/// Bitwise union of two equal-shaped rasters.
pub open spec fn or_v(a: GridView<u8>, b: GridView<u8>) -> GridView<u8> {
    GridView {
        width: a.width,
        height: a.height,
        grid: Seq::new(a.grid.len(), |k: int| a.grid[k] | b.grid[k]),
    }
}

/// Bitwise intersection of two equal-shaped rasters.
pub open spec fn and_v(a: GridView<u8>, b: GridView<u8>) -> GridView<u8> {
    GridView {
        width: a.width,
        height: a.height,
        grid: Seq::new(a.grid.len(), |k: int| a.grid[k] & b.grid[k]),
    }
}

/// Per-pixel absolute difference.
pub open spec fn diff_v(a: GridView<u8>, b: GridView<u8>) -> GridView<u8> {
    GridView {
        width: a.width,
        height: a.height,
        grid: Seq::new(
            a.grid.len(),
            |k: int|
                if a.grid[k] >= b.grid[k] {
                    (a.grid[k] - b.grid[k]) as u8
                } else {
                    (b.grid[k] - a.grid[k]) as u8
                },
        ),
    }
}

/// Binary thresholding: `level` where the sample exceeds `thresh`, else zero.
pub open spec fn threshold_v(g: GridView<u8>, thresh: u8, level: u8) -> GridView<u8> {
    GridView {
        width: g.width,
        height: g.height,
        grid: Seq::new(g.grid.len(), |k: int| if g.grid[k] > thresh { level } else { 0u8 }),
    }
}

/// Clamp an integer into the 8-bit sample range.
pub open spec fn clamp_u8(x: int) -> u8 {
    if x < 0 {
        0u8
    } else if x > 255 {
        255u8
    } else {
        x as u8
    }
}

/// `v * scale + offset`, saturated to the 8-bit range.
pub open spec fn scale_add_v(g: GridView<u8>, scale: int, offset: int) -> GridView<u8> {
    GridView {
        width: g.width,
        height: g.height,
        grid: Seq::new(g.grid.len(), |k: int| clamp_u8(g.grid[k] * scale + offset)),
    }
}

/// The smallest sample of a non-empty sequence (255 on an empty one).
pub open spec fn seq_min(s: Seq<u8>) -> u8
    decreases s.len(),
{
    if s.len() == 0 {
        255u8
    } else if seq_min(s.drop_last()) <= s.last() {
        seq_min(s.drop_last())
    } else {
        s.last()
    }
}

/// The largest sample of a non-empty sequence (0 on an empty one).
pub open spec fn seq_max(s: Seq<u8>) -> u8
    decreases s.len(),
{
    if s.len() == 0 {
        0u8
    } else if seq_max(s.drop_last()) >= s.last() {
        seq_max(s.drop_last())
    } else {
        s.last()
    }
}

pub proof fn lemma_seq_min_le(s: Seq<u8>, k: int)
    requires
        0 <= k < s.len(),
    ensures
        seq_min(s) <= s[k],
        seq_max(s) >= s[k],
    decreases s.len(),
{
    if k == s.len() - 1 {
    } else {
        lemma_seq_min_le(s.drop_last(), k);
    }
}

/// A value attained somewhere and bounding every sample is the minimum
/// (resp. maximum).
pub proof fn lemma_min_unique(s: Seq<u8>, v: u8, at: int)
    requires
        0 <= at < s.len(),
        s[at] == v,
        forall|q: int| 0 <= q < s.len() ==> s[q] >= v,
    ensures
        seq_min(s) == v,
{
    lemma_seq_min_le(s, at);
    lemma_seq_min_attained(s);
}

pub proof fn lemma_max_unique(s: Seq<u8>, v: u8, at: int)
    requires
        0 <= at < s.len(),
        s[at] == v,
        forall|q: int| 0 <= q < s.len() ==> s[q] <= v,
    ensures
        seq_max(s) == v,
{
    lemma_seq_min_le(s, at);
    lemma_seq_min_attained(s);
}

/// A non-empty sequence attains its minimum and maximum.
pub proof fn lemma_seq_min_attained(s: Seq<u8>)
    requires
        s.len() > 0,
    ensures
        exists|k: int| 0 <= k < s.len() && s[k] == seq_min(s),
        exists|k: int| 0 <= k < s.len() && s[k] == seq_max(s),
    decreases s.len(),
{
    if s.len() == 1 {
        assert(s.drop_last().len() == 0);
        assert(seq_min(s.drop_last()) == 255u8);
        assert(seq_max(s.drop_last()) == 0u8);
        assert(s[0] == s.last());
        assert(s[0] == seq_min(s));
        assert(s[0] == seq_max(s));
    } else {
        lemma_seq_min_attained(s.drop_last());
        if seq_min(s.drop_last()) <= s.last() {
            let k = choose|k: int| 0 <= k < s.drop_last().len() && s.drop_last()[k] == seq_min(
                s.drop_last(),
            );
            assert(s[k] == seq_min(s));
        } else {
            assert(s[s.len() - 1] == seq_min(s));
        }
        if seq_max(s.drop_last()) >= s.last() {
            let k = choose|k: int| 0 <= k < s.drop_last().len() && s.drop_last()[k] == seq_max(
                s.drop_last(),
            );
            assert(s[k] == seq_max(s));
        } else {
            assert(s[s.len() - 1] == seq_max(s));
        }
    }
}

/// Range normalization: the observed [min, max] is mapped affinely onto
/// [0, 255]; a constant raster (min == max) normalizes to all-zero.
pub open spec fn correction_v(g: GridView<u8>) -> GridView<u8> {
    let mn = seq_min(g.grid);
    let mx = seq_max(g.grid);
    GridView {
        width: g.width,
        height: g.height,
        grid: if mn == mx {
            Seq::new(g.grid.len(), |k: int| 0u8)
        } else {
            Seq::new(g.grid.len(), |k: int| (((g.grid[k] - mn) * 255) / (mx - mn)) as u8)
        },
    }
}

/// Facts about an 8-bit sample and its complement, proved bit by bit.
pub proof fn lemma_u8_complement_bits()
    by (bit_vector)
    ensures
        forall|x: u8| #[trigger] (x | ((255 - x) as u8)) == 255,
        forall|x: u8| #[trigger] (x & ((255 - x) as u8)) == 0,
{
}

/// Double complement restores the raster.
pub proof fn lemma_not_involutive(g: GridView<u8>)
    ensures
        not_v(not_v(g)) == g,
{
    assert(not_v(not_v(g)).grid =~= g.grid);
    assert(not_v(not_v(g)) =~= g);
}

/// A raster or-ed with its complement is all-foreground.
pub proof fn lemma_or_not_all_foreground(g: GridView<u8>)
    requires
        g.wf(),
    ensures
        or_v(g, not_v(g)) == uniform_view(g.width, g.height, 255u8),
{
    lemma_u8_complement_bits();
    let lhs = or_v(g, not_v(g));
    let rhs = uniform_view(g.width, g.height, 255u8);
    assert forall|k: int| 0 <= k < lhs.grid.len() implies lhs.grid[k] == rhs.grid[k] by {
        let x = g.grid[k];
        assert(not_v(g).grid[k] == (255 - x) as u8);
        assert((x | ((255 - x) as u8)) == 255);
    }
    assert(lhs.grid =~= rhs.grid);
    assert(lhs =~= rhs);
}

/// A raster and-ed with its complement is all-background.
pub proof fn lemma_and_not_all_background(g: GridView<u8>)
    requires
        g.wf(),
    ensures
        and_v(g, not_v(g)) == uniform_view(g.width, g.height, 0u8),
{
    lemma_u8_complement_bits();
    let lhs = and_v(g, not_v(g));
    let rhs = uniform_view(g.width, g.height, 0u8);
    assert forall|k: int| 0 <= k < lhs.grid.len() implies lhs.grid[k] == rhs.grid[k] by {
        let x = g.grid[k];
        assert(not_v(g).grid[k] == (255 - x) as u8);
        assert((x & ((255 - x) as u8)) == 0);
    }
    assert(lhs.grid =~= rhs.grid);
    assert(lhs =~= rhs);
}

/// Bitwise complement of an 8-bit raster.
pub fn not_image(img: &Raster<u8>) -> (r: Raster<u8>)
    requires
        img.wf(),
    ensures
        r.wf(),
        r@ == not_v(img@),
{
    let n = img.data.len();
    let mut data: Vec<u8> = Vec::new();
    let mut k: usize = 0;
    while k < n
        invariant
            n == img.data@.len(),
            k <= n,
            data@.len() == k,
            forall|q: int| 0 <= q < k ==> data@[q] == (255 - img.data@[q]) as u8,
        decreases n - k,
    {
        data.push(255 - img.data[k]);
        k = k + 1;
    }
    let r = Raster { width: img.width, height: img.height, data };
    proof {
        assert(r@.grid =~= not_v(img@).grid);
        assert(r@ =~= not_v(img@));
    }
    r
}

/// Bitwise union of two rasters of equal dimensions.
pub fn or_image(a: &Raster<u8>, b: &Raster<u8>) -> (r: Result<Raster<u8>, RasterError>)
    requires
        a.wf(),
        b.wf(),
    ensures
        r is Ok <==> a@.same_dims(b@),
        r is Ok ==> r->Ok_0.wf() && r->Ok_0@ == or_v(a@, b@),
        r is Err ==> r->Err_0 == (RasterError::ShapeMismatch {
            left_width: a.width,
            left_height: a.height,
            right_width: b.width,
            right_height: b.height,
        }),
{
    if a.width != b.width || a.height != b.height {
        return Err(RasterError::ShapeMismatch {
            left_width: a.width,
            left_height: a.height,
            right_width: b.width,
            right_height: b.height,
        });
    }
    let n = a.data.len();
    let mut data: Vec<u8> = Vec::new();
    let mut k: usize = 0;
    while k < n
        invariant
            n == a.data@.len(),
            n == b.data@.len(),
            k <= n,
            data@.len() == k,
            forall|q: int| 0 <= q < k ==> data@[q] == (a.data@[q] | b.data@[q]),
        decreases n - k,
    {
        data.push(a.data[k] | b.data[k]);
        k = k + 1;
    }
    let r = Raster { width: a.width, height: a.height, data };
    proof {
        assert(r@.grid =~= or_v(a@, b@).grid);
        assert(r@ =~= or_v(a@, b@));
    }
    Ok(r)
}

/// Bitwise intersection of two rasters of equal dimensions.
pub fn and_image(a: &Raster<u8>, b: &Raster<u8>) -> (r: Result<Raster<u8>, RasterError>)
    requires
        a.wf(),
        b.wf(),
    ensures
        r is Ok <==> a@.same_dims(b@),
        r is Ok ==> r->Ok_0.wf() && r->Ok_0@ == and_v(a@, b@),
        r is Err ==> r->Err_0 == (RasterError::ShapeMismatch {
            left_width: a.width,
            left_height: a.height,
            right_width: b.width,
            right_height: b.height,
        }),
{
    if a.width != b.width || a.height != b.height {
        return Err(RasterError::ShapeMismatch {
            left_width: a.width,
            left_height: a.height,
            right_width: b.width,
            right_height: b.height,
        });
    }
    let n = a.data.len();
    let mut data: Vec<u8> = Vec::new();
    let mut k: usize = 0;
    while k < n
        invariant
            n == a.data@.len(),
            n == b.data@.len(),
            k <= n,
            data@.len() == k,
            forall|q: int| 0 <= q < k ==> data@[q] == (a.data@[q] & b.data@[q]),
        decreases n - k,
    {
        data.push(a.data[k] & b.data[k]);
        k = k + 1;
    }
    let r = Raster { width: a.width, height: a.height, data };
    proof {
        assert(r@.grid =~= and_v(a@, b@).grid);
        assert(r@ =~= and_v(a@, b@));
    }
    Ok(r)
}

/// Per-pixel absolute difference of two rasters of equal dimensions.
pub fn diff_image(a: &Raster<u8>, b: &Raster<u8>) -> (r: Result<Raster<u8>, RasterError>)
    requires
        a.wf(),
        b.wf(),
    ensures
        r is Ok <==> a@.same_dims(b@),
        r is Ok ==> r->Ok_0.wf() && r->Ok_0@ == diff_v(a@, b@),
        r is Err ==> r->Err_0 == (RasterError::ShapeMismatch {
            left_width: a.width,
            left_height: a.height,
            right_width: b.width,
            right_height: b.height,
        }),
{
    if a.width != b.width || a.height != b.height {
        return Err(RasterError::ShapeMismatch {
            left_width: a.width,
            left_height: a.height,
            right_width: b.width,
            right_height: b.height,
        });
    }
    let n = a.data.len();
    let mut data: Vec<u8> = Vec::new();
    let mut k: usize = 0;
    while k < n
        invariant
            n == a.data@.len(),
            n == b.data@.len(),
            k <= n,
            data@.len() == k,
            forall|q: int| 0 <= q < k ==> data@[q] == diff_v(a@, b@).grid[q],
        decreases n - k,
    {
        let x = a.data[k];
        let y = b.data[k];
        if x >= y {
            data.push(x - y);
        } else {
            data.push(y - x);
        }
        k = k + 1;
    }
    let r = Raster { width: a.width, height: a.height, data };
    proof {
        assert(r@.grid =~= diff_v(a@, b@).grid);
        assert(r@ =~= diff_v(a@, b@));
    }
    Ok(r)
}

/// Binary thresholding: samples strictly above `thresh` become `level`, the
/// rest become zero.
pub fn threshold_image(img: &Raster<u8>, thresh: u8, level: u8) -> (r: Raster<u8>)
    requires
        img.wf(),
    ensures
        r.wf(),
        r@ == threshold_v(img@, thresh, level),
{
    let n = img.data.len();
    let mut data: Vec<u8> = Vec::new();
    let mut k: usize = 0;
    while k < n
        invariant
            n == img.data@.len(),
            k <= n,
            data@.len() == k,
            forall|q: int| 0 <= q < k ==> data@[q] == threshold_v(img@, thresh, level).grid[q],
        decreases n - k,
    {
        if img.data[k] > thresh {
            data.push(level);
        } else {
            data.push(0);
        }
        k = k + 1;
    }
    let r = Raster { width: img.width, height: img.height, data };
    proof {
        assert(r@.grid =~= threshold_v(img@, thresh, level).grid);
        assert(r@ =~= threshold_v(img@, thresh, level));
    }
    r
}

/// `v * scale + offset` per pixel, saturated into [0, 255].
pub fn scale_add_image(img: &Raster<u8>, scale: i32, offset: i32) -> (r: Raster<u8>)
    requires
        img.wf(),
    ensures
        r.wf(),
        r@ == scale_add_v(img@, scale as int, offset as int),
{
    let n = img.data.len();
    let mut data: Vec<u8> = Vec::new();
    let mut k: usize = 0;
    while k < n
        invariant
            n == img.data@.len(),
            k <= n,
            data@.len() == k,
            forall|q: int|
                0 <= q < k ==> data@[q] == scale_add_v(img@, scale as int, offset as int).grid[q],
        decreases n - k,
    {
        let pix = img.data[k];
        proof {
            assert(-0x8000_0000 * 255 <= (pix as int) * (scale as int) <= 0x7fff_ffff * 255)
                by (nonlinear_arith)
                requires
                    0 <= pix as int <= 255,
                    -0x8000_0000 <= scale as int <= 0x7fff_ffff,
            ;
        }
        let x: i64 = (pix as i64) * (scale as i64) + (offset as i64);
        let v: u8 = if x < 0 {
            0
        } else if x > 255 {
            255
        } else {
            x as u8
        };
        data.push(v);
        k = k + 1;
    }
    let r = Raster { width: img.width, height: img.height, data };
    proof {
        assert(r@.grid =~= scale_add_v(img@, scale as int, offset as int).grid);
        assert(r@ =~= scale_add_v(img@, scale as int, offset as int));
    }
    r
}

/// The extreme samples of a non-empty raster and the coordinates of their
/// first occurrences: `(min, max, (min_row, min_col), (max_row, max_col))`,
/// scanning in row-major order.
pub fn min_max_locate(img: &Raster<u8>) -> (r: (u8, u8, (usize, usize), (usize, usize)))
    requires
        img.wf(),
        img@.width >= 1,
        img@.height >= 1,
    ensures
        r.0 == seq_min(img@.grid),
        r.1 == seq_max(img@.grid),
        img@.in_bounds(r.2.0 as int, r.2.1 as int),
        img@.in_bounds(r.3.0 as int, r.3.1 as int),
        img@.pix(r.2.0 as int, r.2.1 as int) == r.0,
        img@.pix(r.3.0 as int, r.3.1 as int) == r.1,
        forall|q: int| 0 <= q < img@.grid.len() ==> img@.grid[q] >= r.0,
        forall|q: int| 0 <= q < img@.grid.len() ==> img@.grid[q] <= r.1,
        forall|q: int| 0 <= q < r.2.0 * img@.width + r.2.1 ==> img@.grid[q] > r.0,
        forall|q: int| 0 <= q < r.3.0 * img@.width + r.3.1 ==> img@.grid[q] < r.1,
{
    let n = img.data.len();
    proof {
        assert(n >= 1) by (nonlinear_arith)
            requires
                n == img@.width * img@.height,
                img@.width >= 1,
                img@.height >= 1,
        ;
    }
    let mut mn: u8 = img.data[0];
    let mut mx: u8 = img.data[0];
    let mut mn_at: usize = 0;
    let mut mx_at: usize = 0;
    let mut k: usize = 1;
    while k < n
        invariant
            n == img.data@.len(),
            1 <= k <= n,
            mn_at < k,
            mx_at < k,
            img.data@[mn_at as int] == mn,
            img.data@[mx_at as int] == mx,
            forall|q: int| 0 <= q < k ==> img.data@[q] >= mn,
            forall|q: int| 0 <= q < k ==> img.data@[q] <= mx,
            forall|q: int| 0 <= q < mn_at ==> img.data@[q] > mn,
            forall|q: int| 0 <= q < mx_at ==> img.data@[q] < mx,
        decreases n - k,
    {
        let v = img.data[k];
        if v < mn {
            mn = v;
            mn_at = k;
        }
        if v > mx {
            mx = v;
            mx_at = k;
        }
        k = k + 1;
    }
    let w = img.width;
    let mn_pos = (mn_at / w, mn_at % w);
    let mx_pos = (mx_at / w, mx_at % w);
    proof {
        lemma_min_unique(img@.grid, mn, mn_at as int);
        lemma_max_unique(img@.grid, mx, mx_at as int);
        crate::indexing::lemma_unflatten(mn_at as int, img@.width as int, img@.height as int);
        crate::indexing::lemma_unflatten(mx_at as int, img@.width as int, img@.height as int);
    }
    (mn, mx, mn_pos, mx_pos)
}

/// Range normalization onto [0, 255]. A constant raster maps to all-zero
/// rather than dividing by zero.
pub fn correction(img: &Raster<u8>) -> (r: Raster<u8>)
    requires
        img.wf(),
        img@.width >= 1,
        img@.height >= 1,
    ensures
        r.wf(),
        r@ == correction_v(img@),
{
    let (mn, mx, _, _) = min_max_locate(img);
    let n = img.data.len();
    let mut data: Vec<u8> = Vec::new();
    let mut k: usize = 0;
    if mn == mx {
        while k < n
            invariant
                n == img.data@.len(),
                k <= n,
                data@.len() == k,
                forall|q: int| 0 <= q < k ==> data@[q] == 0u8,
            decreases n - k,
        {
            data.push(0);
            k = k + 1;
        }
    } else {
        let range: u32 = (mx - mn) as u32;
        while k < n
            invariant
                n == img.data@.len(),
                k <= n,
                data@.len() == k,
                mn == seq_min(img@.grid),
                mx == seq_max(img@.grid),
                mn < mx,
                range == mx - mn,
                forall|q: int| 0 <= q < n ==> img.data@[q] >= mn && img.data@[q] <= mx,
                forall|q: int|
                    0 <= q < k ==> data@[q] == (((img.data@[q] - mn) * 255) / (mx - mn)) as u8,
            decreases n - k,
        {
            let d: u32 = (img.data[k] - mn) as u32;
            let scaled: u32 = d * 255 / range;
            proof {
                assert((d as int) * 255 / (range as int) <= 255) by (nonlinear_arith)
                    requires
                        0 <= d as int <= range as int,
                        1 <= range as int,
                ;
            }
            data.push(scaled as u8);
            k = k + 1;
        }
    }
    let r = Raster { width: img.width, height: img.height, data };
    proof {
        assert(r@.grid =~= correction_v(img@).grid);
        assert(r@ =~= correction_v(img@));
    }
    r
}

/// Structural equality of two 8-bit rasters: equal dimensions and equal
/// samples everywhere.
pub fn same_raster(a: &Raster<u8>, b: &Raster<u8>) -> (r: bool)
    requires
        a.wf(),
        b.wf(),
    ensures
        r <==> a@ == b@,
{
    if a.width != b.width || a.height != b.height {
        return false;
    }
    let n = a.data.len();
    let mut k: usize = 0;
    while k < n
        invariant
            n == a.data@.len(),
            n == b.data@.len(),
            k <= n,
            forall|q: int| 0 <= q < k ==> a.data@[q] == b.data@[q],
        decreases n - k,
    {
        if a.data[k] != b.data[k] {
            return false;
        }
        k = k + 1;
    }
    proof {
        assert(a@.grid =~= b@.grid);
        assert(a@ =~= b@);
    }
    true
}

} // verus!
