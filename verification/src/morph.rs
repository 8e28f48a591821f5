//! Binary/grayscale morphology with disk-shaped structuring elements:
//! element generation, dilation (optionally iterated), erosion, opening and
//! closing. The border policy is constant zero padding.

use vstd::prelude::*;
use crate::raster::GridView;
use crate::raster::Raster;
use crate::indexing::lemma_flat_bound;
use crate::indexing::lemma_flat_inverse;

verus! {

/// Whether the structuring-element cell at row `di`, column `dj` lies inside
/// the centered disk of radius `size / 2`.
pub open spec fn disk_cell(size: int, di: int, dj: int) -> bool {
    let c = size / 2;
    (di - c) * (di - c) + (dj - c) * (dj - c) <= c * c
}

/// The disk-shaped structuring element: a `size` x `size` grid, 255 on the
/// filled disk of diameter `size` drawn at its center, 0 elsewhere.
pub open spec fn disk_v(size: nat) -> GridView<u8> {
    GridView {
        width: size,
        height: size,
        grid: Seq::new(
            size * size,
            |k: int| if disk_cell(size as int, k / size as int, k % size as int) { 255u8 } else { 0u8 },
        ),
    }
}

/// A usable structuring element: square, non-empty, well formed.
pub open spec fn se_wf(se: GridView<u8>) -> bool {
    se.wf() && se.width == se.height && se.width >= 1
}

/// The anchor of a structuring element: its central cell.
pub open spec fn se_center(se: GridView<u8>) -> int {
    se.width as int / 2
}

/// The sample a dilation fold sees for structuring-element cell `k` when
/// anchored at `(i, j)`: the padded image sample under an active cell, and
/// the neutral value 0 under an inactive one.
pub open spec fn dil_term(g: GridView<u8>, se: GridView<u8>, i: int, j: int, k: int) -> u8 {
    let c = se_center(se);
    let di = k / se.width as int;
    let dj = k % se.width as int;
    if se.grid[k] == 255 {
        g.pad(i + di - c, j + dj - c)
    } else {
        0u8
    }
}

/// Maximum of the first `m` dilation terms.
pub open spec fn dil_fold(g: GridView<u8>, se: GridView<u8>, i: int, j: int, m: nat) -> u8
    decreases m,
{
    if m == 0 {
        0u8
    } else {
        let prev = dil_fold(g, se, i, j, (m - 1) as nat);
        let t = dil_term(g, se, i, j, m - 1);
        if prev >= t {
            prev
        } else {
            t
        }
    }
}

/// The dilated sample at `(i, j)`: the largest padded sample under the
/// structuring element anchored there.
pub open spec fn dil_at(g: GridView<u8>, se: GridView<u8>, i: int, j: int) -> u8 {
    dil_fold(g, se, i, j, se.grid.len())
}

/// The sample an erosion fold sees for cell `k`: the padded image sample
/// under an active cell, and the neutral value 255 under an inactive one.
pub open spec fn ero_term(g: GridView<u8>, se: GridView<u8>, i: int, j: int, k: int) -> u8 {
    let c = se_center(se);
    let di = k / se.width as int;
    let dj = k % se.width as int;
    if se.grid[k] == 255 {
        g.pad(i + di - c, j + dj - c)
    } else {
        255u8
    }
}

/// Minimum of the first `m` erosion terms.
pub open spec fn ero_fold(g: GridView<u8>, se: GridView<u8>, i: int, j: int, m: nat) -> u8
    decreases m,
{
    if m == 0 {
        255u8
    } else {
        let prev = ero_fold(g, se, i, j, (m - 1) as nat);
        let t = ero_term(g, se, i, j, m - 1);
        if prev <= t {
            prev
        } else {
            t
        }
    }
}

/// The eroded sample at `(i, j)`: the smallest padded sample under the
/// structuring element anchored there.
pub open spec fn ero_at(g: GridView<u8>, se: GridView<u8>, i: int, j: int) -> u8 {
    ero_fold(g, se, i, j, se.grid.len())
}

/// One pass of dilation over the whole raster.
pub open spec fn dilate_v(g: GridView<u8>, se: GridView<u8>) -> GridView<u8> {
    GridView {
        width: g.width,
        height: g.height,
        grid: Seq::new(
            g.grid.len(),
            |k: int| dil_at(g, se, k / g.width as int, k % g.width as int),
        ),
    }
}

/// One pass of erosion over the whole raster.
pub open spec fn erode_v(g: GridView<u8>, se: GridView<u8>) -> GridView<u8> {
    GridView {
        width: g.width,
        height: g.height,
        grid: Seq::new(
            g.grid.len(),
            |k: int| ero_at(g, se, k / g.width as int, k % g.width as int),
        ),
    }
}

/// `times` passes of dilation.
pub open spec fn dilate_iter_v(g: GridView<u8>, se: GridView<u8>, times: nat) -> GridView<u8>
    decreases times,
{
    if times == 0 {
        g
    } else {
        dilate_v(dilate_iter_v(g, se, (times - 1) as nat), se)
    }
}

/// Opening as this library defines it: one dilation followed by one erosion
/// with the same disk.
pub open spec fn opening_v(g: GridView<u8>, size: nat) -> GridView<u8> {
    erode_v(dilate_v(g, disk_v(size)), disk_v(size))
}

/// Closing as this library defines it: one erosion followed by one dilation
/// with the same disk.
pub open spec fn closing_v(g: GridView<u8>, size: nat) -> GridView<u8> {
    dilate_v(erode_v(g, disk_v(size)), disk_v(size))
}

/// Build the disk-shaped structuring element of side `size`.
pub fn disk_element(size: usize) -> (r: Raster<u8>)
    requires
        1 <= size,
        size * size <= usize::MAX,
    ensures
        r.wf(),
        r@ == disk_v(size as nat),
{
    let c = size / 2;
    let mut data: Vec<u8> = Vec::new();
    let mut i: usize = 0;
    while i < size
        invariant
            1 <= size,
            size * size <= usize::MAX,
            c == size / 2,
            i <= size,
            data@.len() == i * size,
            forall|q: int| 0 <= q < data@.len() ==> data@[q] == disk_v(size as nat).grid[q],
        decreases size - i,
    {
        let mut j: usize = 0;
        while j < size
            invariant
                1 <= size,
                size * size <= usize::MAX,
                c == size / 2,
                i < size,
                j <= size,
                data@.len() == i * size + j,
                forall|q: int| 0 <= q < data@.len() ==> data@[q] == disk_v(size as nat).grid[q],
            decreases size - j,
        {
            let ddi: u64 = if i >= c { (i - c) as u64 } else { (c - i) as u64 };
            let ddj: u64 = if j >= c { (j - c) as u64 } else { (c - j) as u64 };
            let rr: u64 = c as u64;
            proof {
                assert(size as int <= 0xffff_ffff) by (nonlinear_arith)
                    requires
                        size as int * size as int <= usize::MAX as int,
                        1 <= size as int,
                        usize::MAX as int <= 0xffff_ffff_ffff_ffff,
                ;
                assert(ddi as int <= 0xffff_ffff);
                assert(ddj as int <= 0xffff_ffff);
                assert(rr as int <= 0xffff_ffff);
                assert((ddi as int) * (ddi as int) <= 0xffff_fffe_0000_0001) by (nonlinear_arith)
                    requires
                        0 <= ddi as int <= 0xffff_ffff,
                ;
                assert((ddj as int) * (ddj as int) <= 0xffff_fffe_0000_0001) by (nonlinear_arith)
                    requires
                        0 <= ddj as int <= 0xffff_ffff,
                ;
                assert((rr as int) * (rr as int) <= 0xffff_fffe_0000_0001) by (nonlinear_arith)
                    requires
                        0 <= rr as int <= 0xffff_ffff,
                ;
            }
            let inside = (ddi as u128) * (ddi as u128) + (ddj as u128) * (ddj as u128)
                <= (rr as u128) * (rr as u128);
            proof {
                lemma_flat_bound(i as int, j as int, size as int, size as int);
                lemma_flat_inverse(i as int, j as int, size as int);
                assert((ddi as int) * (ddi as int) == ((i as int) - (c as int)) * ((i as int) - (
                c as int))) by (nonlinear_arith)
                    requires
                        ddi as int == if i as int >= c as int {
                            (i as int) - (c as int)
                        } else {
                            (c as int) - (i as int)
                        },
                ;
                assert((ddj as int) * (ddj as int) == ((j as int) - (c as int)) * ((j as int) - (
                c as int))) by (nonlinear_arith)
                    requires
                        ddj as int == if j as int >= c as int {
                            (j as int) - (c as int)
                        } else {
                            (c as int) - (j as int)
                        },
                ;
                assert(inside == disk_cell(size as int, i as int, j as int));
            }
            data.push(if inside { 255u8 } else { 0u8 });
            j = j + 1;
        }
        i = i + 1;
        proof {
            assert((i - 1) * size + size == i as int * size) by (nonlinear_arith)
                requires
                    1 <= i as int,
            ;
        }
    }
    let r = Raster { width: size, height: size, data };
    proof {
        assert(size as int * size as int == (size * size) as int);
        assert(r@.grid =~= disk_v(size as nat).grid);
        assert(r@ =~= disk_v(size as nat));
    }
    r
}

/// One morphological pass shared by dilation and erosion: `erode` selects
/// the minimum-with-255-neutral fold, otherwise the maximum-with-0 fold.
fn morph_once(img: &Raster<u8>, se: &Raster<u8>, erode: bool) -> (r: Raster<u8>)
    requires
        img.wf(),
        se.wf(),
        se@.width >= 1,
        img@.width + se@.width <= usize::MAX,
        img@.height + se@.height <= usize::MAX,
    ensures
        r.wf(),
        erode ==> r@ == erode_v(img@, se@),
        !erode ==> r@ == dilate_v(img@, se@),
{
    let w = img.width;
    let h = img.height;
    let n = img.data.len();
    let sw = se.width;
    let sn = se.data.len();
    let c = sw / 2;
    let mut data: Vec<u8> = Vec::new();
    let mut i: usize = 0;
    while i < h
        invariant
            img.wf(),
            se.wf(),
            w == img@.width,
            h == img@.height,
            n == img.data@.len(),
            sw == se@.width,
            sw >= 1,
            sn == se.data@.len(),
            c == sw / 2,
            w + sw <= usize::MAX,
            h + se@.height <= usize::MAX,
            i <= h,
            data@.len() == i * w,
            forall|q: int|
                0 <= q < data@.len() ==> data@[q] == (if erode {
                    erode_v(img@, se@)
                } else {
                    dilate_v(img@, se@)
                }).grid[q],
        decreases h - i,
    {
        let mut j: usize = 0;
        while j < w
            invariant
                img.wf(),
                se.wf(),
                w == img@.width,
                h == img@.height,
                n == img.data@.len(),
                sw == se@.width,
                sw >= 1,
                sn == se.data@.len(),
                c == sw / 2,
                w + sw <= usize::MAX,
                h + se@.height <= usize::MAX,
                i < h,
                j <= w,
                data@.len() == i * w + j,
                forall|q: int|
                    0 <= q < data@.len() ==> data@[q] == (if erode {
                        erode_v(img@, se@)
                    } else {
                        dilate_v(img@, se@)
                    }).grid[q],
            decreases w - j,
        {
            let mut cur: u8 = if erode { 255 } else { 0 };
            let mut k: usize = 0;
            while k < sn
                invariant
                    img.wf(),
                    se.wf(),
                    w == img@.width,
                    h == img@.height,
                    n == img.data@.len(),
                    sw == se@.width,
                    sw >= 1,
                    sn == se.data@.len(),
                    c == sw / 2,
                    w + sw <= usize::MAX,
                    h + se@.height <= usize::MAX,
                    i < h,
                    j < w,
                    k <= sn,
                    erode ==> cur == ero_fold(img@, se@, i as int, j as int, k as nat),
                    !erode ==> cur == dil_fold(img@, se@, i as int, j as int, k as nat),
                decreases sn - k,
            {
                let active = se.data[k] == 255;
                let di = k / sw;
                let dj = k % sw;
                proof {
                    assert(di < se@.height && dj < sw) by (nonlinear_arith)
                        requires
                            di == k as int / sw as int,
                            dj == k as int % sw as int,
                            0 <= (k as int) && (k as int) < (sn as int),
                            sn as int == sw as int * se@.height,
                            sw as int >= 1,
                    ;
                }
                let t: u8 = if active {
                    // The padded sample at (i + di - c, j + dj - c).
                    let ip: usize = i + di;
                    let jp: usize = j + dj;
                    if ip >= c && jp >= c && ip - c < h && jp - c < w {
                        img.get(ip - c, jp - c)
                    } else {
                        0
                    }
                } else {
                    if erode {
                        255
                    } else {
                        0
                    }
                };
                proof {
                    if erode {
                        assert(t == ero_term(img@, se@, i as int, j as int, k as int));
                    } else {
                        assert(t == dil_term(img@, se@, i as int, j as int, k as int));
                    }
                }
                if erode {
                    if t < cur {
                        cur = t;
                    }
                } else {
                    if t > cur {
                        cur = t;
                    }
                }
                k = k + 1;
            }
            data.push(cur);
            proof {
                lemma_flat_bound(i as int, j as int, w as int, h as int);
                lemma_flat_inverse(i as int, j as int, w as int);
                assert(sn == se@.grid.len());
            }
            j = j + 1;
        }
        i = i + 1;
        proof {
            assert((i - 1) * w + w == i as int * w) by (nonlinear_arith)
                requires
                    1 <= i as int,
            ;
        }
    }
    let r = Raster { width: w, height: h, data };
    proof {
        assert(h as int * w as int == w as int * h as int) by (nonlinear_arith);
        if erode {
            assert(r@.grid =~= erode_v(img@, se@).grid);
            assert(r@ =~= erode_v(img@, se@));
        } else {
            assert(r@.grid =~= dilate_v(img@, se@).grid);
            assert(r@ =~= dilate_v(img@, se@));
        }
    }
    r
}

/// Dilation with the disk of side `size`, repeated `times` times.
pub fn dilated_image(img: &Raster<u8>, size: usize, times: usize) -> (r: Raster<u8>)
    requires
        img.wf(),
        1 <= size,
        size * size <= usize::MAX,
        img@.width + size <= usize::MAX,
        img@.height + size <= usize::MAX,
    ensures
        r.wf(),
        r@ == dilate_iter_v(img@, disk_v(size as nat), times as nat),
        r@.width == img@.width,
        r@.height == img@.height,
{
    let se = disk_element(size);
    let mut cur = Raster { width: img.width, height: img.height, data: clone_bytes(&img.data) };
    assert(cur@ == img@);
    let mut t: usize = 0;
    while t < times
        invariant
            se.wf(),
            se@ == disk_v(size as nat),
            se@.width == size,
            se@.height == size,
            1 <= size,
            img@.width + size <= usize::MAX,
            img@.height + size <= usize::MAX,
            t <= times,
            cur.wf(),
            cur@ == dilate_iter_v(img@, disk_v(size as nat), t as nat),
            cur@.width == img@.width,
            cur@.height == img@.height,
        decreases times - t,
    {
        cur = morph_once(&cur, &se, false);
        t = t + 1;
    }
    cur
}

/// Erosion with the disk of side `size`: a single pass, which is all the
/// defect pipeline ever needs.
pub fn eroded_image(img: &Raster<u8>, size: usize) -> (r: Raster<u8>)
    requires
        img.wf(),
        1 <= size,
        size * size <= usize::MAX,
        img@.width + size <= usize::MAX,
        img@.height + size <= usize::MAX,
    ensures
        r.wf(),
        r@ == erode_v(img@, disk_v(size as nat)),
{
    let se = disk_element(size);
    morph_once(img, &se, true)
}

/// Opening: one dilation then one erosion with the same disk.
pub fn opening(img: &Raster<u8>, size: usize) -> (r: Raster<u8>)
    requires
        img.wf(),
        1 <= size,
        size * size <= usize::MAX,
        img@.width + size <= usize::MAX,
        img@.height + size <= usize::MAX,
    ensures
        r.wf(),
        r@ == opening_v(img@, size as nat),
{
    let d = dilated_image(img, size, 1);
    proof {
        assert(dilate_iter_v(img@, disk_v(size as nat), 0) == img@);
        assert(d@ == dilate_v(img@, disk_v(size as nat)));
    }
    eroded_image(&d, size)
}

/// Closing: erosion then dilation with the same disk.
pub fn closing(img: &Raster<u8>, size: usize) -> (r: Raster<u8>)
    requires
        img.wf(),
        1 <= size,
        size * size <= usize::MAX,
        img@.width + size <= usize::MAX,
        img@.height + size <= usize::MAX,
    ensures
        r.wf(),
        r@ == closing_v(img@, size as nat),
{
    let e = eroded_image(img, size);
    let r = dilated_image(&e, size, 1);
    proof {
        assert(dilate_iter_v(e@, disk_v(size as nat), 0) == e@);
        assert(r@ == dilate_v(e@, disk_v(size as nat)));
    }
    r
}

/// Copy a byte vector (the raster payload) element by element.
fn clone_bytes(v: &Vec<u8>) -> (r: Vec<u8>)
    ensures
        r@ == v@,
{
    let n = v.len();
    let mut out: Vec<u8> = Vec::new();
    let mut k: usize = 0;
    while k < n
        invariant
            n == v@.len(),
            k <= n,
            out@.len() == k,
            forall|q: int| 0 <= q < k ==> out@[q] == v@[q],
        decreases n - k,
    {
        out.push(v[k]);
        k = k + 1;
    }
    proof {
        assert(out@ =~= v@);
    }
    out
}

} // verus!
