//! The frequency filter bank's exactly representable members: the ideal
//! ("perfect") low-pass kernel, which is a crisp binary disk; kernel
//! inversion (high-pass from low-pass); and the application of a binary
//! kernel to a complex spectrum. The smooth Butterworth and Gaussian
//! kernels are real-valued transfer functions and live with the caller's
//! floating-point code.

use vstd::prelude::*;
use crate::raster::GridView;
use crate::raster::Raster;
use crate::raster::RasterError;
use crate::algebra::not_v;
use crate::algebra::not_image;
use crate::spectral::Spectrum;
use crate::indexing::lemma_flat_bound;
use crate::indexing::lemma_flat_inverse;

verus! {

/// A two-level raster: every sample is either 0 or 255.
pub open spec fn is_binary_mask(g: GridView<u8>) -> bool {
    forall|k: int| 0 <= k < g.grid.len() ==> g.grid[k] == 0 || #[trigger] g.grid[k] == 255
}

/// Whether `(i, j)` lies inside the disk of `radius` centered on the
/// raster midpoint `(height / 2, width / 2)`.
pub open spec fn ideal_cell(width: int, height: int, radius: int, i: int, j: int) -> bool {
    let ci = height / 2;
    let cj = width / 2;
    (i - ci) * (i - ci) + (j - cj) * (j - cj) <= radius * radius
}

/// The ideal low-pass kernel: 255 (full pass) inside the centered disk,
/// 0 (full stop) outside.
pub open spec fn perfect_v(width: nat, height: nat, radius: nat) -> GridView<u8> {
    GridView {
        width,
        height,
        grid: Seq::new(
            width * height,
            |k: int|
                if ideal_cell(
                    width as int,
                    height as int,
                    radius as int,
                    k / width as int,
                    k % width as int,
                ) {
                    255u8
                } else {
                    0u8
                },
        ),
    }
}

/// The ideal kernel is exactly binary: every sample is 0 or 255.
pub proof fn lemma_perfect_filter_binary(width: nat, height: nat, radius: nat)
    ensures
        is_binary_mask(perfect_v(width, height, radius)),
{
}

/// The ideal kernel passes its center in full and never rises with the
/// squared distance from the center: of two pixels, if the nearer one is
/// stopped, the farther one is stopped too.
pub proof fn lemma_perfect_filter_monotone(
    width: nat,
    height: nat,
    radius: nat,
    i1: int,
    j1: int,
    i2: int,
    j2: int,
)
    requires
        perfect_v(width, height, radius).in_bounds(i1, j1),
        perfect_v(width, height, radius).in_bounds(i2, j2),
        (i1 - height / 2) * (i1 - height / 2) + (j1 - width / 2) * (j1 - width / 2) <= (i2 - height
            / 2) * (i2 - height / 2) + (j2 - width / 2) * (j2 - width / 2),
    ensures
        perfect_v(width, height, radius).pix(height as int / 2, width as int / 2) == 255,
        perfect_v(width, height, radius).pix(i2, j2) == 255 ==> perfect_v(
            width,
            height,
            radius,
        ).pix(i1, j1) == 255,
{
    let g = perfect_v(width, height, radius);
    let ci = height as int / 2;
    let cj = width as int / 2;
    lemma_flat_bound(i1, j1, width as int, height as int);
    lemma_flat_inverse(i1, j1, width as int);
    lemma_flat_bound(i2, j2, width as int, height as int);
    lemma_flat_inverse(i2, j2, width as int);
    lemma_flat_bound(ci, cj, width as int, height as int);
    lemma_flat_inverse(ci, cj, width as int);
    assert((radius as int) * (radius as int) >= 0) by (nonlinear_arith);
    assert(ideal_cell(width as int, height as int, radius as int, ci, cj));
}

/// Inverting a kernel twice restores it: the high-pass of the high-pass
/// is the original low-pass.
pub proof fn lemma_rev_involutive(g: GridView<u8>)
    ensures
        not_v(not_v(g)) == g,
{
    crate::algebra::lemma_not_involutive(g);
}

/// Build the ideal low-pass kernel for a `width` x `height` spectrum.
pub fn perfect_filter(width: usize, height: usize, radius: usize) -> (r: Raster<u8>)
    requires
        width * height <= usize::MAX,
    ensures
        r.wf(),
        r@ == perfect_v(width as nat, height as nat, radius as nat),
{
    let ci = height / 2;
    let cj = width / 2;
    proof {
        assert((radius as int) * (radius as int) <= 0xffff_ffff_ffff_fffe_0000_0000_0000_0001)
            by (nonlinear_arith)
            requires
                0 <= radius as int <= 0xffff_ffff_ffff_ffff,
        ;
    }
    let rsq: u128 = (radius as u128) * (radius as u128);
    let mut data: Vec<u8> = Vec::new();
    let mut i: usize = 0;
    while i < height
        invariant
            width * height <= usize::MAX,
            ci == height / 2,
            cj == width / 2,
            rsq == (radius as int) * (radius as int),
            i <= height,
            data@.len() == i * width,
            forall|q: int|
                0 <= q < data@.len() ==> data@[q] == perfect_v(
                    width as nat,
                    height as nat,
                    radius as nat,
                ).grid[q],
        decreases height - i,
    {
        let mut j: usize = 0;
        while j < width
            invariant
                width * height <= usize::MAX,
                ci == height / 2,
                cj == width / 2,
                rsq == (radius as int) * (radius as int),
                i < height,
                j <= width,
                data@.len() == i * width + j,
                forall|q: int|
                    0 <= q < data@.len() ==> data@[q] == perfect_v(
                        width as nat,
                        height as nat,
                        radius as nat,
                    ).grid[q],
            decreases width - j,
        {
            let ddi: u64 = if i >= ci {
                (i - ci) as u64
            } else {
                (ci - i) as u64
            };
            let ddj: u64 = if j >= cj {
                (j - cj) as u64
            } else {
                (cj - j) as u64
            };
            proof {
                assert((ddi as int) * (ddi as int) <= 0xffff_ffff_ffff_fffe_0000_0000_0000_0001)
                    by (nonlinear_arith)
                    requires
                        0 <= ddi as int <= 0xffff_ffff_ffff_ffff,
                ;
                assert((ddj as int) * (ddj as int) <= 0xffff_ffff_ffff_fffe_0000_0000_0000_0001)
                    by (nonlinear_arith)
                    requires
                        0 <= ddj as int <= 0xffff_ffff_ffff_ffff,
                ;
            }
            let disq: u128 = (ddi as u128) * (ddi as u128);
            let djsq: u128 = (ddj as u128) * (ddj as u128);
            let inside: bool = disq <= rsq && djsq <= rsq - disq;
            proof {
                lemma_flat_bound(i as int, j as int, width as int, height as int);
                lemma_flat_inverse(i as int, j as int, width as int);
                assert((ddi as int) * (ddi as int) == ((i as int) - (ci as int)) * ((i as int) - (
                ci as int))) by (nonlinear_arith)
                    requires
                        ddi as int == if i as int >= ci as int {
                            (i as int) - (ci as int)
                        } else {
                            (ci as int) - (i as int)
                        },
                ;
                assert((ddj as int) * (ddj as int) == ((j as int) - (cj as int)) * ((j as int) - (
                cj as int))) by (nonlinear_arith)
                    requires
                        ddj as int == if j as int >= cj as int {
                            (j as int) - (cj as int)
                        } else {
                            (cj as int) - (j as int)
                        },
                ;
                assert(inside == ideal_cell(
                    width as int,
                    height as int,
                    radius as int,
                    i as int,
                    j as int,
                ));
            }
            data.push(if inside {
                255u8
            } else {
                0u8
            });
            j = j + 1;
        }
        i = i + 1;
        proof {
            assert((i - 1) * width + width == i as int * width) by (nonlinear_arith)
                requires
                    1 <= i as int,
            ;
        }
    }
    let r = Raster { width, height, data };
    proof {
        assert(height as int * width as int == width as int * height as int) by (nonlinear_arith);
        assert(r@.grid =~= perfect_v(width as nat, height as nat, radius as nat).grid);
        assert(r@ =~= perfect_v(width as nat, height as nat, radius as nat));
    }
    r
}

/// Invert a kernel: high-pass from low-pass by pointwise complement
/// (255 stands for a transfer factor of one).
pub fn rev(filter: &Raster<u8>) -> (r: Raster<u8>)
    requires
        filter.wf(),
    ensures
        r.wf(),
        r@ == not_v(filter@),
{
    not_image(filter)
}

/// One plane of a spectrum masked by a binary kernel: samples under full
/// pass survive, samples under full stop become the all-zero word (the
/// encoding of floating-point zero).
pub open spec fn mask_plane_v(plane: GridView<u32>, mask: GridView<u8>) -> GridView<u32> {
    GridView {
        width: plane.width,
        height: plane.height,
        grid: Seq::new(
            plane.grid.len(),
            |k: int| if mask.grid[k] == 255 { plane.grid[k] } else { 0u32 },
        ),
    }
}

fn mask_plane(plane: &Raster<u32>, mask: &Raster<u8>) -> (r: Raster<u32>)
    requires
        plane.wf(),
        mask.wf(),
        plane@.same_dims(mask@),
    ensures
        r.wf(),
        r@ == mask_plane_v(plane@, mask@),
{
    let n = plane.data.len();
    let mut data: Vec<u32> = Vec::new();
    let mut k: usize = 0;
    while k < n
        invariant
            n == plane.data@.len(),
            n == mask.data@.len(),
            k <= n,
            data@.len() == k,
            forall|q: int| 0 <= q < k ==> data@[q] == mask_plane_v(plane@, mask@).grid[q],
        decreases n - k,
    {
        if mask.data[k] == 255 {
            data.push(plane.data[k]);
        } else {
            data.push(0);
        }
        k = k + 1;
    }
    let r = Raster { width: plane.width, height: plane.height, data };
    proof {
        assert(r@.grid =~= mask_plane_v(plane@, mask@).grid);
        assert(r@ =~= mask_plane_v(plane@, mask@));
    }
    r
}

/// Apply a binary kernel to a spectrum: both planes are masked by the same
/// real, zero-phase kernel. Refuses a kernel whose shape differs from the
/// spectrum's.
pub fn apply_filter(spectrum: &Spectrum, filter: &Raster<u8>) -> (r: Result<
    Spectrum,
    RasterError,
>)
    requires
        spectrum.wf(),
        filter.wf(),
    ensures
        r is Ok <==> spectrum.re@.same_dims(filter@),
        r is Ok ==> r->Ok_0.wf() && r->Ok_0.re@ == mask_plane_v(spectrum.re@, filter@)
            && r->Ok_0.im@ == mask_plane_v(spectrum.im@, filter@),
        r is Err ==> r->Err_0 == (RasterError::ShapeMismatch {
            left_width: spectrum.re.width,
            left_height: spectrum.re.height,
            right_width: filter.width,
            right_height: filter.height,
        }),
{
    if spectrum.re.width != filter.width || spectrum.re.height != filter.height {
        return Err(RasterError::ShapeMismatch {
            left_width: spectrum.re.width,
            left_height: spectrum.re.height,
            right_width: filter.width,
            right_height: filter.height,
        });
    }
    Ok(Spectrum { re: mask_plane(&spectrum.re, filter), im: mask_plane(&spectrum.im, filter) })
}

} // verus!
