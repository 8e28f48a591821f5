//! The index-level half of the spectral transform: quadrant swapping
//! ("FFT shift") that re-centers the zero-frequency term, and the complex
//! spectrum type, a pair of equally sized planes of opaque 32-bit samples.
//! The numeric DFT itself is the caller's business; this module handles
//! every sample movement exactly.

use vstd::prelude::*;
use crate::raster::GridView;
use crate::raster::Raster;
use crate::raster::RasterError;
use crate::raster::lemma_grid_ext;
use crate::indexing::lemma_flat_bound;
use crate::indexing::lemma_flat_inverse;

verus! {

/// The sample the shifted raster shows at `(i, j)`: quadrants are swapped
/// diagonally about the integer midpoint; for odd dimensions the last row
/// and column stay in place, the accepted off-center behavior.
pub open spec fn shift_pix<T>(g: GridView<T>, i: int, j: int) -> T {
    let cy = g.height as int / 2;
    let cx = g.width as int / 2;
    if i < cy {
        if j < cx {
            g.pix(i + cy, j + cx)
        } else if j < 2 * cx {
            g.pix(i + cy, j - cx)
        } else {
            g.pix(i, j)
        }
    } else if i < 2 * cy {
        if j < cx {
            g.pix(i - cy, j + cx)
        } else if j < 2 * cx {
            g.pix(i - cy, j - cx)
        } else {
            g.pix(i, j)
        }
    } else {
        g.pix(i, j)
    }
}

/// The whole shifted raster.
pub open spec fn fft_shift_v<T>(g: GridView<T>) -> GridView<T> {
    GridView {
        width: g.width,
        height: g.height,
        grid: Seq::new(g.grid.len(), |k: int| shift_pix(g, k / g.width as int, k % g.width as int)),
    }
}

/// The quadrant swap undoes itself: applied twice it restores the raster,
/// whatever the dimensions.
pub proof fn lemma_fft_shift_involutive<T>(g: GridView<T>)
    requires
        g.wf(),
    ensures
        fft_shift_v(fft_shift_v(g)) == g,
{
    let s = fft_shift_v(g);
    let ss = fft_shift_v(s);
    assert forall|i: int, j: int| ss.in_bounds(i, j) implies ss.pix(i, j) == g.pix(i, j) by {
        lemma_flat_bound(i, j, g.width as int, g.height as int);
        lemma_flat_inverse(i, j, g.width as int);
        let cy = g.height as int / 2;
        let cx = g.width as int / 2;
        // The source pixel the outer shift reads.
        let si: int = if i < cy { i + cy } else if i < 2 * cy { i - cy } else { i };
        let sj: int = if j < cx { j + cx } else if j < 2 * cx { j - cx } else { j };
        if i < 2 * cy && j < 2 * cx {
            assert(ss.pix(i, j) == s.pix(si, sj));
            lemma_flat_bound(si, sj, g.width as int, g.height as int);
            lemma_flat_inverse(si, sj, g.width as int);
            assert(s.pix(si, sj) == shift_pix(g, si, sj));
            assert(shift_pix(g, si, sj) == g.pix(i, j));
        } else {
            // Outside the four swapped quadrants nothing moves.
            assert(ss.pix(i, j) == s.pix(i, j));
            assert(s.pix(i, j) == shift_pix(g, i, j));
            assert(shift_pix(g, i, j) == g.pix(i, j));
        }
    }
    lemma_grid_ext(ss, g);
}

/// Quadrant-swap a raster of any sample type.
pub fn fft_shift<T: Copy>(img: &Raster<T>) -> (r: Raster<T>)
    requires
        img.wf(),
    ensures
        r.wf(),
        r@ == fft_shift_v(img@),
{
    let w = img.width;
    let h = img.height;
    let cy = h / 2;
    let cx = w / 2;
    let mut data: Vec<T> = Vec::new();
    let mut i: usize = 0;
    while i < h
        invariant
            img.wf(),
            w == img@.width,
            h == img@.height,
            cy == h / 2,
            cx == w / 2,
            i <= h,
            data@.len() == i * w,
            forall|q: int| 0 <= q < data@.len() ==> data@[q] == fft_shift_v(img@).grid[q],
        decreases h - i,
    {
        let mut j: usize = 0;
        while j < w
            invariant
                img.wf(),
                w == img@.width,
                h == img@.height,
                cy == h / 2,
                cx == w / 2,
                i < h,
                j <= w,
                data@.len() == i * w + j,
                forall|q: int| 0 <= q < data@.len() ==> data@[q] == fft_shift_v(img@).grid[q],
            decreases w - j,
        {
            let swapped = i < 2 * cy && j < 2 * cx;
            let si: usize = if !swapped {
                i
            } else if i < cy {
                i + cy
            } else {
                i - cy
            };
            let sj: usize = if !swapped {
                j
            } else if j < cx {
                j + cx
            } else {
                j - cx
            };
            let v = img.get(si, sj);
            proof {
                lemma_flat_bound(i as int, j as int, w as int, h as int);
                lemma_flat_inverse(i as int, j as int, w as int);
                assert(v == shift_pix(img@, i as int, j as int));
            }
            data.push(v);
            j = j + 1;
        }
        i = i + 1;
        proof {
            assert((i - 1) * w + w == i as int * w) by (nonlinear_arith)
                requires
                    1 <= i as int,
            ;
        }
    }
    let r = Raster { width: w, height: h, data };
    proof {
        assert(h as int * w as int == w as int * h as int) by (nonlinear_arith);
        assert(r@.grid =~= fft_shift_v(img@).grid);
        assert(r@ =~= fft_shift_v(img@));
    }
    r
}

/// A complex spectrum: the real and imaginary planes of a centered 2D DFT,
/// both the same size, samples opaque 32-bit words.
#[derive(Debug)]
pub struct Spectrum {
    pub re: Raster<u32>,
    pub im: Raster<u32>,
}

impl Spectrum {
    pub open spec fn wf(self) -> bool {
        self.re.wf() && self.im.wf() && self.re@.same_dims(self.im@)
    }
}

/// Pair two equally sized planes into a spectrum; refuse mismatched planes.
pub fn spectrum_from_planes(re: Raster<u32>, im: Raster<u32>) -> (r: Result<
    Spectrum,
    RasterError,
>)
    requires
        re.wf(),
        im.wf(),
    ensures
        r is Ok <==> re@.same_dims(im@),
        r is Ok ==> r->Ok_0.wf() && r->Ok_0.re@ == re@ && r->Ok_0.im@ == im@,
        r is Err ==> r->Err_0 == (RasterError::ShapeMismatch {
            left_width: re.width,
            left_height: re.height,
            right_width: im.width,
            right_height: im.height,
        }),
{
    if re.width != im.width || re.height != im.height {
        return Err(RasterError::ShapeMismatch {
            left_width: re.width,
            left_height: re.height,
            right_width: im.width,
            right_height: im.height,
        });
    }
    Ok(Spectrum { re, im })
}

/// Quadrant-swap both planes of a spectrum: the centering step that the
/// forward transform applies last and the inverse transform applies first.
pub fn shift_spectrum(s: &Spectrum) -> (r: Spectrum)
    requires
        s.wf(),
    ensures
        r.wf(),
        r.re@ == fft_shift_v(s.re@),
        r.im@ == fft_shift_v(s.im@),
{
    Spectrum { re: fft_shift(&s.re), im: fft_shift(&s.im) }
}

} // verus!
