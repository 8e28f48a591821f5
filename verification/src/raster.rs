//! Rasters: width x height grids of samples, stored row-major, and their
//! mathematical model.

use vstd::prelude::*;
use crate::indexing::lemma_flat_bound;
use crate::indexing::lemma_unflatten;

verus! {

/// The mathematical model of a raster: the dimensions and the row-major
/// sequence of samples.
#[verifier::ext_equal]
pub struct GridView<T> {
    pub width: nat,
    pub height: nat,
    pub grid: Seq<T>,
}

impl<T> GridView<T> {
    /// The grid holds exactly one sample per pixel.
    pub open spec fn wf(self) -> bool {
        self.grid.len() == self.width * self.height
    }

    pub open spec fn in_bounds(self, i: int, j: int) -> bool {
        0 <= i < self.height && 0 <= j < self.width
    }

    /// The sample at row `i`, column `j`.
    pub open spec fn pix(self, i: int, j: int) -> T {
        self.grid[i * self.width + j]
    }

    pub open spec fn same_dims<U>(self, other: GridView<U>) -> bool {
        self.width == other.width && self.height == other.height
    }
}

impl GridView<u8> {
    /// The sample at row `i`, column `j`, taking the constant value zero
    /// outside the raster (the border policy of the morphology engine).
    pub open spec fn pad(self, i: int, j: int) -> u8 {
        if self.in_bounds(i, j) {
            self.pix(i, j)
        } else {
            0u8
        }
    }
}

/// The grid of a fixed uniform sample.
pub open spec fn uniform_view<T>(w: nat, h: nat, v: T) -> GridView<T> {
    GridView { width: w, height: h, grid: Seq::new(w * h, |k: int| v) }
}

/// Two well-formed views of equal dimensions whose pixels agree everywhere
/// are equal.
pub proof fn lemma_grid_ext<T>(a: GridView<T>, b: GridView<T>)
    requires
        a.wf(),
        b.wf(),
        a.same_dims(b),
        forall|i: int, j: int|
            a.in_bounds(i, j) ==> a.pix(i, j) == b.pix(i, j),
    ensures
        a == b,
{
    assert forall|k: int| 0 <= k < a.grid.len() implies a.grid[k] == b.grid[k] by {
        assert(a.width > 0) by (nonlinear_arith)
            requires
                a.grid.len() == a.width * a.height,
                0 <= k < a.grid.len(),
        ;
        lemma_unflatten(k, a.width as int, a.height as int);
        let i = k / a.width as int;
        let j = k % a.width as int;
        assert(a.pix(i, j) == b.pix(i, j));
    }
    assert(a.grid =~= b.grid);
    assert(a =~= b);
}

/// Why a raster operation refused its operands. Binary pointwise operations
/// are defined only on rasters of equal dimensions; the offending dimensions
/// are reported to the caller.
#[derive(Clone, Copy, Debug, PartialEq, Eq, Structural)]
pub enum RasterError {
    ShapeMismatch {
        left_width: usize,
        left_height: usize,
        right_width: usize,
        right_height: usize,
    },
}

/// A raster of samples of type `T`, stored row-major.
#[derive(Debug)]
pub struct Raster<T> {
    pub width: usize,
    pub height: usize,
    pub data: Vec<T>,
}

impl<T> View for Raster<T> {
    type V = GridView<T>;

    open spec fn view(&self) -> GridView<T> {
        GridView { width: self.width as nat, height: self.height as nat, grid: self.data@ }
    }
}

impl<T> Raster<T> {
    pub open spec fn wf(self) -> bool {
        self@.wf()
    }

    /// Read the sample at row `i`, column `j`.
    pub fn get(&self, i: usize, j: usize) -> (v: T) where T: Copy
        requires
            self.wf(),
            (i as int) < self@.height,
            (j as int) < self@.width,
        ensures
            v == self@.pix(i as int, j as int),
    {
        let n = self.data.len();
        proof {
            lemma_flat_bound(i as int, j as int, self@.width as int, self@.height as int);
        }
        self.data[i * self.width + j]
    }

    /// A `width` x `height` raster holding `value` everywhere.
    pub fn new_filled(width: usize, height: usize, value: T) -> (r: Raster<T>) where T: Copy
        requires
            width * height <= usize::MAX,
        ensures
            r.wf(),
            r@ == uniform_view(width as nat, height as nat, value),
    {
        let total: usize = width * height;
        let mut data: Vec<T> = Vec::new();
        let mut k: usize = 0;
        while k < total
            invariant
                k <= total,
                data@.len() == k,
                forall|q: int| 0 <= q < k ==> data@[q] == value,
            decreases total - k,
        {
            data.push(value);
            k = k + 1;
        }
        let r = Raster { width, height, data };
        proof {
            assert(r@.grid =~= uniform_view(width as nat, height as nat, value).grid);
            assert(r@ =~= uniform_view(width as nat, height as nat, value));
        }
        r
    }
}

} // verus!
