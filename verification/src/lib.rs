//! Classical image processing on in-memory rasters: pointwise image algebra,
//! disk-based binary morphology with a gear-defect detection pipeline, and the
//! index-level half of a frequency-domain filter bank (quadrant shifting,
//! binary filter kernels, and their application to complex spectra).
//!
//! Every raster is a plain width x height grid of samples. Eight-bit rasters
//! carry intensities and binary masks; spectra carry opaque 32-bit samples
//! whose numeric interpretation (the floating-point planes of a discrete
//! Fourier transform) is the caller's business. All operations are pure: they
//! read their inputs and return freshly owned results.

pub mod indexing;
pub mod raster;
pub mod algebra;
pub mod morph;
pub mod morph_laws;
pub mod flood;
pub mod spectral;
pub mod filters;
pub mod defect;
