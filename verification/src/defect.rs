//! The gear-defect detection pipeline: binarize, fill interior holes by
//! flood fill from the outside corner, isolate thin protrusions as the
//! difference against an opening, denoise, grow a search ring, and combine
//! it with the secondary break-point mask. Every tuned constant of the
//! pipeline (threshold, disk sizes, iteration counts) is configuration.

use vstd::prelude::*;
use crate::raster::GridView;
use crate::raster::Raster;
use crate::algebra::not_v;
use crate::algebra::or_v;
use crate::algebra::diff_v;
use crate::algebra::threshold_v;
use crate::algebra::not_image;
use crate::algebra::or_image;
use crate::algebra::diff_image;
use crate::algebra::threshold_image;
use crate::flood::flood_v;
use crate::flood::flooded_image;
use crate::morph::disk_v;
use crate::morph::dilate_iter_v;
use crate::morph::erode_v;
use crate::morph::opening_v;
use crate::morph::closing_v;
use crate::morph::dilated_image;
use crate::morph::eroded_image;
use crate::morph::opening;
use crate::morph::closing;

verus! {

/// The tuned parameters of the defect pipeline. Values tuned for a
/// full-size gear photograph: threshold 100, protrusion size 15, denoise
/// size 3, ring size 7, 2 ring iterations, 3 break iterations.
pub struct DefectConfig {
    /// Binarization level: samples strictly above it become foreground.
    pub threshold: u8,
    /// Disk side removing thin protrusions (and growing break points back).
    pub protrusion_size: usize,
    /// Disk side of the small closing that denoises the defect mask.
    pub denoise_size: usize,
    /// Disk side of the ring dilation, cleaning and break-point erosions.
    pub ring_size: usize,
    /// How many times the cleaned defect mask is dilated into a ring.
    pub ring_iterations: usize,
    /// How many times the break-point masks are dilated.
    pub break_iterations: usize,
}

/// The configuration is usable on a `w` x `h` raster: disks are non-empty
/// and every intermediate raster and anchor offset stays addressable.
pub open spec fn cfg_wf(cfg: DefectConfig, w: nat, h: nat) -> bool {
    &&& 1 <= cfg.protrusion_size
    &&& 1 <= cfg.denoise_size
    &&& 1 <= cfg.ring_size
    &&& cfg.protrusion_size * cfg.protrusion_size <= usize::MAX
    &&& cfg.denoise_size * cfg.denoise_size <= usize::MAX
    &&& cfg.ring_size * cfg.ring_size <= usize::MAX
    &&& w + cfg.protrusion_size <= usize::MAX
    &&& h + cfg.protrusion_size <= usize::MAX
    &&& w + cfg.denoise_size <= usize::MAX
    &&& h + cfg.denoise_size <= usize::MAX
    &&& w + cfg.ring_size <= usize::MAX
    &&& h + cfg.ring_size <= usize::MAX
}

/// Fill the interior holes of a binary mask: flood the background from the
/// top-left corner with foreground, complement the flood so that exactly
/// the unreached holes (and the shape) remain, and union with the original
/// mask.
pub open spec fn fill_holes_v(g: GridView<u8>) -> GridView<u8> {
    or_v(g, not_v(flood_v(g, 0, 255, 0, 0, 255)))
}

/// The full pipeline on a grayscale view.
pub open spec fn defect_v(g: GridView<u8>, cfg: DefectConfig) -> GridView<u8> {
    let bin = threshold_v(g, cfg.threshold, 255);
    let filled = fill_holes_v(bin);
    let diff = diff_v(opening_v(filled, cfg.protrusion_size as nat), filled);
    let cleared_diff = closing_v(diff, cfg.denoise_size as nat);
    let ring = dilate_iter_v(cleared_diff, disk_v(cfg.ring_size as nat), cfg.ring_iterations as nat);
    let cleared_ring = opening_v(ring, cfg.ring_size as nat);
    let dilated_diff = erode_v(
        dilate_iter_v(diff, disk_v(cfg.ring_size as nat), cfg.break_iterations as nat),
        disk_v(cfg.ring_size as nat),
    );
    let break_points = dilate_iter_v(
        erode_v(diff_v(cleared_ring, dilated_diff), disk_v(cfg.ring_size as nat)),
        disk_v(cfg.protrusion_size as nat),
        cfg.break_iterations as nat,
    );
    or_v(break_points, cleared_ring)
}

/// Fill the interior holes of a binary mask. The flood from corner `(0, 0)`
/// claims the background and everything reachable from it without stepping
/// down in intensity; its complement marks the shape plus its holes, and
/// the union with the original restores the foreground with holes filled.
pub fn fill_holes(mask: &Raster<u8>) -> (r: Raster<u8>)
    requires
        mask.wf(),
        mask@.width >= 1,
        mask@.height >= 1,
    ensures
        r.wf(),
        r@ == fill_holes_v(mask@),
{
    let flooded = flooded_image(mask, (0, 0), 255, 0, 255);
    let inverted = not_image(&flooded);
    let r = match or_image(mask, &inverted) {
        Ok(r) => r,
        Err(_) => {
            proof {
                assert(false);
            }
            not_image(mask)
        },
    };
    r
}

/// Run the defect pipeline on a grayscale raster.
pub fn detect_defects(img: &Raster<u8>, cfg: &DefectConfig) -> (r: Raster<u8>)
    requires
        img.wf(),
        img@.width >= 1,
        img@.height >= 1,
        cfg_wf(*cfg, img@.width, img@.height),
    ensures
        r.wf(),
        r@ == defect_v(img@, *cfg),
{
    let bin = threshold_image(img, cfg.threshold, 255);
    let filled = fill_holes(&bin);
    let opened = opening(&filled, cfg.protrusion_size);
    let diff = match diff_image(&opened, &filled) {
        Ok(d) => d,
        Err(_) => {
            proof {
                assert(false);
            }
            threshold_image(img, 0, 0)
        },
    };
    let cleared_diff = closing(&diff, cfg.denoise_size);
    let ring = dilated_image(&cleared_diff, cfg.ring_size, cfg.ring_iterations);
    let cleared_ring = opening(&ring, cfg.ring_size);
    let dilated_diff = eroded_image(
        &dilated_image(&diff, cfg.ring_size, cfg.break_iterations),
        cfg.ring_size,
    );
    let break_diff = match diff_image(&cleared_ring, &dilated_diff) {
        Ok(d) => d,
        Err(_) => {
            proof {
                assert(false);
            }
            threshold_image(img, 0, 0)
        },
    };
    let break_points = dilated_image(
        &eroded_image(&break_diff, cfg.ring_size),
        cfg.protrusion_size,
        cfg.break_iterations,
    );
    let r = match or_image(&break_points, &cleared_ring) {
        Ok(d) => d,
        Err(_) => {
            proof {
                assert(false);
            }
            threshold_image(img, 0, 0)
        },
    };
    r
}

} // verus!
