use rasterops::raster::Raster;
use rasterops::defect::DefectConfig;
use rasterops::defect::fill_holes;
use rasterops::defect::detect_defects;

fn mk(width: usize, height: usize, data: Vec<u8>) -> Raster<u8> {
    assert_eq!(data.len(), width * height);
    Raster { width, height, data }
}

#[test]
fn fill_holes_fills_an_interior_hole_only() {
    // A 3x3 foreground block with its center knocked out, surrounded by
    // background: the hole is filled, the outside stays background.
    let mut data = vec![0u8; 25];
    for i in 1..4 {
        for j in 1..4 {
            data[i * 5 + j] = 255;
        }
    }
    data[2 * 5 + 2] = 0;
    let img = mk(5, 5, data);
    let filled = fill_holes(&img);
    let mut expected = vec![0u8; 25];
    for i in 1..4 {
        for j in 1..4 {
            expected[i * 5 + j] = 255;
        }
    }
    assert_eq!(filled.data, expected);
}

#[test]
fn fill_holes_keeps_a_solid_mask() {
    let mut data = vec![0u8; 16];
    for i in 1..3 {
        for j in 1..3 {
            data[i * 4 + j] = 255;
        }
    }
    let img = mk(4, 4, data.clone());
    let filled = fill_holes(&img);
    assert_eq!(filled.data, data);
}

#[test]
fn defect_pipeline_marks_the_notch_and_nothing_else() {
    // A 20x20 grayscale silhouette: a bright 12x12 block with a notch
    // (2 rows high, 3 columns deep, narrower than the protrusion disk)
    // cut into its right edge, and no interior holes.
    let mut data = vec![0u8; 400];
    for i in 4..16 {
        for j in 4..16 {
            data[i * 20 + j] = 200;
        }
    }
    for i in 9..11 {
        for j in 13..16 {
            data[i * 20 + j] = 0;
        }
    }
    let img = mk(20, 20, data);
    let cfg = DefectConfig {
        threshold: 100,
        protrusion_size: 5,
        denoise_size: 1,
        ring_size: 3,
        ring_iterations: 1,
        break_iterations: 1,
    };
    let result = detect_defects(&img, &cfg);
    let mut expected = vec![0u8; 400];
    for (i, j0, j1) in [(8usize, 13usize, 15usize), (9, 12, 16), (10, 12, 16), (11, 13, 15)] {
        for j in j0..j1 {
            expected[i * 20 + j] = 255;
        }
    }
    assert_eq!(result.data, expected);
}

#[test]
fn defect_pipeline_is_quiet_on_a_clean_silhouette() {
    // The same block without the notch: no defect is reported.
    let mut data = vec![0u8; 400];
    for i in 4..16 {
        for j in 4..16 {
            data[i * 20 + j] = 200;
        }
    }
    let img = mk(20, 20, data);
    let cfg = DefectConfig {
        threshold: 100,
        protrusion_size: 5,
        denoise_size: 1,
        ring_size: 3,
        ring_iterations: 1,
        break_iterations: 1,
    };
    let result = detect_defects(&img, &cfg);
    assert_eq!(result.data, vec![0u8; 400]);
}
