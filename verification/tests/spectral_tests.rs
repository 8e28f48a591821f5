use rasterops::raster::Raster;
use rasterops::raster::RasterError;
use rasterops::spectral::fft_shift;
use rasterops::spectral::spectrum_from_planes;
use rasterops::spectral::shift_spectrum;
use rasterops::filters::perfect_filter;
use rasterops::filters::rev;
use rasterops::filters::apply_filter;
use rasterops::algebra::same_raster;

fn plane(width: usize, height: usize, data: Vec<u32>) -> Raster<u32> {
    assert_eq!(data.len(), width * height);
    Raster { width, height, data }
}

#[test]
fn fft_shift_swaps_even_quadrants() {
    let img = plane(4, 4, (0..16).collect());
    let s = fft_shift(&img);
    assert_eq!(s.data, vec![
        10, 11, 8, 9,
        14, 15, 12, 13,
        2, 3, 0, 1,
        6, 7, 4, 5,
    ]);
}

#[test]
fn fft_shift_twice_restores_even_rasters() {
    let img = plane(6, 4, (0..24).map(|v| v * 7 + 3).collect());
    let back = fft_shift(&fft_shift(&img));
    assert_eq!(back.data, img.data);
}

#[test]
fn fft_shift_leaves_odd_leftovers_in_place() {
    let img = plane(3, 3, (0..9).collect());
    let s = fft_shift(&img);
    // cx = cy = 1: the four 1x1 corner quadrants swap, the last row and
    // column stay.
    assert_eq!(s.data, vec![
        4, 3, 2,
        1, 0, 5,
        6, 7, 8,
    ]);
    let back = fft_shift(&s);
    assert_eq!(back.data, img.data);
}

#[test]
fn shift_spectrum_moves_both_planes_alike() {
    let re = plane(2, 2, vec![1, 2, 3, 4]);
    let im = plane(2, 2, vec![10, 20, 30, 40]);
    let sp = spectrum_from_planes(re, im).unwrap();
    let shifted = shift_spectrum(&sp);
    assert_eq!(shifted.re.data, vec![4, 3, 2, 1]);
    assert_eq!(shifted.im.data, vec![40, 30, 20, 10]);
}

#[test]
fn mismatched_planes_are_refused() {
    let re = plane(2, 2, vec![1, 2, 3, 4]);
    let im = plane(4, 1, vec![1, 2, 3, 4]);
    let e = spectrum_from_planes(re, im).unwrap_err();
    assert_eq!(
        e,
        RasterError::ShapeMismatch {
            left_width: 2,
            left_height: 2,
            right_width: 4,
            right_height: 1,
        }
    );
}

#[test]
fn perfect_filter_is_a_crisp_binary_disk() {
    let f = perfect_filter(5, 5, 1);
    assert_eq!(f.data, vec![
        0, 0, 0, 0, 0,
        0, 0, 255, 0, 0,
        0, 255, 255, 255, 0,
        0, 0, 255, 0, 0,
        0, 0, 0, 0, 0,
    ]);
    for v in perfect_filter(7, 5, 2).data {
        assert!(v == 0 || v == 255);
    }
}

#[test]
fn perfect_filter_passes_the_center_in_full() {
    let f = perfect_filter(8, 6, 0);
    assert_eq!(f.data[3 * 8 + 4], 255);
}

#[test]
fn rev_twice_restores_the_kernel() {
    let f = perfect_filter(6, 6, 2);
    let back = rev(&rev(&f));
    assert!(same_raster(&f, &back));
}

#[test]
fn rev_complements_the_kernel() {
    let f = perfect_filter(4, 4, 1);
    let hp = rev(&f);
    for (a, b) in f.data.iter().zip(hp.data.iter()) {
        assert_eq!(*a as u16 + *b as u16, 255);
    }
}

#[test]
fn apply_filter_masks_both_planes() {
    // A 2x2 spectrum and a kernel passing only the bottom-right quadrant
    // (the 2x2 ideal kernel of radius 0 is centered at (1, 1)).
    let re = plane(2, 2, vec![11, 12, 13, 14]);
    let im = plane(2, 2, vec![21, 22, 23, 24]);
    let sp = spectrum_from_planes(re, im).unwrap();
    let f = perfect_filter(2, 2, 0);
    assert_eq!(f.data, vec![0, 0, 0, 255]);
    let out = apply_filter(&sp, &f).unwrap();
    assert_eq!(out.re.data, vec![0, 0, 0, 14]);
    assert_eq!(out.im.data, vec![0, 0, 0, 24]);
}

#[test]
fn apply_filter_refuses_a_mismatched_kernel() {
    let re = plane(2, 2, vec![1, 2, 3, 4]);
    let im = plane(2, 2, vec![5, 6, 7, 8]);
    let sp = spectrum_from_planes(re, im).unwrap();
    let f = perfect_filter(3, 3, 1);
    assert!(apply_filter(&sp, &f).is_err());
}
