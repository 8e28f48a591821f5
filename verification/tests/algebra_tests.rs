use rasterops::raster::Raster;
use rasterops::raster::RasterError;
use rasterops::algebra::not_image;
use rasterops::algebra::or_image;
use rasterops::algebra::and_image;
use rasterops::algebra::diff_image;
use rasterops::algebra::threshold_image;
use rasterops::algebra::scale_add_image;
use rasterops::algebra::min_max_locate;
use rasterops::algebra::correction;
use rasterops::algebra::same_raster;

fn mk(width: usize, height: usize, data: Vec<u8>) -> Raster<u8> {
    assert_eq!(data.len(), width * height);
    Raster { width, height, data }
}

#[test]
fn not_twice_restores_the_raster() {
    let img = mk(3, 2, vec![0, 1, 100, 254, 255, 42]);
    let back = not_image(&not_image(&img));
    assert!(same_raster(&img, &back));
}

#[test]
fn not_complements_each_sample() {
    let img = mk(2, 2, vec![0, 255, 100, 200]);
    let n = not_image(&img);
    assert_eq!(n.data, vec![255, 0, 155, 55]);
}

#[test]
fn or_with_complement_is_all_foreground() {
    let img = mk(4, 1, vec![0, 127, 200, 255]);
    let r = or_image(&img, &not_image(&img)).unwrap();
    assert_eq!(r.data, vec![255, 255, 255, 255]);
}

#[test]
fn and_with_complement_is_all_background() {
    let img = mk(4, 1, vec![0, 127, 200, 255]);
    let r = and_image(&img, &not_image(&img)).unwrap();
    assert_eq!(r.data, vec![0, 0, 0, 0]);
}

#[test]
fn or_and_diff_pointwise_values() {
    let a = mk(3, 1, vec![0b1010, 200, 7]);
    let b = mk(3, 1, vec![0b0110, 55, 9]);
    assert_eq!(or_image(&a, &b).unwrap().data, vec![0b1110, 255, 15]);
    assert_eq!(and_image(&a, &b).unwrap().data, vec![0b0010, 0, 1]);
    assert_eq!(diff_image(&a, &b).unwrap().data, vec![4, 145, 2]);
}

#[test]
fn mismatched_shapes_are_refused_with_the_dimensions() {
    let a = mk(2, 2, vec![1, 2, 3, 4]);
    let b = mk(4, 1, vec![1, 2, 3, 4]);
    let e = or_image(&a, &b).unwrap_err();
    assert_eq!(
        e,
        RasterError::ShapeMismatch {
            left_width: 2,
            left_height: 2,
            right_width: 4,
            right_height: 1,
        }
    );
    assert!(and_image(&a, &b).is_err());
    assert!(diff_image(&a, &b).is_err());
}

#[test]
fn threshold_is_strictly_above() {
    let img = mk(4, 1, vec![99, 100, 101, 255]);
    let r = threshold_image(&img, 100, 255);
    assert_eq!(r.data, vec![0, 0, 255, 255]);
}

#[test]
fn scale_add_saturates_both_ways() {
    let img = mk(4, 1, vec![10, 200, 0, 128]);
    let r = scale_add_image(&img, 2, 0);
    assert_eq!(r.data, vec![20, 255, 0, 255]);
    let r2 = scale_add_image(&img, 1, -50);
    assert_eq!(r2.data, vec![0, 150, 0, 78]);
}

#[test]
fn min_max_locate_finds_the_single_maximum() {
    let img = mk(4, 3, vec![
        9, 9, 9, 9,
        9, 9, 9, 200,
        9, 3, 9, 9,
    ]);
    let (mn, mx, mn_pos, mx_pos) = min_max_locate(&img);
    assert_eq!(mn, 3);
    assert_eq!(mx, 200);
    assert_eq!(mn_pos, (2, 1));
    assert_eq!(mx_pos, (1, 3));
}

#[test]
fn min_max_locate_reports_first_occurrences() {
    let img = mk(3, 2, vec![5, 1, 1, 8, 8, 5]);
    let (mn, mx, mn_pos, mx_pos) = min_max_locate(&img);
    assert_eq!((mn, mx), (1, 8));
    assert_eq!(mn_pos, (0, 1));
    assert_eq!(mx_pos, (1, 0));
}

#[test]
fn correction_spreads_the_observed_range() {
    let img = mk(3, 1, vec![10, 20, 30]);
    let r = correction(&img);
    assert_eq!(r.data, vec![0, 127, 255]);
}

#[test]
fn correction_on_a_constant_raster_is_all_zero() {
    let img = mk(3, 2, vec![77, 77, 77, 77, 77, 77]);
    let r = correction(&img);
    assert_eq!(r.data, vec![0, 0, 0, 0, 0, 0]);
}

#[test]
fn same_raster_compares_shape_and_samples() {
    let a = mk(2, 1, vec![1, 2]);
    let b = mk(2, 1, vec![1, 2]);
    let c = mk(2, 1, vec![1, 3]);
    let d = mk(1, 2, vec![1, 2]);
    assert!(same_raster(&a, &b));
    assert!(!same_raster(&a, &c));
    assert!(!same_raster(&a, &d));
}
