use rasterops::raster::Raster;
use rasterops::algebra::same_raster;
use rasterops::morph::disk_element;
use rasterops::morph::dilated_image;
use rasterops::morph::eroded_image;
use rasterops::morph::opening;
use rasterops::morph::closing;
use rasterops::flood::flooded_image;

fn mk(width: usize, height: usize, data: Vec<u8>) -> Raster<u8> {
    assert_eq!(data.len(), width * height);
    Raster { width, height, data }
}

#[test]
fn disk_elements_have_the_drawn_shapes() {
    assert_eq!(disk_element(1).data, vec![255]);
    assert_eq!(disk_element(3).data, vec![
        0, 255, 0,
        255, 255, 255,
        0, 255, 0,
    ]);
    assert_eq!(disk_element(4).data, vec![
        0, 0, 255, 0,
        0, 255, 255, 255,
        255, 255, 255, 255,
        0, 255, 255, 255,
    ]);
}

#[test]
fn dilating_a_point_grows_a_disk() {
    let mut data = vec![0u8; 25];
    data[2 * 5 + 2] = 255;
    let img = mk(5, 5, data);
    let once = dilated_image(&img, 3, 1);
    assert_eq!(once.data, vec![
        0, 0, 0, 0, 0,
        0, 0, 255, 0, 0,
        0, 255, 255, 255, 0,
        0, 0, 255, 0, 0,
        0, 0, 0, 0, 0,
    ]);
    let twice = dilated_image(&img, 3, 2);
    assert_eq!(twice.data, vec![
        0, 0, 255, 0, 0,
        0, 255, 255, 255, 0,
        255, 255, 255, 255, 255,
        0, 255, 255, 255, 0,
        0, 0, 255, 0, 0,
    ]);
}

#[test]
fn zero_padding_erodes_the_border() {
    let img = mk(3, 3, vec![255; 9]);
    let e = eroded_image(&img, 3);
    assert_eq!(e.data, vec![
        0, 0, 0,
        0, 255, 0,
        0, 0, 0,
    ]);
}

#[test]
fn opening_and_closing_on_a_blob_with_protrusion() {
    let mut data = vec![0u8; 64];
    for i in 2..7 {
        for j in 1..6 {
            data[i * 8 + j] = 255;
        }
    }
    data[3 * 8 + 6] = 255;
    data[0] = 255;
    let img = mk(8, 8, data);
    let o = opening(&img, 3);
    assert_eq!(o.data, vec![
        0, 0, 0, 0, 0, 0, 0, 0,
        0, 255, 0, 0, 0, 0, 0, 0,
        0, 255, 255, 255, 255, 255, 0, 0,
        0, 255, 255, 255, 255, 255, 255, 0,
        0, 255, 255, 255, 255, 255, 0, 0,
        0, 255, 255, 255, 255, 255, 0, 0,
        0, 255, 255, 255, 255, 255, 0, 0,
        0, 0, 0, 0, 0, 0, 0, 0,
    ]);
    let c = closing(&img, 3);
    assert_eq!(c.data, vec![
        0, 0, 0, 0, 0, 0, 0, 0,
        0, 0, 0, 0, 0, 0, 0, 0,
        0, 0, 255, 255, 255, 255, 0, 0,
        0, 255, 255, 255, 255, 255, 255, 0,
        0, 255, 255, 255, 255, 255, 0, 0,
        0, 255, 255, 255, 255, 255, 0, 0,
        0, 0, 255, 255, 255, 0, 0, 0,
        0, 0, 0, 0, 0, 0, 0, 0,
    ]);
}

#[test]
fn opening_is_idempotent_on_an_odd_disk() {
    let mut data = vec![0u8; 64];
    for i in 2..7 {
        for j in 1..6 {
            data[i * 8 + j] = 255;
        }
    }
    data[3 * 8 + 6] = 255;
    data[0] = 255;
    let img = mk(8, 8, data);
    let once = opening(&img, 3);
    let twice = opening(&once, 3);
    assert!(same_raster(&once, &twice));
}

#[test]
fn closing_is_idempotent_on_an_odd_disk() {
    let mut data = vec![0u8; 64];
    for i in 2..7 {
        for j in 1..6 {
            data[i * 8 + j] = 255;
        }
    }
    data[3 * 8 + 6] = 255;
    data[0] = 255;
    let img = mk(8, 8, data);
    let once = closing(&img, 3);
    let twice = closing(&once, 3);
    assert!(same_raster(&once, &twice));
}

#[test]
fn full_band_flood_claims_everything_reachable_upwards() {
    let img = mk(3, 3, vec![0, 0, 0, 0, 255, 0, 0, 0, 0]);
    // The band allows climbing, so the bright center is claimed too.
    let r = flooded_image(&img, (0, 0), 200, 0, 255);
    assert_eq!(r.data, vec![200; 9]);
    // A zero band keeps the flood on the seed's own level.
    let r2 = flooded_image(&img, (0, 0), 200, 0, 0);
    assert_eq!(r2.data, vec![200, 200, 200, 200, 255, 200, 200, 200, 200]);
}

#[test]
fn flood_cannot_step_down_into_a_hole() {
    // A bright ring with a dark hole: the outside flood climbs onto the
    // ring but never descends into the hole.
    let mut data = vec![0u8; 25];
    for i in 1..4 {
        for j in 1..4 {
            data[i * 5 + j] = 255;
        }
    }
    data[2 * 5 + 2] = 0;
    let img = mk(5, 5, data);
    let r = flooded_image(&img, (0, 0), 255, 0, 255);
    let mut expected = vec![255u8; 25];
    expected[2 * 5 + 2] = 0;
    assert_eq!(r.data, expected);
}

#[test]
fn opening_with_an_even_disk_need_not_be_idempotent() {
    // The even-sided disk is not symmetric about its anchor, so the
    // idempotence law holds for odd sides; this input shows the even edge.
    let img = mk(4, 4, vec![
        0, 255, 0, 0,
        0, 255, 0, 0,
        0, 255, 0, 0,
        0, 255, 0, 0,
    ]);
    let once = opening(&img, 2);
    let twice = opening(&once, 2);
    assert!(!same_raster(&once, &twice));
}
