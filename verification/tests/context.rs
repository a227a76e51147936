use dbs_dither::context::{picture_fits, DbsContext};
use dbs_dither::plane::{byte_level, threshold_level, GrayPlane};

const RAMP: [u8; 16] = [0, 32, 64, 96, 32, 64, 96, 128, 64, 96, 128, 160, 96, 128, 160, 255];

fn bits(weights: &[i64]) -> Vec<u64> {
    weights.iter().map(|&w| (w as f64).to_bits()).collect()
}

fn ramp() -> DbsContext {
    let img = GrayPlane { width: 4, height: 4, pixels: RAMP.to_vec() };
    let weights = bits(&[4096, 8192, 4096, 8192, 16384, 8192, 4096, 8192, 4096]);
    DbsContext::new(&img, 3, &weights)
}

fn picture(dbs: &DbsContext, map: &[i64]) -> Vec<i64> {
    let mut out = Vec::new();
    for y in 0..dbs.height {
        for x in 0..dbs.width {
            out.push(map[dbs.pixel_index(x, y)]);
        }
    }
    out
}

#[test]
fn levels_of_bytes() {
    assert_eq!(byte_level(0), 0);
    assert_eq!(byte_level(1), 257);
    assert_eq!(byte_level(127), 32639);
    assert_eq!(byte_level(128), 32896);
    assert_eq!(byte_level(255), 65536);
    assert_eq!(threshold_level(32768), 0);
    assert_eq!(threshold_level(32769), 65536);
}

#[test]
fn dimensions_with_margin() {
    let dbs = ramp();
    assert_eq!((dbs.width, dbs.height), (4, 4));
    assert_eq!(dbs.padding, 2);
    assert_eq!((dbs.padded_width, dbs.padded_height), (8, 8));
    assert_eq!((dbs.kernel_size, dbs.kernel_radius), (3, 1));
    assert_eq!(dbs.original.len(), 64);
    assert_eq!(dbs.halftone.len(), 64);
    assert_eq!(dbs.error_map.len(), 64);
    assert_eq!(dbs.e2_map.len(), 64);
}

#[test]
fn taps_are_placed() {
    let dbs = ramp();
    assert_eq!(dbs.kernel.offsets[0].offset, -9);
    assert_eq!(dbs.kernel.offsets[4].offset, 0);
    assert_eq!(dbs.kernel.offsets[8].offset, 9);
    assert_eq!(dbs.kernel.autocorr_offsets[0].offset, -18);
    assert_eq!(dbs.kernel.autocorr_offsets[14].offset, 2);
}

#[test]
fn pixel_indices() {
    let dbs = ramp();
    assert_eq!(dbs.pixel_index(0, 0), 18);
    assert_eq!(dbs.pixel_index(3, 1), 29);
    assert_eq!(dbs.pixel_index(3, 3), 45);
    assert_eq!(dbs.pixel_index(u32::MAX, 0), u32::MAX as usize + 18);
}

#[test]
fn picture_and_threshold() {
    let dbs = ramp();
    assert_eq!(
        picture(&dbs, &dbs.original),
        vec![
            0, 8224, 16448, 24672, 8224, 16448, 24672, 32896, 16448, 24672, 32896, 41120, 24672,
            32896, 41120, 65536
        ]
    );
    let on: Vec<i64> = picture(&dbs, &dbs.halftone).iter().map(|v| v / 65536).collect();
    assert_eq!(on, vec![0, 0, 0, 0, 0, 0, 0, 1, 0, 0, 1, 1, 0, 1, 1, 1]);
    assert_eq!(dbs.original[17], 0);
    assert_eq!(dbs.original[22], 0);
    assert_eq!(dbs.halftone[0], 0);
}

#[test]
fn maps_at_the_start() {
    let dbs = ramp();
    assert_eq!(
        picture(&dbs, &dbs.error_map),
        vec![
            -3084, -8224, -10296, -5686, -8224, -12352, -4192, 6056, -10296, -4192, 11148, 14248,
            -5686, 6056, 14248, 8144
        ]
    );
    assert_eq!(
        picture(&dbs, &dbs.e2_map),
        vec![
            -3987, -6596, -6131, -2959, -6596, -6977, -1971, 2872, -6131, -1971, 5794, 8343, -2959,
            2872, 8343, 7310
        ]
    );
}

#[test]
fn error_reaches_past_the_picture_and_the_second_map_does_not() {
    let dbs = ramp();
    assert_eq!(dbs.error_map[17..23], [-514, -3084, -8224, -10296, -5686, -1044]);
    assert_eq!(dbs.error_map[16], 0);
    assert_eq!(dbs.error_map[23], 0);
    assert_eq!(dbs.e2_map[17], 0);
    assert_eq!(dbs.e2_map[22], 0);
}

#[test]
fn maps_can_be_computed_again() {
    let mut dbs = ramp();
    let error = dbs.error_map.clone();
    let e2 = dbs.e2_map.clone();
    dbs.initialize_error_map();
    assert_eq!(dbs.error_map, error);
    assert_eq!(dbs.e2_map, e2);
}

#[test]
fn bytes_past_the_last_pixel_are_not_read() {
    let img = GrayPlane { width: 2, height: 1, pixels: vec![255, 0, 255, 255] };
    let dbs = DbsContext::new(&img, 1, &bits(&[65536]));
    assert_eq!(dbs.original, vec![65536, 0]);
    assert_eq!(dbs.error_map, vec![0, 0]);
}

#[test]
fn empty_picture_with_a_margin() {
    let img = GrayPlane { width: 0, height: 0, pixels: vec![] };
    assert!(picture_fits(0, 0, 3));
    let dbs = DbsContext::new(&img, 3, &[]);
    assert_eq!(dbs.original, vec![0; 16]);
}

#[test]
fn pictures_that_fit() {
    assert!(picture_fits(4, 4, 3));
    assert!(picture_fits(1920, 1080, 27));
    assert!(picture_fits(5, 0, 1));
    assert!(!picture_fits(0, 5, 1));
    assert!(!picture_fits(0, 5, -3));
    assert!(!picture_fits(u32::MAX, u32::MAX, 27));
    assert!(!picture_fits(1, 1, i32::MAX));
}
