use dbs_dither::context::DbsContext;
use dbs_dither::ops::Choice;
use dbs_dither::plane::GrayPlane;

const RAMP: [u8; 16] = [0, 32, 64, 96, 32, 64, 96, 128, 64, 96, 128, 160, 96, 128, 160, 255];

fn bits(weights: &[i64]) -> Vec<u64> {
    weights.iter().map(|&w| (w as f64).to_bits()).collect()
}

fn ramp() -> DbsContext {
    let img = GrayPlane { width: 4, height: 4, pixels: RAMP.to_vec() };
    let weights = bits(&[4096, 8192, 4096, 8192, 16384, 8192, 4096, 8192, 4096]);
    DbsContext::new(&img, 3, &weights)
}

fn picture(dbs: &DbsContext, map: &[i64]) -> Vec<i64> {
    let mut out = Vec::new();
    for y in 0..dbs.height {
        for x in 0..dbs.width {
            out.push(map[dbs.pixel_index(x, y)]);
        }
    }
    out
}

#[test]
fn kernel_weights_by_displacement() {
    let dbs = ramp();
    assert_eq!(dbs.get_kernel_weight(0, 0), 16384);
    assert_eq!(dbs.get_kernel_weight(-1, -1), 4096);
    assert_eq!(dbs.get_kernel_weight(1, 0), 8192);
    assert_eq!(dbs.get_kernel_weight(2, 1), 0);
    assert_eq!(dbs.get_kernel_weight(-9, -9), 0);
    assert_eq!(dbs.get_kernel_weight(-2, 0), 0);
}

#[test]
fn autocorrelation_by_displacement() {
    let dbs = ramp();
    assert_eq!(dbs.get_autocorr(0, 0), 9216);
    assert_eq!(dbs.get_autocorr(1, 0), 6144);
    assert_eq!(dbs.get_autocorr(-2, 2), 256);
    assert_eq!(dbs.get_autocorr(0, i32::MAX), 0);
    assert_eq!(dbs.get_autocorr(-3, 0), 0);
    assert_eq!(dbs.get_autocorr(3, -1), 0);
    assert_eq!(dbs.get_autocorr(i32::MIN, i32::MIN), 0);
}

#[test]
fn expected_changes_of_toggles() {
    let dbs = ramp();
    let mut all = Vec::new();
    for y in 0..4 {
        for x in 0..4 {
            all.push(dbs.calc_toggle_delta_se(x, y));
        }
    }
    assert_eq!(
        all,
        vec![
            1242, -3976, -3046, 3298, -3976, -4738, 5274, 3472, -3046, 5274, -2372, -7470, 3298,
            3472, -7470, -5404
        ]
    );
}

#[test]
fn expected_changes_of_swaps() {
    let dbs = ramp();
    assert_eq!(dbs.calc_swap_delta_se(2, 0, 3, 1), -7766);
    assert_eq!(dbs.calc_swap_delta_se(3, 1, 2, 0), -7766);
    assert_eq!(dbs.calc_swap_delta_se(3, 2, 2, 2), 18432);
    assert_eq!(dbs.calc_swap_delta_se(1, 1, 2, 2), -15302);
}

#[test]
fn a_toggle_is_carried_through() {
    let mut dbs = ramp();
    dbs.apply_toggle(1, 0);
    assert_eq!(dbs.halftone[dbs.pixel_index(1, 0)], 65536);
    assert_eq!(
        picture(&dbs, &dbs.error_map),
        vec![
            5108, 8160, -2104, -5686, -4128, -4160, -96, 6056, -10296, -4192, 11148, 14248, -5686,
            6056, 14248, 8144
        ]
    );
    assert_eq!(
        picture(&dbs, &dbs.e2_map),
        vec![
            2157, 2620, 13, -1423, -2500, -833, 2125, 3896, -5107, -435, 6818, 8599, -2959, 2872,
            8343, 7310
        ]
    );
}

#[test]
fn a_swap_is_carried_through() {
    let mut dbs = ramp();
    dbs.apply_swap(2, 0, 3, 1);
    assert_eq!(dbs.halftone[dbs.pixel_index(2, 0)], 65536);
    assert_eq!(dbs.halftone[dbs.pixel_index(3, 1)], 0);
    assert_eq!(
        picture(&dbs, &dbs.error_map),
        vec![
            -3084, -32, 1992, -5686, -8224, -8256, -4192, -6232, -10296, -4192, 7052, 6056, -5686,
            6056, 14248, 8144
        ]
    );
    assert_eq!(
        picture(&dbs, &dbs.e2_map),
        vec![
            -2451, -1476, -1011, -2959, -5572, -4417, -1971, -2248, -5875, -1971, 3234, 3223,
            -2959, 2616, 7319, 5774
        ]
    );
}

#[test]
fn only_different_pixels_can_be_swapped() {
    let dbs = ramp();
    assert!(dbs.can_swap(2, 0, 3, 1));
    assert!(dbs.can_swap(3, 1, 2, 0));
    assert!(!dbs.can_swap(0, 0, 1, 0));
    assert!(!dbs.can_swap(3, 3, 3, 2));
}

#[test]
fn bounds_around_two_points() {
    assert_eq!(DbsContext::swap_bounds((5, 9), (6, 8), 2), (3, 8, 6, 11));
    assert_eq!(
        DbsContext::swap_bounds((0, i32::MAX), (0, 0), 1),
        (-1, 1, -1, i32::MAX)
    );
    assert_eq!(DbsContext::swap_bounds((4, 4), (4, 4), -1), (5, 3, 5, 3));
}

#[test]
fn changes_of_the_error_in_a_swap() {
    let dbs = ramp();
    let changes = (65536, -65536);
    assert_eq!(dbs.calc_swap_delta_e((4, 4), (4, 4), (5, 4), changes), Some(16384 - 8192));
    assert_eq!(dbs.calc_swap_delta_e((3, 4), (4, 4), (5, 4), changes), Some(8192));
    assert_eq!(dbs.calc_swap_delta_e((6, 5), (4, 4), (5, 4), changes), Some(-4096));
    assert_eq!(dbs.calc_swap_delta_e((2, 4), (4, 4), (5, 4), changes), None);
}

#[test]
fn best_operations() {
    let dbs = ramp();
    assert!(matches!(dbs.best_choice(0, 0), Choice::Keep));
    assert!(matches!(dbs.best_choice(1, 0), Choice::Toggle));
    assert!(matches!(dbs.best_choice(2, 0), Choice::Swap(1)));
    assert!(matches!(dbs.best_choice(3, 0), Choice::Swap(2)));
    assert!(matches!(dbs.best_choice(3, 1), Choice::Swap(5)));
    assert!(matches!(dbs.best_choice(0, 3), Choice::Swap(0)));
    assert!(matches!(dbs.best_choice(3, 3), Choice::Toggle));
}

#[test]
fn best_operations_are_carried_out() {
    let mut dbs = ramp();
    let before = dbs.halftone.clone();
    assert_eq!(dbs.try_best_operation(0, 0), None);
    assert_eq!(dbs.halftone, before);
    assert_eq!(dbs.try_best_operation(2, 0), Some(false));
    assert_eq!(dbs.halftone[dbs.pixel_index(2, 0)], 65536);
    assert_eq!(dbs.halftone[dbs.pixel_index(3, 1)], 0);
    let mut other = ramp();
    assert_eq!(other.try_best_operation(1, 0), Some(true));
    assert_eq!(other.halftone[other.pixel_index(1, 0)], 65536);
}

#[test]
fn a_kernel_of_one_tap_overlaps_only_with_itself() {
    let img = GrayPlane { width: 2, height: 2, pixels: vec![0, 255, 128, 127] };
    let dbs = DbsContext::new(&img, 1, &bits(&[65536]));
    assert_eq!(dbs.get_autocorr(0, 0), 65536);
    assert_eq!(dbs.get_autocorr(-1, 0), 0);
    assert_eq!(dbs.get_autocorr(1, 0), 0);
    assert_eq!(dbs.get_autocorr(0, -1), 0);
    assert_eq!(dbs.get_kernel_weight(-1, 0), 0);
    assert_eq!(dbs.calc_swap_delta_se(0, 1, 1, 1), 514);
    for y in 0..2 {
        for x in 0..2 {
            assert!(matches!(dbs.best_choice(x, y), Choice::Keep));
        }
    }
}

#[test]
fn a_swap_that_raises_the_error_is_left_alone() {
    let img = GrayPlane { width: 2, height: 1, pixels: vec![100, 200] };
    let mut dbs = DbsContext::new(&img, 1, &bits(&[65536]));
    assert_eq!(dbs.error_map, vec![-25700, 14136]);
    assert_eq!(dbs.e2_map, vec![-25700, 14136]);
    assert_eq!(dbs.calc_toggle_delta_se(0, 0), 14136);
    assert_eq!(dbs.calc_swap_delta_se(0, 0, 1, 0), 51400);
    assert_eq!(dbs.try_best_operation(0, 0), None);
    assert_eq!(dbs.try_best_operation(1, 0), None);
    assert_eq!(dbs.halftone, vec![0, 65536]);
    assert_eq!(dbs.error_map, vec![-25700, 14136]);
    assert_eq!(dbs.e2_map, vec![-25700, 14136]);
}
