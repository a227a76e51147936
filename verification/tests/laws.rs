use dbs_dither::blocks::Block;
use dbs_dither::context::DbsContext;
use dbs_dither::ops::Choice;
use dbs_dither::plane::GrayPlane;
use dbs_dither::progress::Progress;

const RAMP: [u8; 16] = [0, 32, 64, 96, 32, 64, 96, 128, 64, 96, 128, 160, 96, 128, 160, 255];

const ODD: [i64; 9] = [4001, 8003, 4001, 8003, 16385, 8003, 4001, 8003, 4001];

const STEPS: [(i32, i32); 8] =
    [(1, 0), (1, 1), (0, 1), (-1, 1), (-1, 0), (-1, -1), (0, -1), (1, -1)];

fn bits(weights: &[i64]) -> Vec<u64> {
    weights.iter().map(|&w| (w as f64).to_bits()).collect()
}

fn ramp() -> DbsContext {
    let img = GrayPlane { width: 4, height: 4, pixels: RAMP.to_vec() };
    DbsContext::new(&img, 3, &bits(&ODD))
}

fn noise() -> DbsContext {
    let pixels = vec![
        68, 32, 130, 60, 253, 230, 241, 194, 107, 48, 249, 14, 199, 221, 1, 228, 136, 117, 52, 162,
        15, 11, 13, 4,
    ];
    let img = GrayPlane { width: 12, height: 2, pixels };
    let weights = bits(&[4096, 8192, 4096, 8192, 16384, 8192, 4096, 8192, 4096]);
    DbsContext::new(&img, 3, &weights)
}

fn state(dbs: &DbsContext) -> (Vec<i64>, Vec<i64>, Vec<i64>) {
    (dbs.halftone.clone(), dbs.error_map.clone(), dbs.e2_map.clone())
}

fn squared_error(dbs: &DbsContext) -> i128 {
    dbs.error_map.iter().map(|&v| v as i128 * v as i128).sum()
}

fn residue(dbs: &DbsContext, x: u32, y: u32) -> i128 {
    let c = dbs.pixel_index(x, y);
    let under: i128 = dbs
        .kernel
        .offsets
        .iter()
        .map(|t| t.weight as i128 * dbs.error_map[(c as isize + t.offset) as usize] as i128)
        .sum();
    65536 * dbs.e2_map[c] as i128 - under
}

fn energy_loss(dbs: &DbsContext) -> i128 {
    let exact: i128 =
        dbs.kernel.offsets.iter().map(|t| t.weight as i128 * t.weight as i128).sum();
    exact - 65536 * dbs.kernel.c_pp as i128
}

#[test]
fn toggling_twice_undoes_it() {
    let mut dbs = ramp();
    let before = state(&dbs);
    dbs.apply_toggle(2, 1);
    assert_ne!(state(&dbs), before);
    dbs.apply_toggle(2, 1);
    assert_eq!(state(&dbs), before);
}

#[test]
fn swapping_twice_undoes_it() {
    let mut dbs = ramp();
    let before = state(&dbs);
    dbs.apply_swap(2, 0, 3, 1);
    assert_ne!(state(&dbs), before);
    dbs.apply_swap(2, 0, 3, 1);
    assert_eq!(state(&dbs), before);
}

#[test]
fn swapping_is_symmetric() {
    let (mut a, mut b) = (ramp(), ramp());
    a.apply_swap(2, 0, 3, 1);
    b.apply_swap(3, 1, 2, 0);
    assert_eq!(state(&a), state(&b));
}

#[test]
fn a_swap_is_two_toggles() {
    let (mut a, mut b) = (ramp(), ramp());
    a.apply_swap(1, 1, 2, 2);
    b.apply_toggle(1, 1);
    b.apply_toggle(2, 2);
    assert_eq!(state(&a), state(&b));
}

#[test]
fn toggles_commute() {
    let (mut a, mut b) = (ramp(), ramp());
    a.apply_toggle(0, 3);
    a.apply_toggle(1, 2);
    b.apply_toggle(1, 2);
    b.apply_toggle(0, 3);
    assert_eq!(state(&a), state(&b));
}

#[test]
fn swaps_keep_the_tone() {
    let mut dbs = ramp();
    let on: i64 = dbs.halftone.iter().sum();
    dbs.apply_swap(2, 0, 3, 1);
    assert_eq!(dbs.halftone.iter().sum::<i64>(), on);
}

#[test]
fn error_map_stays_exact() {
    let mut dbs = ramp();
    let mut progress = Progress::new(|_| {});
    for n in 1..4 {
        dbs.run_pass(1, 3, n, &mut progress);
        let error = dbs.error_map.clone();
        let mut again = ramp();
        again.halftone = dbs.halftone.clone();
        again.initialize_error_map();
        assert_eq!(error, again.error_map);
    }
}

#[test]
fn maps_depend_on_the_halftone_alone() {
    let mut dbs = ramp();
    let mut progress = Progress::new(|_| {});
    for n in 1..6 {
        dbs.run_pass(n as i32 % 4, 2, n, &mut progress);
    }
    let mut other = ramp();
    for y in 0..4 {
        for x in 0..4 {
            let i = other.pixel_index(x, y);
            if other.halftone[i] != dbs.halftone[i] {
                other.apply_toggle(x, y);
            }
        }
    }
    assert_eq!(state(&dbs), state(&other));
}

#[test]
fn expected_change_of_a_toggle() {
    for y in 0..4 {
        for x in 0..4 {
            let mut dbs = ramp();
            let expected = 65536 * dbs.calc_toggle_delta_se(x, y) as i128;
            let sign: i128 = if dbs.halftone[dbs.pixel_index(x, y)] == 0 { 1 } else { -1 };
            let lost = 2 * sign * residue(&dbs, x, y) - energy_loss(&dbs);
            let before = squared_error(&dbs);
            dbs.apply_toggle(x, y);
            assert_eq!(expected, squared_error(&dbs) - before + lost);
        }
    }
    assert_eq!(residue(&ramp(), 0, 0), -230358);
    assert_eq!(energy_loss(&ramp()), 178985);
}

#[test]
fn expected_change_of_a_swap() {
    let mut dbs = ramp();
    let shared: i128 = {
        let w = |y: i32, x: i32| {
            if y.abs() <= 1 && x.abs() <= 1 {
                ODD[((y + 1) * 3 + x + 1) as usize] as i128
            } else {
                0
            }
        };
        let mut sum = 0;
        for y in -1..=1 {
            for x in -1..=1 {
                sum += w(y, x) * w(y + 1, x + 1);
            }
        }
        sum
    };
    let overlap_loss = shared - 65536 * dbs.get_autocorr(-1, -1) as i128;
    assert!(0 <= overlap_loss && overlap_loss <= 65535 * 9);
    let expected = 65536 * dbs.calc_swap_delta_se(2, 0, 3, 1) as i128;
    let lost = 2 * (residue(&dbs, 2, 0) - residue(&dbs, 3, 1)) - 2 * energy_loss(&dbs)
        + 2 * overlap_loss;
    let before = squared_error(&dbs);
    dbs.apply_swap(2, 0, 3, 1);
    assert_eq!(expected, squared_error(&dbs) - before + lost);
}

#[test]
fn operations_that_promise_enough_lower_the_error() {
    let mut dbs = ramp();
    let promise = 65536 * dbs.calc_swap_delta_se(1, 1, 2, 2) as i128;
    let slack = 131070 * 9 + 2 * residue(&dbs, 1, 1).abs() + 2 * residue(&dbs, 2, 2).abs();
    assert!(promise + slack < 0);
    let before = squared_error(&dbs);
    dbs.apply_swap(1, 1, 2, 2);
    assert!(squared_error(&dbs) < before);
    let mut dbs = ramp();
    let promise = 65536 * dbs.calc_toggle_delta_se(3, 2) as i128;
    assert!(promise + 65535 * 9 + 2 * residue(&dbs, 3, 2).abs() < 0);
    let before = squared_error(&dbs);
    dbs.apply_toggle(3, 2);
    assert!(squared_error(&dbs) < before);
}

#[test]
fn rounding_does_not_pile_up() {
    let start = ramp();
    let mut dbs = ramp();
    let mut progress = Progress::new(|_| {});
    for n in 1..20 {
        dbs.run_pass(n as i32 % 4, (n as i32 / 4) % 4, n, &mut progress);
        for y in 0..4 {
            for x in 0..4 {
                let first = residue(&start, x, y);
                assert!(-65535 * 9 <= first && first <= 0);
                assert!((residue(&dbs, x, y) - first).abs() <= 65535 * 9 * 25);
            }
        }
    }
}

#[test]
fn the_best_operation_is_the_least() {
    let dbs = ramp();
    for y in 0..4u32 {
        for x in 0..4u32 {
            let mut least = dbs.calc_toggle_delta_se(x, y).min(0);
            for (dx, dy) in STEPS {
                let (nx, ny) = (x as i32 + dx, y as i32 + dy);
                if (0..4).contains(&nx) && (0..4).contains(&ny) {
                    let (nx, ny) = (nx as u32, ny as u32);
                    if dbs.can_swap(x, y, nx, ny) {
                        least = least.min(dbs.calc_swap_delta_se(x, y, nx, ny));
                    }
                }
            }
            let best = match dbs.best_choice(x, y) {
                Choice::Keep => 0,
                Choice::Toggle => dbs.calc_toggle_delta_se(x, y),
                Choice::Swap(k) => {
                    let (dx, dy) = STEPS[k];
                    dbs.calc_swap_delta_se(x, y, (x as i32 + dx) as u32, (y as i32 + dy) as u32)
                }
            };
            assert_eq!(best, least);
        }
    }
}

#[test]
fn the_order_of_the_blocks_of_a_phase_is_free() {
    let left = Block { start_x: 0, start_y: 0, end_x: 4, end_y: 2 };
    let right = Block { start_x: 8, start_y: 0, end_x: 12, end_y: 2 };
    let (mut a, mut b) = (noise(), noise());
    assert_eq!(a.process_block(&left), (0, 0));
    assert_eq!(a.process_block(&right), (0, 1));
    assert_eq!(b.process_block(&right), (0, 1));
    assert_eq!(b.process_block(&left), (0, 0));
    assert_eq!(state(&a), state(&b));
}

#[test]
fn a_block_leaves_the_rest_alone() {
    let mut dbs = noise();
    let before = state(&dbs);
    dbs.process_block(&Block { start_x: 8, start_y: 0, end_x: 12, end_y: 2 });
    for y in 0..2 {
        for x in 0..12 {
            let i = dbs.pixel_index(x, y);
            if x < 7 {
                assert_eq!(dbs.halftone[i], before.0[i]);
            }
            if x < 5 {
                assert_eq!(dbs.e2_map[i], before.2[i]);
            }
        }
    }
    assert_ne!(state(&dbs), before);
}

#[test]
fn a_pass_counts_nothing_just_where_nothing_helps() {
    let mut dbs = ramp();
    let mut progress = Progress::new(|_| {});
    for n in 1..10 {
        let rest = (0..4)
            .all(|y| (0..4).all(|x| matches!(dbs.best_choice(x, y), Choice::Keep)));
        let before = state(&dbs);
        let counts = dbs.run_pass(0, 1, n, &mut progress);
        assert_eq!(rest, counts == (0, 0));
        assert_eq!(rest, state(&dbs) == before);
    }
}

#[test]
fn swapping_equal_pixels_changes_nothing() {
    let mut dbs = ramp();
    let before = state(&dbs);
    dbs.apply_swap(0, 0, 1, 0);
    assert_eq!(state(&dbs), before);
    dbs.apply_swap(3, 3, 3, 3);
    assert_eq!(state(&dbs), before);
}

#[test]
fn the_expected_change_of_a_toggle_is_undone() {
    for y in 0..4 {
        for x in 0..4 {
            let mut dbs = ramp();
            let i = dbs.pixel_index(x, y);
            let d = dbs.calc_toggle_delta_se(x, y);
            if dbs.halftone[i] == 0 {
                assert_eq!(d, dbs.kernel.c_pp + 2 * dbs.e2_map[i]);
            } else {
                assert_eq!(d, dbs.kernel.c_pp - 2 * dbs.e2_map[i]);
            }
            dbs.apply_toggle(x, y);
            assert_eq!(dbs.calc_toggle_delta_se(x, y), -d);
        }
    }
}

#[test]
fn the_expected_change_of_a_swap_is_that_of_two_toggles() {
    for (p, q) in [((2, 0), (3, 1)), ((1, 1), (2, 2)), ((0, 0), (3, 3)), ((0, 3), (1, 3))] {
        let mut dbs = ramp();
        assert!(dbs.can_swap(p.0, p.1, q.0, q.1));
        let d = dbs.calc_swap_delta_se(p.0, p.1, q.0, q.1);
        assert_eq!(d, dbs.calc_swap_delta_se(q.0, q.1, p.0, p.1));
        let mut other = ramp();
        let first = other.calc_toggle_delta_se(p.0, p.1);
        other.apply_toggle(p.0, p.1);
        assert_eq!(d, first + other.calc_toggle_delta_se(q.0, q.1));
        dbs.apply_swap(p.0, p.1, q.0, q.1);
        assert_eq!(dbs.calc_swap_delta_se(p.0, p.1, q.0, q.1), -d);
    }
}

#[test]
fn undoing_never_helps() {
    for y in 0..4u32 {
        for x in 0..4u32 {
            let mut dbs = ramp();
            let choice = dbs.best_choice(x, y);
            dbs.try_best_operation(x, y);
            match choice {
                Choice::Keep => {}
                Choice::Toggle => assert!(dbs.calc_toggle_delta_se(x, y) > 0),
                Choice::Swap(k) => {
                    let (nx, ny) = ((x as i32 + STEPS[k].0) as u32, (y as i32 + STEPS[k].1) as u32);
                    assert!(dbs.calc_swap_delta_se(x, y, nx, ny) > 0);
                }
            }
        }
    }
}

fn measure(start: &DbsContext, now: &DbsContext) -> i128 {
    (0..start.halftone.len())
        .map(|i| {
            let change = (now.halftone[i] - start.halftone[i]) as i128 / 65536;
            change * (start.e2_map[i] as i128 + now.e2_map[i] as i128)
        })
        .sum()
}

#[test]
fn every_operation_lowers_the_measure_by_what_is_expected() {
    let start = ramp();
    let mut dbs = ramp();
    for n in 0..3 {
        for y in 0..4u32 {
            for x in 0..4u32 {
                let before = measure(&start, &dbs);
                let expected = match dbs.best_choice(x, y) {
                    Choice::Keep => 0,
                    Choice::Toggle => dbs.calc_toggle_delta_se(x, y),
                    Choice::Swap(k) => {
                        let (dx, dy) = STEPS[k];
                        let (nx, ny) = ((x as i32 + dx) as u32, (y as i32 + dy) as u32);
                        dbs.calc_swap_delta_se(x, y, nx, ny)
                    }
                };
                dbs.try_best_operation(x, y);
                assert_eq!(measure(&start, &dbs), before + expected as i128);
            }
        }
        assert!(n > 0 || measure(&start, &dbs) < 0);
    }
}

#[test]
fn the_second_map_drifts_slowly() {
    let mut dbs = ramp();
    let pixels = [(0, 0), (1, 2), (3, 3), (1, 2), (2, 1), (0, 3), (2, 2)];
    for (n, (x, y)) in pixels.iter().enumerate() {
        dbs.apply_toggle(*x, *y);
        let mut again = ramp();
        again.halftone = dbs.halftone.clone();
        again.initialize_error_map();
        assert_eq!(again.error_map, dbs.error_map);
        for cy in 0..4 {
            for cx in 0..4 {
                let i = dbs.pixel_index(cx, cy);
                assert!((dbs.e2_map[i] - again.e2_map[i]).abs() <= (n as i64 + 1) * 9);
            }
        }
    }
}
