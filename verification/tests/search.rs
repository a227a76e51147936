use dbs_dither::blocks::Block;
use dbs_dither::context::DbsContext;
use dbs_dither::ops::Choice;
use dbs_dither::plane::GrayPlane;
use dbs_dither::progress::{Event, Progress};
use dbs_dither::search::{perform_dbs_with_progress, run_dbs_iterations};
use std::cell::RefCell;

const RAMP: [u8; 16] = [0, 32, 64, 96, 32, 64, 96, 128, 64, 96, 128, 160, 96, 128, 160, 255];

fn bits(weights: &[i64]) -> Vec<u64> {
    weights.iter().map(|&w| (w as f64).to_bits()).collect()
}

fn soft() -> Vec<u64> {
    bits(&[4096, 8192, 4096, 8192, 16384, 8192, 4096, 8192, 4096])
}

fn ramp_plane() -> GrayPlane {
    GrayPlane { width: 4, height: 4, pixels: RAMP.to_vec() }
}

fn ramp() -> DbsContext {
    DbsContext::new(&ramp_plane(), 3, &soft())
}

fn at_rest(dbs: &DbsContext) -> bool {
    (0..dbs.height).all(|y| (0..dbs.width).all(|x| matches!(dbs.best_choice(x, y), Choice::Keep)))
}

#[test]
fn passes_until_nothing_changes() {
    let mut dbs = ramp();
    let mut progress = Progress::new(|_| {});
    assert_eq!(dbs.run_pass(0, 0, 1, &mut progress), (1, 7));
    assert_eq!(
        dbs.render(4, 4),
        vec![0, 0, 0, 255, 0, 255, 0, 0, 0, 0, 255, 255, 255, 255, 0, 255]
    );
    assert_eq!(dbs.run_pass(0, 0, 2, &mut progress), (0, 1));
    assert_eq!(
        dbs.render(4, 4),
        vec![0, 0, 0, 255, 0, 255, 0, 0, 0, 0, 255, 255, 255, 0, 255, 255]
    );
    assert!(at_rest(&dbs));
    let before = (dbs.halftone.clone(), dbs.error_map.clone(), dbs.e2_map.clone());
    assert_eq!(dbs.run_pass(0, 0, 3, &mut progress), (0, 0));
    assert_eq!(before, (dbs.halftone.clone(), dbs.error_map.clone(), dbs.e2_map.clone()));
}

#[test]
fn a_shifted_pass() {
    let weights = bits(&[4001, 8003, 4001, 8003, 16385, 8003, 4001, 8003, 4001]);
    let mut dbs = DbsContext::new(&ramp_plane(), 3, &weights);
    let mut progress = Progress::new(|_| {});
    assert_eq!(dbs.run_pass(1, 2, 1, &mut progress), (1, 5));
    assert_eq!(
        dbs.render(4, 4),
        vec![0, 0, 0, 255, 0, 0, 255, 0, 255, 0, 0, 255, 0, 255, 255, 255]
    );
}

#[test]
fn a_pass_is_shown() {
    let shown = RefCell::new(Vec::new());
    let mut dbs = ramp();
    let mut progress = Progress::new(|e| shown.borrow_mut().push(e));
    dbs.run_pass(1, 2, 7, &mut progress);
    assert_eq!(
        *shown.borrow(),
        vec![
            Event::Started { number: 7, shift_x: 1, shift_y: 2 },
            Event::BlockDone { pixels: 6 },
            Event::PhaseDone { number: 7, phase: 1 },
            Event::BlockDone { pixels: 2 },
            Event::PhaseDone { number: 7, phase: 2 },
            Event::BlockDone { pixels: 6 },
            Event::PhaseDone { number: 7, phase: 3 },
            Event::BlockDone { pixels: 2 },
            Event::PhaseDone { number: 7, phase: 4 },
        ]
    );
}

#[test]
fn phases_without_blocks_are_not_shown() {
    let shown = RefCell::new(Vec::new());
    let mut dbs = ramp();
    let mut progress = Progress::new(|e| shown.borrow_mut().push(e));
    dbs.run_pass(0, 0, 1, &mut progress);
    assert_eq!(
        *shown.borrow(),
        vec![
            Event::Started { number: 1, shift_x: 0, shift_y: 0 },
            Event::BlockDone { pixels: 16 },
            Event::PhaseDone { number: 1, phase: 1 },
        ]
    );
}

#[test]
fn a_block_goes_to_and_fro() {
    let mut dbs = ramp();
    let whole = Block { start_x: 0, start_y: 0, end_x: 4, end_y: 4 };
    assert_eq!(dbs.process_block(&whole), (1, 7));
    let mut other = ramp();
    let mut counts = (0, 0);
    for y in 0..4u32 {
        for k in 0..4u32 {
            let x = if y % 2 == 0 { k } else { 3 - k };
            match other.try_best_operation(x, y) {
                Some(true) => counts.0 += 1,
                Some(false) => counts.1 += 1,
                None => {}
            }
        }
    }
    assert_eq!(counts, (1, 7));
    assert_eq!(dbs.halftone, other.halftone);
}

#[test]
fn an_empty_block_does_nothing() {
    let mut dbs = ramp();
    let before = dbs.halftone.clone();
    assert_eq!(dbs.process_block(&Block { start_x: 3, start_y: 0, end_x: 1, end_y: 4 }), (0, 0));
    assert_eq!(dbs.process_block(&Block { start_x: 0, start_y: 2, end_x: 4, end_y: 2 }), (0, 0));
    assert_eq!(dbs.halftone, before);
}

#[test]
fn a_black_picture_converges_at_once() {
    let shown = RefCell::new(Vec::new());
    let img = GrayPlane { width: 3, height: 2, pixels: vec![0; 6] };
    let mut progress = Progress::new(|e| shown.borrow_mut().push(e));
    let (dbs, toggles, swaps) = perform_dbs_with_progress(&img, 3, &soft(), &mut progress);
    assert_eq!((toggles, swaps), (0, 0));
    assert_eq!(dbs.render(3, 2), vec![0; 6]);
    let shown = shown.borrow();
    assert_eq!(shown[0], Event::Initializing);
    assert!(matches!(
        shown[1],
        Event::Started { number: 1, shift_x: 0..=3, shift_y: 0..=3 }
    ));
    assert_eq!(shown[shown.len() - 2], Event::Converged { number: 1 });
    assert_eq!(shown[shown.len() - 1], Event::Finished);
    let pixels: u64 =
        shown.iter().map(|e| if let Event::BlockDone { pixels } = e { *pixels } else { 0 }).sum();
    assert_eq!(pixels, 6);
}

#[test]
fn a_search_ends_where_nothing_helps() {
    for _ in 0..20 {
        let shown = RefCell::new(Vec::new());
        let mut dbs = ramp();
        let mut progress = Progress::new(|e| shown.borrow_mut().push(e));
        let (toggles, swaps) = run_dbs_iterations(&mut dbs, &mut progress);
        assert!(at_rest(&dbs));
        assert!(toggles + swaps > 0);
        let shown = shown.borrow();
        let starts = shown.iter().filter(|e| matches!(e, Event::Started { .. })).count();
        assert!(starts >= 2);
        assert_eq!(shown[shown.len() - 1], Event::Converged { number: starts });
    }
}

#[test]
fn shifts_differ_from_pass_to_pass() {
    let shown = RefCell::new(Vec::new());
    for _ in 0..64 {
        let mut dbs = ramp();
        let mut progress = Progress::new(|e| shown.borrow_mut().push(e));
        run_dbs_iterations(&mut dbs, &mut progress);
    }
    let mut columns: Vec<i32> = shown
        .borrow()
        .iter()
        .filter_map(|e| if let Event::Started { shift_x, .. } = e { Some(*shift_x) } else { None })
        .collect();
    columns.sort();
    columns.dedup();
    assert_eq!(columns, vec![0, 1, 2, 3]);
}

#[test]
fn a_search_keeps_the_picture() {
    let mut dbs = ramp();
    let original = dbs.original.clone();
    let mut progress = Progress::new(|_| {});
    run_dbs_iterations(&mut dbs, &mut progress);
    assert_eq!(dbs.original, original);
    assert!(dbs.halftone.iter().all(|&v| v == 0 || v == 65536));
    assert_eq!((dbs.padded_width, dbs.padded_height), (8, 8));
}

#[test]
fn a_kernel_of_one_tap_converges() {
    let img = GrayPlane { width: 2, height: 1, pixels: vec![100, 200] };
    let mut progress = Progress::new(|_| {});
    let (dbs, toggles, swaps) =
        perform_dbs_with_progress(&img, 1, &bits(&[65536]), &mut progress);
    assert_eq!((toggles, swaps), (0, 0));
    assert_eq!(dbs.render(2, 1), vec![0, 255]);
}

#[test]
fn a_second_search_does_nothing() {
    for _ in 0..10 {
        let mut dbs = ramp();
        let mut progress = Progress::new(|_| {});
        run_dbs_iterations(&mut dbs, &mut progress);
        let before = (dbs.halftone.clone(), dbs.error_map.clone(), dbs.e2_map.clone());
        assert_eq!(run_dbs_iterations(&mut dbs, &mut progress), (0, 0));
        assert_eq!(before, (dbs.halftone.clone(), dbs.error_map.clone(), dbs.e2_map.clone()));
    }
}

#[test]
fn every_event_reaches_the_watcher() {
    let seen = RefCell::new(Vec::new());
    let mut progress = Progress::new(|e| seen.borrow_mut().push(e));
    progress.emit(Event::Initializing);
    progress.emit(Event::BlockDone { pixels: 9 });
    assert_eq!(*seen.borrow(), vec![Event::Initializing, Event::BlockDone { pixels: 9 }]);
}
