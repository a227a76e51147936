use dbs_dither::blocks::{block_size_signed, Block};
use dbs_dither::context::DbsContext;
use dbs_dither::plane::GrayPlane;

fn blank(width: u32, height: u32, size: i32) -> DbsContext {
    let img = GrayPlane { width, height, pixels: vec![0; (width * height) as usize] };
    DbsContext::new(&img, size, &[])
}

fn block(start_x: u32, start_y: u32, end_x: u32, end_y: u32) -> Block {
    Block { start_x, start_y, end_x, end_y }
}

#[test]
fn block_sizes() {
    assert_eq!(blank(2, 2, 3).compute_block_size(), 4);
    assert_eq!(blank(2, 2, 27).compute_block_size(), 52);
    assert_eq!(blank(2, 2, 2).compute_block_size(), 2);
    assert_eq!(blank(2, 2, 1).compute_block_size(), 1);
    assert_eq!(blank(2, 2, 0).compute_block_size(), 1);
    assert_eq!(blank(2, 2, -3).compute_block_size(), 64);
}

#[test]
fn block_sizes_with_a_sign() {
    assert_eq!(block_size_signed(52), 52);
    assert_eq!(block_size_signed(u32::MAX), 32);
}

#[test]
fn shifted_blocks() {
    let phases = blank(4, 4, 3).generate_blocks(1, 2, 4);
    assert_eq!(phases[0], vec![block(0, 0, 3, 2)]);
    assert_eq!(phases[1], vec![block(3, 0, 4, 2)]);
    assert_eq!(phases[2], vec![block(0, 2, 3, 4)]);
    assert_eq!(phases[3], vec![block(3, 2, 4, 4)]);
}

#[test]
fn blocks_of_a_row() {
    let phases = blank(12, 2, 3).generate_blocks(0, 0, 4);
    assert_eq!(phases[0], vec![block(0, 0, 4, 2), block(8, 0, 12, 2)]);
    assert_eq!(phases[1], vec![block(4, 0, 8, 2)]);
    assert!(phases[2].is_empty());
    assert!(phases[3].is_empty());
}

#[test]
fn negative_shifts() {
    let phases = blank(4, 1, 3).generate_blocks(-1, 0, 2);
    assert_eq!(phases[0], vec![block(1, 0, 3, 1)]);
    assert_eq!(phases[1], vec![block(0, 0, 1, 1), block(3, 0, 4, 1)]);
}

#[test]
fn pixels_of_a_block() {
    assert_eq!(block(1, 2, 4, 4).pixels(), 6);
    assert_eq!(block(4, 2, 1, 4).pixels(), 0);
    assert_eq!(block(0, 0, u32::MAX, 2).pixels(), u32::MAX as u64);
}

#[test]
fn every_pixel_lies_in_one_block() {
    let dbs = blank(13, 9, 3);
    for shift_x in 0..4 {
        for shift_y in 0..4 {
            let mut seen = vec![0; 13 * 9];
            for phase in dbs.generate_blocks(shift_x, shift_y, 4).iter() {
                for b in phase {
                    for y in b.start_y..b.end_y {
                        for x in b.start_x..b.end_x {
                            seen[(y * 13 + x) as usize] += 1;
                        }
                    }
                }
            }
            assert_eq!(seen, vec![1; 13 * 9]);
        }
    }
}

#[test]
fn blocks_of_a_phase_lie_apart() {
    let dbs = blank(30, 25, 3);
    for phase in dbs.generate_blocks(3, 1, 4).iter() {
        for (i, a) in phase.iter().enumerate() {
            for b in phase.iter().skip(i + 1) {
                let apart = a.end_x + 4 <= b.start_x
                    || b.end_x + 4 <= a.start_x
                    || a.end_y + 4 <= b.start_y
                    || b.end_y + 4 <= a.start_y;
                assert!(apart);
            }
        }
    }
}
