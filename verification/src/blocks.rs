//! Blocks of pixels, in four phases.
use crate::context::{DbsContext, DbsModel};
use crate::fixed::{clamp32, max_of, min_of, sat_add32, sat_mul32, sat_sub32};
use crate::fold::{count_between, grid_fold, row_fold};
use crate::kernel::half_width;
use crate::ops::signed;
use vstd::prelude::*;

verus! {

/// A rectangle of pixels; the end lies outside of it.
#[derive(Debug, Clone, Copy, PartialEq, Eq, Structural)]
pub struct Block {
    pub start_x: u32,
    pub start_y: u32,
    pub end_x: u32,
    pub end_y: u32,
}

impl Block {
    /// Whether the block holds a pixel.
    pub open spec fn has(self, x: int, y: int) -> bool {
        self.start_x <= x < self.end_x && self.start_y <= y < self.end_y
    }

    /// How many pixels the block holds; the product saturates.
    pub open spec fn pixel_count(self) -> u64 {
        let w = if self.end_x >= self.start_x {
            self.end_x - self.start_x
        } else {
            0
        };
        let h = if self.end_y >= self.start_y {
            self.end_y - self.start_y
        } else {
            0
        };
        if w * h <= u32::MAX {
            (w * h) as u64
        } else {
            u32::MAX as u64
        }
    }

    /// How many pixels the block holds; the product saturates.
    pub fn pixels(&self) -> (r: u64)
        ensures
            r == self.pixel_count(),
    {
        let w: u32 = self.end_x.saturating_sub(self.start_x);
        let h: u32 = self.end_y.saturating_sub(self.start_y);
        assert(0 <= w * h) by (nonlinear_arith)
            requires
                0 <= w,
                0 <= h,
        ;
        match w.checked_mul(h) {
            Some(v) => v as u64,
            None => u32::MAX as u64,
        }
    }
}

/// A picture with a grid of square cells over it. The cell `(0, 0)` starts the shift to the left
/// of the picture's first column and above its first row.
pub struct Grid {
    pub width: int,
    pub height: int,
    pub size: int,
    pub shift_x: int,
    pub shift_y: int,
}

impl Grid {
    pub open spec fn first_column(self) -> int {
        clamp32(self.shift_x / self.size - 1) as int
    }

    pub open spec fn last_column(self) -> int {
        clamp32(clamp32(clamp32(self.width - 1) + self.shift_x) as int / self.size + 1) as int
    }

    pub open spec fn first_row(self) -> int {
        clamp32(self.shift_y / self.size - 1) as int
    }

    pub open spec fn last_row(self) -> int {
        clamp32(clamp32(clamp32(self.height - 1) + self.shift_y) as int / self.size + 1) as int
    }

    /// The pixels of a cell that lie in the picture, unless there are none.
    pub open spec fn cell(self, by: int, bx: int) -> Option<Block> {
        let left = clamp32(clamp32(bx * self.size) - self.shift_x) as int;
        let top = clamp32(clamp32(by * self.size) - self.shift_y) as int;
        let start_x = max_of(left, 0);
        let start_y = max_of(top, 0);
        let end_x = min_of(clamp32(left + self.size) as int, self.width);
        let end_y = min_of(clamp32(top + self.size) as int, self.height);
        if start_x >= end_x || start_y >= end_y {
            None
        } else {
            Some(
                Block {
                    start_x: start_x as u32,
                    start_y: start_y as u32,
                    end_x: end_x as u32,
                    end_y: end_y as u32,
                },
            )
        }
    }

    /// The phase of a cell: cells of one phase have rows, and columns, of one parity.
    pub open spec fn phase_of(self, by: int, bx: int) -> int {
        bx % 2 + 2 * (by % 2)
    }

    /// Appends a cell to the blocks of a phase, if it belongs to them.
    pub open spec fn phase_step(self, phase: int) -> spec_fn(Seq<Block>, int, int) -> Seq<Block> {
        |blocks: Seq<Block>, by: int, bx: int|
            match self.cell(by, bx) {
                Some(block) => if self.phase_of(by, bx) == phase {
                    blocks.push(block)
                } else {
                    blocks
                },
                None => blocks,
            }
    }

    /// The blocks of a phase: its cells, row by row.
    pub open spec fn phase(self, phase: int) -> Seq<Block> {
        grid_fold(
            self.phase_step(phase),
            Seq::<Block>::empty(),
            self.first_row(),
            self.first_column(),
            count_between(self.first_row(), self.last_row()),
            count_between(self.first_column(), self.last_column()),
        )
    }
}

impl DbsModel {
    /// How large the blocks are: so large that a change in the middle of one stays in it.
    pub open spec fn block_size(self) -> u32 {
        let size = clamp32(
            2 * max_of(self.kernel_radius as int, self.kernel.autocorr_size as int / 2),
        );
        if size < 0 {
            64
        } else if size == 0 {
            1
        } else {
            size as u32
        }
    }

    /// The grid over this picture.
    pub open spec fn grid(self, shift_x: i32, shift_y: i32, block_size: u32) -> Grid {
        Grid {
            width: signed(self.width),
            height: signed(self.height),
            size: signed_size(block_size) as int,
            shift_x: shift_x as int,
            shift_y: shift_y as int,
        }
    }
}

/// A block size as a signed number, and 32 where it is none.
pub open spec fn signed_size(block_size: u32) -> i32 {
    if block_size <= i32::MAX {
        block_size as i32
    } else {
        32
    }
}

/// See `signed_size`.
pub fn block_size_signed(block_size: u32) -> (r: i32)
    ensures
        r == signed_size(block_size),
{
    if block_size <= i32::MAX as u32 {
        block_size as i32
    } else {
        32
    }
}

/// The quotient, rounded down.
fn floor_div(a: i32, b: i32) -> (r: i32)
    requires
        b > 0,
    ensures
        r == a as int / b as int,
{
    assert(i32::MIN <= a as int / b as int <= i32::MAX) by (nonlinear_arith)
        requires
            b > 0,
            i32::MIN <= a <= i32::MAX,
    ;
    match a.checked_div_euclid(b) {
        Some(q) => q,
        None => 0,
    }
}

/// A side of the picture as a signed number, and zero where it is none.
fn signed_side(x: u32) -> (r: i32)
    ensures
        r == signed(x),
{
    if x <= i32::MAX as u32 {
        x as i32
    } else {
        0
    }
}

/// The pixels of one cell: see `Grid::cell`.
fn cell_block(
    width: i32,
    height: i32,
    size: i32,
    shift_x: i32,
    shift_y: i32,
    by: i32,
    bx: i32,
) -> (r: Option<Block>)
    ensures
        r == (Grid {
            width: width as int,
            height: height as int,
            size: size as int,
            shift_x: shift_x as int,
            shift_y: shift_y as int,
        }).cell(by as int, bx as int),
{
    let block_start_x: i32 = sat_sub32(sat_mul32(bx, size), shift_x);
    let block_start_y: i32 = sat_sub32(sat_mul32(by, size), shift_y);
    let block_end_x: i32 = sat_add32(block_start_x, size);
    let block_end_y: i32 = sat_add32(block_start_y, size);
    let start_x: i32 = if block_start_x >= 0 {
        block_start_x
    } else {
        0
    };
    let start_y: i32 = if block_start_y >= 0 {
        block_start_y
    } else {
        0
    };
    let end_x: i32 = if block_end_x <= width {
        block_end_x
    } else {
        width
    };
    let end_y: i32 = if block_end_y <= height {
        block_end_y
    } else {
        height
    };
    if start_x >= end_x || start_y >= end_y {
        None
    } else {
        Some(
            Block {
                start_x: start_x as u32,
                start_y: start_y as u32,
                end_x: end_x as u32,
                end_y: end_y as u32,
            },
        )
    }
}

/// Whether a number is odd, as zero or one.
fn parity(x: i32) -> (r: i32)
    ensures
        r == x as int % 2,
{
    assert(x & 1i32 == x % 2) by (bit_vector);
    x & 1
}

impl DbsContext {
    /// How large the blocks are.
    pub fn compute_block_size(&self) -> (r: u32)
        ensures
            r == self@.block_size(),
    {
        let autocorr_radius: i32 = half_width(self.kernel.autocorr_size);
        let max_radius: i32 = if self.kernel_radius >= autocorr_radius {
            self.kernel_radius
        } else {
            autocorr_radius
        };
        let size: i32 = sat_mul32(max_radius, 2);
        if size < 0 {
            64
        } else if size == 0 {
            1
        } else {
            size as u32
        }
    }

    /// The blocks of a grid over the picture, in four phases: see `Grid::phase`.
    pub fn generate_blocks(&self, shift_x: i32, shift_y: i32, block_size: u32) -> (r: [Vec<
        Block,
    >; 4])
        requires
            block_size > 0,
        ensures
            forall|f: int|
                0 <= f < 4 ==> (#[trigger] r[f])@ == self@.grid(shift_x, shift_y, block_size).phase(
                    f,
                ),
    {
        let width: i32 = signed_side(self.width);
        let height: i32 = signed_side(self.height);
        let size: i32 = block_size_signed(block_size);
        let start_bx: i32 = sat_sub32(floor_div(shift_x, size), 1);
        let start_by: i32 = sat_sub32(floor_div(shift_y, size), 1);
        let end_bx: i32 = sat_add32(
            floor_div(sat_add32(sat_sub32(width, 1), shift_x), size),
            1,
        );
        let end_by: i32 = sat_add32(
            floor_div(sat_add32(sat_sub32(height, 1), shift_y), size),
            1,
        );
        let mut phase0: Vec<Block> = Vec::new();
        let mut phase1: Vec<Block> = Vec::new();
        let mut phase2: Vec<Block> = Vec::new();
        let mut phase3: Vec<Block> = Vec::new();
        let ghost g = self@.grid(shift_x, shift_y, block_size);
        let ghost none = Seq::<Block>::empty();
        let ghost cols = count_between(start_bx as int, end_bx as int);
        let mut by: i64 = start_by as i64;
        while by <= end_by as i64
            invariant
                g == (Grid {
                    width: width as int,
                    height: height as int,
                    size: size as int,
                    shift_x: shift_x as int,
                    shift_y: shift_y as int,
                }),
                cols == count_between(start_bx as int, end_bx as int),
                none == Seq::<Block>::empty(),
                start_by <= by,
                start_by <= end_by ==> by <= end_by + 1,
                start_by > end_by ==> by == start_by,
                phase0@ == grid_fold(
                    g.phase_step(0),
                    none,
                    start_by as int,
                    start_bx as int,
                    (by - start_by) as nat,
                    cols,
                ),
                phase1@ == grid_fold(
                    g.phase_step(1),
                    none,
                    start_by as int,
                    start_bx as int,
                    (by - start_by) as nat,
                    cols,
                ),
                phase2@ == grid_fold(
                    g.phase_step(2),
                    none,
                    start_by as int,
                    start_bx as int,
                    (by - start_by) as nat,
                    cols,
                ),
                phase3@ == grid_fold(
                    g.phase_step(3),
                    none,
                    start_by as int,
                    start_bx as int,
                    (by - start_by) as nat,
                    cols,
                ),
            decreases end_by - by + 1,
        {
            let ghost row0 = phase0@;
            let ghost row1 = phase1@;
            let ghost row2 = phase2@;
            let ghost row3 = phase3@;
            let mut bx: i64 = start_bx as i64;
            while bx <= end_bx as i64
                invariant
                    g == (Grid {
                        width: width as int,
                        height: height as int,
                        size: size as int,
                        shift_x: shift_x as int,
                        shift_y: shift_y as int,
                    }),
                    start_by <= by <= end_by,
                    start_bx <= bx,
                    start_bx <= end_bx ==> bx <= end_bx + 1,
                    start_bx > end_bx ==> bx == start_bx,
                    phase0@ == row_fold(
                        g.phase_step(0),
                        row0,
                        by as int,
                        start_bx as int,
                        (bx - start_bx) as nat,
                    ),
                    phase1@ == row_fold(
                        g.phase_step(1),
                        row1,
                        by as int,
                        start_bx as int,
                        (bx - start_bx) as nat,
                    ),
                    phase2@ == row_fold(
                        g.phase_step(2),
                        row2,
                        by as int,
                        start_bx as int,
                        (bx - start_bx) as nat,
                    ),
                    phase3@ == row_fold(
                        g.phase_step(3),
                        row3,
                        by as int,
                        start_bx as int,
                        (bx - start_bx) as nat,
                    ),
                decreases end_bx - bx + 1,
            {
                match cell_block(width, height, size, shift_x, shift_y, by as i32, bx as i32) {
                    Some(block) => {
                        let phase: i32 = parity(bx as i32) + 2 * parity(by as i32);
                        if phase == 0 {
                            phase0.push(block);
                        } else if phase == 1 {
                            phase1.push(block);
                        } else if phase == 2 {
                            phase2.push(block);
                        } else {
                            phase3.push(block);
                        }
                    },
                    None => {},
                }
                bx = bx + 1;
            }
            by = by + 1;
        }
        [phase0, phase1, phase2, phase3]
    }
}

} // verus!
