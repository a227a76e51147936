//! Where a search ends: a pass counts nothing just where no operation helps at any pixel.
use crate::blocks::{Block, Grid};
use crate::context::{lemma_margin, DbsModel};
use crate::fixed::{clamp32, max_of, min_of};
use crate::fold::{count_between, grid_fold, row_fold};
use crate::grid_laws::{law_blocks_cover, lemma_first_cells};
use crate::progress::{phase_events, Event};
use crate::search::{
    fresh_tally, pass, pass_events, passes, passes_events, phases_events, processed, row_count,
    row_len, search_ends, search_events, search_with, settles, Tally,
};
use crate::search_laws::{blocks_inside, law_blocks_inside, law_search_frame};
use vstd::arithmetic::div_mod::lemma_fundamental_div_mod;
use vstd::prelude::*;

verus! {

/// Whether nothing is expected to lower the squared error at a pixel.
pub open spec fn at_rest(m: DbsModel, x: int, y: int) -> bool {
    m.best(x as u32, y as u32, 8).1 is Keep
}

/// A row that counts nothing changes nothing.
proof fn lemma_row_rest(t: Tally, block: Block, y: u32, n: nat)
    requires
        t.toggles >= 0,
        t.swaps >= 0,
        n <= row_len(block),
    ensures
        ({
            let u = t.visit_row(block, y, n);
            &&& t.toggles <= u.toggles <= t.toggles + n
            &&& t.swaps <= u.swaps <= t.swaps + n
            &&& u.toggles == 0 && u.swaps == 0 ==> u == t
            &&& u.toggles == 0 && u.swaps == 0 ==> forall|x: int|
                (if y % 2 == 0 {
                    block.start_x <= x < block.start_x + n
                } else {
                    block.end_x - n <= x < block.end_x
                }) ==> #[trigger] at_rest(t.model, x, y as int)
        }),
    decreases n,
{
    if n > 0 {
        lemma_row_rest(t, block, y, (n - 1) as nat);
    }
}

/// Rows that count nothing change nothing.
proof fn lemma_rows_rest(t: Tally, block: Block, n: nat)
    requires
        t.toggles >= 0,
        t.swaps >= 0,
        n <= row_count(block),
    ensures
        ({
            let u = t.visit_rows(block, n);
            &&& t.toggles <= u.toggles <= t.toggles + n * row_len(block)
            &&& t.swaps <= u.swaps <= t.swaps + n * row_len(block)
            &&& u.toggles == 0 && u.swaps == 0 ==> u == t
            &&& u.toggles == 0 && u.swaps == 0 ==> forall|x: int, y: int|
                block.start_x <= x < block.end_x && block.start_y <= y < block.start_y + n
                    ==> #[trigger] at_rest(t.model, x, y)
        }),
    decreases n,
{
    let len = row_len(block);
    if n > 0 {
        lemma_rows_rest(t, block, (n - 1) as nat);
        let before = t.visit_rows(block, (n - 1) as nat);
        lemma_row_rest(before, block, (block.start_y + n - 1) as u32, len);
        assert((n - 1) * len + len == n * len) by (nonlinear_arith);
    } else {
        assert(0 * len == 0);
    }
}

/// How many pixels a block holds.
pub open spec fn block_area(block: Block) -> int {
    (row_count(block) * row_len(block)) as int
}

/// How many pixels the first `n` blocks of a list hold.
pub open spec fn area_sum(blocks: Seq<Block>, n: nat) -> int
    decreases n,
{
    if n == 0 {
        0
    } else {
        area_sum(blocks, (n - 1) as nat) + block_area(blocks[n - 1])
    }
}

/// How many pixels the blocks of the first `n` phases hold.
pub open spec fn phases_area(g: Grid, n: nat) -> int
    decreases n,
{
    if n == 0 {
        0
    } else {
        phases_area(g, (n - 1) as nat) + area_sum(g.phase(n - 1), g.phase(n - 1).len())
    }
}

/// A count as a signed word of 32 bits holds it.
pub open spec fn word_of(count: int) -> int {
    if count >= 0x8000_0000 {
        count - 0x1_0000_0000
    } else {
        count
    }
}

/// Whether every pixel of a block is at rest.
pub open spec fn block_at_rest(m: DbsModel, block: Block) -> bool {
    forall|x: int, y: int| block.has(x, y) ==> #[trigger] at_rest(m, x, y)
}

/// A tally that counted `toggles` and `swaps`, at most `area` of each, from a context on: where
/// both are zero the context is as it was.
pub open spec fn counted(t: Tally, m: DbsModel, toggles: int, swaps: int, area: int) -> bool {
    &&& 0 <= toggles <= area
    &&& 0 <= swaps <= area
    &&& t.toggles == word_of(toggles)
    &&& t.swaps == word_of(swaps)
    &&& toggles == 0 && swaps == 0 ==> t.model == m
}

/// What the blocks of a list count, as long as they hold fewer pixels than words have values.
proof fn lemma_blocks_counted(
    t: Tally,
    m: DbsModel,
    toggles: int,
    swaps: int,
    area: int,
    blocks: Seq<Block>,
    n: nat,
) -> (r: (int, int))
    requires
        counted(t, m, toggles, swaps, area),
        n <= blocks.len(),
        area + area_sum(blocks, n) < 0x1_0000_0000,
    ensures
        toggles <= r.0,
        swaps <= r.1,
        counted(t.visit_blocks(blocks, n), m, r.0, r.1, area + area_sum(blocks, n)),
        r.0 == 0 && r.1 == 0 ==> forall|j: int|
            0 <= j < n ==> block_at_rest(m, #[trigger] blocks[j]),
    decreases n,
{
    if n == 0 {
        (toggles, swaps)
    } else {
        let b = blocks[n - 1];
        assert(block_area(b) >= 0) by (nonlinear_arith)
            requires
                block_area(b) == row_count(b) * row_len(b),
                row_count(b) >= 0,
                row_len(b) >= 0,
        ;
        let (t0, s0) = lemma_blocks_counted(
            t,
            m,
            toggles,
            swaps,
            area,
            blocks,
            (n - 1) as nat,
        );
        let before = t.visit_blocks(blocks, (n - 1) as nat);
        lemma_rows_rest(fresh_tally(before.model), b, row_count(b));
        let done = processed(before.model, b);
        (t0 + done.toggles, s0 + done.swaps)
    }
}

/// What the first phases of a grid count.
proof fn lemma_phases_counted(m: DbsModel, g: Grid, n: nat) -> (r: (int, int))
    requires
        n <= 4,
        phases_area(g, n) < 0x1_0000_0000,
    ensures
        counted(fresh_tally(m).visit_phases(g, n), m, r.0, r.1, phases_area(g, n)),
        r.0 == 0 && r.1 == 0 ==> forall|f: int, j: int|
            0 <= f < n && 0 <= j < g.phase(f).len() ==> block_at_rest(m, #[trigger] g.phase(f)[j]),
    decreases n,
{
    if n == 0 {
        (0, 0)
    } else {
        lemma_phases_area_grows(g, (n - 1) as nat, n);
        let (t0, s0) = lemma_phases_counted(m, g, (n - 1) as nat);
        let before = fresh_tally(m).visit_phases(g, (n - 1) as nat);
        let blocks = g.phase(n - 1);
        let r = lemma_blocks_counted(
            before,
            m,
            t0,
            s0,
            phases_area(g, (n - 1) as nat),
            blocks,
            blocks.len(),
        );
        r
    }
}

proof fn lemma_area_sum_grows(blocks: Seq<Block>, n: nat)
    ensures
        area_sum(blocks, n) >= 0,
    decreases n,
{
    if n > 0 {
        lemma_area_sum_grows(blocks, (n - 1) as nat);
        let b = blocks[n - 1];
        assert(block_area(b) >= 0) by (nonlinear_arith)
            requires
                block_area(b) == row_count(b) * row_len(b),
                row_count(b) >= 0,
                row_len(b) >= 0,
        ;
    }
}

proof fn lemma_phases_area_grows(g: Grid, k: nat, n: nat)
    requires
        k <= n,
    ensures
        phases_area(g, k) <= phases_area(g, n),
    decreases n,
{
    if k < n {
        lemma_phases_area_grows(g, k, (n - 1) as nat);
        lemma_area_sum_grows(g.phase(n - 1), g.phase(n - 1).len());
    }
}

/// How much of a side a cell covers.
pub open spec fn axis_len(b: int, size: int, shift: int, len: int) -> int {
    let start = clamp32(clamp32(b * size) - shift) as int;
    max_of(0, min_of(clamp32(start + size) as int, len) - max_of(start, 0))
}

/// How much of a side the cells up to one cover.
pub open spec fn axis_prefix(b: int, size: int, shift: int, len: int) -> int {
    max_of(0, min_of((b + 1) * size - shift, len))
}

proof fn lemma_axis_len(b: int, size: int, shift: int, len: int)
    requires
        0 <= shift < size <= i32::MAX,
        0 <= len,
        len + shift <= i32::MAX,
        -1 <= b,
    ensures
        axis_len(b, size, shift, len) == axis_prefix(b, size, shift, len) - axis_prefix(
            b - 1,
            size,
            shift,
            len,
        ),
        axis_prefix(-2, size, shift, len) == 0,
        0 <= axis_prefix(b, size, shift, len) <= len,
{
    assert((b + 1) * size == b * size + size) by (nonlinear_arith);
    assert((-2 + 1) * size == -size) by (nonlinear_arith);
    if b == -1 {
        assert(b * size == -size) by (nonlinear_arith)
            requires
                b == -1,
        ;
    } else {
        assert(b * size >= 0) by (nonlinear_arith)
            requires
                b >= 0,
                size > 0,
        ;
    }
}

/// How many pixels a cell holds, if it is of the phase `f`.
pub open spec fn cell_area(g: Grid, f: int, by: int, bx: int) -> int {
    match g.cell(by, bx) {
        Some(block) => if g.phase_of(by, bx) == f {
            block_area(block)
        } else {
            0
        },
        None => 0,
    }
}

/// How many pixels the first `n` cells of a row hold, of those of the phase `f`.
pub open spec fn row_area(g: Grid, f: int, by: int, n: nat) -> int
    decreases n,
{
    if n == 0 {
        0
    } else {
        row_area(g, f, by, (n - 1) as nat) + cell_area(g, f, by, n - 2)
    }
}

/// How many pixels the cells of the first `rows` rows hold, of those of the phase `f`.
pub open spec fn rows_area(g: Grid, f: int, rows: nat, cols: nat) -> int
    decreases rows,
{
    if rows == 0 {
        0
    } else {
        rows_area(g, f, (rows - 1) as nat, cols) + row_area(g, f, rows - 2, cols)
    }
}

proof fn lemma_area_sum_prefix(a: Seq<Block>, b: Seq<Block>, n: nat)
    requires
        n <= a.len(),
        n <= b.len(),
        forall|i: int| 0 <= i < n ==> a[i] == b[i],
    ensures
        area_sum(a, n) == area_sum(b, n),
    decreases n,
{
    if n > 0 {
        lemma_area_sum_prefix(a, b, (n - 1) as nat);
    }
}

proof fn lemma_row_area(g: Grid, f: int, blocks: Seq<Block>, by: int, n: nat)
    ensures
        ({
            let out = row_fold(g.phase_step(f), blocks, by, -1, n);
            area_sum(out, out.len()) == area_sum(blocks, blocks.len()) + row_area(g, f, by, n)
        }),
    decreases n,
{
    if n > 0 {
        lemma_row_area(g, f, blocks, by, (n - 1) as nat);
        let before = row_fold(g.phase_step(f), blocks, by, -1, (n - 1) as nat);
        let out = row_fold(g.phase_step(f), blocks, by, -1, n);
        assert(out == (g.phase_step(f))(before, by, n - 2));
        if out != before {
            lemma_area_sum_prefix(before, out, before.len());
        }
    }
}

proof fn lemma_rows_area(g: Grid, f: int, rows: nat, cols: nat)
    ensures
        ({
            let out = grid_fold(g.phase_step(f), Seq::<Block>::empty(), -1, -1, rows, cols);
            area_sum(out, out.len()) == rows_area(g, f, rows, cols)
        }),
    decreases rows,
{
    if rows > 0 {
        lemma_rows_area(g, f, (rows - 1) as nat, cols);
        lemma_row_area(
            g,
            f,
            grid_fold(g.phase_step(f), Seq::<Block>::empty(), -1, -1, (rows - 1) as nat, cols),
            rows - 2,
            cols,
        );
    }
}

/// The four phases together hold all pixels of a row of cells.
proof fn lemma_row_total(g: Grid, by: int, n: nat)
    requires
        g.sound(),
        -1 <= by,
    ensures
        row_area(g, 0, by, n) + row_area(g, 1, by, n) + row_area(g, 2, by, n) + row_area(
            g,
            3,
            by,
            n,
        ) == axis_len(by, g.size, g.shift_y, g.height) * axis_prefix(
            n - 2,
            g.size,
            g.shift_x,
            g.width,
        ),
    decreases n,
{
    let h = axis_len(by, g.size, g.shift_y, g.height);
    if n == 0 {
        lemma_axis_len(-1, g.size, g.shift_x, g.width);
        assert(h * 0 == 0);
    } else {
        lemma_row_total(g, by, (n - 1) as nat);
        let bx = n - 2;
        lemma_axis_len(bx, g.size, g.shift_x, g.width);
        let w = axis_len(bx, g.size, g.shift_x, g.width);
        let p = axis_prefix(bx - 1, g.size, g.shift_x, g.width);
        assert(h * (p + w) == h * p + h * w) by (nonlinear_arith);
        assert(cell_area(g, 0, by, bx) + cell_area(g, 1, by, bx) + cell_area(g, 2, by, bx)
            + cell_area(g, 3, by, bx) == h * w) by {
            let f = g.phase_of(by, bx);
            assert(0 <= f < 4);
            if g.cell(by, bx) is Some {
                let b = g.cell(by, bx)->0;
                assert(row_len(b) == w);
                assert(row_count(b) == h);
            } else {
                assert(h == 0 || w == 0);
                assert(h * w == 0) by (nonlinear_arith)
                    requires
                        h == 0 || w == 0,
                ;
            }
        }
    }
}

/// The four phases together hold all pixels of the first rows of cells.
proof fn lemma_rows_total(g: Grid, rows: nat, cols: nat)
    requires
        g.sound(),
    ensures
        rows_area(g, 0, rows, cols) + rows_area(g, 1, rows, cols) + rows_area(g, 2, rows, cols)
            + rows_area(g, 3, rows, cols) == axis_prefix(
            rows - 2,
            g.size,
            g.shift_y,
            g.height,
        ) * axis_prefix(cols - 2, g.size, g.shift_x, g.width),
    decreases rows,
{
    let w = axis_prefix(cols - 2, g.size, g.shift_x, g.width);
    if rows == 0 {
        lemma_axis_len(-1, g.size, g.shift_y, g.height);
        assert(0 * w == 0);
    } else {
        lemma_rows_total(g, (rows - 1) as nat, cols);
        lemma_row_total(g, rows - 2, cols);
        lemma_axis_len(rows - 2, g.size, g.shift_y, g.height);
        let h = axis_len(rows - 2, g.size, g.shift_y, g.height);
        let p = axis_prefix(rows - 3, g.size, g.shift_y, g.height);
        assert((p + h) * w == p * w + h * w) by (nonlinear_arith);
    }
}

/// The blocks hold no more pixels than the picture has.
pub proof fn lemma_phases_area(g: Grid)
    requires
        g.sound(),
    ensures
        0 <= phases_area(g, 4) <= g.width * g.height,
{
    lemma_first_cells(g);
    let rows = count_between(-1, g.last_row());
    let cols = count_between(-1, g.last_column());
    lemma_rows_area(g, 0, rows, cols);
    lemma_rows_area(g, 1, rows, cols);
    lemma_rows_area(g, 2, rows, cols);
    lemma_rows_area(g, 3, rows, cols);
    lemma_rows_total(g, rows, cols);
    reveal_with_fuel(phases_area, 5);
    if rows > 0 {
        lemma_axis_len(rows - 2, g.size, g.shift_y, g.height);
    } else {
        lemma_axis_len(-1, g.size, g.shift_y, g.height);
    }
    if cols > 0 {
        lemma_axis_len(cols - 2, g.size, g.shift_x, g.width);
    } else {
        lemma_axis_len(-1, g.size, g.shift_x, g.width);
    }
    let h = axis_prefix(rows - 2, g.size, g.shift_y, g.height);
    let w = axis_prefix(cols - 2, g.size, g.shift_x, g.width);
    assert(0 <= h * w <= g.width * g.height) by (nonlinear_arith)
        requires
            0 <= h <= g.height,
            0 <= w <= g.width,
    ;
}

/// The cells up to the last cover a whole side.
proof fn lemma_side_is_covered(size: int, shift: int, len: int)
    requires
        0 <= shift < size <= i32::MAX,
        0 < len,
        len + shift <= i32::MAX,
    ensures
        ({
            let last = clamp32(clamp32(clamp32(len - 1) + shift) as int / size + 1) as int;
            axis_prefix(last, size, shift, len) == len && last >= 0
        }),
{
    let a = len - 1 + shift;
    let q = a / size;
    lemma_fundamental_div_mod(a, size);
    assert(0 <= q <= a) by (nonlinear_arith)
        requires
            a == size * q + a % size,
            0 <= a % size < size,
            a >= 0,
            size >= 1,
    ;
    let last = clamp32(clamp32(clamp32(len - 1) + shift) as int / size + 1) as int;
    assert(last >= q);
    assert((last + 1) * size >= (q + 1) * size) by (nonlinear_arith)
        requires
            last >= q,
            size >= 1,
    ;
    assert((q + 1) * size == size * q + size) by (nonlinear_arith);
}

/// The blocks of the four phases hold as many pixels as the picture has. So what is shown of the
/// blocks of a pass adds up to the whole picture.
pub proof fn law_blocks_hold_all_pixels(g: Grid)
    requires
        g.sound(),
        g.width > 0,
        g.height > 0,
    ensures
        phases_area(g, 4) == g.width * g.height,
{
    lemma_first_cells(g);
    let rows = count_between(-1, g.last_row());
    let cols = count_between(-1, g.last_column());
    lemma_rows_area(g, 0, rows, cols);
    lemma_rows_area(g, 1, rows, cols);
    lemma_rows_area(g, 2, rows, cols);
    lemma_rows_area(g, 3, rows, cols);
    lemma_rows_total(g, rows, cols);
    reveal_with_fuel(phases_area, 5);
    lemma_side_is_covered(g.size, g.shift_x, g.width);
    lemma_side_is_covered(g.size, g.shift_y, g.height);
    assert(g.height * g.width == g.width * g.height) by (nonlinear_arith);
}

impl DbsModel {
    /// The grid with these shifts is sound, and the picture has fewer pixels than words have
    /// values.
    pub open spec fn countable(self, shift: (i32, i32)) -> bool {
        &&& self.grid(shift.0, shift.1, self.block_size()).sound()
        &&& self.width <= i32::MAX
        &&& self.height <= i32::MAX
        &&& self.width * self.height < 0x1_0000_0000
    }
}

/// A pass that counts nothing changes nothing, and leaves every pixel where no operation is
/// expected to lower the squared error.
pub proof fn law_settled_is_at_rest(m: DbsModel, shift: (i32, i32))
    requires
        m.countable(shift),
        settles(m, shift),
    ensures
        pass(m, shift).model == m,
        forall|x: u32, y: u32| m.has_pixel(x, y) ==> (#[trigger] m.best(x, y, 8)).1 is Keep,
{
    let g = m.grid(shift.0, shift.1, m.block_size());
    lemma_phases_area(g);
    let r = lemma_phases_counted(m, g, 4);
    assert(r.0 == 0 && r.1 == 0);
    assert forall|x: u32, y: u32| m.has_pixel(x, y) implies (#[trigger] m.best(
        x,
        y,
        8,
    )).1 is Keep by {
        let (f, j) = law_blocks_cover(g, x as int, y as int);
        assert(block_at_rest(m, g.phase(f)[j]));
        assert(at_rest(m, x as int, y as int));
    }
}

/// A pass that meets only pixels where no operation is expected to lower the squared error counts
/// nothing.
pub proof fn law_at_rest_settles(m: DbsModel, shift: (i32, i32))
    requires
        forall|x: u32, y: u32| m.has_pixel(x, y) ==> (#[trigger] m.best(x, y, 8)).1 is Keep,
    ensures
        settles(m, shift),
        pass(m, shift).model == m,
{
    lemma_phases_still(m, m.grid(shift.0, shift.1, m.block_size()), shift, 4);
}

proof fn lemma_row_still(m: DbsModel, block: Block, y: u32, n: nat)
    requires
        forall|x: u32, y: u32| m.has_pixel(x, y) ==> (#[trigger] m.best(x, y, 8)).1 is Keep,
        block.end_x <= m.width,
        y < m.height,
        n <= row_len(block),
    ensures
        fresh_tally(m).visit_row(block, y, n) == fresh_tally(m),
    decreases n,
{
    if n > 0 {
        lemma_row_still(m, block, y, (n - 1) as nat);
        let x = if y % 2 == 0 {
            block.start_x + n - 1
        } else {
            block.end_x - n
        };
        assert(m.best(x as u32, y, 8).1 is Keep);
    }
}

proof fn lemma_rows_still(m: DbsModel, block: Block, n: nat)
    requires
        forall|x: u32, y: u32| m.has_pixel(x, y) ==> (#[trigger] m.best(x, y, 8)).1 is Keep,
        block.end_x <= m.width,
        block.end_y <= m.height,
        n <= row_count(block),
    ensures
        fresh_tally(m).visit_rows(block, n) == fresh_tally(m),
    decreases n,
{
    if n > 0 {
        lemma_rows_still(m, block, (n - 1) as nat);
        lemma_row_still(m, block, (block.start_y + n - 1) as u32, row_len(block));
    }
}

proof fn lemma_blocks_still(m: DbsModel, blocks: Seq<Block>, n: nat)
    requires
        forall|x: u32, y: u32| m.has_pixel(x, y) ==> (#[trigger] m.best(x, y, 8)).1 is Keep,
        blocks_inside(blocks, m.width as int, m.height as int),
        n <= blocks.len(),
    ensures
        fresh_tally(m).visit_blocks(blocks, n) == fresh_tally(m),
    decreases n,
{
    if n > 0 {
        lemma_blocks_still(m, blocks, (n - 1) as nat);
        lemma_rows_still(m, blocks[n - 1], row_count(blocks[n - 1]));
    }
}

proof fn lemma_phases_still(m: DbsModel, g: Grid, shift: (i32, i32), n: nat)
    requires
        forall|x: u32, y: u32| m.has_pixel(x, y) ==> (#[trigger] m.best(x, y, 8)).1 is Keep,
        g == m.grid(shift.0, shift.1, m.block_size()),
        n <= 4,
    ensures
        fresh_tally(m).visit_phases(g, n) == fresh_tally(m),
    decreases n,
{
    if n > 0 {
        lemma_phases_still(m, g, shift, (n - 1) as nat);
        law_blocks_inside(m, shift.0, shift.1, m.block_size(), n - 1);
        lemma_blocks_still(m, g.phase(n - 1), g.phase(n - 1).len());
    }
}

/// Where a search ends because a pass counted nothing, no operation at any pixel is expected to
/// lower the squared error.
pub proof fn law_search_ends_at_rest(model: DbsModel, shifts: Seq<(i32, i32)>, end: Tally)
    requires
        model.wf(),
        search_with(model, shifts, end),
        settles(passes(model, shifts.drop_last()).model, shifts.last()),
        model.width + model.block_size() <= i32::MAX,
        model.height + model.block_size() <= i32::MAX,
        model.width * model.height < 0x1_0000_0000,
    ensures
        end.model == passes(model, shifts.drop_last()).model,
        forall|x: u32, y: u32|
            model.has_pixel(x, y) ==> (#[trigger] end.model.best(x, y, 8)).1 is Keep,
{
    let before = passes(model, shifts.drop_last()).model;
    let last = shifts.last();
    law_search_frame(model, shifts.drop_last());
    lemma_margin(model.kernel_size);
    assert(shifts[shifts.len() - 1] == last);
    assert(before.block_size() == model.block_size());
    law_settled_is_at_rest(before, last);
}

/// A second search from where one ended because a pass counted nothing makes one pass, whatever its
/// shifts are, counts nothing, and changes nothing.
pub proof fn law_second_search_does_nothing(
    model: DbsModel,
    shifts: Seq<(i32, i32)>,
    end: Tally,
    again: Seq<(i32, i32)>,
    second: Tally,
)
    requires
        model.wf(),
        search_with(model, shifts, end),
        settles(passes(model, shifts.drop_last()).model, shifts.last()),
        model.width + model.block_size() <= i32::MAX,
        model.height + model.block_size() <= i32::MAX,
        model.width * model.height < 0x1_0000_0000,
        search_with(end.model, again, second),
    ensures
        again.len() == 1,
        second == fresh_tally(end.model),
{
    law_search_ends_at_rest(model, shifts, end);
    law_search_frame(model, shifts);
    let m = end.model;
    law_at_rest_settles(m, again[0]);
    assert(again.take(0).len() == 0);
    assert(passes(m, again.take(0)).model == m);
    if again.len() > 1 {
        assert(!settles(passes(m, again.take(0)).model, again[0]));
    }
    assert(again.drop_last().len() == 0);
    assert(passes(m, again.drop_last()).model == m);
    assert(again.last() == again[0]);
}

/// No event of a phase says that the search has converged.
proof fn lemma_phases_events(g: Grid, number: usize, n: nat)
    ensures
        forall|k: int|
            0 <= k < phases_events(g, number, n).len() ==> !(#[trigger] phases_events(
                g,
                number,
                n,
            )[k] is Converged),
    decreases n,
{
    if n > 0 {
        lemma_phases_events(g, number, (n - 1) as nat);
        let before = phases_events(g, number, (n - 1) as nat);
        let more = phase_events(g.phase(n - 1), number, n - 1);
        assert forall|k: int|
            0 <= k < phases_events(g, number, n).len() implies !(#[trigger] phases_events(
            g,
            number,
            n,
        )[k] is Converged) by {
            if k < before.len() {
                assert(phases_events(g, number, n)[k] == before[k]);
            } else {
                assert(phases_events(g, number, n)[k] == more[k - before.len()]);
            }
        }
    }
}

/// A search shows last that it has converged just where its last pass counted nothing.
pub proof fn law_converged_is_shown(model: DbsModel, shifts: Seq<(i32, i32)>)
    requires
        shifts.len() > 0,
    ensures
        search_events(model, shifts).len() > 0,
        search_events(model, shifts).last() is Converged <==> settles(
            passes(model, shifts.drop_last()).model,
            shifts.last(),
        ),
{
    let before = passes(model, shifts.drop_last()).model;
    let number = shifts.len() as usize;
    let last = pass_events(before, shifts.last(), number);
    let g = before.grid(shifts.last().0, shifts.last().1, before.block_size());
    lemma_phases_events(g, number, 4);
    let tail = phases_events(g, number, 4);
    assert(passes_events(model, shifts).last() == last.last());
    if tail.len() > 0 {
        assert(last.last() == tail[tail.len() - 1]);
    } else {
        assert(last.last() == last[0]);
    }
}

/// Once a search has shown that it converged, a second one from there counts nothing and changes
/// nothing.
pub proof fn law_converged_stays(
    model: DbsModel,
    end: Tally,
    shown: Seq<Event>,
    second: Tally,
    again: Seq<Event>,
)
    requires
        model.wf(),
        search_ends(model, end, shown),
        shown.last() is Converged,
        model.width + model.block_size() <= i32::MAX,
        model.height + model.block_size() <= i32::MAX,
        model.width * model.height < 0x1_0000_0000,
        search_ends(end.model, second, again),
    ensures
        second == fresh_tally(end.model),
{
    let shifts = choose|shifts: Seq<(i32, i32)>| #[trigger]
        search_with(model, shifts, end) && shown == search_events(model, shifts);
    let more = choose|more: Seq<(i32, i32)>| #[trigger]
        search_with(end.model, more, second) && again == search_events(end.model, more);
    law_converged_is_shown(model, shifts);
    law_second_search_does_nothing(model, shifts, end, more, second);
}

} // verus!
