//! What becomes of the blocks when the grid is shifted by a whole cell.
use crate::blocks::{Block, Grid};
use crate::fold::{count_between, grid_fold, row_fold};
use vstd::arithmetic::div_mod::{lemma_fundamental_div_mod, lemma_fundamental_div_mod_converse};
use vstd::prelude::*;

verus! {

/// Whether no number of a grid saturates.
pub open spec fn in_range(g: Grid) -> bool {
    &&& 0 < g.size
    &&& 0 <= g.width
    &&& 0 <= g.height
    &&& i32::MIN <= g.shift_x - 4 * g.size
    &&& i32::MIN <= g.shift_y - 4 * g.size
    &&& g.width + g.shift_x + 4 * g.size <= i32::MAX
    &&& g.height + g.shift_y + 4 * g.size <= i32::MAX
    &&& g.width + 4 * g.size <= i32::MAX
    &&& g.height + 4 * g.size <= i32::MAX
    &&& g.shift_x + 4 * g.size <= i32::MAX
    &&& g.shift_y + 4 * g.size <= i32::MAX
}

/// A fold along a row whose columns are numbered from one more.
proof fn lemma_row_moved(
    f: spec_fn(Seq<Block>, int, int) -> Seq<Block>,
    g: spec_fn(Seq<Block>, int, int) -> Seq<Block>,
    acc: Seq<Block>,
    y: int,
    dy: int,
    x0: int,
    dx: int,
    n: nat,
)
    requires
        forall|s: Seq<Block>, x: int|
            x0 <= x < x0 + n ==> #[trigger] f(s, y, x) == g(s, y + dy, x + dx),
    ensures
        row_fold(f, acc, y, x0, n) == row_fold(g, acc, y + dy, x0 + dx, n),
    decreases n,
{
    if n > 0 {
        lemma_row_moved(f, g, acc, y, dy, x0, dx, (n - 1) as nat);
    }
}

/// A fold over rows and columns that are numbered from one more.
proof fn lemma_grid_moved(
    f: spec_fn(Seq<Block>, int, int) -> Seq<Block>,
    g: spec_fn(Seq<Block>, int, int) -> Seq<Block>,
    acc: Seq<Block>,
    y0: int,
    dy: int,
    x0: int,
    dx: int,
    rows: nat,
    cols: nat,
)
    requires
        forall|s: Seq<Block>, y: int, x: int|
            y0 <= y < y0 + rows && x0 <= x < x0 + cols ==> #[trigger] f(s, y, x) == g(
                s,
                y + dy,
                x + dx,
            ),
    ensures
        grid_fold(f, acc, y0, x0, rows, cols) == grid_fold(g, acc, y0 + dy, x0 + dx, rows, cols),
    decreases rows,
{
    if rows > 0 {
        lemma_grid_moved(f, g, acc, y0, dy, x0, dx, (rows - 1) as nat, cols);
        lemma_row_moved(
            f,
            g,
            grid_fold(f, acc, y0, x0, (rows - 1) as nat, cols),
            y0 + rows - 1,
            dy,
            x0,
            dx,
            cols,
        );
    }
}

/// The cells along a side, and where they lie, once the shift grows by a cell.
proof fn lemma_side(len: int, size: int, shift: int)
    requires
        0 < size,
        0 <= len,
        i32::MIN <= shift - 4 * size,
        len + shift + 4 * size <= i32::MAX,
        shift + 4 * size <= i32::MAX,
        len + 4 * size <= i32::MAX,
    ensures
        (shift + size) / size == shift / size + 1,
        (len - 1 + shift + size) / size == (len - 1 + shift) / size + 1,
        i32::MIN < shift / size - 1 < i32::MAX,
        i32::MIN < (len - 1 + shift) / size + 1 < i32::MAX,
{
    let q = shift / size;
    let p = (len - 1 + shift) / size;
    lemma_fundamental_div_mod(shift, size);
    lemma_fundamental_div_mod(len - 1 + shift, size);
    assert(size * q == q * size && size * p == p * size) by (nonlinear_arith);
    assert((q + 1) * size == q * size + size && (p + 1) * size == p * size + size)
        by (nonlinear_arith);
    lemma_fundamental_div_mod_converse(shift + size, size, q + 1, shift % size);
    lemma_fundamental_div_mod_converse(
        len - 1 + shift + size,
        size,
        p + 1,
        (len - 1 + shift) % size,
    );
    assert(i32::MIN < q - 1 < i32::MAX) by (nonlinear_arith)
        requires
            shift == q * size + shift % size,
            0 <= shift % size < size,
            i32::MIN <= shift - 4 * size,
            shift + 4 * size <= i32::MAX,
            size > 0,
    ;
    assert(i32::MIN < p + 1 < i32::MAX) by (nonlinear_arith)
        requires
            len - 1 + shift == p * size + (len - 1 + shift) % size,
            0 <= (len - 1 + shift) % size < size,
            i32::MIN <= shift - 4 * size,
            len + shift + 4 * size <= i32::MAX,
            len >= 0,
            size > 0,
    ;
}

/// Where a cell of a side starts.
proof fn lemma_start(len: int, size: int, shift: int, b: int)
    requires
        0 < size,
        shift / size - 1 <= b <= (len - 1 + shift) / size + 1,
    ensures
        shift - 2 * size <= b * size <= len + shift + size,
        (b + 1) * size == b * size + size,
{
    let q = shift / size;
    let p = (len - 1 + shift) / size;
    lemma_fundamental_div_mod(shift, size);
    lemma_fundamental_div_mod(len - 1 + shift, size);
    assert((q - 1) * size <= b * size <= (p + 1) * size) by (nonlinear_arith)
        requires
            q - 1 <= b <= p + 1,
            size > 0,
    ;
    assert((q - 1) * size == size * q - size) by (nonlinear_arith);
    assert((p + 1) * size == size * p + size) by (nonlinear_arith);
    assert((b + 1) * size == b * size + size) by (nonlinear_arith);
}

/// The cells that a grid is made of.
proof fn lemma_range(g: Grid)
    requires
        in_range(g),
    ensures
        g.first_column() == g.shift_x / g.size - 1,
        g.last_column() == (g.width - 1 + g.shift_x) / g.size + 1,
        g.first_row() == g.shift_y / g.size - 1,
        g.last_row() == (g.height - 1 + g.shift_y) / g.size + 1,
{
    lemma_side(g.width, g.size, g.shift_x);
    lemma_side(g.height, g.size, g.shift_y);
}

/// A cell once the shift grows by a cell.
proof fn lemma_cell_moved(g: Grid, y: int, x: int)
    requires
        in_range(g),
        g.first_row() <= y <= g.last_row(),
        g.first_column() <= x <= g.last_column(),
    ensures
        (Grid { shift_x: g.shift_x + g.size, ..g }).cell(y, x + 1) == g.cell(y, x),
        (Grid { shift_y: g.shift_y + g.size, ..g }).cell(y + 1, x) == g.cell(y, x),
{
    lemma_range(g);
    lemma_start(g.width, g.size, g.shift_x, x);
    lemma_start(g.height, g.size, g.shift_y, y);
}

/// The phase of the neighbouring column.
pub open spec fn other_column(f: int) -> int {
    if f % 2 == 0 {
        f + 1
    } else {
        f - 1
    }
}

/// The phase of the neighbouring row.
pub open spec fn other_row(f: int) -> int {
    if f < 2 {
        f + 2
    } else {
        f - 2
    }
}

/// To shift the grid to the left by a whole cell leaves the blocks where they are, for every shift.
/// Their columns are numbered from one more, so that the phases change places.
pub proof fn law_shift_by_a_column(g: Grid, f: int)
    requires
        in_range(g),
        0 <= f < 4,
    ensures
        (Grid { shift_x: g.shift_x + g.size, ..g }).phase(other_column(f)) == g.phase(f),
{
    let right = Grid { shift_x: g.shift_x + g.size, ..g };
    lemma_side(g.width, g.size, g.shift_x);
    lemma_range(g);
    let rows = count_between(g.first_row(), g.last_row());
    let cols = count_between(g.first_column(), g.last_column());
    assert(right.first_column() == g.first_column() + 1);
    assert(right.last_column() == g.last_column() + 1);
    assert forall|s: Seq<Block>, y: int, x: int|
        g.first_row() <= y < g.first_row() + rows && g.first_column() <= x < g.first_column()
            + cols implies #[trigger] (g.phase_step(f))(s, y, x) == (right.phase_step(
        other_column(f),
    ))(s, y + 0, x + 1) by {
        lemma_cell_moved(g, y, x);
    }
    lemma_grid_moved(
        g.phase_step(f),
        right.phase_step(other_column(f)),
        Seq::<Block>::empty(),
        g.first_row(),
        0,
        g.first_column(),
        1,
        rows,
        cols,
    );
}

/// To shift the grid up by a whole cell leaves the blocks where they are, for every shift. Their
/// rows are numbered from one more, so that the phases change places.
pub proof fn law_shift_by_a_row(g: Grid, f: int)
    requires
        in_range(g),
        0 <= f < 4,
    ensures
        (Grid { shift_y: g.shift_y + g.size, ..g }).phase(other_row(f)) == g.phase(f),
{
    let down = Grid { shift_y: g.shift_y + g.size, ..g };
    lemma_side(g.height, g.size, g.shift_y);
    lemma_range(g);
    let rows = count_between(g.first_row(), g.last_row());
    let cols = count_between(g.first_column(), g.last_column());
    assert(down.first_row() == g.first_row() + 1);
    assert(down.last_row() == g.last_row() + 1);
    assert forall|s: Seq<Block>, y: int, x: int|
        g.first_row() <= y < g.first_row() + rows && g.first_column() <= x < g.first_column()
            + cols implies #[trigger] (g.phase_step(f))(s, y, x) == (down.phase_step(
        other_row(f),
    ))(s, y + 1, x + 0) by {
        lemma_cell_moved(g, y, x);
    }
    lemma_grid_moved(
        g.phase_step(f),
        down.phase_step(other_row(f)),
        Seq::<Block>::empty(),
        g.first_row(),
        1,
        g.first_column(),
        0,
        rows,
        cols,
    );
}

} // verus!
