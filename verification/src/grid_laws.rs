//! The blocks of a grid: every pixel lies in one of them, and those of one phase lie apart.
use crate::blocks::{Block, Grid};
use crate::fixed::{clamp32, max_of, min_of};
use crate::fold::{count_between, grid_fold, row_fold};
use vstd::arithmetic::div_mod::{lemma_fundamental_div_mod, lemma_fundamental_div_mod_converse};
use vstd::prelude::*;

verus! {

impl Grid {
    /// The shifts move the grid by less than a cell, and no number saturates.
    pub open spec fn sound(self) -> bool {
        &&& 0 <= self.shift_x < self.size
        &&& 0 <= self.shift_y < self.size
        &&& self.size <= i32::MAX
        &&& 0 <= self.width
        &&& 0 <= self.height
        &&& self.width + self.shift_x <= i32::MAX
        &&& self.height + self.shift_y <= i32::MAX
    }

    /// The column of the cell that holds the pixels of a column.
    pub open spec fn column_of(self, x: int) -> int {
        (x + self.shift_x) / self.size
    }

    /// The row of the cell that holds the pixels of a row.
    pub open spec fn row_of(self, y: int) -> int {
        (y + self.shift_y) / self.size
    }

    /// Whether a pixel lies in the picture.
    pub open spec fn has_pixel(self, x: int, y: int) -> bool {
        0 <= x < self.width && 0 <= y < self.height
    }
}

/// Which part of a side a cell covers.
proof fn lemma_axis(b: int, size: int, shift: int, len: int, x: int)
    requires
        0 <= shift < size <= i32::MAX,
        0 <= len,
        len + shift <= i32::MAX,
        -1 <= b,
    ensures
        ({
            let start = clamp32(clamp32(b * size) - shift) as int;
            max_of(start, 0) <= x < min_of(clamp32(start + size) as int, len) <==> (0 <= x < len
                && (x + shift) / size == b)
        }),
{
    let start = clamp32(clamp32(b * size) - shift) as int;
    lemma_fundamental_div_mod(x + shift, size);
    let q = (x + shift) / size;
    let r = (x + shift) % size;
    assert(size * q == q * size) by (nonlinear_arith);
    if b == -1 {
        assert(b * size == -size) by (nonlinear_arith)
            requires
                b == -1,
        ;
        if 0 <= x {
            assert(q >= 0) by (nonlinear_arith)
                requires
                    x + shift >= 0,
                    x + shift == q * size + r,
                    0 <= r < size,
            ;
        }
    } else {
        assert(b * size >= 0) by (nonlinear_arith)
            requires
                b >= 0,
                size > 0,
        ;
        if 0 <= x < len {
            if b * size <= x + shift < b * size + size {
                lemma_fundamental_div_mod_converse(x + shift, size, b, x + shift - b * size);
            }
        }
    }
}

/// Which pixels a cell holds.
pub proof fn lemma_cell(g: Grid, by: int, bx: int, x: int, y: int)
    requires
        g.sound(),
        -1 <= by,
        -1 <= bx,
    ensures
        (g.cell(by, bx) is Some && (g.cell(by, bx)->0).has(x, y)) <==> (g.has_pixel(x, y) && by
            == g.row_of(y) && bx == g.column_of(x)),
        g.cell(by, bx) is Some ==> {
            let b = g.cell(by, bx)->0;
            &&& b.start_x < b.end_x <= g.width
            &&& b.start_y < b.end_y <= g.height
            &&& g.column_of(b.start_x as int) == bx
            &&& g.row_of(b.start_y as int) == by
        },
{
    lemma_axis(bx, g.size, g.shift_x, g.width, x);
    lemma_axis(by, g.size, g.shift_y, g.height, y);
    if g.cell(by, bx) is Some {
        let b = g.cell(by, bx)->0;
        lemma_axis(bx, g.size, g.shift_x, g.width, b.start_x as int);
        lemma_axis(by, g.size, g.shift_y, g.height, b.start_y as int);
    }
}

/// The cell of a pixel is one of those that the grid is made of.
pub proof fn lemma_cell_in_range(g: Grid, x: int, y: int)
    requires
        g.sound(),
        g.has_pixel(x, y),
    ensures
        0 <= g.column_of(x),
        g.first_column() <= g.column_of(x) <= g.last_column(),
        0 <= g.row_of(y),
        g.first_row() <= g.row_of(y) <= g.last_row(),
{
    lemma_axis_range(g.size, g.shift_x, g.width, x);
    lemma_axis_range(g.size, g.shift_y, g.height, y);
}

proof fn lemma_axis_range(size: int, shift: int, len: int, x: int)
    requires
        0 <= shift < size <= i32::MAX,
        0 <= x < len,
        len + shift <= i32::MAX,
    ensures
        0 <= (x + shift) / size <= clamp32(
            clamp32(clamp32(len - 1) + shift) as int / size + 1,
        ),
        clamp32(shift / size - 1) == -1,
{
    let a = x + shift;
    let b = len - 1 + shift;
    assert(0 <= a / size <= b / size <= b) by (nonlinear_arith)
        requires
            0 <= a <= b,
            size > 0,
    ;
    lemma_fundamental_div_mod_converse(shift, size, 0, shift);
}

/// The first cells of a grid.
pub proof fn lemma_first_cells(g: Grid)
    requires
        g.sound(),
    ensures
        g.first_column() == -1,
        g.first_row() == -1,
{
    lemma_fundamental_div_mod_converse(g.shift_x, g.size, 0, g.shift_x);
    lemma_fundamental_div_mod_converse(g.shift_y, g.size, 0, g.shift_y);
}

/// Whether a cell comes before the one at `(row, column)`, row by row.
pub open spec fn precedes(by: int, bx: int, row: int, column: int) -> bool {
    by < row || (by == row && bx < column)
}

/// The blocks of a phase among the cells before `(row, column)`: each is such a cell, each such
/// cell is one of them, and they come in the order of the cells.
pub open spec fn lists(g: Grid, f: int, blocks: Seq<Block>, row: int, column: int) -> bool {
    &&& forall|j: int|
        0 <= j < blocks.len() ==> {
            let by = g.row_of((#[trigger] blocks[j]).start_y as int);
            let bx = g.column_of(blocks[j].start_x as int);
            &&& g.cell(by, bx) == Some(blocks[j])
            &&& g.phase_of(by, bx) == f
            &&& 0 <= by && 0 <= bx <= g.last_column()
            &&& precedes(by, bx, row, column)
        }
    &&& forall|by: int, bx: int|
        #![trigger g.cell(by, bx)]
        g.first_row() <= by && g.first_column() <= bx <= g.last_column() && precedes(
            by,
            bx,
            row,
            column,
        ) && g.phase_of(by, bx) == f && g.cell(by, bx) is Some ==> blocks.contains(
            g.cell(by, bx)->0,
        )
    &&& forall|i: int, j: int|
        #![trigger blocks[i], blocks[j]]
        0 <= i < j < blocks.len() ==> precedes(
            g.row_of(blocks[i].start_y as int),
            g.column_of(blocks[i].start_x as int),
            g.row_of(blocks[j].start_y as int),
            g.column_of(blocks[j].start_x as int),
        )
}

/// One cell more.
proof fn lemma_lists_step(g: Grid, f: int, blocks: Seq<Block>, row: int, column: int)
    requires
        g.sound(),
        lists(g, f, blocks, row, column),
        -1 <= row,
        -1 <= column <= g.last_column(),
    ensures
        lists(g, f, (g.phase_step(f))(blocks, row, column), row, column + 1),
{
    let next = (g.phase_step(f))(blocks, row, column);
    lemma_cell(g, row, column, 0, 0);
    if g.cell(row, column) is Some && g.phase_of(row, column) == f {
        let b = g.cell(row, column)->0;
        assert(next == blocks.push(b));
        lemma_cell(g, row, column, b.start_x as int, b.start_y as int);
        lemma_cell_in_range(g, b.start_x as int, b.start_y as int);
        assert forall|by: int, bx: int|
            #![trigger g.cell(by, bx)]
            g.first_row() <= by && g.first_column() <= bx <= g.last_column() && precedes(
                by,
                bx,
                row,
                column + 1,
            ) && g.phase_of(by, bx) == f && g.cell(by, bx) is Some implies next.contains(
            g.cell(by, bx)->0,
        ) by {
            if by == row && bx == column {
                assert(next[blocks.len() as int] == b);
            } else {
                let k = choose|k: int| 0 <= k < blocks.len() && blocks[k] == g.cell(by, bx)->0;
                assert(blocks.contains(g.cell(by, bx)->0));
                assert(next[k] == g.cell(by, bx)->0);
            }
        }
        assert forall|j: int| 0 <= j < next.len() implies {
            let by = g.row_of((#[trigger] next[j]).start_y as int);
            let bx = g.column_of(next[j].start_x as int);
            &&& g.cell(by, bx) == Some(next[j])
            &&& g.phase_of(by, bx) == f
            &&& 0 <= by && 0 <= bx <= g.last_column()
            &&& precedes(by, bx, row, column + 1)
        } by {
            if j < blocks.len() {
                assert(next[j] == blocks[j]);
            }
        }
        assert forall|i: int, j: int|
            #![trigger next[i], next[j]]
            0 <= i < j < next.len() implies precedes(
            g.row_of(next[i].start_y as int),
            g.column_of(next[i].start_x as int),
            g.row_of(next[j].start_y as int),
            g.column_of(next[j].start_x as int),
        ) by {
            assert(next[i] == blocks[i]);
            if j < blocks.len() {
                assert(next[j] == blocks[j]);
            }
        }
    } else {
        assert(next == blocks);
    }
}

/// The cells of a row, up to a column.
proof fn lemma_lists_row(g: Grid, f: int, blocks: Seq<Block>, row: int, n: nat)
    requires
        g.sound(),
        lists(g, f, blocks, row, -1),
        -1 <= row,
        n <= count_between(-1, g.last_column()),
    ensures
        lists(g, f, row_fold(g.phase_step(f), blocks, row, -1, n), row, n - 1),
    decreases n,
{
    if n > 0 {
        lemma_lists_row(g, f, blocks, row, (n - 1) as nat);
        lemma_lists_step(
            g,
            f,
            row_fold(g.phase_step(f), blocks, row, -1, (n - 1) as nat),
            row,
            n - 2,
        );
    }
}

/// The cells of the first rows.
proof fn lemma_lists_rows(g: Grid, f: int, rows: nat)
    requires
        g.sound(),
    ensures
        lists(
            g,
            f,
            grid_fold(
                g.phase_step(f),
                Seq::<Block>::empty(),
                -1,
                -1,
                rows,
                count_between(-1, g.last_column()),
            ),
            rows - 1,
            -1,
        ),
    decreases rows,
{
    let cols = count_between(-1, g.last_column());
    if rows == 0 {
        lemma_first_cells(g);
    } else {
        lemma_lists_rows(g, f, (rows - 1) as nat);
        let before = grid_fold(
            g.phase_step(f),
            Seq::<Block>::empty(),
            -1,
            -1,
            (rows - 1) as nat,
            cols,
        );
        lemma_lists_row(g, f, before, rows - 2, cols);
        let after = row_fold(g.phase_step(f), before, rows - 2, -1, cols);
        assert(lists(g, f, after, rows - 2, cols - 1));
        lemma_first_cells(g);
        assert(lists(g, f, after, rows - 1, -1)) by {
            assert forall|by: int, bx: int|
                #![trigger g.cell(by, bx)]
                g.first_row() <= by && g.first_column() <= bx <= g.last_column() && precedes(
                    by,
                    bx,
                    rows - 1,
                    -1,
                ) && g.phase_of(by, bx) == f && g.cell(by, bx) is Some implies after.contains(
                g.cell(by, bx)->0,
            ) by {
                assert(precedes(by, bx, rows - 2, cols - 1));
            }
        }
    }
}

/// The blocks of a phase are its cells, in their order.
pub proof fn lemma_phase_lists(g: Grid, f: int)
    requires
        g.sound(),
    ensures
        lists(g, f, g.phase(f), max_of(g.last_row(), -2) + 1, -1),
{
    lemma_first_cells(g);
    lemma_lists_rows(g, f, count_between(-1, g.last_row()));
}

/// Every pixel of the picture lies in a block.
pub proof fn law_blocks_cover(g: Grid, x: int, y: int) -> (r: (int, int))
    requires
        g.sound(),
        g.has_pixel(x, y),
    ensures
        0 <= r.0 < 4,
        0 <= r.1 < g.phase(r.0).len(),
        g.phase(r.0)[r.1].has(x, y),
{
    let by = g.row_of(y);
    let bx = g.column_of(x);
    let f = g.phase_of(by, bx);
    lemma_cell_in_range(g, x, y);
    lemma_cell(g, by, bx, x, y);
    lemma_first_cells(g);
    lemma_phase_lists(g, f);
    let blocks = g.phase(f);
    assert(blocks.contains(g.cell(by, bx)->0));
    let j = choose|j: int| 0 <= j < blocks.len() && blocks[j] == g.cell(by, bx)->0;
    (f, j)
}

/// No pixel lies in two blocks, and every block lies in the picture and holds a pixel.
pub proof fn law_blocks_disjoint(g: Grid, f1: int, j1: int, f2: int, j2: int, x: int, y: int)
    requires
        g.sound(),
        0 <= f1 < 4,
        0 <= f2 < 4,
        0 <= j1 < g.phase(f1).len(),
        0 <= j2 < g.phase(f2).len(),
        g.phase(f1)[j1].has(x, y),
        g.phase(f2)[j2].has(x, y),
    ensures
        f1 == f2,
        j1 == j2,
        g.has_pixel(x, y),
{
    lemma_phase_lists(g, f1);
    lemma_phase_lists(g, f2);
    let a = g.phase(f1)[j1];
    let b = g.phase(f2)[j2];
    lemma_cell(g, g.row_of(a.start_y as int), g.column_of(a.start_x as int), x, y);
    lemma_cell(g, g.row_of(b.start_y as int), g.column_of(b.start_x as int), x, y);
}

/// Two blocks of one phase lie at least the size of a block apart, in a row or in a column.
pub proof fn law_phase_blocks_apart(g: Grid, f: int, j1: int, j2: int)
    requires
        g.sound(),
        0 <= j1 < g.phase(f).len(),
        0 <= j2 < g.phase(f).len(),
        j1 != j2,
    ensures
        ({
            let a = g.phase(f)[j1];
            let b = g.phase(f)[j2];
            ||| a.end_x + g.size <= b.start_x
            ||| b.end_x + g.size <= a.start_x
            ||| a.end_y + g.size <= b.start_y
            ||| b.end_y + g.size <= a.start_y
        }),
{
    lemma_phase_lists(g, f);
    let a = g.phase(f)[j1];
    let b = g.phase(f)[j2];
    let ay = g.row_of(a.start_y as int);
    let ax = g.column_of(a.start_x as int);
    let by = g.row_of(b.start_y as int);
    let bx = g.column_of(b.start_x as int);
    assert(g.cell(ay, ax) == Some(a));
    assert(g.cell(by, bx) == Some(b));
    assert(g.phase_of(ay, ax) == f && g.phase_of(by, bx) == f);
    assert(ax % 2 == bx % 2 && ay % 2 == by % 2);
    assert(ax != bx || ay != by) by {
        if j1 < j2 {
            assert(precedes(ay, ax, by, bx));
        } else {
            assert(precedes(by, bx, ay, ax));
        }
    }
    lemma_cell(g, ay, ax, a.end_x - 1, a.end_y - 1);
    lemma_cell(g, by, bx, b.end_x - 1, b.end_y - 1);
    lemma_cell(g, ay, ax, a.end_x - 1, a.start_y as int);
    if ax != bx {
        lemma_axis_apart(
            g.size,
            g.shift_x,
            a.start_x as int,
            a.end_x - 1,
            b.start_x as int,
            b.end_x - 1,
            ax,
            bx,
        );
    } else {
        lemma_axis_apart(
            g.size,
            g.shift_y,
            a.start_y as int,
            a.end_y - 1,
            b.start_y as int,
            b.end_y - 1,
            ay,
            by,
        );
    }
}

/// Two stretches of a side in cells of one parity.
proof fn lemma_axis_apart(
    size: int,
    shift: int,
    a0: int,
    a1: int,
    b0: int,
    b1: int,
    ca: int,
    cb: int,
)
    requires
        size > 0,
        (a0 + shift) / size == ca,
        (a1 + shift) / size == ca,
        (b0 + shift) / size == cb,
        (b1 + shift) / size == cb,
        ca != cb,
        ca % 2 == cb % 2,
    ensures
        a1 + 1 + size <= b0 || b1 + 1 + size <= a0,
{
    lemma_fundamental_div_mod(a0 + shift, size);
    lemma_fundamental_div_mod(a1 + shift, size);
    lemma_fundamental_div_mod(b0 + shift, size);
    lemma_fundamental_div_mod(b1 + shift, size);
    if ca < cb {
        assert(ca + 2 <= cb);
        assert(size * (ca + 2) <= size * cb) by (nonlinear_arith)
            requires
                size > 0,
                ca + 2 <= cb,
        ;
        assert(size * (ca + 2) == size * ca + 2 * size) by (nonlinear_arith);
    } else {
        assert(cb + 2 <= ca);
        assert(size * (cb + 2) <= size * ca) by (nonlinear_arith)
            requires
                size > 0,
                cb + 2 <= ca,
        ;
        assert(size * (cb + 2) == size * cb + 2 * size) by (nonlinear_arith);
    }
}

} // verus!
