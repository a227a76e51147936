//! In which order a search visits the pixels, and what it counts.
use crate::blocks::{Block, Grid};
use crate::context::{lemma_margin, DbsModel};
use crate::fold::{lemma_grid_index, lemma_grid_index_bound};
use crate::grid_laws::{lemma_cell, lemma_phase_lists};
use crate::progress::Event;
use crate::search::{
    drawn, drawn_search_ends, fresh_tally, pass, passes, processed, row_count, row_len,
    search_ends, search_events, search_with, settles, shifts_drawn, tally, Tally,
};
use crate::sums::total;
use vstd::arithmetic::div_mod::{lemma_div_is_ordered, lemma_fundamental_div_mod};
use vstd::prelude::*;

verus! {

/// The pixel of a block that is visited after `k` others: row by row from the top, from left to
/// right where the number of the row is even, and from right to left where it is odd.
pub open spec fn walk(block: Block, k: int) -> (u32, u32) {
    let w = block.end_x - block.start_x;
    let y = block.start_y + k / w;
    let x = if y % 2 == 0 {
        block.start_x + k % w
    } else {
        block.end_x - 1 - k % w
    };
    (x as u32, y as u32)
}

/// The contexts that a walk through a block goes through: each is the one before, once the best
/// operation at the next pixel is carried out.
pub open spec fn walked(block: Block, steps: Seq<DbsModel>) -> bool {
    forall|k: int|
        #![trigger steps[k]]
        0 <= k < steps.len() - 1 ==> steps[k + 1] == steps[k].improved(
            walk(block, k).0,
            walk(block, k).1,
        )
}

/// One where the walk toggles a pixel, and zero elsewhere.
pub open spec fn toggles_on(block: Block, steps: Seq<DbsModel>) -> spec_fn(int) -> int {
    |k: int|
        if steps[k].best(walk(block, k).0, walk(block, k).1, 8).1 is Toggle {
            1
        } else {
            0
        }
}

/// One where the walk swaps two pixels, and zero elsewhere.
pub open spec fn swaps_on(block: Block, steps: Seq<DbsModel>) -> spec_fn(int) -> int {
    |k: int|
        if steps[k].best(walk(block, k).0, walk(block, k).1, 8).1 is Swap {
            1
        } else {
            0
        }
}

/// A count as the word holds it: past its end it stays at the largest.
pub open spec fn capped(n: int) -> int {
    if n > 0x7fff_ffff {
        0x7fff_ffff
    } else {
        n
    }
}

/// A walk up to a pixel of a row.
proof fn lemma_walk_row(block: Block, steps: Seq<DbsModel>, row: int, n: nat)
    requires
        block.start_x < block.end_x,
        0 <= row < block.end_y - block.start_y,
        n <= block.end_x - block.start_x,
        steps.len() == (block.end_x - block.start_x) * (block.end_y - block.start_y) + 1,
        walked(block, steps),
    ensures
        ({
            let w = block.end_x - block.start_x;
            let y = (block.start_y + row) as u32;
            let start = tally(
                steps[row * w],
                capped(total(toggles_on(block, steps), (row * w) as nat)) as i32,
                capped(total(swaps_on(block, steps), (row * w) as nat)) as i32,
            );
            let k = row * w + n;
            &&& 0 <= row * w && k < steps.len()
            &&& start.visit_row(block, y, n) == tally(
                steps[k],
                capped(total(toggles_on(block, steps), k as nat)) as i32,
                capped(total(swaps_on(block, steps), k as nat)) as i32,
            )
        }),
    decreases n,
{
    let w = block.end_x - block.start_x;
    let h = block.end_y - block.start_y;
    let y = (block.start_y + row) as u32;
    assert(0 <= row * w && row * w + w <= w * h) by (nonlinear_arith)
        requires
            0 <= row < h,
            w > 0,
    ;
    if n > 0 {
        lemma_walk_row(block, steps, row, (n - 1) as nat);
        let k = row * w + (n - 1);
        lemma_grid_index(row, n - 1, w);
        assert(k / w == row && k % w == n - 1);
        lemma_unit_sum(toggles_on(block, steps), k as nat);
        lemma_unit_sum(swaps_on(block, steps), k as nat);
        assert(((k + 1) as nat - 1) as nat == k as nat);
        let x = if y % 2 == 0 {
            block.start_x + n - 1
        } else {
            block.end_x - n
        };
        assert(walk(block, k) == (x as u32, y));
        assert(steps[k + 1] == steps[k].improved(x as u32, y));
    }
}

/// A sum of zeros and ones is not negative.
proof fn lemma_unit_sum(f: spec_fn(int) -> int, n: nat)
    requires
        forall|k: int| #[trigger] f(k) == 0 || f(k) == 1,
    ensures
        0 <= total(f, n) <= n,
    decreases n,
{
    if n > 0 {
        lemma_unit_sum(f, (n - 1) as nat);
        assert(f(n - 1) == 0 || f(n - 1) == 1);
    }
}

/// A walk through the first rows.
proof fn lemma_walk_rows(m: DbsModel, block: Block, steps: Seq<DbsModel>, rows: nat)
    requires
        block.start_x < block.end_x,
        rows <= block.end_y - block.start_y,
        steps.len() == (block.end_x - block.start_x) * (block.end_y - block.start_y) + 1,
        steps[0] == m,
        walked(block, steps),
    ensures
        ({
            let w = block.end_x - block.start_x;
            let k = rows * w;
            &&& 0 <= k < steps.len()
            &&& fresh_tally(m).visit_rows(block, rows) == tally(
                steps[k],
                capped(total(toggles_on(block, steps), k as nat)) as i32,
                capped(total(swaps_on(block, steps), k as nat)) as i32,
            )
        }),
    decreases rows,
{
    let w = block.end_x - block.start_x;
    let h = block.end_y - block.start_y;
    assert(0 <= rows * w <= w * h) by (nonlinear_arith)
        requires
            0 <= rows <= h,
            w > 0,
    ;
    if rows > 0 {
        lemma_walk_rows(m, block, steps, (rows - 1) as nat);
        lemma_walk_row(block, steps, rows - 1, w as nat);
        assert((rows - 1) * w + w == rows * w) by (nonlinear_arith);
    } else {
        assert(rows * w == 0) by (nonlinear_arith)
            requires
                rows == 0,
        ;
    }
}

/// A block is visited pixel by pixel along its walk, the best operation at each is carried out in
/// the context that those before have left, and the toggles and the swaps among them are counted.
pub proof fn law_block_is_walked(m: DbsModel, block: Block, steps: Seq<DbsModel>)
    requires
        block.start_x < block.end_x,
        block.start_y <= block.end_y,
        steps.len() == (block.end_x - block.start_x) * (block.end_y - block.start_y) + 1,
        steps[0] == m,
        walked(block, steps),
    ensures
        ({
            let n = (steps.len() - 1) as nat;
            &&& processed(m, block).model == steps[n as int]
            &&& processed(m, block).toggles == capped(total(toggles_on(block, steps), n))
            &&& processed(m, block).swaps == capped(total(swaps_on(block, steps), n))
        }),
{
    let w = block.end_x - block.start_x;
    let h = block.end_y - block.start_y;
    lemma_walk_rows(m, block, steps, h as nat);
    assert(h * w == w * h) by (nonlinear_arith);
    lemma_unit_sum(toggles_on(block, steps), (w * h) as nat);
    lemma_unit_sum(swaps_on(block, steps), (w * h) as nat);
}

/// A walk goes through every pixel of a block, and through each only once.
pub proof fn law_walk_meets_every_pixel(block: Block, x: u32, y: u32) -> (k: int)
    requires
        block.has(x as int, y as int),
    ensures
        0 <= k < (block.end_x - block.start_x) * (block.end_y - block.start_y),
        walk(block, k) == (x, y),
        forall|j: int|
            0 <= j < (block.end_x - block.start_x) * (block.end_y - block.start_y)
                && #[trigger] walk(block, j) == (x, y) ==> j == k,
{
    let w = block.end_x - block.start_x;
    let h = block.end_y - block.start_y;
    let i = if y % 2 == 0 {
        x - block.start_x
    } else {
        block.end_x - 1 - x
    };
    let k = (y - block.start_y) * w + i;
    lemma_grid_index(y - block.start_y, i, w);
    lemma_grid_index_bound(y - block.start_y, i, h, w);
    assert(h * w == w * h) by (nonlinear_arith);
    assert forall|j: int| 0 <= j < w * h && #[trigger] walk(block, j) == (x, y) implies j == k by {
        lemma_fundamental_div_mod(j, w);
        assert(w * (j / w) == (j / w) * w) by (nonlinear_arith);
        assert(0 <= j / w < h) by (nonlinear_arith)
            requires
                0 <= j < w * h,
                j == w * (j / w) + j % w,
                0 <= j % w < w,
        ;
        assert(block.start_y + j / w == y);
        assert(j % w == i);
    }
    k
}

/// A block without pixels changes nothing, and counts nothing.
pub proof fn law_empty_block(m: DbsModel, block: Block)
    requires
        block.start_x >= block.end_x || block.start_y >= block.end_y,
    ensures
        processed(m, block) == fresh_tally(m),
{
    if block.start_y < block.end_y {
        lemma_empty_rows(m, block, row_count(block));
    }
}

/// Rows without pixels change nothing.
proof fn lemma_empty_rows(m: DbsModel, block: Block, n: nat)
    requires
        block.start_x >= block.end_x,
    ensures
        fresh_tally(m).visit_rows(block, n) == fresh_tally(m),
    decreases n,
{
    if n > 0 {
        lemma_empty_rows(m, block, (n - 1) as nat);
        assert(row_len(block) == 0);
    }
}

/// The contexts that a list of blocks goes through: each is the one before, once the next block was
/// visited.
pub open spec fn in_turn(blocks: Seq<Block>, steps: Seq<DbsModel>) -> bool {
    &&& steps.len() == blocks.len() + 1
    &&& forall|j: int|
        #![trigger steps[j]]
        0 <= j < blocks.len() ==> steps[j + 1] == processed(steps[j], blocks[j]).model
}

/// The toggles of each block.
pub open spec fn block_toggles(blocks: Seq<Block>, steps: Seq<DbsModel>) -> spec_fn(int) -> int {
    |j: int| processed(steps[j], blocks[j]).toggles as int
}

/// The swaps of each block.
pub open spec fn block_swaps(blocks: Seq<Block>, steps: Seq<DbsModel>) -> spec_fn(int) -> int {
    |j: int| processed(steps[j], blocks[j]).swaps as int
}

/// Two numbers are the same to a word of 32 bits.
pub open spec fn same_word(a: int, b: int) -> bool {
    (a - b) % 0x1_0000_0000 == 0
}

/// Adding to a word adds to the number.
proof fn lemma_word_sum(a: i32, b: i32, s: int)
    requires
        same_word(a as int, s),
    ensures
        same_word(a.wrapping_add(b) as int, s + b),
{
}

/// The first blocks of a list.
proof fn lemma_blocks_in_turn(t: Tally, blocks: Seq<Block>, steps: Seq<DbsModel>, n: nat)
    requires
        in_turn(blocks, steps),
        steps[0] == t.model,
        n <= blocks.len(),
    ensures
        t.visit_blocks(blocks, n).model == steps[n as int],
        same_word(
            t.visit_blocks(blocks, n).toggles as int,
            t.toggles + total(block_toggles(blocks, steps), n),
        ),
        same_word(
            t.visit_blocks(blocks, n).swaps as int,
            t.swaps + total(block_swaps(blocks, steps), n),
        ),
    decreases n,
{
    if n > 0 {
        lemma_blocks_in_turn(t, blocks, steps, (n - 1) as nat);
        let before = t.visit_blocks(blocks, (n - 1) as nat);
        let done = processed(steps[n - 1], blocks[n - 1]);
        assert(steps[(n - 1) + 1] == done.model);
        let toggles = block_toggles(blocks, steps);
        let swaps = block_swaps(blocks, steps);
        lemma_word_sum(
            before.toggles,
            done.toggles,
            t.toggles + total(toggles, (n - 1) as nat),
        );
        lemma_word_sum(before.swaps, done.swaps, t.swaps + total(swaps, (n - 1) as nat));
        assert(toggles(n - 1) == done.toggles);
        assert(swaps(n - 1) == done.swaps);
    }
}

/// Blocks are visited in turn, each in the context that those before have left. Their counts add
/// up, but for what a word of 32 bits does not hold.
pub proof fn law_blocks_in_turn(m: DbsModel, blocks: Seq<Block>, steps: Seq<DbsModel>)
    requires
        in_turn(blocks, steps),
        steps[0] == m,
    ensures
        ({
            let t = fresh_tally(m).visit_blocks(blocks, blocks.len());
            let toggles = total(block_toggles(blocks, steps), blocks.len());
            let swaps = total(block_swaps(blocks, steps), blocks.len());
            &&& t.model == steps[blocks.len() as int]
            &&& same_word(t.toggles as int, toggles)
            &&& same_word(t.swaps as int, swaps)
            &&& i32::MIN <= toggles <= i32::MAX ==> t.toggles == toggles
            &&& i32::MIN <= swaps <= i32::MAX ==> t.swaps == swaps
        }),
{
    lemma_blocks_in_turn(fresh_tally(m), blocks, steps, blocks.len());
}

/// Blocks of a list, and then blocks of another.
proof fn lemma_visit_more(t: Tally, a: Seq<Block>, b: Seq<Block>, n: nat)
    requires
        n <= b.len(),
    ensures
        t.visit_blocks(a + b, a.len() + n) == t.visit_blocks(a, a.len()).visit_blocks(b, n),
    decreases n,
{
    if n == 0 {
        lemma_visit_prefix(t, a, b, a.len());
    } else {
        lemma_visit_more(t, a, b, (n - 1) as nat);
        assert((a + b)[a.len() + n - 1] == b[n - 1]);
        assert((a.len() + n - 1) as nat == a.len() + (n - 1) as nat);
    }
}

/// The first blocks of a list do not depend on those that follow.
proof fn lemma_visit_prefix(t: Tally, a: Seq<Block>, b: Seq<Block>, n: nat)
    requires
        n <= a.len(),
    ensures
        t.visit_blocks(a + b, n) == t.visit_blocks(a, n),
    decreases n,
{
    if n > 0 {
        lemma_visit_prefix(t, a, b, (n - 1) as nat);
        assert((a + b)[n - 1] == a[n - 1]);
    }
}

/// A pass visits the blocks of the first phase, then those of the second, the third and the fourth.
pub proof fn law_pass_by_phases(m: DbsModel, shift: (i32, i32))
    ensures
        ({
            let g = m.grid(shift.0, shift.1, m.block_size());
            let all = g.phase(0) + g.phase(1) + g.phase(2) + g.phase(3);
            pass(m, shift) == fresh_tally(m).visit_blocks(all, all.len())
        }),
{
    let g = m.grid(shift.0, shift.1, m.block_size());
    let t = fresh_tally(m);
    let a = g.phase(0);
    let b = g.phase(1);
    let c = g.phase(2);
    let d = g.phase(3);
    lemma_visit_more(t, a, b, b.len());
    lemma_visit_more(t, a + b, c, c.len());
    lemma_visit_more(t, a + b + c, d, d.len());
    reveal_with_fuel(Tally::visit_phases, 5);
}

/// The toggles of each pass.
pub open spec fn pass_toggles(m: DbsModel, shifts: Seq<(i32, i32)>) -> spec_fn(int) -> int {
    |k: int| pass(passes(m, shifts.take(k)).model, shifts[k]).toggles as int
}

/// The swaps of each pass.
pub open spec fn pass_swaps(m: DbsModel, shifts: Seq<(i32, i32)>) -> spec_fn(int) -> int {
    |k: int| pass(passes(m, shifts.take(k)).model, shifts[k]).swaps as int
}

/// The word holds the sum of the first `n` counts, and of any fewer of them.
pub open spec fn counts_fit(f: spec_fn(int) -> int, n: nat) -> bool {
    forall|j: nat| j <= n ==> i32::MIN <= #[trigger] total(f, j) <= i32::MAX
}

/// The first passes do not depend on the last.
proof fn lemma_take_take(m: DbsModel, shifts: Seq<(i32, i32)>, n: nat)
    requires
        shifts.len() > 0,
        n < shifts.len(),
    ensures
        total(pass_toggles(m, shifts.drop_last()), n) == total(pass_toggles(m, shifts), n),
        total(pass_swaps(m, shifts.drop_last()), n) == total(pass_swaps(m, shifts), n),
    decreases n,
{
    if n > 0 {
        lemma_take_take(m, shifts, (n - 1) as nat);
        assert(shifts.drop_last().take(n - 1) =~= shifts.take(n - 1));
        assert(shifts.drop_last()[n - 1] == shifts[n - 1]);
    }
}

/// What passes count in all is the sum of what each of them counts, in the context that those
/// before have left, as long as the word holds the sums.
pub proof fn law_passes_add_up(m: DbsModel, shifts: Seq<(i32, i32)>)
    ensures
        counts_fit(pass_toggles(m, shifts), shifts.len()) ==> passes(m, shifts).toggles == total(
            pass_toggles(m, shifts),
            shifts.len(),
        ),
        counts_fit(pass_swaps(m, shifts), shifts.len()) ==> passes(m, shifts).swaps == total(
            pass_swaps(m, shifts),
            shifts.len(),
        ),
    decreases shifts.len(),
{
    if shifts.len() > 0 {
        let n = (shifts.len() - 1) as nat;
        let less = shifts.drop_last();
        law_passes_add_up(m, less);
        lemma_take_take(m, shifts, n);
        assert(shifts.take(n as int) =~= less);
        if counts_fit(pass_toggles(m, shifts), shifts.len()) {
            assert forall|j: nat| j <= n implies i32::MIN <= #[trigger] total(
                pass_toggles(m, less),
                j,
            ) <= i32::MAX by {
                lemma_take_take(m, shifts, j);
                assert(i32::MIN <= total(pass_toggles(m, shifts), j) <= i32::MAX);
            }
            assert(i32::MIN <= total(pass_toggles(m, shifts), shifts.len()) <= i32::MAX);
        }
        if counts_fit(pass_swaps(m, shifts), shifts.len()) {
            assert forall|j: nat| j <= n implies i32::MIN <= #[trigger] total(
                pass_swaps(m, less),
                j,
            ) <= i32::MAX by {
                lemma_take_take(m, shifts, j);
                assert(i32::MIN <= total(pass_swaps(m, shifts), j) <= i32::MAX);
            }
            assert(i32::MIN <= total(pass_swaps(m, shifts), shifts.len()) <= i32::MAX);
        }
    }
}

/// Passes are made in turn: first some, then the others from where they ended. One pass alone
/// leaves what it leaves, and counts what it counts.
pub proof fn law_passes_in_turn(m: DbsModel, a: Seq<(i32, i32)>, b: Seq<(i32, i32)>)
    ensures
        passes(m, a + b).model == passes(passes(m, a).model, b).model,
        a.len() == 0 ==> passes(m, a) == fresh_tally(m),
        a.len() == 1 ==> passes(m, a) == pass(m, a[0]),
    decreases b.len(),
{
    if b.len() == 0 {
        assert(a + b =~= a);
    } else {
        law_passes_in_turn(m, a, b.drop_last());
        assert((a + b).drop_last() =~= a + b.drop_last());
        assert((a + b).last() == b.last());
    }
    if a.len() == 1 {
        assert(a.drop_last().len() == 0);
        assert(passes(m, a.drop_last()) == fresh_tally(m));
    }
}

/// A search shifts the grid by less than a block at each pass. Each pass but the last counts
/// something, and the last counts nothing, unless the numbers of the passes have run out. What the
/// search counts is what its passes count.
pub proof fn law_shape_of_search(m: DbsModel, shifts: Seq<(i32, i32)>, end: Tally, k: int)
    requires
        search_with(m, shifts, end),
        m.block_size() <= i32::MAX,
        0 <= k < shifts.len(),
    ensures
        ({
            let done = pass(passes(m, shifts.take(k)).model, shifts[k]);
            &&& 0 <= shifts[k].0 < m.block_size()
            &&& 0 <= shifts[k].1 < m.block_size()
            &&& k < shifts.len() - 1 ==> done.toggles != 0 || done.swaps != 0
            &&& k == shifts.len() - 1 && shifts.len() < usize::MAX ==> done.toggles == 0
                && done.swaps == 0
            &&& k == shifts.len() - 1 ==> end.model == done.model
            &&& counts_fit(pass_toggles(m, shifts), shifts.len()) ==> end.toggles == total(
                pass_toggles(m, shifts),
                shifts.len(),
            )
            &&& counts_fit(pass_swaps(m, shifts), shifts.len()) ==> end.swaps == total(
                pass_swaps(m, shifts),
                shifts.len(),
            )
        }),
{
    law_passes_add_up(m, shifts);
    assert(shifts[k].0 == shifts[k].0);
    if k < shifts.len() - 1 {
        assert(!settles(passes(m, shifts.take(k)).model, shifts[k]));
    } else {
        assert(shifts.take(k) =~= shifts.drop_last());
    }
}

/// Where a search can end, there are shifts whose passes lead there, and it has shown what they
/// show.
pub proof fn law_end_of_search(m: DbsModel, end: Tally, shown: Seq<Event>) -> (shifts: Seq<
    (i32, i32),
>)
    requires
        search_ends(m, end, shown),
    ensures
        shifts.len() > 0,
        search_with(m, shifts, end),
        end.model == passes(m, shifts).model,
        end.toggles == passes(m, shifts).toggles,
        end.swaps == passes(m, shifts).swaps,
        shown == search_events(m, shifts),
{
    choose|shifts: Seq<(i32, i32)>| #[trigger]
        search_with(m, shifts, end) && shown == search_events(m, shifts)
}

/// Where a search with drawn shifts can end, there are such shifts that were drawn from the numbers
/// below the size of a block.
pub proof fn law_end_of_drawn_search(m: DbsModel, end: Tally, shown: Seq<Event>) -> (shifts: Seq<
    (i32, i32),
>)
    requires
        drawn_search_ends(m, end, shown),
        m.block_size() <= i32::MAX,
    ensures
        search_ends(m, end, shown),
        search_with(m, shifts, end),
        shown == search_events(m, shifts),
        forall|k: int|
            #![trigger shifts[k]]
            0 <= k < shifts.len() ==> drawn(m.block_size() as i32, shifts[k].0) && drawn(
                m.block_size() as i32,
                shifts[k].1,
            ),
{
    choose|shifts: Seq<(i32, i32)>| #[trigger]
        search_with(m, shifts, end) && shifts_drawn(m, shifts) && shown == search_events(m, shifts)
}

/// How large the blocks are: twice as large as one less than the kernel is wide, and at least one
/// pixel. Kernels of a negative width have blocks of sixty-four.
pub proof fn law_block_size(m: DbsModel)
    requires
        m.wf(),
        m.kernel_size < 0x4000_0000,
    ensures
        m.kernel_size >= 2 ==> m.block_size() == 2 * (m.kernel_size - 1),
        m.kernel_size == 1 || m.kernel_size == 0 ==> m.block_size() == 1,
        m.kernel_size < 0 ==> m.block_size() == 64,
{
    lemma_margin(m.kernel_size);
}

/// The grid lies over the picture, with cells of the size and with the shifts that are given. A
/// side that has no place in a signed word counts as empty.
pub proof fn law_grid_of_picture(m: DbsModel, shift_x: i32, shift_y: i32, block_size: u32)
    ensures
        ({
            let g = m.grid(shift_x, shift_y, block_size);
            &&& m.width <= i32::MAX ==> g.width == m.width
            &&& m.width > i32::MAX ==> g.width == 0
            &&& m.height <= i32::MAX ==> g.height == m.height
            &&& m.height > i32::MAX ==> g.height == 0
            &&& block_size <= i32::MAX ==> g.size == block_size
            &&& block_size > i32::MAX ==> g.size == 32
            &&& g.shift_x == shift_x && g.shift_y == shift_y
        }),
{
}

/// A block is all of the picture that lies in one cell of the grid. The blocks of a phase have
/// cells whose column is even, or odd, and whose row is even, or odd, in the order of the phases:
/// both even, the column odd, the row odd, both odd.
pub proof fn law_block_is_cell(g: Grid, f: int, j: int, x: int, y: int)
    requires
        g.sound(),
        0 <= f < 4,
        0 <= j < g.phase(f).len(),
    ensures
        ({
            let b = g.phase(f)[j];
            let bx = (b.start_x + g.shift_x) / g.size;
            let by = (b.start_y + g.shift_y) / g.size;
            &&& b.start_x < b.end_x && b.start_y < b.end_y
            &&& b.has(x, y) <==> 0 <= x < g.width && 0 <= y < g.height && (x + g.shift_x) / g.size
                == bx && (y + g.shift_y) / g.size == by
            &&& bx % 2 == f % 2
            &&& by % 2 == f / 2
        }),
{
    lemma_phase_lists(g, f);
    let b = g.phase(f)[j];
    let by = g.row_of(b.start_y as int);
    let bx = g.column_of(b.start_x as int);
    assert(g.cell(by, bx) == Some(b));
    lemma_cell(g, by, bx, x, y);
}

/// The blocks of a phase come row by row, and in each row from left to right.
pub proof fn law_blocks_in_order(g: Grid, f: int, i: int, j: int)
    requires
        g.sound(),
        0 <= i < j < g.phase(f).len(),
    ensures
        ({
            let a = g.phase(f)[i];
            let b = g.phase(f)[j];
            a.start_y < b.start_y || (a.start_y == b.start_y && a.start_x < b.start_x)
        }),
{
    lemma_phase_lists(g, f);
    let a = g.phase(f)[i];
    let b = g.phase(f)[j];
    let ay = g.row_of(a.start_y as int);
    let ax = g.column_of(a.start_x as int);
    let by = g.row_of(b.start_y as int);
    let bx = g.column_of(b.start_x as int);
    assert(g.cell(ay, ax) == Some(a));
    assert(g.cell(by, bx) == Some(b));
    if ay < by {
        if a.start_y >= b.start_y {
            lemma_div_is_ordered(b.start_y + g.shift_y, a.start_y + g.shift_y, g.size);
        }
    } else {
        if a.start_x >= b.start_x {
            lemma_div_is_ordered(b.start_x + g.shift_x, a.start_x + g.shift_x, g.size);
        }
    }
}

} // verus!
