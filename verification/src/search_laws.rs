//! The best operation at a pixel, and what a search keeps.
use crate::blocks::{Block, Grid};
use crate::context::{fits, lemma_margin, margin_of, thresholded, DbsModel};
use crate::fold::{count_between, grid_fold, row_fold};
use crate::kernel::autocorr_width;
use crate::kernel_laws::{
    law_context_mirrored, law_context_regular, lemma_sides, lemma_size_bound, mirrored_weights,
};
use crate::map_laws::{
    law_toggle_keeps_error, lemma_pixel_index, lemma_scattered_len, light, mirrored,
};
use crate::ops::Choice;
use crate::plane::PlaneModel;
use crate::search::{fresh_tally, passes, row_count, row_len, Tally};
use crate::swap_laws::{law_swap_keeps_error, lemma_swapped_wf};
use vstd::prelude::*;

verus! {

/// The expected change of the squared error that an operation at a pixel brings about.
pub open spec fn choice_delta(m: DbsModel, x: u32, y: u32, choice: Choice) -> Option<i64> {
    match choice {
        Choice::Keep => Some(0i64),
        Choice::Toggle => Some(m.toggle_delta(x, y)),
        Choice::Swap(k) => m.neighbour_delta(x, y, k as int),
    }
}

/// The best operation at a pixel is one that there is, and no other is expected to lower the
/// squared error further. It is to do nothing just where no operation is expected to lower it.
pub proof fn law_best_is_least(m: DbsModel, x: u32, y: u32, n: nat)
    requires
        n <= 8,
    ensures
        ({
            let b = m.best(x, y, n);
            &&& choice_delta(m, x, y, b.1) == Some(b.0)
            &&& b.0 <= 0
            &&& b.0 <= m.toggle_delta(x, y)
            &&& forall|k: int|
                0 <= k < n ==> (#[trigger] m.neighbour_delta(x, y, k) matches Some(d) ==> b.0 <= d)
            &&& b.1 is Keep <==> b.0 == 0
            &&& b.1 matches Choice::Swap(k) ==> k < n
        }),
    decreases n,
{
    if n > 0 {
        law_best_is_least(m, x, y, (n - 1) as nat);
    }
}

/// The best operation, and its expected change, where there is nothing to gain.
pub proof fn law_keep_iff_nothing_helps(m: DbsModel, x: u32, y: u32)
    ensures
        m.best(x, y, 8).1 is Keep <==> (m.toggle_delta(x, y) >= 0 && forall|k: int|
            0 <= k < 8 ==> (#[trigger] m.neighbour_delta(x, y, k) matches Some(d) ==> d >= 0)),
{
    law_best_is_least(m, x, y, 8);
    let b = m.best(x, y, 8);
    if b.1 is Swap {
        let k = b.1->Swap_0 as int;
        assert(m.neighbour_delta(x, y, k) == Some(b.0));
    }
}

/// Whether the best operation at a pixel of the picture keeps a property of a context.
pub open spec fn kept(p: spec_fn(DbsModel) -> bool, width: u32, height: u32) -> bool {
    &&& forall|m: DbsModel| #[trigger] p(m) ==> m.width == width && m.height == height
    &&& forall|m: DbsModel, x: u32, y: u32|
        #![trigger m.improved(x, y)]
        p(m) && x < width && y < height ==> p(m.improved(x, y))
}

proof fn lemma_row_keeps(
    p: spec_fn(DbsModel) -> bool,
    width: u32,
    height: u32,
    t: Tally,
    block: Block,
    y: u32,
    n: nat,
)
    requires
        kept(p, width, height),
        p(t.model),
        block.end_x <= width,
        y < height,
        n <= row_len(block),
    ensures
        p(t.visit_row(block, y, n).model),
    decreases n,
{
    if n > 0 {
        lemma_row_keeps(p, width, height, t, block, y, (n - 1) as nat);
    }
}

/// What the best operation at every pixel keeps, the rows of a block keep.
pub proof fn lemma_rows_keep(
    p: spec_fn(DbsModel) -> bool,
    width: u32,
    height: u32,
    t: Tally,
    block: Block,
    n: nat,
)
    requires
        kept(p, width, height),
        p(t.model),
        block.end_x <= width,
        block.end_y <= height,
        n <= row_count(block),
    ensures
        p(t.visit_rows(block, n).model),
    decreases n,
{
    if n > 0 {
        lemma_rows_keep(p, width, height, t, block, (n - 1) as nat);
        lemma_row_keeps(
            p,
            width,
            height,
            t.visit_rows(block, (n - 1) as nat),
            block,
            (block.start_y + n - 1) as u32,
            row_len(block),
        );
    }
}

/// Every block lies in the picture.
pub open spec fn blocks_inside(blocks: Seq<Block>, width: int, height: int) -> bool {
    forall|j: int|
        0 <= j < blocks.len() ==> (#[trigger] blocks[j]).end_x <= width && blocks[j].end_y <= height
}

proof fn lemma_blocks_keep(
    p: spec_fn(DbsModel) -> bool,
    width: u32,
    height: u32,
    t: Tally,
    blocks: Seq<Block>,
    n: nat,
)
    requires
        kept(p, width, height),
        p(t.model),
        blocks_inside(blocks, width as int, height as int),
        n <= blocks.len(),
    ensures
        p(t.visit_blocks(blocks, n).model),
    decreases n,
{
    if n > 0 {
        lemma_blocks_keep(p, width, height, t, blocks, (n - 1) as nat);
        let before = t.visit_blocks(blocks, (n - 1) as nat);
        let b = blocks[n - 1];
        lemma_rows_keep(p, width, height, fresh_tally(before.model), b, row_count(b));
    }
}

proof fn lemma_phase_row_inside(g: Grid, f: int, blocks: Seq<Block>, y: int, x0: int, n: nat)
    requires
        blocks_inside(blocks, g.width, g.height),
        0 <= g.width <= u32::MAX,
        0 <= g.height <= u32::MAX,
    ensures
        blocks_inside(row_fold(g.phase_step(f), blocks, y, x0, n), g.width, g.height),
    decreases n,
{
    if n > 0 {
        lemma_phase_row_inside(g, f, blocks, y, x0, (n - 1) as nat);
    }
}

proof fn lemma_phase_rows_inside(g: Grid, f: int, y0: int, x0: int, rows: nat, cols: nat)
    requires
        0 <= g.width <= u32::MAX,
        0 <= g.height <= u32::MAX,
    ensures
        blocks_inside(
            grid_fold(g.phase_step(f), Seq::<Block>::empty(), y0, x0, rows, cols),
            g.width,
            g.height,
        ),
    decreases rows,
{
    if rows > 0 {
        lemma_phase_rows_inside(g, f, y0, x0, (rows - 1) as nat, cols);
        lemma_phase_row_inside(
            g,
            f,
            grid_fold(
                g.phase_step(f),
                Seq::<Block>::empty(),
                y0,
                x0,
                (rows - 1) as nat,
                cols,
            ),
            y0 + rows - 1,
            x0,
            cols,
        );
    }
}

/// Every block of a phase lies in the picture, however the grid is shifted.
pub proof fn law_blocks_inside(m: DbsModel, shift_x: i32, shift_y: i32, block_size: u32, f: int)
    ensures
        blocks_inside(
            m.grid(shift_x, shift_y, block_size).phase(f),
            m.width as int,
            m.height as int,
        ),
{
    let g = m.grid(shift_x, shift_y, block_size);
    lemma_phase_rows_inside(
        g,
        f,
        g.first_row(),
        g.first_column(),
        count_between(g.first_row(), g.last_row()),
        count_between(g.first_column(), g.last_column()),
    );
}

proof fn lemma_phases_keep(
    p: spec_fn(DbsModel) -> bool,
    m: DbsModel,
    shift: (i32, i32),
    n: nat,
)
    requires
        kept(p, m.width, m.height),
        p(m),
        n <= 4,
    ensures
        p(
            fresh_tally(m).visit_phases(m.grid(shift.0, shift.1, m.block_size()), n).model,
        ),
    decreases n,
{
    let g = m.grid(shift.0, shift.1, m.block_size());
    if n > 0 {
        lemma_phases_keep(p, m, shift, (n - 1) as nat);
        law_blocks_inside(m, shift.0, shift.1, m.block_size(), n - 1);
        let blocks = g.phase(n - 1);
        lemma_blocks_keep(
            p,
            m.width,
            m.height,
            fresh_tally(m).visit_phases(g, (n - 1) as nat),
            blocks,
            blocks.len(),
        );
    }
}

/// What the best operation at every pixel keeps, a search keeps.
pub proof fn law_search_keeps(
    p: spec_fn(DbsModel) -> bool,
    m: DbsModel,
    shifts: Seq<(i32, i32)>,
)
    requires
        kept(p, m.width, m.height),
        p(m),
    ensures
        p(passes(m, shifts).model),
    decreases shifts.len(),
{
    if shifts.len() > 0 {
        law_search_keeps(p, m, shifts.drop_last());
        let before = passes(m, shifts.drop_last()).model;
        lemma_phases_keep(p, before, shifts.last(), 4);
    }
}

/// The best operation keeps the dimensions, the picture and the kernel, and every pixel of the
/// halftone stays off or on.
pub proof fn lemma_improved_frame(m: DbsModel, x: u32, y: u32)
    requires
        m.wf(),
        m.has_pixel(x, y),
    ensures
        ({
            let t = m.improved(x, y);
            &&& t.wf()
            &&& t == DbsModel { halftone: t.halftone, error: t.error, e2: t.e2, ..m }
        }),
{
    lemma_pixel_index(m, x, y);
    law_best_is_least(m, x, y, 8);
    match m.best(x, y, 8).1 {
        Choice::Keep => {},
        Choice::Toggle => {
            let i = m.index_of(x, y);
            let t = m.toggled(x, y);
            let change: i64 = if m.halftone[i] == 0 {
                65536
            } else {
                (-65536) as i64
            };
            lemma_scattered_len(m.error, m.kernel.offsets, i, change, m.kernel.offsets.len());
            lemma_scattered_len(
                m.e2,
                m.kernel.autocorr_offsets,
                i,
                change,
                m.kernel.autocorr_offsets.len(),
            );
        },
        Choice::Swap(k) => {
            let n = m.neighbour(x, y, k as int)->0;
            assert(m.neighbour_delta(x, y, k as int) is Some);
            lemma_swapped_wf(m, x, y, n.0, n.1);
        },
    }
}

impl DbsModel {
    /// The error map is exact, and operations keep it so.
    pub open spec fn faithful(self) -> bool {
        &&& self.wf()
        &&& self.regular()
        &&& self.addressable()
        &&& light(self.kernel.offsets)
        &&& mirrored(self.kernel.offsets)
        &&& self.error_exact()
    }
}

/// The best operation at a pixel keeps the error map exact.
pub proof fn law_improvement_keeps_error(m: DbsModel, x: u32, y: u32)
    requires
        m.faithful(),
        m.has_pixel(x, y),
    ensures
        m.improved(x, y).faithful(),
{
    lemma_improved_frame(m, x, y);
    law_best_is_least(m, x, y, 8);
    match m.best(x, y, 8).1 {
        Choice::Keep => {},
        Choice::Toggle => {
            law_toggle_keeps_error(m, x, y);
        },
        Choice::Swap(k) => {
            let n = m.neighbour(x, y, k as int)->0;
            assert(m.neighbour_delta(x, y, k as int) is Some);
            lemma_margin(m.kernel_size);
            assert(m.has_pixel(n.0, n.1));
            law_swap_keeps_error(m, x, y, n.0, n.1);
        },
    }
}

/// A search keeps the error map exact: at each of its steps it is the filtered difference of the
/// halftone and the picture.
pub proof fn law_search_keeps_error(m: DbsModel, shifts: Seq<(i32, i32)>)
    requires
        m.faithful(),
    ensures
        passes(m, shifts).model.faithful(),
{
    let w = m.width;
    let h = m.height;
    let p = |c: DbsModel| c.faithful() && c.width == w && c.height == h;
    assert forall|c: DbsModel, x: u32, y: u32|
        #![trigger c.improved(x, y)]
        p(c) && x < w && y < h implies p(c.improved(x, y)) by {
        law_improvement_keeps_error(c, x, y);
        lemma_improved_frame(c, x, y);
    }
    law_search_keeps(p, m, shifts);
}

/// The context of a picture is well formed and its error map is exact.
pub proof fn law_context_faithful(img: PlaneModel, size: i32, weights: Seq<u64>)
    requires
        fits(img.width, img.height, size),
        1 <= size,
        size % 2 == 1,
        autocorr_width(size) * autocorr_width(size) <= i32::MAX,
        mirrored_weights(weights, size * size),
        light(thresholded(img, size, weights).kernel.offsets),
    ensures
        ({
            let m = thresholded(img, size, weights).with_error().with_e2();
            &&& m.wf()
            &&& m.error_exact()
            &&& m.addressable() ==> m.faithful()
        }),
{
    let a = thresholded(img, size, weights);
    let m = a.with_error().with_e2();
    law_context_regular(img, size, weights);
    law_context_mirrored(img, size, weights);
    lemma_size_bound(autocorr_width(size) as int);
    lemma_margin(size);
    assert(margin_of(size) == size - 1);
    lemma_sides(img.width, img.height, size);
    assert(m.wf()) by {
        assert forall|i: int| 0 <= i < m.original.len() implies 0 <= #[trigger] m.original[i]
            && m.original[i] <= 65536 by {}
    }
    assert(m.difference() =~= a.difference());
}

/// A search keeps the dimensions, the picture and the kernel, and every pixel of the halftone stays
/// off or on.
pub proof fn law_search_frame(m: DbsModel, shifts: Seq<(i32, i32)>)
    requires
        m.wf(),
    ensures
        ({
            let t = passes(m, shifts).model;
            &&& t.wf()
            &&& t == DbsModel { halftone: t.halftone, error: t.error, e2: t.e2, ..m }
        }),
{
    let w = m.width;
    let h = m.height;
    let p = |t: DbsModel|
        t.wf() && t == (DbsModel { halftone: t.halftone, error: t.error, e2: t.e2, ..m });
    assert forall|c: DbsModel, x: u32, y: u32|
        #![trigger c.improved(x, y)]
        p(c) && x < w && y < h implies p(c.improved(x, y)) by {
        lemma_improved_frame(c, x, y);
    }
    law_search_keeps(p, m, shifts);
}

} // verus!
