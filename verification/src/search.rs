//! The search: passes over all pixels, block by block, until a pass changes nothing.
use crate::blocks::{block_size_signed, signed_size, Block, Grid};
use crate::context::{fits, thresholded, DbsContext, DbsModel};
use crate::fixed::{clamp32, sat_add32};
use crate::plane::GrayPlane;
use crate::progress::{block_events, phase_events, Event, Progress};
use rand::rngs::ThreadRng;
use rand::Rng;
use vstd::prelude::*;

verus! {

/// A context, and how many pixels were toggled and swapped on the way to it.
#[verifier::ext_equal]
pub struct Tally {
    pub model: DbsModel,
    pub toggles: i32,
    pub swaps: i32,
}

/// A context with its counts.
pub open spec fn tally(model: DbsModel, toggles: i32, swaps: i32) -> Tally {
    Tally { model, toggles, swaps }
}

/// A context at which nothing was counted yet.
pub open spec fn fresh_tally(model: DbsModel) -> Tally {
    tally(model, 0, 0)
}

impl Tally {
    /// After the best operation at a pixel.
    pub open spec fn visit(self, x: u32, y: u32) -> Tally {
        let choice = self.model.best(x, y, 8).1;
        Tally {
            model: self.model.improved(x, y),
            toggles: if choice is Toggle {
                clamp32(self.toggles + 1)
            } else {
                self.toggles
            },
            swaps: if choice is Swap {
                clamp32(self.swaps + 1)
            } else {
                self.swaps
            },
        }
    }

    /// After the first `n` pixels of a row of a block. Even rows go from left to right, odd ones
    /// from right to left.
    pub open spec fn visit_row(self, block: Block, y: u32, n: nat) -> Tally
        decreases n,
    {
        if n == 0 {
            self
        } else {
            let x = if y % 2 == 0 {
                block.start_x + n - 1
            } else {
                block.end_x - n
            };
            self.visit_row(block, y, (n - 1) as nat).visit(x as u32, y)
        }
    }

    /// After the first `n` rows of a block.
    pub open spec fn visit_rows(self, block: Block, n: nat) -> Tally
        decreases n,
    {
        if n == 0 {
            self
        } else {
            self.visit_rows(block, (n - 1) as nat).visit_row(
                block,
                (block.start_y + n - 1) as u32,
                row_len(block),
            )
        }
    }

    /// After a block, which is counted on its own; the sums of the counts wrap around.
    pub open spec fn visit_block(self, block: Block) -> Tally {
        let done = processed(self.model, block);
        Tally {
            model: done.model,
            toggles: self.toggles.wrapping_add(done.toggles),
            swaps: self.swaps.wrapping_add(done.swaps),
        }
    }

    /// After the first `n` blocks of a list.
    pub open spec fn visit_blocks(self, blocks: Seq<Block>, n: nat) -> Tally
        decreases n,
    {
        if n == 0 {
            self
        } else {
            self.visit_blocks(blocks, (n - 1) as nat).visit_block(blocks[n - 1])
        }
    }

    /// After the first `n` phases of a grid.
    pub open spec fn visit_phases(self, grid: Grid, n: nat) -> Tally
        decreases n,
    {
        if n == 0 {
            self
        } else {
            let blocks = grid.phase(n - 1);
            self.visit_phases(grid, (n - 1) as nat).visit_blocks(blocks, blocks.len())
        }
    }
}

/// How many pixels a row of a block has.
pub open spec fn row_len(block: Block) -> nat {
    if block.end_x >= block.start_x {
        (block.end_x - block.start_x) as nat
    } else {
        0
    }
}

/// How many rows a block has.
pub open spec fn row_count(block: Block) -> nat {
    if block.end_y >= block.start_y {
        (block.end_y - block.start_y) as nat
    } else {
        0
    }
}

/// A context once every pixel of a block was visited.
pub open spec fn processed(model: DbsModel, block: Block) -> Tally {
    fresh_tally(model).visit_rows(block, row_count(block))
}

/// A context after one pass over the grid with these shifts.
pub open spec fn pass(model: DbsModel, shift: (i32, i32)) -> Tally {
    fresh_tally(model).visit_phases(model.grid(shift.0, shift.1, model.block_size()), 4)
}

/// Whether a pass counts nothing.
pub open spec fn settles(model: DbsModel, shift: (i32, i32)) -> bool {
    pass(model, shift).toggles == 0 && pass(model, shift).swaps == 0
}

/// A context after one pass for each shift; the sums of the counts saturate.
pub open spec fn passes(model: DbsModel, shifts: Seq<(i32, i32)>) -> Tally
    decreases shifts.len(),
{
    if shifts.len() == 0 {
        fresh_tally(model)
    } else {
        let before = passes(model, shifts.drop_last());
        let last = pass(before.model, shifts.last());
        Tally {
            model: last.model,
            toggles: clamp32(before.toggles + last.toggles),
            swaps: clamp32(before.swaps + last.swaps),
        }
    }
}

/// What is shown of the first `n` phases of a pass.
pub open spec fn phases_events(grid: Grid, number: usize, n: nat) -> Seq<Event>
    decreases n,
{
    if n == 0 {
        Seq::empty()
    } else {
        phases_events(grid, number, (n - 1) as nat) + phase_events(
            grid.phase(n - 1),
            number,
            n - 1,
        )
    }
}

/// What is shown of the pass with this number and these shifts.
pub open spec fn pass_events(model: DbsModel, shift: (i32, i32), number: usize) -> Seq<Event> {
    seq![Event::Started { number, shift_x: shift.0, shift_y: shift.1 }] + phases_events(
        model.grid(shift.0, shift.1, model.block_size()),
        number,
        4,
    )
}

/// What is shown of one pass for each shift.
pub open spec fn passes_events(model: DbsModel, shifts: Seq<(i32, i32)>) -> Seq<Event>
    decreases shifts.len(),
{
    if shifts.len() == 0 {
        Seq::empty()
    } else {
        passes_events(model, shifts.drop_last()) + pass_events(
            passes(model, shifts.drop_last()).model,
            shifts.last(),
            shifts.len() as usize,
        )
    }
}

/// What is shown of a search: its passes, and at the end whether the last changed nothing.
pub open spec fn search_events(model: DbsModel, shifts: Seq<(i32, i32)>) -> Seq<Event> {
    if settles(passes(model, shifts.drop_last()).model, shifts.last()) {
        passes_events(model, shifts).push(Event::Converged { number: shifts.len() as usize })
    } else {
        passes_events(model, shifts)
    }
}

/// Every shift moves the grid by less than a block.
pub open spec fn shifts_allowed(model: DbsModel, shifts: Seq<(i32, i32)>) -> bool {
    forall|k: int|
        #![trigger shifts[k]]
        0 <= k < shifts.len() ==> 0 <= shifts[k].0 < signed_size(model.block_size()) && 0
            <= shifts[k].1 < signed_size(model.block_size())
}

/// Every pass but the last counts something.
pub open spec fn only_last_settles(model: DbsModel, shifts: Seq<(i32, i32)>) -> bool {
    forall|k: int|
        0 <= k < shifts.len() - 1 ==> !settles(
            passes(model, #[trigger] shifts.take(k)).model,
            shifts[k],
        )
}

/// A search that starts at `model` and makes the passes with these shifts. It ends with the first
/// pass that counts nothing, or when the numbers of the passes run out.
pub open spec fn search_with(model: DbsModel, shifts: Seq<(i32, i32)>, end: Tally) -> bool {
    &&& shifts.len() > 0
    &&& shifts_allowed(model, shifts)
    &&& only_last_settles(model, shifts)
    &&& settles(passes(model, shifts.drop_last()).model, shifts.last()) || shifts.len()
        == usize::MAX
    &&& end == passes(model, shifts)
}

/// Every shift was drawn from the numbers below the size of a block.
pub open spec fn shifts_drawn(model: DbsModel, shifts: Seq<(i32, i32)>) -> bool {
    forall|k: int|
        #![trigger shifts[k]]
        0 <= k < shifts.len() ==> drawn(signed_size(model.block_size()), shifts[k].0) && drawn(
            signed_size(model.block_size()),
            shifts[k].1,
        )
}

/// Whether a search that starts at `model` can end at `end`, and show `shown` on the way.
pub open spec fn search_ends(model: DbsModel, end: Tally, shown: Seq<Event>) -> bool {
    exists|shifts: Seq<(i32, i32)>| #[trigger]
        search_with(model, shifts, end) && shown == search_events(model, shifts)
}

/// The same for a search whose shifts are drawn.
pub open spec fn drawn_search_ends(model: DbsModel, end: Tally, shown: Seq<Event>) -> bool {
    exists|shifts: Seq<(i32, i32)>| #[trigger]
        search_with(model, shifts, end) && shifts_drawn(model, shifts) && shown == search_events(
            model,
            shifts,
        )
}

#[verifier::external_type_specification]
#[verifier::external_body]
pub struct ExThreadRng(rand::rngs::ThreadRng);

/// The random number generator of this thread: `rand::rng`. Nothing is claimed of it.
#[verifier::external_body]
fn thread_rng() -> (r: ThreadRng) {
    rand::rng()
}

/// A random number from zero up to `bound`: `Rng::random_range` of `rand`, which panics on an
/// empty range. The contract claims only that the number lies in the range.
#[verifier::external_body]
fn random_below(rng: &mut ThreadRng, bound: i32) -> (r: i32)
    requires
        bound > 0,
    ensures
        0 <= r < bound,
{
    rng.random_range(0i32..bound)
}

/// Whether a number can come of drawing one below a bound: what `random_below` can return.
pub closed spec fn drawn(bound: i32, r: i32) -> bool {
    exists|rng: &mut ThreadRng| #[trigger] call_ensures(random_below, (rng, bound), r)
}

impl DbsContext {
    /// Visits every pixel of a block. Returns how many were toggled and how many swapped.
    pub fn process_block(&mut self, block: &Block) -> (r: (i32, i32))
        requires
            old(self)@.wf(),
        ensures
            tally(final(self)@, r.0, r.1) == processed(
                old(self)@,
                *block,
            ),
            final(self)@.wf(),
    {
        let ghost m = self@;
        let mut toggles: i32 = 0;
        let mut swaps: i32 = 0;
        let mut yy: u32 = block.start_y;
        while yy < block.end_y
            invariant
                self@.wf(),
                block.start_y <= yy,
                block.start_y <= block.end_y ==> yy <= block.end_y,
                block.start_y > block.end_y ==> yy == block.start_y,
                tally(self@, toggles, swaps) == fresh_tally(m).visit_rows(
                    *block,
                    (yy - block.start_y) as nat,
                ),
            decreases block.end_y - yy,
        {
            let ghost before = tally(self@, toggles, swaps);
            let mut n: u32 = 0;
            let len: u32 = block.end_x.saturating_sub(block.start_x);
            while n < len
                invariant
                    self@.wf(),
                    n <= len == row_len(*block),
                    tally(self@, toggles, swaps) == before.visit_row(
                        *block,
                        yy,
                        n as nat,
                    ),
                decreases len - n,
            {
                let xx: u32 = if yy % 2 == 0 {
                    block.start_x + n
                } else {
                    block.end_x - n - 1
                };
                match self.try_best_operation(xx, yy) {
                    Some(true) => {
                        toggles = sat_add32(toggles, 1);
                    },
                    Some(false) => {
                        swaps = sat_add32(swaps, 1);
                    },
                    None => {},
                }
                n = n + 1;
            }
            yy = yy + 1;
        }
        (toggles, swaps)
    }

    /// Visits the blocks of one phase, one after the other, and adds to the counts.
    fn process_phase<F: Fn(Event)>(
        &mut self,
        blocks: &Vec<Block>,
        counts: (i32, i32),
        progress: &mut Progress<F>,
    ) -> (r: (i32, i32))
        requires
            old(self)@.wf(),
            old(progress).ready(),
        ensures
            tally(final(self)@, r.0, r.1) == tally(old(self)@, counts.0, counts.1).visit_blocks(
                blocks@,
                blocks@.len(),
            ),
            final(self)@.wf(),
            final(progress)@ == old(progress)@ + block_events(blocks@, blocks@.len()),
            final(progress).ready(),
            final(progress).watcher() == old(progress).watcher(),
    {
        let ghost seen = progress@;
        assert(seen + block_events(blocks@, 0) =~= seen);
        let ghost start = tally(self@, counts.0, counts.1);
        let mut toggles: i32 = counts.0;
        let mut swaps: i32 = counts.1;
        let mut n: usize = 0;
        while n < blocks.len()
            invariant
                self@.wf(),
                n <= blocks@.len(),
                progress.ready(),
                progress.watcher() == old(progress).watcher(),
                tally(self@, toggles, swaps) == start.visit_blocks(blocks@, n as nat),
                progress@ == seen + block_events(blocks@, n as nat),
            decreases blocks@.len() - n,
        {
            let (block_toggles, block_swaps) = self.process_block(&blocks[n]);
            toggles = toggles.wrapping_add(block_toggles);
            swaps = swaps.wrapping_add(block_swaps);
            progress.emit(Event::BlockDone { pixels: blocks[n].pixels() });
            assert(progress@ =~= seen + block_events(blocks@, (n + 1) as nat));
            n = n + 1;
        }
        (toggles, swaps)
    }

    /// One pass over all pixels, block by block and phase by phase. Returns how many pixels were
    /// toggled and how many swapped. `number` is that of the pass, which is shown.
    pub fn run_pass<F: Fn(Event)>(
        &mut self,
        shift_x: i32,
        shift_y: i32,
        number: usize,
        progress: &mut Progress<F>,
    ) -> (r: (i32, i32))
        requires
            old(self)@.wf(),
            old(progress).ready(),
        ensures
            tally(final(self)@, r.0, r.1) == pass(
                old(self)@,
                (shift_x, shift_y),
            ),
            final(self)@.wf(),
            final(progress)@ == old(progress)@ + pass_events(
                old(self)@,
                (shift_x, shift_y),
                number,
            ),
            final(progress).ready(),
            final(progress).watcher() == old(progress).watcher(),
    {
        let ghost m = self@;
        let ghost seen = progress@;
        let block_size: u32 = self.compute_block_size();
        let phases: [Vec<Block>; 4] = self.generate_blocks(shift_x, shift_y, block_size);
        let ghost g = m.grid(shift_x, shift_y, block_size);
        progress.emit(Event::Started { number, shift_x, shift_y });
        let ghost opened = seen + seq![Event::Started { number, shift_x, shift_y }];
        assert(progress@ =~= opened + phases_events(g, number, 0));
        let mut toggles: i32 = 0;
        let mut swaps: i32 = 0;
        let mut f: usize = 0;
        while f < 4
            invariant
                self@.wf(),
                f <= 4,
                progress.ready(),
                progress.watcher() == old(progress).watcher(),
                forall|k: int| 0 <= k < 4 ==> (#[trigger] phases[k])@ == g.phase(k),
                tally(self@, toggles, swaps) == fresh_tally(m).visit_phases(
                    g,
                    f as nat,
                ),
                progress@ == opened + phases_events(g, number, f as nat),
            decreases 4 - f,
        {
            assert(phases[f as int]@ == g.phase(f as int));
            let ghost before = progress@;
            if phases[f].len() > 0 {
                let (t, s) = self.process_phase(&phases[f], (toggles, swaps), progress);
                toggles = t;
                swaps = s;
                progress.emit(Event::PhaseDone { number, phase: f + 1 });
            }
            assert(progress@ =~= before + phase_events(g.phase(f as int), number, f as int));
            assert(progress@ =~= opened + phases_events(g, number, (f + 1) as nat));
            f = f + 1;
        }
        assert(progress@ =~= seen + pass_events(m, (shift_x, shift_y), number));
        (toggles, swaps)
    }
}

/// Makes passes over the picture, each with a random shift of the grid, until one changes nothing.
/// Returns how many pixels were toggled and how many swapped in all. The passes are numbered from
/// one; should the numbers run out, the search ends there.
pub fn run_dbs_iterations<F: Fn(Event)>(
    dbs: &mut DbsContext,
    progress: &mut Progress<F>,
) -> (r: (i32, i32))
    requires
        old(dbs)@.wf(),
        old(progress).ready(),
    ensures
        old(progress)@.is_prefix_of(final(progress)@),
        search_ends(
            old(dbs)@,
            tally(final(dbs)@, r.0, r.1),
            final(progress)@.skip(old(progress)@.len() as int),
        ),
        drawn_search_ends(
            old(dbs)@,
            tally(final(dbs)@, r.0, r.1),
            final(progress)@.skip(old(progress)@.len() as int),
        ),
        final(dbs)@.wf(),
        final(progress).ready(),
        final(progress).watcher() == old(progress).watcher(),
{
    let ghost m = dbs@;
    let ghost seen = progress@;
    let ghost mut shifts: Seq<(i32, i32)> = Seq::empty();
    let size: i32 = block_size_signed(dbs.compute_block_size());
    let mut rng: ThreadRng = thread_rng();
    let mut toggle_count: i32 = 0;
    let mut swap_count: i32 = 0;
    let mut number: usize = 0;
    assert(progress@ =~= seen + passes_events(m, shifts));
    while number < usize::MAX
        invariant
            dbs@.wf(),
            m == old(dbs)@,
            size == signed_size(m.block_size()),
            size > 0,
            progress.ready(),
            progress.watcher() == old(progress).watcher(),
            shifts.len() == number,
            shifts_allowed(m, shifts),
            shifts_drawn(m, shifts),
            forall|k: int|
                0 <= k < shifts.len() ==> !settles(
                    passes(m, #[trigger] shifts.take(k)).model,
                    shifts[k],
                ),
            tally(dbs@, toggle_count, swap_count) == passes(m, shifts),
            seen == old(progress)@,
            progress@ == seen + passes_events(m, shifts),
        decreases usize::MAX - number,
    {
        number = number + 1;
        let shift_x: i32 = random_below(&mut rng, size);
        let shift_y: i32 = random_below(&mut rng, size);
        assert(drawn(size, shift_x) && drawn(size, shift_y));
        let (toggles, swaps) = dbs.run_pass(shift_x, shift_y, number, progress);
        toggle_count = sat_add32(toggle_count, toggles);
        swap_count = sat_add32(swap_count, swaps);
        let ghost before = shifts;
        proof {
            shifts = before.push((shift_x, shift_y));
            assert(shifts.drop_last() =~= before);
            assert(progress@ =~= seen + passes_events(m, shifts));
            assert forall|k: int| 0 <= k < before.len() implies #[trigger] shifts.take(k)
                == before.take(k) by {
                assert(shifts.take(k) =~= before.take(k));
            }
            assert(shifts.take(before.len() as int) =~= before);
            assert forall|k: int| 0 <= k < before.len() implies !settles(
                passes(m, #[trigger] shifts.take(k)).model,
                shifts[k],
            ) by {
                assert(shifts.take(k) =~= before.take(k));
                assert(shifts[k] == before[k]);
            }
        }
        if toggles == 0 && swaps == 0 {
            progress.emit(Event::Converged { number });
            proof {
                let shown = search_events(m, shifts);
                assert(progress@ =~= seen + shown);
                assert(progress@.skip(seen.len() as int) =~= shown);
                assert(search_with(m, shifts, tally(dbs@, toggle_count, swap_count)));
            }
            return (toggle_count, swap_count);
        }
    }
    proof {
        let shown = search_events(m, shifts);
        assert(shifts.take(shifts.len() - 1) =~= shifts.drop_last());
        assert(progress@ =~= seen + shown);
        assert(progress@.skip(seen.len() as int) =~= shown);
        assert(search_with(m, shifts, tally(dbs@, toggle_count, swap_count)));
    }
    (toggle_count, swap_count)
}

/// Halftones a plane with a kernel of width `size`; see `DbsContext::new`. Returns the context at
/// which the search ended, and how many pixels were toggled and how many swapped.
pub fn perform_dbs_with_progress<F: Fn(Event)>(
    img: &GrayPlane,
    size: i32,
    weights: &[u64],
    progress: &mut Progress<F>,
) -> (r: (DbsContext, i32, i32))
    requires
        img@.wf(),
        fits(img.width, img.height, size),
        old(progress).ready(),
    ensures
        (old(progress)@.push(Event::Initializing)).is_prefix_of(final(progress)@),
        search_ends(
            thresholded(img@, size, weights@).with_error().with_e2(),
            tally(r.0@, r.1, r.2),
            final(progress)@.drop_last().skip(old(progress)@.len() as int + 1),
        ),
        drawn_search_ends(
            thresholded(img@, size, weights@).with_error().with_e2(),
            tally(r.0@, r.1, r.2),
            final(progress)@.drop_last().skip(old(progress)@.len() as int + 1),
        ),
        final(progress)@.last() == Event::Finished,
        r.0@.wf(),
        final(progress).ready(),
        final(progress).watcher() == old(progress).watcher(),
{
    let ghost seen = progress@;
    progress.emit(Event::Initializing);
    let mut dbs: DbsContext = DbsContext::new(img, size, weights);
    let ghost start = dbs@;
    let (toggles, swaps) = run_dbs_iterations(&mut dbs, progress);
    let ghost told = progress@;
    progress.emit(Event::Finished);
    proof {
        let opened = seen.push(Event::Initializing);
        assert(progress@.drop_last() =~= told);
        assert(opened =~= told.subrange(0, opened.len() as int));
        assert(opened =~= progress@.subrange(0, opened.len() as int));
    }
    (dbs, toggles, swaps)
}

} // verus!
