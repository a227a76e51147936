//! What those who watch a search are shown, event by event.
use crate::blocks::{signed_size, Block, Grid};
use crate::context::DbsModel;
use crate::progress::{phase_events, Event};
use crate::search::{pass, pass_events, passes, passes_events, phases_events, search_events};
use crate::sums::total;
use vstd::prelude::*;

verus! {

/// How many pixels a block holds: its rows times its columns, and none where it has none of them.
/// Past the end of the word the number stays at the largest.
pub proof fn law_pixels_of_block(block: Block)
    ensures
        ({
            let w = block.end_x - block.start_x;
            let h = block.end_y - block.start_y;
            &&& w <= 0 || h <= 0 ==> block.pixel_count() == 0
            &&& w > 0 && h > 0 && w * h <= u32::MAX ==> block.pixel_count() == w * h
            &&& w > 0 && h > 0 && w * h > u32::MAX ==> block.pixel_count() == u32::MAX
        }),
{
    let w = block.end_x - block.start_x;
    let h = block.end_y - block.start_y;
    assert(w > 0 && h > 0 ==> w * h > 0) by (nonlinear_arith);
    assert(0 * h == 0 && w * 0 == 0);
    if w < 0 {
        assert(0 * (if h >= 0 {
            h
        } else {
            0
        }) == 0);
    }
}

/// A block size is used as it is, unless it has no place in a signed word; it is thirty-two then.
pub proof fn law_signed_block_size(block_size: u32)
    ensures
        block_size < 0x8000_0000 ==> signed_size(block_size) == block_size,
        block_size >= 0x8000_0000 ==> signed_size(block_size) == 32,
{
}

/// How many events a phase with `n` blocks has: one for each block, and one more at its end.
pub open spec fn phase_len(n: nat) -> int {
    if n == 0 {
        0
    } else {
        n as int + 1
    }
}

/// How many events each phase of a grid has.
pub open spec fn phase_lens(g: Grid) -> spec_fn(int) -> int {
    |f: int| phase_len(g.phase(f).len())
}

/// The events of a phase: that each of its blocks is done, with how many pixels it holds, in the
/// order of the blocks, and then that the phase is done. A phase without blocks has none.
pub proof fn law_events_of_phase(blocks: Seq<Block>, number: usize, phase: int, k: int)
    requires
        0 <= phase < 4,
        0 <= k < blocks.len(),
    ensures
        ({
            let events = phase_events(blocks, number, phase);
            &&& events.len() == blocks.len() + 1
            &&& events[k] == (Event::BlockDone { pixels: blocks[k].pixel_count() })
            &&& events[blocks.len() as int] == (Event::PhaseDone {
                number,
                phase: (phase + 1) as usize,
            })
        }),
{
}

/// Where the events of a phase lie among those of the first phases.
proof fn lemma_phases_part(g: Grid, number: usize, n: nat, f: int)
    requires
        0 <= f < n <= 4,
    ensures
        ({
            let events = phases_events(g, number, n);
            let start = total(phase_lens(g), f as nat);
            let end = total(phase_lens(g), (f + 1) as nat);
            &&& events.len() == total(phase_lens(g), n)
            &&& 0 <= start <= end <= events.len()
            &&& events.subrange(start, end) == phase_events(g.phase(f), number, f)
        }),
    decreases n,
{
    let before = phases_events(g, number, (n - 1) as nat);
    let part = phase_events(g.phase(n - 1), number, n - 1);
    let events = phases_events(g, number, n);
    assert(part.len() == phase_len(g.phase(n - 1).len()));
    assert((phase_lens(g))(n - 1) == part.len());
    if n == 1 {
        assert(before.len() == 0);
        assert(total(phase_lens(g), 0) == 0);
    } else {
        lemma_phases_part(g, number, (n - 1) as nat, 0);
        if f < n - 1 {
            lemma_phases_part(g, number, (n - 1) as nat, f);
            let start = total(phase_lens(g), f as nat);
            let end = total(phase_lens(g), (f + 1) as nat);
            assert(events.subrange(start, end) =~= before.subrange(start, end));
        }
    }
    if f == n - 1 {
        assert(((f + 1) as nat - 1) as nat == f as nat);
        assert(events.subrange(before.len() as int, events.len() as int) =~= part);
    }
}

/// The events of a pass: that it starts, with its number and its shifts, and then those of its four
/// phases, one after the other.
pub proof fn law_events_of_pass(m: DbsModel, shift: (i32, i32), number: usize, f: int)
    requires
        0 <= f < 4,
    ensures
        ({
            let g = m.grid(shift.0, shift.1, m.block_size());
            let events = pass_events(m, shift, number);
            let start = 1 + total(phase_lens(g), f as nat);
            let end = 1 + total(phase_lens(g), (f + 1) as nat);
            &&& events.len() == 1 + total(phase_lens(g), 4)
            &&& events[0] == (Event::Started { number, shift_x: shift.0, shift_y: shift.1 })
            &&& 1 <= start <= end <= events.len()
            &&& events.subrange(start, end) == phase_events(g.phase(f), number, f)
        }),
{
    let g = m.grid(shift.0, shift.1, m.block_size());
    let events = pass_events(m, shift, number);
    let rest = phases_events(g, number, 4);
    lemma_phases_part(g, number, 4, f);
    let start = total(phase_lens(g), f as nat);
    let end = total(phase_lens(g), (f + 1) as nat);
    assert(events.subrange(1 + start, 1 + end) =~= rest.subrange(start, end));
}

/// How many events each pass has.
pub open spec fn pass_lens(m: DbsModel, shifts: Seq<(i32, i32)>) -> spec_fn(int) -> int {
    |k: int|
        pass_events(
            passes(m, shifts.take(k)).model,
            shifts[k],
            (k + 1) as usize,
        ).len() as int
}

/// The events of the first passes do not depend on the last.
proof fn lemma_pass_lens(m: DbsModel, shifts: Seq<(i32, i32)>, n: nat)
    requires
        shifts.len() > 0,
        n < shifts.len(),
    ensures
        total(pass_lens(m, shifts.drop_last()), n) == total(pass_lens(m, shifts), n),
    decreases n,
{
    if n > 0 {
        lemma_pass_lens(m, shifts, (n - 1) as nat);
        assert(shifts.drop_last().take(n - 1) =~= shifts.take(n - 1));
        assert(shifts.drop_last()[n - 1] == shifts[n - 1]);
    }
}

/// The events of passes are those of each of them, one after the other. The passes are numbered
/// from one.
pub proof fn law_events_of_passes(m: DbsModel, shifts: Seq<(i32, i32)>, k: int)
    requires
        0 <= k < shifts.len() <= usize::MAX,
    ensures
        ({
            let events = passes_events(m, shifts);
            let start = total(pass_lens(m, shifts), k as nat);
            let end = total(pass_lens(m, shifts), (k + 1) as nat);
            &&& events.len() == total(pass_lens(m, shifts), shifts.len())
            &&& 0 <= start <= end <= events.len()
            &&& events.subrange(start, end) == pass_events(
                passes(m, shifts.take(k)).model,
                shifts[k],
                (k + 1) as usize,
            )
        }),
    decreases shifts.len(),
{
    let less = shifts.drop_last();
    let n = less.len();
    let before = passes_events(m, less);
    let part = pass_events(passes(m, less).model, shifts.last(), shifts.len() as usize);
    let events = passes_events(m, shifts);
    assert(shifts.take(n as int) =~= less);
    assert((pass_lens(m, shifts))(n as int) == part.len());
    lemma_pass_lens(m, shifts, n);
    if n == 0 {
        assert(before.len() == 0);
    } else {
        law_events_of_passes(m, less, 0);
        if k < n {
            law_events_of_passes(m, less, k);
            lemma_pass_lens(m, shifts, k as nat);
            lemma_pass_lens(m, shifts, (k + 1) as nat);
            let start = total(pass_lens(m, shifts), k as nat);
            let end = total(pass_lens(m, shifts), (k + 1) as nat);
            assert(events.subrange(start, end) =~= before.subrange(start, end));
            assert(less.take(k) =~= shifts.take(k));
        }
    }
    if k == n {
        assert(((k + 1) as nat - 1) as nat == k as nat);
        assert(events.subrange(before.len() as int, events.len() as int) =~= part);
    }
}

/// A search shows its passes, and after them, just where the last of them counts nothing, that it
/// converged, with the number of that pass.
pub proof fn law_events_of_search(m: DbsModel, shifts: Seq<(i32, i32)>)
    requires
        0 < shifts.len() <= usize::MAX,
    ensures
        ({
            let last = pass(passes(m, shifts.drop_last()).model, shifts.last());
            let shown = search_events(m, shifts);
            let events = passes_events(m, shifts);
            if last.toggles == 0 && last.swaps == 0 {
                &&& shown.len() == events.len() + 1
                &&& shown.drop_last() == events
                &&& shown.last() == (Event::Converged { number: shifts.len() as usize })
            } else {
                shown == events
            }
        }),
{
    let events = passes_events(m, shifts);
    let number = shifts.len() as usize;
    assert(events.push(Event::Converged { number }).drop_last() =~= events);
}

} // verus!
