//! A number that every operation lowers by what it is expected to lower the squared error: so a
//! search does not go in circles, and ends.
use crate::blocks::Block;
use crate::context::DbsModel;
use crate::delta_laws::{
    law_autocorr_symmetric, law_usual_swap_delta_is_sum, lemma_center, lemma_toggle_e2,
};
use crate::error_laws::{lemma_overlap_loss, lemma_toggle_delta};
use crate::fixed::abs_of;
use crate::follow_laws::{law_maps_depend_on_halftone, lemma_moved_size, moved, unit_change};
use crate::kernel::KernelOffset;
use crate::kernel_laws::{lemma_opposite, lemma_tap_number};
use crate::map_laws::{
    hits, lemma_hits_sign, lemma_mass_grows, lemma_pixel_index, lemma_toggled, mirrored,
    toggle_sign, weight_mass,
};
use crate::ops::Choice;
use crate::plane::PlaneModel;
use crate::search::{
    fresh_tally, pass, passes, processed, row_count, row_len, search_with, settles, Tally,
};
use crate::search_laws::{blocks_inside, law_best_is_least, law_blocks_inside};
use crate::usual_laws::{
    law_improvement_is_reached, law_passes_are_reached, law_start_is_reached,
    law_toggle_is_reached, law_usual_kernel, law_usual_swap_is_two_toggles, lemma_reached,
    lemma_roomy_is_ample, reached, start_of, usual,
};
use vstd::prelude::*;

verus! {

/// Over the first `n` entries, by how much a pixel has changed times what two maps hold there.
pub open spec fn change_sum(
    start: Seq<i64>,
    now: Seq<i64>,
    a: Seq<i64>,
    b: Seq<i64>,
    n: nat,
) -> int
    decreases n,
{
    if n == 0 {
        0
    } else {
        change_sum(start, now, a, b, (n - 1) as nat) + unit_change(start, now, n - 1) * (a[n - 1]
            + b[n - 1])
    }
}

/// How far a context has come from another: for each pixel that has changed, the second map as it
/// was and as it is, with the sign of the change.
pub open spec fn measure(m: DbsModel, t: DbsModel) -> int {
    change_sum(m.halftone, t.halftone, m.e2, t.e2, m.halftone.len())
}

/// Over the first `n` entries, by how much a pixel has changed times what the first `k` taps around
/// a point add there.
pub open spec fn hit_sum(
    start: Seq<i64>,
    now: Seq<i64>,
    taps: Seq<KernelOffset>,
    p: int,
    k: nat,
    n: nat,
) -> int
    decreases n,
{
    if n == 0 {
        0
    } else {
        hit_sum(start, now, taps, p, k, (n - 1) as nat) + unit_change(start, now, n - 1) * hits(
            taps,
            p,
            1,
            k,
            n - 1,
        )
    }
}

/// The sum once a pixel has changed.
proof fn lemma_change_step(
    start: Seq<i64>,
    now: Seq<i64>,
    a: Seq<i64>,
    b: Seq<i64>,
    next: Seq<i64>,
    taps: Seq<KernelOffset>,
    p: int,
    s: int,
    n: nat,
)
    requires
        start.len() == now.len() == a.len() == b.len() == next.len(),
        0 <= p < now.len(),
        -65536 <= now[p] + s * 65536 <= 65536,
        n <= now.len(),
        forall|i: int|
            0 <= i < now.len() ==> #[trigger] next[i] == b[i] + s * hits(
                taps,
                p,
                1,
                taps.len(),
                i,
            ),
    ensures
        change_sum(start, now.update(p, (now[p] + s * 65536) as i64), a, next, n) == change_sum(
            start,
            now,
            a,
            b,
            n,
        ) + s * hit_sum(start, now, taps, p, taps.len(), n) + (if p < n {
            s * (a[p] + next[p])
        } else {
            0
        }),
    decreases n,
{
    if n > 0 {
        lemma_change_step(start, now, a, b, next, taps, p, s, (n - 1) as nat);
        let i = n - 1;
        let after = now.update(p, (now[p] + s * 65536) as i64);
        let u = unit_change(start, now, i);
        let h = hits(taps, p, 1, taps.len(), i);
        let q = hit_sum(start, now, taps, p, taps.len(), (n - 1) as nat);
        let x = a[i] as int;
        let y = b[i] as int;
        assert(next[i] == y + s * h);
        assert(s * (q + u * h) == s * q + s * (u * h)) by (nonlinear_arith);
        assert(u * (x + (y + s * h)) == u * (x + y) + s * (u * h)) by (nonlinear_arith);
        if i == p {
            assert(unit_change(start, after, i) == u + s);
            assert((u + s) * (x + (y + s * h)) == u * (x + (y + s * h)) + s * (x + (y + s * h)))
                by (nonlinear_arith);
        } else {
            assert(unit_change(start, after, i) == u);
        }
    } else {
        assert(s * 0 == 0);
    }
}

/// The changes of pixels under the first `k` taps around a point, each times the weight of its tap.
pub open spec fn gathered(
    start: Seq<i64>,
    now: Seq<i64>,
    taps: Seq<KernelOffset>,
    p: int,
    k: nat,
) -> int
    decreases k,
{
    if k == 0 {
        0
    } else {
        gathered(start, now, taps, p, (k - 1) as nat) + unit_change(
            start,
            now,
            p + taps[k - 1].offset,
        ) * taps[k - 1].weight
    }
}

/// One tap more.
proof fn lemma_hit_sum_step(
    start: Seq<i64>,
    now: Seq<i64>,
    taps: Seq<KernelOffset>,
    p: int,
    k: nat,
    n: nat,
)
    requires
        k > 0,
    ensures
        ({
            let j = p + taps[k - 1].offset;
            hit_sum(start, now, taps, p, k, n) == hit_sum(start, now, taps, p, (k - 1) as nat, n)
                + (if 0 <= j < n {
                unit_change(start, now, j) * taps[k - 1].weight
            } else {
                0
            })
        }),
    decreases n,
{
    if n > 0 {
        lemma_hit_sum_step(start, now, taps, p, k, (n - 1) as nat);
        let u = unit_change(start, now, n - 1);
        let h = hits(taps, p, 1, (k - 1) as nat, n - 1);
        let w = taps[k - 1].weight as int;
        assert(1 * w == w);
        assert(u * (h + w) == u * h + u * w) by (nonlinear_arith);
    }
}

/// Summing over the entries is summing over the taps.
proof fn lemma_hit_sum(
    start: Seq<i64>,
    now: Seq<i64>,
    taps: Seq<KernelOffset>,
    p: int,
    k: nat,
)
    ensures
        hit_sum(start, now, taps, p, k, start.len()) == gathered(start, now, taps, p, k),
    decreases k,
{
    if k > 0 {
        lemma_hit_sum(start, now, taps, p, (k - 1) as nat);
        lemma_hit_sum_step(start, now, taps, p, k, start.len());
        let j = p + taps[k - 1].offset;
        if !(0 <= j < start.len()) {
            assert(unit_change(start, now, j) == 0);
            assert(0 * taps[k - 1].weight == 0);
        }
    } else {
        lemma_hit_sum_none(start, now, taps, p, start.len());
    }
}

proof fn lemma_hit_sum_none(
    start: Seq<i64>,
    now: Seq<i64>,
    taps: Seq<KernelOffset>,
    p: int,
    n: nat,
)
    ensures
        hit_sum(start, now, taps, p, 0, n) == 0,
    decreases n,
{
    if n > 0 {
        lemma_hit_sum_none(start, now, taps, p, (n - 1) as nat);
        assert(unit_change(start, now, n - 1) * 0 == 0);
    }
}

/// Taps that look the same from both sides gather what they scatter.
proof fn lemma_gathered_is_moved(
    start: Seq<i64>,
    now: Seq<i64>,
    taps: Seq<KernelOffset>,
    p: int,
    k: nat,
)
    requires
        mirrored(taps),
        k <= taps.len(),
    ensures
        gathered(start, now, taps, p, k) + moved(start, now, taps, p, (taps.len() - k) as nat)
            == moved(start, now, taps, p, taps.len()),
    decreases k,
{
    if k > 0 {
        lemma_gathered_is_moved(start, now, taps, p, (k - 1) as nat);
        let l = k - 1;
        assert(taps[l].offset == -taps[taps.len() - 1 - l].offset);
        assert(taps[l].weight == taps[taps.len() - 1 - l].weight);
    }
}

/// The autocorrelation looks the same from both sides where the kernel does.
proof fn lemma_wide_mirrored(m: DbsModel)
    requires
        m.calibrated(),
        mirrored(m.kernel.offsets),
    ensures
        mirrored(m.kernel.autocorr_offsets),
{
    let wide = m.kernel.autocorr_offsets;
    let ar = m.autocorr_radius() as int;
    let a = 2 * ar + 1;
    let stride = m.padded_width as int;
    assert forall|k: int| 0 <= k < wide.len() implies (#[trigger] wide[k]).offset == -wide[wide.len()
        - 1 - k].offset && wide[k].weight == wide[wide.len() - 1 - k].weight by {
        let j = wide.len() - 1 - k;
        lemma_tap_number(k, a);
        lemma_opposite(k, a);
        lemma_tap_number(j, a);
        let dy = wide[k].dy as int;
        let dx = wide[k].dx as int;
        assert(dy == k / a - ar && dx == k % a - ar);
        assert(wide[j].dy == -dy && wide[j].dx == -dx);
        assert((-dy) * stride == -(dy * stride)) by (nonlinear_arith);
        lemma_overlap_loss(m, dy, dx);
        lemma_overlap_loss(m, -dy, -dx);
        law_autocorr_symmetric(m, dy, dx);
        assert((dy + ar) * a + (dx + ar) == k);
        assert((-dy + ar) * a + (-dx + ar) == j);
    }
}

/// A toggle changes the measure by what it is expected to change the squared error by.
pub proof fn law_toggle_measure(
    img: PlaneModel,
    size: i32,
    weights: Seq<u64>,
    t: DbsModel,
    x: u32,
    y: u32,
)
    requires
        reached(img, size, weights, t),
        t.has_pixel(x, y),
    ensures
        measure(start_of(img, size, weights), t.toggled(x, y)) == measure(
            start_of(img, size, weights),
            t,
        ) + t.toggle_delta(x, y),
{
    let m = start_of(img, size, weights);
    let u = t.toggled(x, y);
    let p = t.index_of(x, y);
    let s = toggle_sign(t, x, y);
    let wide = t.kernel.autocorr_offsets;
    lemma_reached(img, size, weights, t);
    law_usual_kernel(img, size, weights);
    law_toggle_is_reached(img, size, weights, t, x, y);
    lemma_reached(img, size, weights, u);
    lemma_roomy_is_ample(t.e2);
    lemma_pixel_index(t, x, y);
    lemma_toggled(t, x, y);
    assert(t.halftone[p] == 0 || t.halftone[p] == 65536);
    assert forall|i: int| 0 <= i < t.halftone.len() implies #[trigger] u.e2[i] == t.e2[i] + s
        * hits(wide, p, 1, wide.len(), i) by {
        assert(-0x6000_0000_0000_0000 <= t.e2[i] && t.e2[i] <= 0x6000_0000_0000_0000);
        lemma_hits_sign(wide, p, s, wide.len(), i);
    }
    lemma_change_step(m.halftone, t.halftone, m.e2, t.e2, u.e2, wide, p, s, m.halftone.len());
    lemma_hit_sum(m.halftone, t.halftone, wide, p, wide.len());
    lemma_wide_mirrored(t);
    lemma_gathered_is_moved(m.halftone, t.halftone, wide, p, wide.len());
    assert(t.e2[p] == m.e2[p] + moved(m.halftone, t.halftone, wide, p, wide.len()));
    lemma_toggle_e2(t, x, y, x, y);
    lemma_center(t);
    lemma_toggle_delta(t, x, y);
    let a = m.e2[p] as int;
    let b = t.e2[p] as int;
    let c = t.kernel.c_pp as int;
    assert(s * (b - a) + s * (a + (b + s * c)) == 2 * s * b + c) by (nonlinear_arith)
        requires
            s == 1 || s == -1,
    ;
}

/// A swap of two pixels that differ changes the measure by what it is expected to change the
/// squared error by.
pub proof fn law_swap_measure(
    img: PlaneModel,
    size: i32,
    weights: Seq<u64>,
    t: DbsModel,
    x1: u32,
    y1: u32,
    x2: u32,
    y2: u32,
)
    requires
        reached(img, size, weights, t),
        t.addressable(),
        t.has_pixel(x1, y1),
        t.has_pixel(x2, y2),
        t.swappable(x1, y1, x2, y2),
    ensures
        measure(start_of(img, size, weights), t.swapped(x1, y1, x2, y2)) == measure(
            start_of(img, size, weights),
            t,
        ) + t.swap_delta(x1, y1, x2, y2),
{
    law_usual_swap_is_two_toggles(img, size, weights, t, x1, y1, x2, y2);
    law_usual_swap_delta_is_sum(img, size, weights, t, x1, y1, x2, y2);
    law_toggle_is_reached(img, size, weights, t, x1, y1);
    law_toggle_measure(img, size, weights, t, x1, y1);
    law_toggle_measure(img, size, weights, t.toggled(x1, y1), x2, y2);
}

/// The best operation at a pixel lowers the measure by what it is expected to lower the squared
/// error by; it is zero just where nothing is done.
pub proof fn law_improvement_measure(
    img: PlaneModel,
    size: i32,
    weights: Seq<u64>,
    t: DbsModel,
    x: u32,
    y: u32,
)
    requires
        reached(img, size, weights, t),
        t.addressable(),
        t.has_pixel(x, y),
    ensures
        measure(start_of(img, size, weights), t.improved(x, y)) == measure(
            start_of(img, size, weights),
            t,
        ) + t.best(x, y, 8).0,
        t.best(x, y, 8).0 <= 0,
        t.best(x, y, 8).0 == 0 <==> t.best(x, y, 8).1 is Keep,
{
    lemma_reached(img, size, weights, t);
    law_best_is_least(t, x, y, 8);
    match t.best(x, y, 8).1 {
        Choice::Keep => {},
        Choice::Toggle => {
            law_toggle_measure(img, size, weights, t, x, y);
        },
        Choice::Swap(k) => {
            let n = t.neighbour(x, y, k as int)->0;
            assert(t.neighbour_delta(x, y, k as int) is Some);
            assert(t.has_pixel(n.0, n.1));
            law_swap_measure(img, size, weights, t, x, y, n.0, n.1);
        },
    }
}

/// Nothing happened, or the measure is lower.
pub open spec fn falls(m: DbsModel, before: Tally, after: Tally) -> bool {
    after == before || measure(m, after.model) < measure(m, before.model)
}

proof fn lemma_row_falls(
    img: PlaneModel,
    size: i32,
    weights: Seq<u64>,
    t: Tally,
    block: Block,
    y: u32,
    n: nat,
)
    requires
        reached(img, size, weights, t.model),
        t.model.addressable(),
        block.end_x <= img.width,
        y < img.height,
        n <= row_len(block),
    ensures
        reached(img, size, weights, t.visit_row(block, y, n).model),
        falls(start_of(img, size, weights), t, t.visit_row(block, y, n)),
    decreases n,
{
    if n > 0 {
        lemma_row_falls(img, size, weights, t, block, y, (n - 1) as nat);
        let before = t.visit_row(block, y, (n - 1) as nat);
        let x = if y % 2 == 0 {
            block.start_x + n - 1
        } else {
            block.end_x - n
        };
        law_improvement_is_reached(img, size, weights, before.model, x as u32, y);
        law_improvement_measure(img, size, weights, before.model, x as u32, y);
    }
}

proof fn lemma_rows_fall(
    img: PlaneModel,
    size: i32,
    weights: Seq<u64>,
    t: Tally,
    block: Block,
    n: nat,
)
    requires
        reached(img, size, weights, t.model),
        t.model.addressable(),
        block.end_x <= img.width,
        block.end_y <= img.height,
        n <= row_count(block),
    ensures
        reached(img, size, weights, t.visit_rows(block, n).model),
        falls(start_of(img, size, weights), t, t.visit_rows(block, n)),
    decreases n,
{
    if n > 0 {
        lemma_rows_fall(img, size, weights, t, block, (n - 1) as nat);
        lemma_row_falls(
            img,
            size,
            weights,
            t.visit_rows(block, (n - 1) as nat),
            block,
            (block.start_y + n - 1) as u32,
            row_len(block),
        );
    }
}

proof fn lemma_blocks_fall(
    img: PlaneModel,
    size: i32,
    weights: Seq<u64>,
    t: Tally,
    blocks: Seq<Block>,
    n: nat,
)
    requires
        reached(img, size, weights, t.model),
        t.model.addressable(),
        blocks_inside(blocks, img.width as int, img.height as int),
        n <= blocks.len(),
    ensures
        reached(img, size, weights, t.visit_blocks(blocks, n).model),
        falls(start_of(img, size, weights), t, t.visit_blocks(blocks, n)),
    decreases n,
{
    if n > 0 {
        lemma_blocks_fall(img, size, weights, t, blocks, (n - 1) as nat);
        let before = t.visit_blocks(blocks, (n - 1) as nat);
        let b = blocks[n - 1];
        lemma_rows_fall(img, size, weights, fresh_tally(before.model), b, row_count(b));
        let done = processed(before.model, b);
        if done == fresh_tally(before.model) {
            assert(before.visit_block(b) =~= before);
        }
    }
}

proof fn lemma_phases_fall(
    img: PlaneModel,
    size: i32,
    weights: Seq<u64>,
    m: DbsModel,
    shift: (i32, i32),
    n: nat,
)
    requires
        reached(img, size, weights, m),
        m.addressable(),
        n <= 4,
    ensures
        ({
            let g = m.grid(shift.0, shift.1, m.block_size());
            &&& reached(img, size, weights, fresh_tally(m).visit_phases(g, n).model)
            &&& falls(
                start_of(img, size, weights),
                fresh_tally(m),
                fresh_tally(m).visit_phases(g, n),
            )
        }),
    decreases n,
{
    if n > 0 {
        let g = m.grid(shift.0, shift.1, m.block_size());
        lemma_phases_fall(img, size, weights, m, shift, (n - 1) as nat);
        law_blocks_inside(m, shift.0, shift.1, m.block_size(), n - 1);
        let blocks = g.phase(n - 1);
        lemma_blocks_fall(
            img,
            size,
            weights,
            fresh_tally(m).visit_phases(g, (n - 1) as nat),
            blocks,
            blocks.len(),
        );
    }
}

/// A pass that counts something lowers the measure; any other changes nothing.
pub proof fn law_pass_measure(
    img: PlaneModel,
    size: i32,
    weights: Seq<u64>,
    t: DbsModel,
    shift: (i32, i32),
)
    requires
        reached(img, size, weights, t),
        t.addressable(),
    ensures
        reached(img, size, weights, pass(t, shift).model),
        pass(t, shift) == fresh_tally(t) || measure(
            start_of(img, size, weights),
            pass(t, shift).model,
        ) < measure(start_of(img, size, weights), t),
        !settles(t, shift) ==> measure(start_of(img, size, weights), pass(t, shift).model)
            < measure(start_of(img, size, weights), t),
{
    lemma_phases_fall(img, size, weights, t, shift, 4);
}

/// Contexts of different measure have different halftones.
pub proof fn law_measure_tells_halftones_apart(
    img: PlaneModel,
    size: i32,
    weights: Seq<u64>,
    t: DbsModel,
    u: DbsModel,
)
    requires
        reached(img, size, weights, t),
        reached(img, size, weights, u),
        measure(start_of(img, size, weights), t) != measure(start_of(img, size, weights), u),
    ensures
        t.halftone != u.halftone,
{
    if t.halftone == u.halftone {
        law_maps_depend_on_halftone(start_of(img, size, weights), t, u);
    }
}

/// The measure after the first passes of a search, of which none settles.
#[verifier::rlimit(50)]
#[verifier::spinoff_prover]
proof fn lemma_passes_measure(
    img: PlaneModel,
    size: i32,
    weights: Seq<u64>,
    shifts: Seq<(i32, i32)>,
    end: Tally,
    j: nat,
    k: nat,
)
    requires
        usual(img, size, weights),
        start_of(img, size, weights).addressable(),
        search_with(start_of(img, size, weights), shifts, end),
        j <= k < shifts.len(),
    ensures
        ({
            let m = start_of(img, size, weights);
            let before = passes(m, shifts.take(j as int)).model;
            let after = passes(m, shifts.take(k as int)).model;
            &&& reached(img, size, weights, before)
            &&& reached(img, size, weights, after)
            &&& measure(m, after) <= measure(m, before) - (k - j)
        }),
    decreases k,
{
    let m = start_of(img, size, weights);
    law_start_is_reached(img, size, weights);
    law_passes_are_reached(img, size, weights, m, shifts.take(j as int));
    law_passes_are_reached(img, size, weights, m, shifts.take(k as int));
    if j < k {
        lemma_passes_measure(img, size, weights, shifts, end, j, (k - 1) as nat);
        let before = passes(m, shifts.take(k - 1)).model;
        assert(shifts.take(k as int).drop_last() =~= shifts.take(k - 1));
        assert(shifts.take(k as int).last() == shifts[k - 1]);
        assert(!settles(before, shifts[k - 1]));
        law_pass_measure(img, size, weights, before, shifts[k - 1]);
    }
}

/// No halftone comes back in a search: those after different passes differ, but for the last pass,
/// which changes nothing.
pub proof fn law_no_halftone_returns(
    img: PlaneModel,
    size: i32,
    weights: Seq<u64>,
    shifts: Seq<(i32, i32)>,
    end: Tally,
    j: nat,
    k: nat,
)
    requires
        usual(img, size, weights),
        start_of(img, size, weights).addressable(),
        search_with(start_of(img, size, weights), shifts, end),
        j < k < shifts.len(),
    ensures
        passes(start_of(img, size, weights), shifts.take(j as int)).model.halftone != passes(
            start_of(img, size, weights),
            shifts.take(k as int),
        ).model.halftone,
{
    let m = start_of(img, size, weights);
    lemma_passes_measure(img, size, weights, shifts, end, j, k);
    law_measure_tells_halftones_apart(
        img,
        size,
        weights,
        passes(m, shifts.take(j as int)).model,
        passes(m, shifts.take(k as int)).model,
    );
}

/// How large the sum can be.
proof fn lemma_change_size(
    start: Seq<i64>,
    now: Seq<i64>,
    a: Seq<i64>,
    b: Seq<i64>,
    bound: int,
    n: nat,
)
    requires
        start.len() == now.len() == a.len() == b.len(),
        n <= now.len(),
        bound >= 0,
        forall|j: int| 0 <= j < start.len() ==> start[j] == 0 || start[j] == 65536,
        forall|j: int| 0 <= j < now.len() ==> now[j] == 0 || now[j] == 65536,
        forall|i: int| 0 <= i < now.len() ==> abs_of(#[trigger] a[i] + b[i]) <= bound,
    ensures
        abs_of(change_sum(start, now, a, b, n)) <= bound * n,
    decreases n,
{
    if n > 0 {
        lemma_change_size(start, now, a, b, bound, (n - 1) as nat);
        let i = n - 1;
        let u = unit_change(start, now, i);
        let v = a[i] + b[i];
        assert(start[i] == 0 || start[i] == 65536);
        assert(now[i] == 0 || now[i] == 65536);
        assert(u * v == 0 || u * v == v || u * v == -v) by (nonlinear_arith)
            requires
                u == 0 || u == 1 || u == -1,
        ;
        assert(abs_of(a[i] + b[i]) <= bound);
        assert(bound * n == bound * (n - 1) + bound) by (nonlinear_arith);
    } else {
        assert(bound * 0 == 0);
    }
}

/// Nothing has changed yet.
proof fn lemma_measure_start(m: DbsModel, n: nat)
    ensures
        change_sum(m.halftone, m.halftone, m.e2, m.e2, n) == 0,
    decreases n,
{
    if n > 0 {
        lemma_measure_start(m, (n - 1) as nat);
        assert(unit_change(m.halftone, m.halftone, n - 1) == 0);
        assert(0 * (m.e2[n - 1] + m.e2[n - 1]) == 0);
    }
}

/// A search makes no more passes than the measure can fall, and one more: for each entry twice the
/// largest of the second map at the start, and the mass of the autocorrelation.
pub proof fn law_search_length(
    img: PlaneModel,
    size: i32,
    weights: Seq<u64>,
    shifts: Seq<(i32, i32)>,
    end: Tally,
    largest: int,
)
    requires
        usual(img, size, weights),
        start_of(img, size, weights).addressable(),
        search_with(start_of(img, size, weights), shifts, end),
        forall|i: int|
            0 <= i < start_of(img, size, weights).e2.len() ==> abs_of(
                #[trigger] start_of(img, size, weights).e2[i] as int,
            ) <= largest,
        largest >= 0,
    ensures
        ({
            let m = start_of(img, size, weights);
            let wide = m.kernel.autocorr_offsets;
            shifts.len() - 1 <= (2 * largest + weight_mass(wide, wide.len())) * m.area()
        }),
{
    let m = start_of(img, size, weights);
    let wide = m.kernel.autocorr_offsets;
    let mass = weight_mass(wide, wide.len());
    let k = (shifts.len() - 1) as nat;
    lemma_passes_measure(img, size, weights, shifts, end, 0, k);
    let first = passes(m, shifts.take(0)).model;
    let t = passes(m, shifts.take(k as int)).model;
    assert(shifts.take(0).len() == 0);
    assert(first == m);
    lemma_measure_start(m, m.halftone.len());
    assert forall|i: int| 0 <= i < m.e2.len() implies abs_of(#[trigger] m.e2[i] + t.e2[i]) <= 2
        * largest + mass by {
        lemma_moved_size(m.halftone, t.halftone, wide, i, wide.len());
        assert(t.e2[i] == m.e2[i] + moved(m.halftone, t.halftone, wide, i, wide.len()));
        assert(abs_of(m.e2[i] as int) <= largest);
    }
    lemma_mass_grows(wide, 0, wide.len());
    lemma_change_size(
        m.halftone,
        t.halftone,
        m.e2,
        t.e2,
        2 * largest + mass,
        m.halftone.len(),
    );
}

/// A search settles, as long as the numbers of the passes last for as far as the measure can fall.
pub proof fn law_search_settles(
    img: PlaneModel,
    size: i32,
    weights: Seq<u64>,
    shifts: Seq<(i32, i32)>,
    end: Tally,
    largest: int,
)
    requires
        usual(img, size, weights),
        start_of(img, size, weights).addressable(),
        search_with(start_of(img, size, weights), shifts, end),
        forall|i: int|
            0 <= i < start_of(img, size, weights).e2.len() ==> abs_of(
                #[trigger] start_of(img, size, weights).e2[i] as int,
            ) <= largest,
        largest >= 0,
        ({
            let m = start_of(img, size, weights);
            let wide = m.kernel.autocorr_offsets;
            (2 * largest + weight_mass(wide, wide.len())) * m.area() + 1 < usize::MAX
        }),
    ensures
        settles(
            passes(start_of(img, size, weights), shifts.drop_last()).model,
            shifts.last(),
        ),
{
    law_search_length(img, size, weights, shifts, end, largest);
}

} // verus!
