//! The contexts that come up: those of pictures with a kernel of an odd and moderate width, whose
//! weights lie between zero and one and look the same from both sides, after any toggles and swaps.
use crate::blocks::Block;
use crate::context::{fits, lemma_margin, thresholded, DbsModel};
use crate::error_laws::{calm, lemma_mass_light, lemma_overlap_loss};
use crate::fixed::{abs_of, clamp32, double_to_int, fmul};
use crate::follow_laws::{
    follows, law_improvement_follows, law_swap_undone, lemma_follows_itself, lemma_moved_size,
    lemma_swap_follows, lemma_toggle_follows,
};
use crate::kernel::{at, autocorr_width, distances_of, kernel_span, tap_index, KernelOffset};
use crate::kernel_laws::{
    law_context_mirrored, law_context_regular, law_distances_mirrored, lemma_tap_number,
    mirrored_weights,
};
use crate::map_laws::{
    ample, law_toggle_keeps_error, law_toggle_undone, lemma_pixel_index, light, mirrored, roomy,
    weight_mass,
};
use crate::ops::spread;
use crate::overlap_laws::{gentle, lemma_pair_floor_small};
use crate::phase_laws::law_order_in_a_phase_is_free;
use crate::plane::PlaneModel;
use crate::residue_laws::{law_context_calibrated, law_context_residues};
use crate::search::{fresh_tally, passes};
use crate::search_laws::{law_context_faithful, law_improvement_keeps_error, law_search_keeps};
use crate::swap_laws::{
    changed_entry, inside, law_swap_is_two_toggles, law_swap_keeps_error, lemma_position,
    lemma_reach, lemma_regular_sizes, lemma_spread_entries,
};
use vstd::prelude::*;

verus! {

/// A picture, and a kernel of an odd width below a hundred whose weights lie between zero and one
/// and look the same from both sides.
pub open spec fn usual(img: PlaneModel, size: i32, weights: Seq<u64>) -> bool {
    &&& fits(img.width, img.height, size)
    &&& 1 <= size <= 99
    &&& size % 2 == 1
    &&& mirrored_weights(weights, size * size)
    &&& forall|k: int|
        0 <= k < weights.len() ==> 0 <= double_to_int(#[trigger] weights[k]) && double_to_int(
            weights[k],
        ) <= 65536
}

/// The context of a picture before its search begins.
pub open spec fn start_of(img: PlaneModel, size: i32, weights: Seq<u64>) -> DbsModel {
    thresholded(img, size, weights).with_error().with_e2()
}

/// Weights that are a function of the distance look the same from both sides.
pub proof fn law_weights_of_distances(size: i32, weights: Seq<u64>)
    requires
        1 <= size,
        size % 2 == 1,
        weights.len() == distances_of(size).len(),
        forall|j: int, k: int|
            #![trigger weights[j], weights[k]]
            0 <= j < weights.len() && 0 <= k < weights.len() && distances_of(size)[j]
                == distances_of(size)[k] ==> weights[j] == weights[k],
    ensures
        mirrored_weights(weights, size * size),
{
    assert(kernel_span(size) == size);
    assert(size * size >= 0) by (nonlinear_arith);
    assert forall|k: int| 0 <= k < size * size implies #[trigger] weights[k] == weights[size * size
        - 1 - k] by {
        law_distances_mirrored(size, k);
    }
}

/// Taps that weigh no more than `bound` each.
proof fn lemma_mass_bound(taps: Seq<KernelOffset>, bound: int, n: nat)
    requires
        n <= taps.len(),
        forall|k: int| 0 <= k < taps.len() ==> abs_of((#[trigger] taps[k]).weight as int) <= bound,
    ensures
        weight_mass(taps, n) <= bound * n,
    decreases n,
{
    if n > 0 {
        lemma_mass_bound(taps, bound, (n - 1) as nat);
        assert(bound * n == bound * (n - 1) + bound) by (nonlinear_arith);
    } else {
        assert(bound * 0 == 0);
    }
}

/// The kernel of a usual picture, and its autocorrelation, are light enough that nothing saturates.
pub proof fn law_usual_kernel(img: PlaneModel, size: i32, weights: Seq<u64>)
    requires
        usual(img, size, weights),
    ensures
        ({
            let m = start_of(img, size, weights);
            &&& m.kernel.offsets.len() == size * size <= 9801
            &&& weight_mass(m.kernel.offsets, m.kernel.offsets.len()) <= 642318336
            &&& gentle(m.kernel.offsets)
            &&& weight_mass(m.kernel.autocorr_offsets, m.kernel.autocorr_offsets.len())
                <= 24927732301824
            &&& light(m.kernel.autocorr_offsets)
            &&& mirrored(m.kernel.offsets)
            &&& autocorr_width(size) * autocorr_width(size) <= i32::MAX
        }),
{
    let m = start_of(img, size, weights);
    let taps = m.kernel.offsets;
    let wide = m.kernel.autocorr_offsets;
    let a = autocorr_width(size) as int;
    assert(a == 2 * size - 1);
    assert(size * size <= 9801 && a * a <= 38809) by (nonlinear_arith)
        requires
            1 <= size <= 99,
            a == 2 * size - 1,
    ;
    law_context_regular(img, size, weights);
    law_context_mirrored(img, size, weights);
    assert(kernel_span(size) == size);
    assert(taps.len() == size * size);
    assert forall|k: int| 0 <= k < taps.len() implies 0 <= (#[trigger] taps[k]).weight
        <= 65536 by {
        assert(0 <= double_to_int(weights[k]) && double_to_int(weights[k]) <= 65536);
    }
    lemma_mass_bound(taps, 65536, taps.len());
    law_context_calibrated(img, size, weights);
    assert(wide.len() == a * a);
    assert forall|l: int| 0 <= l < wide.len() implies abs_of((#[trigger] wide[l]).weight as int)
        <= 642318336 by {
        let ar = m.autocorr_radius() as int;
        assert(a == 2 * ar + 1);
        lemma_tap_number(l, a);
        let dy = wide[l].dy as int;
        let dx = wide[l].dx as int;
        assert(dy == l / a - ar && dx == l % a - ar);
        lemma_overlap_loss(m, dy, dx);
        assert((dy + ar) * a + (dx + ar) == l);
        lemma_pair_floor_small(taps, m.kernel_radius as int, dy, dx, taps.len());
    }
    lemma_mass_bound(wide, 642318336, wide.len());
    assert(642318336 * wide.len() <= 24927732301824) by (nonlinear_arith)
        requires
            wide.len() <= 38809,
    ;
}

/// What holds where a search begins.
proof fn lemma_usual_start(img: PlaneModel, size: i32, weights: Seq<u64>)
    requires
        usual(img, size, weights),
    ensures
        ({
            let m = start_of(img, size, weights);
            &&& m.tame()
            &&& m.calibrated()
            &&& m.error_exact()
            &&& m.addressable() ==> m.faithful()
            &&& roomy(m.error)
            &&& roomy(m.e2)
            &&& forall|i: int|
                0 <= i < m.e2.len() ==> abs_of(#[trigger] m.e2[i] as int) <= 0xa00_0000_0000
            &&& forall|i: int|
                0 <= i < m.error.len() ==> abs_of(#[trigger] m.error[i] as int) <= 0x4000_0000
        }),
{
    let m = start_of(img, size, weights);
    law_usual_kernel(img, size, weights);
    lemma_mass_light(m.kernel.offsets);
    law_context_calibrated(img, size, weights);
    law_context_faithful(img, size, weights);
    law_context_residues(img, size, weights);
    assert forall|i: int| 0 <= i < m.e2.len() implies abs_of(#[trigger] m.e2[i] as int)
        <= 0xa00_0000_0000 by {
        assert(abs_of(m.e2[i] as int) <= weight_mass(m.kernel.offsets, m.kernel.offsets.len())
            * 0x4000 + m.kernel.offsets.len());
    }
}

/// A context that can be reached from that of a usual picture by toggles and swaps of its pixels.
pub open spec fn reached(img: PlaneModel, size: i32, weights: Seq<u64>, t: DbsModel) -> bool {
    &&& usual(img, size, weights)
    &&& follows(start_of(img, size, weights), t)
    &&& t.error_exact()
}

/// What holds of every context that can be reached.
pub proof fn lemma_reached(img: PlaneModel, size: i32, weights: Seq<u64>, t: DbsModel)
    requires
        reached(img, size, weights, t),
    ensures
        t.tame(),
        t.calibrated(),
        t.addressable() ==> t.faithful(),
        mirrored(t.kernel.offsets),
        roomy(t.error),
        roomy(t.e2),
        calm(t.e2),
        forall|i: int|
            0 <= i < t.error.len() ==> abs_of(#[trigger] t.error[i] as int) <= 0x8000_0000,
{
    let m = start_of(img, size, weights);
    let taps = m.kernel.offsets;
    let wide = m.kernel.autocorr_offsets;
    lemma_usual_start(img, size, weights);
    law_usual_kernel(img, size, weights);
    assert forall|i: int| 0 <= i < t.error.len() implies abs_of(#[trigger] t.error[i] as int)
        <= 0x8000_0000 by {
        lemma_moved_size(m.halftone, t.halftone, taps, i, taps.len());
        assert(abs_of(m.error[i] as int) <= 0x4000_0000);
    }
    assert forall|i: int| 0 <= i < t.e2.len() implies -0x3000_0000_0000 <= #[trigger] t.e2[i]
        && t.e2[i] <= 0x3000_0000_0000 by {
        lemma_moved_size(m.halftone, t.halftone, wide, i, wide.len());
        assert(abs_of(m.e2[i] as int) <= 0xa00_0000_0000);
    }
    assert forall|i: int| 0 <= i < t.error.len() implies -0x4000_0000_0000_0000
        <= #[trigger] t.error[i] && t.error[i] <= 0x4000_0000_0000_0000 by {
        assert(abs_of(t.error[i] as int) <= 0x8000_0000);
    }
    assert forall|i: int| 0 <= i < t.e2.len() implies -0x4000_0000_0000_0000 <= #[trigger] t.e2[i]
        && t.e2[i] <= 0x4000_0000_0000_0000 by {
        assert(-0x3000_0000_0000 <= t.e2[i] && t.e2[i] <= 0x3000_0000_0000);
    }
}

/// The context of a usual picture is reached to begin with.
pub proof fn law_start_is_reached(img: PlaneModel, size: i32, weights: Seq<u64>)
    requires
        usual(img, size, weights),
    ensures
        reached(img, size, weights, start_of(img, size, weights)),
{
    lemma_usual_start(img, size, weights);
    lemma_follows_itself(start_of(img, size, weights));
}

/// A toggle leads from a context that is reached to one that is.
pub proof fn law_toggle_is_reached(
    img: PlaneModel,
    size: i32,
    weights: Seq<u64>,
    t: DbsModel,
    x: u32,
    y: u32,
)
    requires
        reached(img, size, weights, t),
        t.has_pixel(x, y),
    ensures
        reached(img, size, weights, t.toggled(x, y)),
{
    lemma_usual_start(img, size, weights);
    lemma_reached(img, size, weights, t);
    lemma_toggle_follows(start_of(img, size, weights), t, x, y);
    law_toggle_keeps_error(t, x, y);
}

/// Carrying no change through leaves a map as it is.
proof fn lemma_spread_nothing(
    map: Seq<i64>,
    table: Seq<i64>,
    size: i32,
    radius: i32,
    stride: int,
    rows: int,
    pos1: (i32, i32),
    pos2: (i32, i32),
)
    requires
        radius >= 0,
        stride > 0,
        stride <= i32::MAX,
        rows <= i32::MAX,
        inside(pos1, radius, stride, rows),
        inside(pos2, radius, stride, rows),
        map.len() == stride * rows,
    ensures
        spread(map, table, size, radius, stride, pos1, pos2, (0, 0)) == map,
{
    let out = spread(map, table, size, radius, stride, pos1, pos2, (0, 0));
    lemma_spread_entries(map, table, size, radius, stride, rows, pos1, pos2, (0, 0));
    assert forall|i: int| 0 <= i < map.len() implies #[trigger] out[i] == map[i] by {
        let p = (i % stride, i / stride);
        let dy1 = clamp32(p.1 - pos1.1) as int;
        let dx1 = clamp32(p.0 - pos1.0) as int;
        let dy2 = clamp32(p.1 - pos2.1) as int;
        let dx2 = clamp32(p.0 - pos2.0) as int;
        let a = at(table, tap_index(dy1, dx1, size, radius));
        let b = at(table, tap_index(dy2, dx2, size, radius));
        assert(0 * a == 0 && 0 * b == 0);
        assert(fmul(0, a) == 0 && fmul(0, b) == 0);
        assert(out[i] == changed_entry(map[i], table, size, radius, stride, pos1, pos2, (0, 0), i));
    }
    assert(out =~= map);
}

/// Swapping two pixels that do not differ changes nothing.
pub proof fn law_equal_pixels_stay(t: DbsModel, x1: u32, y1: u32, x2: u32, y2: u32)
    requires
        t.wf(),
        t.kernel_size >= 1,
        t.addressable(),
        t.has_pixel(x1, y1),
        t.has_pixel(x2, y2),
        !t.swappable(x1, y1, x2, y2),
    ensures
        t.swapped(x1, y1, x2, y2) == t,
{
    let u = t.swapped(x1, y1, x2, y2);
    let c1 = t.index_of(x1, y1);
    let c2 = t.index_of(x2, y2);
    lemma_pixel_index(t, x1, y1);
    lemma_pixel_index(t, x2, y2);
    lemma_position(t, x1, y1);
    lemma_position(t, x2, y2);
    lemma_reach(t);
    assert(t.halftone[c1] == 0 || t.halftone[c1] == 65536);
    assert(t.halftone[c2] == 0 || t.halftone[c2] == 65536);
    assert(t.swap_changes(x1, y1, x2, y2) == (0i64, 0i64));
    assert(u.halftone =~= t.halftone);
    lemma_spread_nothing(
        t.error,
        t.kernel.flat,
        t.kernel_size,
        t.kernel_radius,
        t.padded_width as int,
        t.padded_height as int,
        t.padded_position(x1, y1),
        t.padded_position(x2, y2),
    );
    lemma_spread_nothing(
        t.e2,
        t.kernel.autocorr,
        t.kernel.autocorr_size,
        t.autocorr_radius(),
        t.padded_width as int,
        t.padded_height as int,
        t.padded_position(x1, y1),
        t.padded_position(x2, y2),
    );
}

/// A swap leads from a context that is reached to one that is.
pub proof fn law_swap_is_reached(
    img: PlaneModel,
    size: i32,
    weights: Seq<u64>,
    t: DbsModel,
    x1: u32,
    y1: u32,
    x2: u32,
    y2: u32,
)
    requires
        reached(img, size, weights, t),
        t.addressable(),
        t.has_pixel(x1, y1),
        t.has_pixel(x2, y2),
    ensures
        reached(img, size, weights, t.swapped(x1, y1, x2, y2)),
{
    lemma_usual_start(img, size, weights);
    lemma_reached(img, size, weights, t);
    if t.swappable(x1, y1, x2, y2) {
        lemma_swap_follows(start_of(img, size, weights), t, x1, y1, x2, y2);
        law_swap_keeps_error(t, x1, y1, x2, y2);
    } else {
        law_equal_pixels_stay(t, x1, y1, x2, y2);
    }
}

/// The best operation at a pixel leads from a context that is reached to one that is.
pub proof fn law_improvement_is_reached(
    img: PlaneModel,
    size: i32,
    weights: Seq<u64>,
    t: DbsModel,
    x: u32,
    y: u32,
)
    requires
        reached(img, size, weights, t),
        t.addressable(),
        t.has_pixel(x, y),
    ensures
        reached(img, size, weights, t.improved(x, y)),
{
    lemma_usual_start(img, size, weights);
    lemma_reached(img, size, weights, t);
    law_improvement_follows(start_of(img, size, weights), t, x, y);
    law_improvement_keeps_error(t, x, y);
}

/// Passes lead from a context that is reached to one that is.
pub proof fn law_passes_are_reached(
    img: PlaneModel,
    size: i32,
    weights: Seq<u64>,
    t: DbsModel,
    shifts: Seq<(i32, i32)>,
)
    requires
        reached(img, size, weights, t),
        t.addressable(),
    ensures
        reached(img, size, weights, passes(t, shifts).model),
{
    let w = t.width;
    let h = t.height;
    let p = |c: DbsModel| reached(img, size, weights, c);
    assert forall|c: DbsModel, x: u32, y: u32|
        #![trigger c.improved(x, y)]
        p(c) && x < w && y < h implies p(c.improved(x, y)) by {
        law_improvement_is_reached(img, size, weights, c, x, y);
    }
    law_search_keeps(p, t, shifts);
}

/// In every context that is reached, toggling a pixel twice restores it, to the last entry.
pub proof fn law_usual_toggle_undone(
    img: PlaneModel,
    size: i32,
    weights: Seq<u64>,
    t: DbsModel,
    x: u32,
    y: u32,
)
    requires
        reached(img, size, weights, t),
        t.has_pixel(x, y),
    ensures
        t.toggled(x, y).toggled(x, y) == t,
{
    lemma_reached(img, size, weights, t);
    law_toggle_undone(t, x, y);
}

/// In every context that is reached, swapping two pixels twice restores it, to the last entry.
pub proof fn law_usual_swap_undone(
    img: PlaneModel,
    size: i32,
    weights: Seq<u64>,
    t: DbsModel,
    x1: u32,
    y1: u32,
    x2: u32,
    y2: u32,
)
    requires
        reached(img, size, weights, t),
        t.addressable(),
        t.has_pixel(x1, y1),
        t.has_pixel(x2, y2),
    ensures
        t.swapped(x1, y1, x2, y2).swapped(x1, y1, x2, y2) == t,
{
    lemma_reached(img, size, weights, t);
    if t.swappable(x1, y1, x2, y2) {
        law_swap_undone(t, x1, y1, x2, y2);
    } else {
        law_equal_pixels_stay(t, x1, y1, x2, y2);
    }
}

/// In every context that is reached, a swap of two pixels that differ is two toggles.
pub proof fn law_usual_swap_is_two_toggles(
    img: PlaneModel,
    size: i32,
    weights: Seq<u64>,
    t: DbsModel,
    x1: u32,
    y1: u32,
    x2: u32,
    y2: u32,
)
    requires
        reached(img, size, weights, t),
        t.addressable(),
        t.has_pixel(x1, y1),
        t.has_pixel(x2, y2),
        t.swappable(x1, y1, x2, y2),
    ensures
        t.swapped(x1, y1, x2, y2) == t.toggled(x1, y1).toggled(x2, y2),
{
    lemma_reached(img, size, weights, t);
    lemma_roomy_is_ample(t.error);
    lemma_roomy_is_ample(t.e2);
    law_swap_is_two_toggles(t, x1, y1, x2, y2);
}

/// A map with room to spare has room for an operation.
pub proof fn lemma_roomy_is_ample(map: Seq<i64>)
    requires
        roomy(map),
    ensures
        ample(map),
{
    assert forall|i: int| 0 <= i < map.len() implies -0x6000_0000_0000_0000 <= #[trigger] map[i]
        && map[i] <= 0x6000_0000_0000_0000 by {
        assert(-0x4000_0000_0000_0000 <= map[i] && map[i] <= 0x4000_0000_0000_0000);
    }
}

/// In every context that is reached, the error map is the one that would be computed afresh.
pub proof fn law_usual_error_is_fresh(
    img: PlaneModel,
    size: i32,
    weights: Seq<u64>,
    t: DbsModel,
)
    requires
        reached(img, size, weights, t),
    ensures
        t.with_error().error == t.error,
        t.with_error() == t,
{
    assert(t.with_error().error =~= t.error);
}

/// In every context that is reached, the blocks of a phase can be visited in any order, for a
/// kernel at least three wide.
pub proof fn law_usual_order_is_free(
    img: PlaneModel,
    size: i32,
    weights: Seq<u64>,
    t: DbsModel,
    shift: (i32, i32),
    f: int,
    order: Seq<Block>,
)
    requires
        reached(img, size, weights, t),
        t.addressable(),
        size >= 3,
        0 <= shift.0 < t.block_size(),
        0 <= shift.1 < t.block_size(),
        order.no_duplicates(),
        forall|b: Block|
            order.contains(b) <==> t.grid(shift.0, shift.1, t.block_size()).phase(f).contains(b),
    ensures
        ({
            let blocks = t.grid(shift.0, shift.1, t.block_size()).phase(f);
            fresh_tally(t).visit_blocks(order, order.len()).model == fresh_tally(t).visit_blocks(
                blocks,
                blocks.len(),
            ).model
        }),
{
    lemma_reached(img, size, weights, t);
    lemma_margin(t.kernel_size);
    assert(t.block_size() == 2 * (size - 1));
    law_order_in_a_phase_is_free(t, shift, f, order);
}

} // verus!
