//! The maps follow the halftone: at each step of a search they are what they were at its start,
//! plus what the pixels that have changed since then add.
use crate::context::DbsModel;
use crate::fixed::abs_of;
use crate::kernel::KernelOffset;
use crate::map_laws::{
    ample, hits, lemma_pixel_index, lemma_toggled, light, roomy, toggle_sign, weight_mass,
};
use crate::ops::Choice;
use crate::search::passes;
use crate::search_laws::{law_best_is_least, law_search_keeps};
use crate::swap_laws::law_swap_is_two_toggles;
use vstd::prelude::*;

verus! {

/// By how much a pixel has changed, in units of one; zero outside of the arrays.
pub open spec fn unit_change(start: Seq<i64>, now: Seq<i64>, j: int) -> int {
    if 0 <= j < start.len() {
        (now[j] - start[j]) / 65536
    } else {
        0
    }
}

/// What the pixels that have changed add to the entry `i` of a map, through the first `n` taps.
pub open spec fn moved(
    start: Seq<i64>,
    now: Seq<i64>,
    taps: Seq<KernelOffset>,
    i: int,
    n: nat,
) -> int
    decreases n,
{
    if n == 0 {
        0
    } else {
        moved(start, now, taps, i, (n - 1) as nat) + unit_change(
            start,
            now,
            i - taps[n - 1].offset,
        ) * taps[n - 1].weight
    }
}

/// Nothing has moved where nothing has changed.
pub proof fn lemma_moved_none(start: Seq<i64>, taps: Seq<KernelOffset>, i: int, n: nat)
    ensures
        moved(start, start, taps, i, n) == 0,
    decreases n,
{
    if n > 0 {
        lemma_moved_none(start, taps, i, (n - 1) as nat);
        assert(unit_change(start, start, i - taps[n - 1].offset) == 0);
        assert(0 * taps[n - 1].weight == 0);
    }
}

/// One pixel more has changed.
pub proof fn lemma_moved_step(
    start: Seq<i64>,
    now: Seq<i64>,
    taps: Seq<KernelOffset>,
    c: int,
    sign: int,
    i: int,
    n: nat,
)
    requires
        start.len() == now.len(),
        0 <= c < now.len(),
        -65536 <= now[c] + sign * 65536 <= 65536,
    ensures
        moved(start, now.update(c, (now[c] + sign * 65536) as i64), taps, i, n) == moved(
            start,
            now,
            taps,
            i,
            n,
        ) + hits(taps, c, sign, n, i),
    decreases n,
{
    let next = now.update(c, (now[c] + sign * 65536) as i64);
    if n > 0 {
        lemma_moved_step(start, now, taps, c, sign, i, (n - 1) as nat);
        let j = i - taps[n - 1].offset;
        let w = taps[n - 1].weight as int;
        let u = unit_change(start, now, j);
        if j == c {
            assert(unit_change(start, next, j) == u + sign);
            assert((u + sign) * w == u * w + sign * w) by (nonlinear_arith);
        } else {
            assert(unit_change(start, next, j) == u);
        }
    }
}

/// What has moved is no more than the mass of the taps.
pub proof fn lemma_moved_size(
    start: Seq<i64>,
    now: Seq<i64>,
    taps: Seq<KernelOffset>,
    i: int,
    n: nat,
)
    requires
        start.len() == now.len(),
        forall|j: int| 0 <= j < start.len() ==> start[j] == 0 || start[j] == 65536,
        forall|j: int| 0 <= j < now.len() ==> now[j] == 0 || now[j] == 65536,
        n <= taps.len(),
    ensures
        abs_of(moved(start, now, taps, i, n)) <= weight_mass(taps, n),
    decreases n,
{
    if n > 0 {
        lemma_moved_size(start, now, taps, i, (n - 1) as nat);
        let j = i - taps[n - 1].offset;
        let w = taps[n - 1].weight as int;
        let u = unit_change(start, now, j);
        assert(-1 <= u <= 1) by {
            if 0 <= j < start.len() {
                assert(start[j] == 0 || start[j] == 65536);
                assert(now[j] == 0 || now[j] == 65536);
            }
        }
        assert(u * w == 0 || u * w == w || u * w == -w) by (nonlinear_arith)
            requires
                u == 0 || u == 1 || u == -1,
        ;
    }
}

/// A map is what it was, plus what the pixels that have changed add.
pub open spec fn map_follows(
    map: Seq<i64>,
    before: Seq<i64>,
    start: Seq<i64>,
    now: Seq<i64>,
    taps: Seq<KernelOffset>,
) -> bool {
    &&& map.len() == before.len()
    &&& forall|i: int|
        0 <= i < map.len() ==> #[trigger] map[i] == before[i] + moved(
            start,
            now,
            taps,
            i,
            taps.len(),
        )
}

/// A context that differs from another in its halftone, and in its maps by what that makes of them.
pub open spec fn follows(m: DbsModel, t: DbsModel) -> bool {
    &&& t.wf()
    &&& t == DbsModel { halftone: t.halftone, error: t.error, e2: t.e2, ..m }
    &&& map_follows(t.error, m.error, m.halftone, t.halftone, m.kernel.offsets)
    &&& map_follows(t.e2, m.e2, m.halftone, t.halftone, m.kernel.autocorr_offsets)
}

/// Every context follows itself.
pub proof fn lemma_follows_itself(m: DbsModel)
    requires
        m.wf(),
    ensures
        follows(m, m),
{
    let taps = m.kernel.offsets;
    let wide = m.kernel.autocorr_offsets;
    assert forall|i: int| 0 <= i < m.error.len() implies #[trigger] m.error[i] == m.error[i]
        + moved(m.halftone, m.halftone, taps, i, taps.len()) by {
        lemma_moved_none(m.halftone, taps, i, taps.len());
    }
    assert forall|i: int| 0 <= i < m.e2.len() implies #[trigger] m.e2[i] == m.e2[i] + moved(
        m.halftone,
        m.halftone,
        wide,
        i,
        wide.len(),
    ) by {
        lemma_moved_none(m.halftone, wide, i, wide.len());
    }
}

/// Two contexts that follow one and have the same halftone are the same.
pub proof fn law_maps_depend_on_halftone(m: DbsModel, t: DbsModel, u: DbsModel)
    requires
        follows(m, t),
        follows(m, u),
        t.halftone == u.halftone,
    ensures
        t == u,
{
    assert(t.error =~= u.error);
    assert(t.e2 =~= u.e2);
}

/// How far a map that follows can be from zero.
proof fn lemma_follows_size(
    map: Seq<i64>,
    before: Seq<i64>,
    start: Seq<i64>,
    now: Seq<i64>,
    taps: Seq<KernelOffset>,
    i: int,
)
    requires
        map_follows(map, before, start, now, taps),
        roomy(before),
        light(taps),
        start.len() == now.len(),
        forall|j: int| 0 <= j < start.len() ==> start[j] == 0 || start[j] == 65536,
        forall|j: int| 0 <= j < now.len() ==> now[j] == 0 || now[j] == 65536,
        0 <= i < map.len(),
    ensures
        abs_of(map[i] as int) <= 0x5000_0000_0000_0000,
{
    lemma_moved_size(start, now, taps, i, taps.len());
    assert(-0x4000_0000_0000_0000 <= before[i] && before[i] <= 0x4000_0000_0000_0000);
}

/// A toggle is followed.
pub proof fn lemma_toggle_follows(m: DbsModel, t: DbsModel, x: u32, y: u32)
    requires
        m.tame(),
        roomy(m.error),
        roomy(m.e2),
        follows(m, t),
        m.has_pixel(x, y),
    ensures
        follows(m, t.toggled(x, y)),
{
    let u = t.toggled(x, y);
    let c = t.index_of(x, y);
    let s = toggle_sign(t, x, y);
    let taps = m.kernel.offsets;
    let wide = m.kernel.autocorr_offsets;
    lemma_pixel_index(t, x, y);
    lemma_toggled(t, x, y);
    assert(t.halftone[c] == 0 || t.halftone[c] == 65536);
    assert forall|i: int| 0 <= i < u.error.len() implies #[trigger] u.error[i] == m.error[i]
        + moved(m.halftone, u.halftone, taps, i, taps.len()) by {
        lemma_follows_size(t.error, m.error, m.halftone, t.halftone, taps, i);
        lemma_moved_step(m.halftone, t.halftone, taps, c, s, i, taps.len());
    }
    assert forall|i: int| 0 <= i < u.e2.len() implies #[trigger] u.e2[i] == m.e2[i] + moved(
        m.halftone,
        u.halftone,
        wide,
        i,
        wide.len(),
    ) by {
        lemma_follows_size(t.e2, m.e2, m.halftone, t.halftone, wide, i);
        lemma_moved_step(m.halftone, t.halftone, wide, c, s, i, wide.len());
    }
}

/// The maps of a context that follows have room for an operation.
pub proof fn lemma_follows_ample(m: DbsModel, t: DbsModel)
    requires
        m.tame(),
        roomy(m.error),
        roomy(m.e2),
        follows(m, t),
    ensures
        ample(t.error),
        ample(t.e2),
        t.tame(),
{
    let taps = m.kernel.offsets;
    let wide = m.kernel.autocorr_offsets;
    assert forall|i: int| 0 <= i < t.error.len() implies -0x6000_0000_0000_0000
        <= #[trigger] t.error[i] && t.error[i] <= 0x6000_0000_0000_0000 by {
        lemma_follows_size(t.error, m.error, m.halftone, t.halftone, taps, i);
    }
    assert forall|i: int| 0 <= i < t.e2.len() implies -0x6000_0000_0000_0000
        <= #[trigger] t.e2[i] && t.e2[i] <= 0x6000_0000_0000_0000 by {
        lemma_follows_size(t.e2, m.e2, m.halftone, t.halftone, wide, i);
    }
}

/// A swap is followed.
pub proof fn lemma_swap_follows(m: DbsModel, t: DbsModel, x1: u32, y1: u32, x2: u32, y2: u32)
    requires
        m.tame(),
        m.addressable(),
        roomy(m.error),
        roomy(m.e2),
        follows(m, t),
        m.has_pixel(x1, y1),
        m.has_pixel(x2, y2),
        t.swappable(x1, y1, x2, y2),
    ensures
        follows(m, t.swapped(x1, y1, x2, y2)),
{
    lemma_follows_ample(m, t);
    law_swap_is_two_toggles(t, x1, y1, x2, y2);
    lemma_toggle_follows(m, t, x1, y1);
    lemma_toggle_follows(m, t.toggled(x1, y1), x2, y2);
}

/// The best operation at a pixel is followed by the maps.
pub proof fn law_improvement_follows(m: DbsModel, t: DbsModel, x: u32, y: u32)
    requires
        m.tame(),
        m.addressable(),
        roomy(m.error),
        roomy(m.e2),
        follows(m, t),
        m.has_pixel(x, y),
    ensures
        follows(m, t.improved(x, y)),
{
    law_best_is_least(t, x, y, 8);
    match t.best(x, y, 8).1 {
        Choice::Keep => {},
        Choice::Toggle => {
            lemma_toggle_follows(m, t, x, y);
        },
        Choice::Swap(k) => {
            let n = t.neighbour(x, y, k as int)->0;
            assert(t.neighbour_delta(x, y, k as int) is Some);
            lemma_swap_follows(m, t, x, y, n.0, n.1);
        },
    }
}

/// After any passes, both maps are what they were at the start plus what the pixels that have
/// changed add, where nothing saturates. So nothing is lost on the way, however many passes there
/// are.
pub proof fn law_search_follows(m: DbsModel, shifts: Seq<(i32, i32)>)
    requires
        m.tame(),
        m.addressable(),
        roomy(m.error),
        roomy(m.e2),
    ensures
        follows(m, passes(m, shifts).model),
{
    let w = m.width;
    let h = m.height;
    let p = |c: DbsModel| follows(m, c);
    lemma_follows_itself(m);
    assert forall|c: DbsModel, x: u32, y: u32|
        #![trigger c.improved(x, y)]
        p(c) && x < w && y < h implies p(c.improved(x, y)) by {
        law_improvement_follows(m, c, x, y);
    }
    law_search_keeps(p, m, shifts);
}

/// Swapping two pixels twice undoes it, where nothing saturates.
pub proof fn law_swap_undone(m: DbsModel, x1: u32, y1: u32, x2: u32, y2: u32)
    requires
        m.tame(),
        m.addressable(),
        roomy(m.error),
        roomy(m.e2),
        m.has_pixel(x1, y1),
        m.has_pixel(x2, y2),
        m.swappable(x1, y1, x2, y2),
    ensures
        m.swapped(x1, y1, x2, y2).swapped(x1, y1, x2, y2) == m,
{
    let t = m.swapped(x1, y1, x2, y2);
    let u = t.swapped(x1, y1, x2, y2);
    lemma_pixel_index(m, x1, y1);
    lemma_pixel_index(m, x2, y2);
    lemma_follows_itself(m);
    lemma_swap_follows(m, m, x1, y1, x2, y2);
    lemma_swap_follows(m, t, x1, y1, x2, y2);
    assert(u.halftone =~= m.halftone);
    law_maps_depend_on_halftone(m, u, m);
}

/// It makes no difference which of two pixels is named first when they are swapped, where nothing
/// saturates.
pub proof fn law_swap_symmetric(m: DbsModel, x1: u32, y1: u32, x2: u32, y2: u32)
    requires
        m.tame(),
        m.addressable(),
        roomy(m.error),
        roomy(m.e2),
        m.has_pixel(x1, y1),
        m.has_pixel(x2, y2),
        m.swappable(x1, y1, x2, y2),
    ensures
        m.swapped(x1, y1, x2, y2) == m.swapped(x2, y2, x1, y1),
{
    let t = m.swapped(x1, y1, x2, y2);
    let u = m.swapped(x2, y2, x1, y1);
    lemma_pixel_index(m, x1, y1);
    lemma_pixel_index(m, x2, y2);
    lemma_follows_itself(m);
    lemma_swap_follows(m, m, x1, y1, x2, y2);
    lemma_swap_follows(m, m, x2, y2, x1, y1);
    assert(t.halftone =~= u.halftone);
    law_maps_depend_on_halftone(m, t, u);
}

/// The order of two toggles makes no difference, where nothing saturates.
pub proof fn law_toggles_commute(m: DbsModel, x1: u32, y1: u32, x2: u32, y2: u32)
    requires
        m.tame(),
        roomy(m.error),
        roomy(m.e2),
        m.has_pixel(x1, y1),
        m.has_pixel(x2, y2),
    ensures
        m.toggled(x1, y1).toggled(x2, y2) == m.toggled(x2, y2).toggled(x1, y1),
{
    let t = m.toggled(x1, y1).toggled(x2, y2);
    let u = m.toggled(x2, y2).toggled(x1, y1);
    lemma_pixel_index(m, x1, y1);
    lemma_pixel_index(m, x2, y2);
    lemma_follows_itself(m);
    lemma_toggle_follows(m, m, x1, y1);
    lemma_toggle_follows(m, m, x2, y2);
    lemma_toggle_follows(m, m.toggled(x1, y1), x2, y2);
    lemma_toggle_follows(m, m.toggled(x2, y2), x1, y1);
    assert(t.halftone =~= u.halftone);
    law_maps_depend_on_halftone(m, t, u);
}

} // verus!
