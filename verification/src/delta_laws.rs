//! How the expected changes of operations hang together: that of a swap is that of two toggles, and
//! undoing an operation undoes its expected change.
use crate::context::{lemma_margin, DbsModel};
use crate::error_laws::{
    lemma_energy_loss, lemma_overlap_loss, lemma_swap_delta, lemma_toggle_delta,
};
use crate::fixed::abs_of;
use crate::map_laws::{
    ample, hits, lemma_pixel_index, lemma_toggled, mirrored, toggle_sign,
};
use crate::ops::Choice;
use crate::overlap_laws::law_pair_floor_symmetric;
use crate::plane::PlaneModel;
use crate::search_laws::law_best_is_least;
use crate::swap_laws::{lemma_reach, lemma_regular_sizes, lemma_square_hits};
use crate::usual_laws::{
    law_swap_is_reached, law_toggle_is_reached, law_usual_kernel, law_usual_swap_is_two_toggles,
    law_usual_toggle_undone, lemma_reached, lemma_roomy_is_ample, reached,
};
use vstd::prelude::*;

verus! {

/// The autocorrelation is the same at a displacement and at the opposite one, for a kernel that
/// looks the same from both sides.
pub proof fn law_autocorr_symmetric(m: DbsModel, dy: int, dx: int)
    requires
        m.calibrated(),
        mirrored(m.kernel.offsets),
    ensures
        m.autocorr_weight(dx, dy) == m.autocorr_weight(-dx, -dy),
{
    lemma_overlap_loss(m, dy, dx);
    lemma_overlap_loss(m, -dy, -dx);
    lemma_energy_loss(m);
    law_pair_floor_symmetric(m.kernel.offsets, m.kernel_radius as int, dy, dx);
}

/// The energy of the kernel is its autocorrelation where it is not displaced.
pub proof fn lemma_center(m: DbsModel)
    requires
        m.calibrated(),
    ensures
        m.autocorr_weight(0, 0) == m.kernel.c_pp,
{
    lemma_margin(m.kernel_size);
    lemma_regular_sizes(m);
    lemma_overlap_loss(m, 0, 0);
}

/// What a toggle adds to the second map at a pixel: the autocorrelation at its displacement.
pub proof fn lemma_toggle_e2(t: DbsModel, x: u32, y: u32, cx: u32, cy: u32)
    requires
        t.calibrated(),
        t.tame(),
        ample(t.e2),
        t.has_pixel(x, y),
        t.has_pixel(cx, cy),
    ensures
        t.toggled(x, y).e2[t.index_of(cx, cy)] == t.e2[t.index_of(cx, cy)] + toggle_sign(t, x, y)
            * t.autocorr_weight(cx - x, cy - y),
{
    let p = t.index_of(x, y);
    let c = t.index_of(cx, cy);
    let s = toggle_sign(t, x, y);
    let wide = t.kernel.autocorr_offsets;
    let ar = t.autocorr_radius() as int;
    let pad = t.padding as int;
    let stride = t.padded_width as int;
    lemma_pixel_index(t, x, y);
    lemma_pixel_index(t, cx, cy);
    lemma_reach(t);
    lemma_toggled(t, x, y);
    assert(-0x6000_0000_0000_0000 <= t.e2[c] && t.e2[c] <= 0x6000_0000_0000_0000);
    assert(t.toggled(x, y).e2[c] == t.e2[c] + hits(wide, p, s, wide.len(), c));
    lemma_square_hits(wide, ar, stride, y + pad, x + pad, s, cy + pad, cx + pad, wide.len());
    lemma_overlap_loss(t, cy - y, cx - x);
    if !(abs_of(cy - y) <= ar && abs_of(cx - x) <= ar) {
        assert(s * 0 == 0);
    }
}

/// The expected change when a pixel is toggled is the energy of the kernel plus or minus twice the
/// second map, to the unit; and toggling it back is expected to undo just that.
pub proof fn law_usual_toggle_delta(
    img: PlaneModel,
    size: i32,
    weights: Seq<u64>,
    t: DbsModel,
    x: u32,
    y: u32,
)
    requires
        reached(img, size, weights, t),
        t.has_pixel(x, y),
    ensures
        ({
            let c = t.index_of(x, y);
            &&& t.halftone[c] == 0 ==> t.toggle_delta(x, y) == t.kernel.c_pp + 2 * t.e2[c]
            &&& t.halftone[c] != 0 ==> t.toggle_delta(x, y) == t.kernel.c_pp - 2 * t.e2[c]
            &&& t.toggled(x, y).toggle_delta(x, y) == -t.toggle_delta(x, y)
        }),
{
    let c = t.index_of(x, y);
    let s = toggle_sign(t, x, y);
    let u = t.toggled(x, y);
    lemma_reached(img, size, weights, t);
    law_toggle_is_reached(img, size, weights, t, x, y);
    lemma_reached(img, size, weights, u);
    lemma_roomy_is_ample(t.e2);
    lemma_pixel_index(t, x, y);
    lemma_toggle_delta(t, x, y);
    lemma_toggled(t, x, y);
    assert(t.halftone[c] == 0 || t.halftone[c] == 65536);
    assert(u.index_of(x, y) == c);
    assert(toggle_sign(u, x, y) == -s);
    lemma_toggle_delta(u, x, y);
    lemma_toggle_e2(t, x, y, x, y);
    lemma_center(t);
    let e = t.e2[c] as int;
    let k = t.kernel.c_pp as int;
    assert(2 * (-s) * (e + s * k) + k == -(2 * s * e + k)) by (nonlinear_arith)
        requires
            s == 1 || s == -1,
    ;
    assert(s == 1 ==> 2 * s * e == 2 * e);
    assert(s == -1 ==> 2 * s * e == -2 * e) by (nonlinear_arith);
}

/// The expected change of a swap is that of toggling the one pixel and then the other.
#[verifier::rlimit(50)]
pub proof fn law_usual_swap_delta_is_sum(
    img: PlaneModel,
    size: i32,
    weights: Seq<u64>,
    t: DbsModel,
    x1: u32,
    y1: u32,
    x2: u32,
    y2: u32,
)
    requires
        reached(img, size, weights, t),
        t.addressable(),
        t.has_pixel(x1, y1),
        t.has_pixel(x2, y2),
        t.swappable(x1, y1, x2, y2),
    ensures
        t.swap_delta(x1, y1, x2, y2) == t.toggle_delta(x1, y1) + t.toggled(x1, y1).toggle_delta(
            x2,
            y2,
        ),
{
    let c1 = t.index_of(x1, y1);
    let c2 = t.index_of(x2, y2);
    let s = toggle_sign(t, x1, y1);
    let u = t.toggled(x1, y1);
    lemma_reached(img, size, weights, t);
    law_toggle_is_reached(img, size, weights, t, x1, y1);
    lemma_reached(img, size, weights, u);
    law_usual_kernel(img, size, weights);
    lemma_roomy_is_ample(t.e2);
    lemma_pixel_index(t, x1, y1);
    lemma_pixel_index(t, x2, y2);
    lemma_toggled(t, x1, y1);
    assert(t.halftone[c1] == 0 || t.halftone[c1] == 65536);
    assert(t.halftone[c2] == 0 || t.halftone[c2] == 65536);
    assert(c1 != c2);
    assert(u.index_of(x2, y2) == c2);
    assert(toggle_sign(u, x2, y2) == -s);
    lemma_toggle_delta(t, x1, y1);
    lemma_toggle_delta(u, x2, y2);
    lemma_toggle_e2(t, x1, y1, x2, y2);
    law_autocorr_symmetric(t, y1 - y2, x1 - x2);
    lemma_swap_delta(t, x1, y1, x2, y2);
    let e = t.e2[c2] as int;
    let a = t.autocorr_weight(x1 - x2, y1 - y2) as int;
    assert(t.autocorr_weight(x2 - x1, y2 - y1) == a);
    assert(2 * (-s) * (e + s * a) == 2 * (-s) * e - 2 * a) by (nonlinear_arith)
        requires
            s == 1 || s == -1,
    ;
}

/// The expected change of a swap does not depend on which pixel is named first.
pub proof fn law_usual_swap_delta_symmetric(
    img: PlaneModel,
    size: i32,
    weights: Seq<u64>,
    t: DbsModel,
    x1: u32,
    y1: u32,
    x2: u32,
    y2: u32,
)
    requires
        reached(img, size, weights, t),
        t.addressable(),
        t.has_pixel(x1, y1),
        t.has_pixel(x2, y2),
        t.swappable(x1, y1, x2, y2),
    ensures
        t.swap_delta(x1, y1, x2, y2) == t.swap_delta(x2, y2, x1, y1),
{
    let c1 = t.index_of(x1, y1);
    let c2 = t.index_of(x2, y2);
    let s = toggle_sign(t, x1, y1);
    lemma_reached(img, size, weights, t);
    law_usual_kernel(img, size, weights);
    lemma_pixel_index(t, x1, y1);
    lemma_pixel_index(t, x2, y2);
    assert(t.halftone[c1] == 0 || t.halftone[c1] == 65536);
    assert(t.halftone[c2] == 0 || t.halftone[c2] == 65536);
    assert(toggle_sign(t, x2, y2) == -s);
    law_autocorr_symmetric(t, y1 - y2, x1 - x2);
    lemma_swap_delta(t, x1, y1, x2, y2);
    lemma_swap_delta(t, x2, y2, x1, y1);
    assert(t.autocorr_weight(x2 - x1, y2 - y1) == t.autocorr_weight(x1 - x2, y1 - y2));
    assert(-(-s) == s);
}

/// Swapping two pixels back is expected to undo just what swapping them was expected to do.
pub proof fn law_usual_swap_delta_undone(
    img: PlaneModel,
    size: i32,
    weights: Seq<u64>,
    t: DbsModel,
    x1: u32,
    y1: u32,
    x2: u32,
    y2: u32,
)
    requires
        reached(img, size, weights, t),
        t.addressable(),
        t.has_pixel(x1, y1),
        t.has_pixel(x2, y2),
        t.swappable(x1, y1, x2, y2),
    ensures
        t.swapped(x1, y1, x2, y2).swap_delta(x1, y1, x2, y2) == -t.swap_delta(x1, y1, x2, y2),
{
    let u = t.toggled(x1, y1);
    let v = t.swapped(x1, y1, x2, y2);
    lemma_reached(img, size, weights, t);
    law_usual_swap_is_two_toggles(img, size, weights, t, x1, y1, x2, y2);
    law_toggle_is_reached(img, size, weights, t, x1, y1);
    law_swap_is_reached(img, size, weights, t, x1, y1, x2, y2);
    lemma_pixel_index(t, x1, y1);
    lemma_pixel_index(t, x2, y2);
    let c1 = t.index_of(x1, y1);
    let c2 = t.index_of(x2, y2);
    assert(t.halftone[c1] == 0 || t.halftone[c1] == 65536);
    assert(t.halftone[c2] == 0 || t.halftone[c2] == 65536);
    assert(v.index_of(x1, y1) == c1 && v.index_of(x2, y2) == c2);
    assert(v.swappable(x1, y1, x2, y2) && v.swappable(x2, y2, x1, y1));
    law_usual_swap_delta_is_sum(img, size, weights, t, x1, y1, x2, y2);
    law_usual_toggle_delta(img, size, weights, t, x1, y1);
    law_usual_toggle_delta(img, size, weights, u, x2, y2);
    law_usual_swap_delta_symmetric(img, size, weights, v, x1, y1, x2, y2);
    law_usual_swap_delta_is_sum(img, size, weights, v, x2, y2, x1, y1);
    law_usual_toggle_undone(img, size, weights, u, x2, y2);
}

/// After the best operation at a pixel was carried out, undoing it is expected to raise the squared
/// error, by as much as it was expected to lower it.
pub proof fn law_undoing_never_helps(
    img: PlaneModel,
    size: i32,
    weights: Seq<u64>,
    t: DbsModel,
    x: u32,
    y: u32,
)
    requires
        reached(img, size, weights, t),
        t.addressable(),
        t.has_pixel(x, y),
    ensures
        match t.best(x, y, 8).1 {
            Choice::Keep => t.improved(x, y) == t,
            Choice::Toggle => t.improved(x, y).toggle_delta(x, y) == -t.best(x, y, 8).0 && t.best(
                x,
                y,
                8,
            ).0 < 0,
            Choice::Swap(k) => {
                let n = t.neighbour(x, y, k as int)->0;
                t.improved(x, y).swap_delta(x, y, n.0, n.1) == -t.best(x, y, 8).0 && t.best(
                    x,
                    y,
                    8,
                ).0 < 0
            },
        },
{
    lemma_reached(img, size, weights, t);
    law_best_is_least(t, x, y, 8);
    match t.best(x, y, 8).1 {
        Choice::Keep => {},
        Choice::Toggle => {
            law_usual_toggle_delta(img, size, weights, t, x, y);
        },
        Choice::Swap(k) => {
            let n = t.neighbour(x, y, k as int)->0;
            assert(t.neighbour_delta(x, y, k as int) is Some);
            assert(t.has_pixel(n.0, n.1));
            law_usual_swap_delta_undone(img, size, weights, t, x, y, n.0, n.1);
        },
    }
}

} // verus!
