//! What is lost to rounding in the second map does not pile up: it is bounded by the kernel,
//! however long a search goes on.
use crate::context::{fits, lemma_margin, margin_of, thresholded, DbsModel};
use crate::error_laws::{
    calm, lemma_mass_light, lemma_overlap_loss, lemma_tap_place, lemma_under_scattered, residue,
    under,
};
use crate::filter::filter_sum;
use crate::fixed::{abs_of, fmul};
use crate::follow_laws::{
    follows, lemma_follows_ample, lemma_follows_itself, lemma_moved_none, lemma_moved_size,
    lemma_moved_step, lemma_toggle_follows, moved,
};
use crate::kernel::{autocorr_at, autocorr_width, kernel_of, kernel_span, KernelOffset};
use crate::kernel_laws::{
    law_context_regular, law_energy_is_autocorr, lemma_sides, lemma_size_bound, lemma_tap_number,
    square_in_array,
};
use crate::map_laws::{
    ample, hits, lemma_difference_levels, lemma_filter_size, lemma_mass_grows, lemma_pixel_index,
    lemma_toggled, light, roomy, toggle_sign, weight_mass,
};
use crate::ops::Choice;
use crate::overlap_laws::{
    gentle, law_overlap_symmetric, lemma_overlap_is_pair_sum, lemma_pair_sum_far, pair_sum,
};
use crate::plane::PlaneModel;
use crate::search::passes;
use crate::search_laws::{law_best_is_least, law_search_keeps};
use crate::swap_laws::{
    law_swap_is_two_toggles, lemma_reach, lemma_regular_sizes, lemma_square_hits,
};
use vstd::arithmetic::div_mod::lemma_fundamental_div_mod;
use vstd::prelude::*;

verus! {

/// The taps of the autocorrelation, each with what is lost of it to rounding in place of its
/// weight.
pub open spec fn loss_taps(m: DbsModel) -> Seq<KernelOffset> {
    let taps = m.kernel.offsets;
    let wide = m.kernel.autocorr_offsets;
    Seq::new(
        wide.len(),
        |l: int|
            KernelOffset {
                weight: (65536 * wide[l].weight - pair_sum(
                    taps,
                    m.kernel_radius as int,
                    wide[l].dy as int,
                    wide[l].dx as int,
                    taps.len(),
                )) as i64,
                ..wide[l]
            },
    )
}

/// What is lost at one tap.
proof fn lemma_loss_tap(m: DbsModel, l: int)
    requires
        m.calibrated(),
        0 <= l < m.kernel.autocorr_offsets.len(),
    ensures
        ({
            let tap = m.kernel.autocorr_offsets[l];
            &&& loss_taps(m)[l].weight == 65536 * tap.weight - pair_sum(
                m.kernel.offsets,
                m.kernel_radius as int,
                tap.dy as int,
                tap.dx as int,
                m.kernel.offsets.len(),
            )
            &&& -65535 * m.kernel.offsets.len() <= loss_taps(m)[l].weight <= 0
        }),
{
    let ar = m.autocorr_radius() as int;
    let a = 2 * ar + 1;
    let tap = m.kernel.autocorr_offsets[l];
    lemma_tap_number(l, a);
    assert(tap.dy == l / a - ar && tap.dx == l % a - ar);
    lemma_overlap_loss(m, tap.dy as int, tap.dx as int);
    lemma_regular_sizes(m);
    assert(m.kernel_size * m.kernel_size == m.kernel.offsets.len());
    assert((tap.dy + ar) * a + (tap.dx + ar) == l);
    assert(m.autocorr_weight(tap.dx as int, tap.dy as int) == tap.weight);
}

/// The losses lie in a square as the autocorrelation does.
proof fn lemma_loss_square(m: DbsModel)
    requires
        m.calibrated(),
    ensures
        square_in_array(
            loss_taps(m),
            m.autocorr_radius() as int,
            m.padded_width as int,
        ),
{
    let wide = m.kernel.autocorr_offsets;
    let lost = loss_taps(m);
    assert forall|k: int| 0 <= k < lost.len() implies (#[trigger] lost[k]).dy == wide[k].dy
        && lost[k].dx == wide[k].dx && lost[k].offset == wide[k].offset by {}
}

/// All losses together.
proof fn lemma_loss_mass(m: DbsModel, n: nat)
    requires
        m.calibrated(),
        n <= m.kernel.autocorr_offsets.len(),
    ensures
        weight_mass(loss_taps(m), n) <= 65535 * m.kernel.offsets.len() * n,
    decreases n,
{
    let t = 65535 * m.kernel.offsets.len();
    if n > 0 {
        lemma_loss_mass(m, (n - 1) as nat);
        lemma_loss_tap(m, n - 1);
        assert(t * n == t * (n - 1) + t) by (nonlinear_arith);
    } else {
        assert(t * 0 == 0);
    }
}

/// What a toggle adds to the residue at a pixel: what is lost at the tap that leads there.
#[verifier::rlimit(50)]
pub proof fn law_toggle_residue(t: DbsModel, x: u32, y: u32, cx: u32, cy: u32)
    requires
        t.calibrated(),
        t.tame(),
        ample(t.error),
        ample(t.e2),
        t.has_pixel(x, y),
        t.has_pixel(cx, cy),
    ensures
        residue(t.toggled(x, y), t.index_of(cx, cy)) == residue(t, t.index_of(cx, cy)) + hits(
            loss_taps(t),
            t.index_of(x, y),
            toggle_sign(t, x, y),
            loss_taps(t).len(),
            t.index_of(cx, cy),
        ),
{
    let u = t.toggled(x, y);
    let p = t.index_of(x, y);
    let c = t.index_of(cx, cy);
    let s = toggle_sign(t, x, y);
    let taps = t.kernel.offsets;
    let wide = t.kernel.autocorr_offsets;
    let lost = loss_taps(t);
    let r = t.kernel_radius as int;
    let ar = t.autocorr_radius() as int;
    let stride = t.padded_width as int;
    let pad = t.padding as int;
    lemma_pixel_index(t, x, y);
    lemma_pixel_index(t, cx, cy);
    lemma_reach(t);
    lemma_regular_sizes(t);
    lemma_margin(t.kernel_size);
    assert(ar == 2 * r);
    lemma_toggled(t, x, y);
    assert(-0x6000_0000_0000_0000 <= t.e2[c] && t.e2[c] <= 0x6000_0000_0000_0000);
    assert(u.e2[c] == t.e2[c] + hits(wide, p, s, wide.len(), c));
    assert(t.halftone[p] == 0 || t.halftone[p] == 65536);
    lemma_under_scattered(
        t.error,
        taps,
        r,
        stride,
        t.padded_height as int,
        p,
        cy + pad,
        cx + pad,
        s,
        taps.len(),
    );
    law_overlap_symmetric(taps, p, c, taps.len(), taps.len());
    lemma_overlap_is_pair_sum(
        taps,
        r,
        stride,
        cy + pad,
        cx + pad,
        y + pad,
        x + pad,
        taps.len(),
    );
    let shared = pair_sum(taps, r, cy - y, cx - x, taps.len());
    assert(under(u.error, taps, c, taps.len()) == under(t.error, taps, c, taps.len()) + s * shared);
    lemma_loss_square(t);
    lemma_square_hits(wide, ar, stride, y + pad, x + pad, s, cy + pad, cx + pad, wide.len());
    lemma_square_hits(lost, ar, stride, y + pad, x + pad, s, cy + pad, cx + pad, lost.len());
    if abs_of(cy - y) <= ar && abs_of(cx - x) <= ar {
        lemma_overlap_loss(t, cy - y, cx - x);
        let k = (cy - y + ar) * (2 * ar + 1) + (cx - x + ar);
        lemma_loss_tap(t, k);
        let w = wide[k].weight as int;
        assert(65536 * (s * w) - s * shared == s * (65536 * w - shared)) by (nonlinear_arith);
    } else {
        lemma_pair_sum_far(taps, r, cy - y, cx - x, taps.len());
        assert(s * 0 == 0);
    }
}

/// The residues of a context that follows another: those of the other, plus what is lost at the
/// pixels that have changed.
pub open spec fn residues_follow(m: DbsModel, t: DbsModel) -> bool {
    &&& follows(m, t)
    &&& forall|x: u32, y: u32|
        #![trigger m.index_of(x, y)]
        m.has_pixel(x, y) ==> residue(t, m.index_of(x, y)) == residue(m, m.index_of(x, y)) + moved(
            m.halftone,
            t.halftone,
            loss_taps(m),
            m.index_of(x, y),
            loss_taps(m).len(),
        )
}

/// A toggle is followed by the residues.
proof fn lemma_toggle_residues(m: DbsModel, t: DbsModel, x: u32, y: u32)
    requires
        m.calibrated(),
        m.tame(),
        roomy(m.error),
        roomy(m.e2),
        residues_follow(m, t),
        m.has_pixel(x, y),
    ensures
        residues_follow(m, t.toggled(x, y)),
{
    let u = t.toggled(x, y);
    let lost = loss_taps(m);
    lemma_toggle_follows(m, t, x, y);
    lemma_follows_ample(m, t);
    lemma_pixel_index(m, x, y);
    let p = m.index_of(x, y);
    let s = toggle_sign(t, x, y);
    lemma_toggled(t, x, y);
    assert(t.index_of(x, y) == p);
    assert(t.halftone[p] == 0 || t.halftone[p] == 65536);
    assert(loss_taps(t) =~= lost);
    assert forall|cx: u32, cy: u32|
        #![trigger m.index_of(cx, cy)]
        m.has_pixel(cx, cy) implies residue(u, m.index_of(cx, cy)) == residue(
        m,
        m.index_of(cx, cy),
    ) + moved(m.halftone, u.halftone, lost, m.index_of(cx, cy), lost.len()) by {
        let c = m.index_of(cx, cy);
        assert(t.index_of(cx, cy) == c);
        law_toggle_residue(t, x, y, cx, cy);
        lemma_moved_step(m.halftone, t.halftone, lost, p, s, c, lost.len());
    }
}

/// The best operation at a pixel is followed by the residues.
pub proof fn law_improvement_residues(m: DbsModel, t: DbsModel, x: u32, y: u32)
    requires
        m.calibrated(),
        m.tame(),
        m.addressable(),
        roomy(m.error),
        roomy(m.e2),
        residues_follow(m, t),
        m.has_pixel(x, y),
    ensures
        residues_follow(m, t.improved(x, y)),
{
    law_best_is_least(t, x, y, 8);
    match t.best(x, y, 8).1 {
        Choice::Keep => {},
        Choice::Toggle => {
            lemma_toggle_residues(m, t, x, y);
        },
        Choice::Swap(k) => {
            let n = t.neighbour(x, y, k as int)->0;
            assert(t.neighbour_delta(x, y, k as int) is Some);
            lemma_follows_ample(m, t);
            assert(m.has_pixel(n.0, n.1));
            law_swap_is_two_toggles(t, x, y, n.0, n.1);
            lemma_toggle_residues(m, t, x, y);
            lemma_toggle_residues(m, t.toggled(x, y), n.0, n.1);
        },
    }
}

/// However many passes there are, the residue at a pixel differs from that at the start by less
/// than one, times one, for each tap of the kernel and each tap of its autocorrelation.
pub proof fn law_search_residues(m: DbsModel, shifts: Seq<(i32, i32)>)
    requires
        m.calibrated(),
        m.tame(),
        m.addressable(),
        roomy(m.error),
        roomy(m.e2),
    ensures
        residues_follow(m, passes(m, shifts).model),
        forall|x: u32, y: u32|
            #![trigger m.index_of(x, y)]
            m.has_pixel(x, y) ==> abs_of(
                residue(passes(m, shifts).model, m.index_of(x, y)) - residue(m, m.index_of(x, y)),
            ) <= 65535 * m.kernel.offsets.len() * m.kernel.autocorr_offsets.len(),
{
    let w = m.width;
    let h = m.height;
    let lost = loss_taps(m);
    let p = |c: DbsModel| residues_follow(m, c);
    lemma_follows_itself(m);
    assert(residues_follow(m, m)) by {
        assert forall|x: u32, y: u32|
            #![trigger m.index_of(x, y)]
            m.has_pixel(x, y) implies residue(m, m.index_of(x, y)) == residue(m, m.index_of(x, y))
            + moved(m.halftone, m.halftone, lost, m.index_of(x, y), lost.len()) by {
            lemma_moved_none(m.halftone, lost, m.index_of(x, y), lost.len());
        }
    }
    assert forall|c: DbsModel, x: u32, y: u32|
        #![trigger c.improved(x, y)]
        p(c) && x < w && y < h implies p(c.improved(x, y)) by {
        law_improvement_residues(m, c, x, y);
    }
    law_search_keeps(p, m, shifts);
    let t = passes(m, shifts).model;
    assert forall|x: u32, y: u32|
        #![trigger m.index_of(x, y)]
        m.has_pixel(x, y) implies abs_of(
        residue(t, m.index_of(x, y)) - residue(m, m.index_of(x, y)),
    ) <= 65535 * m.kernel.offsets.len() * m.kernel.autocorr_offsets.len() by {
        lemma_moved_size(m.halftone, t.halftone, lost, m.index_of(x, y), lost.len());
        lemma_loss_mass(m, lost.len());
    }
}

/// A filtered map, and the map under the kernel.
proof fn lemma_filter_under(
    map: Seq<i64>,
    taps: Seq<KernelOffset>,
    radius: int,
    stride: int,
    rows: int,
    cy: int,
    cx: int,
    n: nat,
)
    requires
        square_in_array(taps, radius, stride),
        gentle(taps),
        radius <= cx,
        cx + radius < stride,
        radius <= cy,
        cy + radius < rows,
        map.len() == stride * rows,
        forall|i: int| 0 <= i < map.len() ==> abs_of(#[trigger] map[i] as int) <= 0x4000_0000,
        n <= taps.len() <= i32::MAX,
    ensures
        ({
            let exact = under(map, taps, cy * stride + cx, n);
            let sum = filter_sum(map, taps, cy * stride + cx, n);
            &&& abs_of(exact) <= weight_mass(taps, n) * 0x4000_0000
            &&& 0 <= exact - 65536 * sum <= 65535 * n
        }),
    decreases n,
{
    let c = cy * stride + cx;
    if n > 0 {
        lemma_filter_under(map, taps, radius, stride, rows, cy, cx, (n - 1) as nat);
        let k = n - 1;
        let w = taps[k].weight as int;
        lemma_tap_place(taps, radius, stride, rows, cy, cx, k);
        let e = map[c + taps[k].offset] as int;
        assert(abs_of(e) <= 0x4000_0000);
        lemma_mass_grows(taps, (n - 1) as nat, taps.len());
        lemma_mass_grows(taps, n, taps.len());
        assert(abs_of(w * e) <= abs_of(w) * 0x4000_0000 <= 0x1000_0000_0000_0000)
            by (nonlinear_arith)
            requires
                abs_of(w) == (if w < 0 {
                    -w
                } else {
                    w
                }),
                abs_of(w * e) == (if w * e < 0 {
                    -(w * e)
                } else {
                    w * e
                }),
                abs_of(w) <= 0x4000_0000,
                -0x4000_0000 <= e <= 0x4000_0000,
        ;
        assert(e * w == w * e) by (nonlinear_arith);
        assert(0 <= w * e - 65536 * fmul(e as i64, w as i64) <= 65535);
    }
}

/// The context of a picture is calibrated, for a kernel of an odd width and a small mass.
#[verifier::rlimit(50)]
pub proof fn law_context_calibrated(img: PlaneModel, size: i32, weights: Seq<u64>)
    requires
        fits(img.width, img.height, size),
        1 <= size,
        size % 2 == 1,
        autocorr_width(size) * autocorr_width(size) <= i32::MAX,
        gentle(thresholded(img, size, weights).kernel.offsets),
    ensures
        thresholded(img, size, weights).with_error().with_e2().calibrated(),
{
    let a = thresholded(img, size, weights);
    let m = a.with_error().with_e2();
    let k = kernel_of(size, weights);
    law_context_regular(img, size, weights);
    lemma_size_bound(autocorr_width(size) as int);
    assert(size * size <= i32::MAX) by (nonlinear_arith)
        requires
            1 <= size <= 46340,
    ;
    law_energy_is_autocorr(size, weights);
    lemma_margin(size);
    assert(margin_of(size) == size - 1);
    lemma_sides(img.width, img.height, size);
    assert(m.wf()) by {
        assert forall|i: int| 0 <= i < m.original.len() implies 0 <= #[trigger] m.original[i]
            && m.original[i] <= 65536 by {}
    }
    let wide = m.kernel.autocorr_offsets;
    let ar = autocorr_width(size) as int / 2;
    assert forall|l: int| 0 <= l < wide.len() implies (#[trigger] wide[l]).weight
        == autocorr_at(
        m.kernel.flat,
        m.kernel_size,
        m.kernel_radius,
        wide[l].dy as int,
        wide[l].dx as int,
    ) by {
        let n = kernel_span(autocorr_width(size)) as int;
        assert(n == 2 * ar + 1);
        lemma_tap_number(l, n);
        assert(wide[l].weight == k.autocorr_offsets[l].weight);
    }
}

/// The residue at a pixel of a picture whose search has not begun: less than one, times one, for
/// each tap. The maps are far from saturation there.
#[verifier::rlimit(50)]
pub proof fn law_context_residues(img: PlaneModel, size: i32, weights: Seq<u64>)
    requires
        fits(img.width, img.height, size),
        1 <= size,
        size % 2 == 1,
        autocorr_width(size) * autocorr_width(size) <= i32::MAX,
        gentle(thresholded(img, size, weights).kernel.offsets),
    ensures
        ({
            let m = thresholded(img, size, weights).with_error().with_e2();
            &&& roomy(m.error)
            &&& roomy(m.e2)
            &&& calm(m.e2)
            &&& forall|i: int|
                0 <= i < m.error.len() ==> abs_of(#[trigger] m.error[i] as int) <= 0x4000_0000
            &&& forall|i: int|
                0 <= i < m.e2.len() ==> abs_of(#[trigger] m.e2[i] as int) <= weight_mass(
                    m.kernel.offsets,
                    m.kernel.offsets.len(),
                ) * 0x4000 + m.kernel.offsets.len()
            &&& forall|x: u32, y: u32|
                #![trigger m.index_of(x, y)]
                m.has_pixel(x, y) ==> -65535 * m.kernel.offsets.len() <= residue(
                    m,
                    m.index_of(x, y),
                ) <= 0
        }),
{
    let a = thresholded(img, size, weights);
    let m = a.with_error().with_e2();
    let taps = m.kernel.offsets;
    let stride = m.padded_width as int;
    let rows = m.padded_height as int;
    let pad = m.padding as int;
    law_context_calibrated(img, size, weights);
    lemma_regular_sizes(m);
    lemma_margin(size);
    lemma_mass_light(taps);
    assert(m.kernel_size * m.kernel_size == taps.len());
    assert(m.difference() =~= a.difference());
    lemma_difference_levels(m);
    assert forall|i: int| 0 <= i < m.error.len() implies abs_of(#[trigger] m.error[i] as int)
        <= 0x4000_0000 by {
        lemma_filter_size(m.difference(), taps, i, taps.len());
    }
    assert forall|i: int|
        0 <= i < m.e2.len() && m.picture_window().has(i / stride, i % stride) implies m.e2[i]
        == filter_sum(m.error, taps, i, taps.len()) && 0 <= under(m.error, taps, i, taps.len())
        - 65536 * #[trigger] m.e2[i] <= 65535 * taps.len() && abs_of(m.e2[i] as int)
        <= weight_mass(taps, taps.len()) * 0x4000 + taps.len() by {
        let y = i / stride - pad;
        let x = i % stride - pad;
        assert(m.has_pixel(x as u32, y as u32));
        lemma_reach(m);
        lemma_fundamental_div_mod(i, stride);
        assert(i == (i / stride) * stride + i % stride) by (nonlinear_arith)
            requires
                i == stride * (i / stride) + i % stride,
        ;
        lemma_filter_under(
            m.error,
            taps,
            m.kernel_radius as int,
            stride,
            rows,
            i / stride,
            i % stride,
            taps.len(),
        );
    }
    assert forall|x: u32, y: u32|
        #![trigger m.index_of(x, y)]
        m.has_pixel(x, y) implies -65535 * m.kernel.offsets.len() <= residue(m, m.index_of(x, y))
        <= 0 by {
        lemma_pixel_index(m, x, y);
        let c = m.index_of(x, y);
        assert(m.picture_window().has(c / stride, c % stride));
        assert(0 <= under(m.error, taps, c, taps.len()) - 65536 * m.e2[c]);
    }
    lemma_mass_grows(taps, 0, taps.len());
    assert forall|i: int| 0 <= i < m.e2.len() implies abs_of(#[trigger] m.e2[i] as int)
        <= weight_mass(taps, taps.len()) * 0x4000 + taps.len() by {
        if !m.picture_window().has(i / stride, i % stride) {
            assert(m.e2[i] == 0);
        }
    }
    assert forall|i: int| 0 <= i < m.e2.len() implies -0x2000_0000_0000 <= #[trigger] m.e2[i]
        && m.e2[i] <= 0x2000_0000_0000 by {
        assert(abs_of(m.e2[i] as int) <= weight_mass(taps, taps.len()) * 0x4000 + taps.len());
    }
    assert forall|i: int| 0 <= i < m.error.len() implies -0x4000_0000_0000_0000
        <= #[trigger] m.error[i] && m.error[i] <= 0x4000_0000_0000_0000 by {
        assert(abs_of(m.error[i] as int) <= 0x4000_0000);
    }
    assert forall|i: int| 0 <= i < m.e2.len() implies -0x4000_0000_0000_0000 <= #[trigger] m.e2[i]
        && m.e2[i] <= 0x4000_0000_0000_0000 by {
        assert(-0x2000_0000_0000 <= m.e2[i] && m.e2[i] <= 0x2000_0000_0000);
    }
}

/// In a search that starts at a picture, the residue at a pixel never exceeds one, times one, for
/// each tap of the kernel and each tap of its autocorrelation and one more.
pub proof fn law_picture_residues(
    img: PlaneModel,
    size: i32,
    weights: Seq<u64>,
    shifts: Seq<(i32, i32)>,
    x: u32,
    y: u32,
)
    requires
        fits(img.width, img.height, size),
        1 <= size,
        size % 2 == 1,
        autocorr_width(size) * autocorr_width(size) <= i32::MAX,
        gentle(thresholded(img, size, weights).kernel.offsets),
        light(thresholded(img, size, weights).kernel.autocorr_offsets),
        img.width + 2 * (size - 1) <= i32::MAX,
        img.height + 2 * (size - 1) <= i32::MAX,
        x < img.width,
        y < img.height,
    ensures
        ({
            let m = thresholded(img, size, weights).with_error().with_e2();
            let n = m.kernel.offsets.len();
            let l = m.kernel.autocorr_offsets.len();
            abs_of(residue(passes(m, shifts).model, m.index_of(x, y))) <= 65535 * n * l + 65535 * n
        }),
{
    let m = thresholded(img, size, weights).with_error().with_e2();
    law_context_calibrated(img, size, weights);
    law_context_residues(img, size, weights);
    lemma_mass_light(m.kernel.offsets);
    law_search_residues(m, shifts);
    let c = m.index_of(x, y);
    assert(m.has_pixel(x, y));
}

} // verus!
