//! How far the second map can be from the one that would be computed afresh.
use crate::context::{lemma_margin, DbsModel};
use crate::delta_laws::{law_autocorr_symmetric, lemma_toggle_e2};
use crate::error_laws::{lemma_mass_light, lemma_overlap_loss, lemma_tap_place};
use crate::filter::{filter_sum, scattered};
use crate::fixed::{abs_of, fmul};
use crate::kernel::KernelOffset;
use crate::kernel_laws::{lemma_tap_number, square_in_array};
use crate::map_laws::{
    hits, lemma_hits_sign, lemma_mass_grows, lemma_pixel_index, lemma_scattered_entry,
    lemma_scattered_len, light, toggle_sign, weight_mass,
};
use crate::overlap_laws::{
    gentle, lemma_pair_floor_step, lemma_tap_at, pair_floor, pair_term, tap_at,
};
use crate::plane::PlaneModel;
use crate::swap_laws::{lemma_reach, lemma_regular_sizes, lemma_square_hits};
use crate::usual_laws::{
    law_start_is_reached, law_toggle_is_reached, law_usual_error_is_fresh, law_usual_kernel,
    lemma_reached, lemma_roomy_is_ample, reached, start_of, usual,
};
use vstd::prelude::*;

verus! {

/// A product of two numbers that are not too large, rounded down.
proof fn lemma_floor(e: int, w: int)
    requires
        abs_of(e) <= 0x1_0000_0000,
        abs_of(w) <= 0x4000_0000,
    ensures
        fmul(e as i64, w as i64) == (e * w) / 65536,
        abs_of(fmul(e as i64, w as i64) as int) <= abs_of(w) * 0x1_0000 + 1,
{
    assert(abs_of(e * w) <= abs_of(w) * 0x1_0000_0000 <= 0x4000_0000_0000_0000)
        by (nonlinear_arith)
        requires
            abs_of(w) == (if w < 0 {
                -w
            } else {
                w
            }),
            abs_of(e * w) == (if e * w < 0 {
                -(e * w)
            } else {
                e * w
            }),
            abs_of(w) <= 0x4000_0000,
            -0x1_0000_0000 <= e <= 0x1_0000_0000,
    ;
}

/// Rounding a sum and rounding its parts differ by at most one.
proof fn lemma_floor_sum(e: int, v: int, w: int, s: int)
    requires
        abs_of(e) <= 0x8000_0000,
        abs_of(v) <= 0x4000_0000,
        abs_of(w) <= 0x4000_0000,
        s == 1 || s == -1,
    ensures
        abs_of(
            fmul((e + s * v) as i64, w as i64) - fmul(e as i64, w as i64) - s * fmul(
                w as i64,
                v as i64,
            ),
        ) <= 1,
{
    let a = e * w;
    let b = v * w;
    assert(s * v == v || s * v == -v) by (nonlinear_arith)
        requires
            s == 1 || s == -1,
    ;
    lemma_floor(e + s * v, w);
    lemma_floor(e, w);
    lemma_floor(v, w);
    assert(w * v == b) by (nonlinear_arith)
        requires
            b == v * w,
    ;
    assert((e + s * v) * w == a + s * b) by (nonlinear_arith)
        requires
            a == e * w,
            b == v * w,
    ;
    if s == 1 {
        assert(abs_of((a + b) / 65536 - a / 65536 - b / 65536) <= 1);
    } else {
        assert(s * b == -b) by (nonlinear_arith)
            requires
                s == -1,
        ;
        assert(abs_of((a - b) / 65536 - a / 65536 + b / 65536) <= 1);
    }
}

/// A filtered map before and after a pixel has changed by `s` times one: it differs by the rounded
/// overlap of the kernels, up to one for each tap.
proof fn lemma_filter_drift(
    map: Seq<i64>,
    taps: Seq<KernelOffset>,
    radius: int,
    stride: int,
    rows: int,
    py: int,
    px: int,
    cy: int,
    cx: int,
    s: int,
    n: nat,
)
    requires
        square_in_array(taps, radius, stride),
        gentle(taps),
        light(taps),
        radius <= px,
        px + radius < stride,
        radius <= cx,
        cx + radius < stride,
        radius <= cy,
        cy + radius < rows,
        map.len() == stride * rows,
        forall|i: int| 0 <= i < map.len() ==> abs_of(#[trigger] map[i] as int) <= 0x8000_0000,
        s == 1 || s == -1,
        n <= taps.len() <= i32::MAX,
    ensures
        ({
            let c = cy * stride + cx;
            let next = scattered(map, taps, py * stride + px, (s * 65536) as i64, taps.len());
            &&& abs_of(
                filter_sum(next, taps, c, n) - filter_sum(map, taps, c, n) - s * pair_floor(
                    taps,
                    radius,
                    py - cy,
                    px - cx,
                    n,
                ),
            ) <= n
            &&& abs_of(filter_sum(map, taps, c, n) as int) <= weight_mass(taps, n) * 0x1_0000 + n
            &&& abs_of(filter_sum(next, taps, c, n) as int) <= weight_mass(taps, n) * 0x1_0000 + n
        }),
    decreases n,
{
    let c = cy * stride + cx;
    let p = py * stride + px;
    let next = scattered(map, taps, p, (s * 65536) as i64, taps.len());
    if n > 0 {
        lemma_filter_drift(
            map,
            taps,
            radius,
            stride,
            rows,
            py,
            px,
            cy,
            cx,
            s,
            (n - 1) as nat,
        );
        let k = n - 1;
        let w = taps[k].weight as int;
        let j = c + taps[k].offset;
        lemma_tap_place(taps, radius, stride, rows, cy, cx, k);
        lemma_scattered_len(map, taps, p, (s * 65536) as i64, taps.len());
        lemma_mass_grows(taps, (n - 1) as nat, taps.len());
        lemma_mass_grows(taps, n, taps.len());
        lemma_tap_number(k, 2 * radius + 1);
        let dy = taps[k].dy as int;
        let dx = taps[k].dx as int;
        assert(taps[k].offset == dy * stride + dx);
        assert(cy * stride + cx + (dy * stride + dx) == (cy + dy) * stride + (cx + dx))
            by (nonlinear_arith);
        lemma_square_hits(taps, radius, stride, py, px, 1, cy + dy, cx + dx, taps.len());
        let v = tap_at(taps, radius, dy - (py - cy), dx - (px - cx));
        assert(hits(taps, p, 1, taps.len(), j) == v);
        lemma_hits_sign(taps, p, s, taps.len(), j);
        let e = map[j] as int;
        assert(abs_of(e) <= 0x8000_0000);
        lemma_scattered_entry(map, taps, p, s, taps.len(), j);
        assert(next[j] == e + s * v);
        lemma_tap_at(taps, radius, dy - (py - cy), dx - (px - cx));
        assert(abs_of(s * v) <= 0x4000_0000) by (nonlinear_arith)
            requires
                s == 1 || s == -1,
                abs_of(v) <= 0x4000_0000,
                abs_of(v) == (if v < 0 {
                    -v
                } else {
                    v
                }),
                abs_of(s * v) == (if s * v < 0 {
                    -(s * v)
                } else {
                    s * v
                }),
        ;
        lemma_floor(e, w);
        lemma_floor(e + s * v, w);
        lemma_floor_sum(e, v, w, s);
        lemma_pair_floor_step(taps, radius, py - cy, px - cx, n);
        let before = pair_floor(taps, radius, py - cy, px - cx, (n - 1) as nat);
        let term = pair_term(taps, radius, py - cy, px - cx, k);
        assert(term == fmul(w as i64, v as i64));
        assert(s * (before + term) == s * before + s * term) by (nonlinear_arith);
    } else {
        assert(s * 0 == 0);
    }
}

/// How far the second map at a pixel is from the filtered error map.
pub open spec fn drift(t: DbsModel, c: int) -> int {
    t.e2[c] - filter_sum(t.error, t.kernel.offsets, c, t.kernel.offsets.len())
}

/// The filtered error map at a pixel before and after a toggle.
#[verifier::rlimit(50)]
proof fn lemma_toggle_filtered(t: DbsModel, x: u32, y: u32, cx: u32, cy: u32)
    requires
        t.calibrated(),
        forall|i: int|
            0 <= i < t.error.len() ==> abs_of(#[trigger] t.error[i] as int) <= 0x8000_0000,
        t.has_pixel(x, y),
        t.has_pixel(cx, cy),
    ensures
        ({
            let c = t.index_of(cx, cy);
            let taps = t.kernel.offsets;
            abs_of(
                filter_sum(t.toggled(x, y).error, taps, c, taps.len()) - filter_sum(
                    t.error,
                    taps,
                    c,
                    taps.len(),
                ) - toggle_sign(t, x, y) * t.autocorr_weight(x - cx, y - cy),
            ) <= taps.len()
        }),
{
    let s = toggle_sign(t, x, y);
    let p = t.index_of(x, y);
    let pad = t.padding as int;
    let taps = t.kernel.offsets;
    lemma_pixel_index(t, x, y);
    lemma_pixel_index(t, cx, cy);
    lemma_reach(t);
    lemma_regular_sizes(t);
    lemma_margin(t.kernel_size);
    lemma_mass_light(taps);
    assert(t.kernel_size * t.kernel_size == taps.len());
    assert(t.halftone[p] == 0 || t.halftone[p] == 65536);
    assert(t.toggled(x, y).error == scattered(t.error, taps, p, (s * 65536) as i64, taps.len()));
    lemma_overlap_loss(t, y - cy, x - cx);
    lemma_filter_drift(
        t.error,
        taps,
        t.kernel_radius as int,
        t.padded_width as int,
        t.padded_height as int,
        y + pad,
        x + pad,
        cy + pad,
        cx + pad,
        s,
        taps.len(),
    );
}

/// A toggle moves the second map by at most one for each tap from the one that would be computed
/// afresh.
#[verifier::rlimit(50)]
pub proof fn law_toggle_drift(
    img: PlaneModel,
    size: i32,
    weights: Seq<u64>,
    t: DbsModel,
    x: u32,
    y: u32,
    cx: u32,
    cy: u32,
)
    requires
        reached(img, size, weights, t),
        t.has_pixel(x, y),
        t.has_pixel(cx, cy),
    ensures
        abs_of(drift(t.toggled(x, y), t.index_of(cx, cy)) - drift(t, t.index_of(cx, cy))) <= size
            * size,
{
    lemma_reached(img, size, weights, t);
    law_usual_kernel(img, size, weights);
    lemma_roomy_is_ample(t.e2);
    lemma_toggle_e2(t, x, y, cx, cy);
    law_autocorr_symmetric(t, cy - y, cx - x);
    assert(t.autocorr_weight(cx - x, cy - y) == t.autocorr_weight(x - cx, y - cy));
    lemma_toggle_filtered(t, x, y, cx, cy);
}

/// A context once pixels are toggled, one after the other.
pub open spec fn toggled_all(m: DbsModel, pixels: Seq<(u32, u32)>) -> DbsModel
    decreases pixels.len(),
{
    if pixels.len() == 0 {
        m
    } else {
        toggled_all(m, pixels.drop_last()).toggled(pixels.last().0, pixels.last().1)
    }
}

/// The drift where a search begins: none.
proof fn lemma_drift_start(img: PlaneModel, size: i32, weights: Seq<u64>, x: u32, y: u32)
    requires
        usual(img, size, weights),
        x < img.width,
        y < img.height,
    ensures
        drift(
            start_of(img, size, weights),
            start_of(img, size, weights).index_of(x, y),
        ) == 0,
{
    let m = start_of(img, size, weights);
    law_start_is_reached(img, size, weights);
    lemma_pixel_index(m, x, y);
}

/// After any toggles of pixels, the second map at a pixel differs from the one that would be
/// computed afresh by at most one for each toggle and each tap.
pub proof fn law_second_map_drift(
    img: PlaneModel,
    size: i32,
    weights: Seq<u64>,
    pixels: Seq<(u32, u32)>,
    x: u32,
    y: u32,
)
    requires
        usual(img, size, weights),
        forall|k: int|
            0 <= k < pixels.len() ==> (#[trigger] pixels[k]).0 < img.width && pixels[k].1
                < img.height,
        x < img.width,
        y < img.height,
    ensures
        ({
            let t = toggled_all(start_of(img, size, weights), pixels);
            let c = t.index_of(x, y);
            &&& reached(img, size, weights, t)
            &&& t.with_error().with_e2().e2[c] == filter_sum(
                t.error,
                t.kernel.offsets,
                c,
                t.kernel.offsets.len(),
            )
            &&& abs_of(t.e2[c] - t.with_error().with_e2().e2[c]) <= pixels.len() * (size * size)
        }),
    decreases pixels.len(),
{
    let t = toggled_all(start_of(img, size, weights), pixels);
    if pixels.len() == 0 {
        law_start_is_reached(img, size, weights);
        lemma_drift_start(img, size, weights, x, y);
        assert(0 * (size * size) == 0);
    } else {
        let before = toggled_all(start_of(img, size, weights), pixels.drop_last());
        let last = pixels.last();
        assert(pixels[pixels.len() - 1] == last);
        assert forall|k: int| 0 <= k < pixels.drop_last().len() implies (
        #[trigger] pixels.drop_last()[k]).0 < img.width && pixels.drop_last()[k].1 < img.height by {
            assert(pixels.drop_last()[k] == pixels[k]);
        }
        law_second_map_drift(img, size, weights, pixels.drop_last(), x, y);
        law_toggle_is_reached(img, size, weights, before, last.0, last.1);
        law_toggle_drift(img, size, weights, before, last.0, last.1, x, y);
        assert(before.index_of(x, y) == t.index_of(x, y));
        let n = pixels.len() as int;
        let k = (size * size) as int;
        assert(n * k == (n - 1) * k + k) by (nonlinear_arith);
    }
    law_usual_error_is_fresh(img, size, weights, t);
    lemma_pixel_index(t, x, y);
}

} // verus!
