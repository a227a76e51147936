//! What operations do to the squared error: the change that is expected of one is the true change,
//! but for what is lost when products are rounded.
use crate::context::{lemma_margin, DbsModel};
use crate::filter::scattered;
use crate::fixed::{abs_of, clamp64, fmul};
use crate::kernel::{autocorr_at, tap_index, KernelOffset};
use crate::kernel_laws::{
    lemma_size_bound, lemma_tap_index, lemma_tap_number, square_in_array, square_taps,
};
use crate::map_laws::{
    ample, hits, law_fixed_mul_one, lemma_hits_sign, lemma_hits_size, lemma_light_weight,
    lemma_pixel_index, lemma_scattered_entry, lemma_scattered_len, light, roomy, toggle_sign,
};
use crate::overlap_laws::{
    gentle, law_autocorr_rounding, lemma_autocorr_is_pair_floor, lemma_overlap_is_pair_sum,
    lemma_pair_floor_far, lemma_pair_sum_far, overlap, pair_floor, pair_sum,
};
use crate::phase_laws::bounded;
use crate::swap_laws::{
    lemma_position, lemma_reach, lemma_regular_sizes, lemma_spread_entries,
    lemma_spread_entry_is_two_scatters,
    lemma_square_hits,
};
use vstd::prelude::*;

verus! {

/// The squares of the first `n` entries, together.
pub open spec fn squares(map: Seq<i64>, n: nat) -> int
    decreases n,
{
    if n == 0 {
        0
    } else {
        squares(map, (n - 1) as nat) + map[n - 1] * map[n - 1]
    }
}

/// The squared error that is seen: the squares of the error map, together. The map is the
/// difference of the halftone and the picture as the kernel blurs it.
pub open spec fn squared_error(m: DbsModel) -> int {
    squares(m.error, m.error.len())
}

/// The squares once an entry has changed.
proof fn lemma_squares_update(map: Seq<i64>, i: int, v: i64, n: nat)
    requires
        0 <= i < map.len(),
        n <= map.len(),
    ensures
        squares(map.update(i, v), n) == squares(map, n) + (if i < n {
            v * v - map[i] * map[i]
        } else {
            0
        }),
    decreases n,
{
    if n > 0 {
        lemma_squares_update(map, i, v, (n - 1) as nat);
    }
}

/// The entries of a map under the first `n` taps around a point, each times the weight of its tap,
/// together.
pub open spec fn under(map: Seq<i64>, taps: Seq<KernelOffset>, center: int, n: nat) -> int
    decreases n,
{
    if n == 0 {
        0
    } else {
        under(map, taps, center, (n - 1) as nat) + taps[n - 1].weight * map[center
            + taps[n - 1].offset]
    }
}

/// The squares of the weights of the first `n` taps, together.
pub open spec fn weight_squares(taps: Seq<KernelOffset>, n: nat) -> int
    decreases n,
{
    if n == 0 {
        0
    } else {
        weight_squares(taps, (n - 1) as nat) + taps[n - 1].weight * taps[n - 1].weight
    }
}

/// Where a tap around a point lies in the arrays: inside, and no other tap lies there.
pub proof fn lemma_tap_place(
    taps: Seq<KernelOffset>,
    radius: int,
    stride: int,
    rows: int,
    cy: int,
    cx: int,
    k: int,
)
    requires
        square_in_array(taps, radius, stride),
        radius <= cx,
        cx + radius < stride,
        radius <= cy,
        cy + radius < rows,
        0 <= k < taps.len(),
    ensures
        0 <= cy * stride + cx + taps[k].offset < stride * rows,
        forall|sign: int, n: nat|
            n <= k ==> #[trigger] hits(
                taps,
                cy * stride + cx,
                sign,
                n,
                cy * stride + cx + taps[k].offset,
            ) == 0,
{
    let w = 2 * radius + 1;
    lemma_tap_number(k, w);
    let dy = taps[k].dy as int;
    let dx = taps[k].dx as int;
    assert(dy == k / w - radius && dx == k % w - radius);
    assert(taps[k].offset == dy * stride + dx);
    assert(cy * stride + cx + (dy * stride + dx) == (cy + dy) * stride + (cx + dx))
        by (nonlinear_arith);
    let y = cy + dy;
    let x = cx + dx;
    assert(0 <= y * stride + x < stride * rows) by (nonlinear_arith)
        requires
            0 <= y < rows,
            0 <= x < stride,
    ;
    assert forall|sign: int, n: nat|
        n <= k implies #[trigger] hits(
        taps,
        cy * stride + cx,
        sign,
        n,
        cy * stride + cx + taps[k].offset,
    ) == 0 by {
        lemma_square_hits(taps, radius, stride, cy, cx, sign, y, x, n);
    }
}

/// The squares of a map once a pixel has changed by `sign` times one.
proof fn lemma_scattered_squares(
    map: Seq<i64>,
    taps: Seq<KernelOffset>,
    radius: int,
    stride: int,
    rows: int,
    cy: int,
    cx: int,
    sign: int,
    n: nat,
)
    requires
        square_in_array(taps, radius, stride),
        light(taps),
        radius <= cx,
        cx + radius < stride,
        radius <= cy,
        cy + radius < rows,
        map.len() == stride * rows,
        forall|i: int|
            0 <= i < map.len() ==> abs_of(#[trigger] map[i] as int) <= 0x6000_0000_0000_0000,
        sign == 1 || sign == -1,
        n <= taps.len(),
    ensures
        squares(
            scattered(map, taps, cy * stride + cx, (sign * 65536) as i64, n),
            map.len(),
        ) == squares(map, map.len()) + 2 * sign * under(map, taps, cy * stride + cx, n)
            + weight_squares(taps, n),
    decreases n,
{
    let c = cy * stride + cx;
    let change = (sign * 65536) as i64;
    if n > 0 {
        let k = n - 1;
        lemma_scattered_squares(
            map,
            taps,
            radius,
            stride,
            rows,
            cy,
            cx,
            sign,
            (n - 1) as nat,
        );
        lemma_tap_place(taps, radius, stride, rows, cy, cx, k);
        let j = c + taps[k].offset;
        let w = taps[k].weight;
        let before = scattered(map, taps, c, change, (n - 1) as nat);
        lemma_scattered_len(map, taps, c, change, (n - 1) as nat);
        lemma_scattered_entry(map, taps, c, sign, (n - 1) as nat, j);
        assert(hits(taps, c, sign, (n - 1) as nat, j) == 0);
        lemma_light_weight(taps, k);
        law_fixed_mul_one(w);
        let step = sign * w;
        assert(step == w || step == -w);
        assert(fmul(change, w) == step);
        let e = map[j] as int;
        let v = (e + step) as i64;
        lemma_squares_update(before, j, v, map.len());
        assert((e + step) * (e + step) - e * e == 2 * sign * (w * e) + w * w) by (nonlinear_arith)
            requires
                step == sign * w,
                sign == 1 || sign == -1,
        ;
        let p = under(map, taps, c, (n - 1) as nat);
        assert(2 * sign * (p + w * e) == 2 * sign * p + 2 * sign * (w * e)) by (nonlinear_arith);
    } else {
        assert(2 * sign * 0 == 0);
    }
}

/// By how much the second map differs, at a pixel, from the error map under the kernel: what was
/// lost when its products were rounded, times one.
pub open spec fn residue(m: DbsModel, c: int) -> int {
    65536 * m.e2[c] - under(m.error, m.kernel.offsets, c, m.kernel.offsets.len())
}

/// What is lost when the energy of the kernel is rounded.
pub open spec fn energy_loss(m: DbsModel) -> int {
    weight_squares(m.kernel.offsets, m.kernel.offsets.len()) - 65536 * m.kernel.c_pp
}

/// A toggle changes the squared error by twice the error under the kernel, with the sign of the
/// change, plus the squares of the weights.
pub proof fn law_toggle_true_change(m: DbsModel, x: u32, y: u32)
    requires
        m.wf(),
        m.regular(),
        light(m.kernel.offsets),
        roomy(m.error),
        m.has_pixel(x, y),
    ensures
        squared_error(m.toggled(x, y)) == squared_error(m) + 2 * toggle_sign(m, x, y) * under(
            m.error,
            m.kernel.offsets,
            m.index_of(x, y),
            m.kernel.offsets.len(),
        ) + weight_squares(m.kernel.offsets, m.kernel.offsets.len()),
{
    let c = m.index_of(x, y);
    let s = toggle_sign(m, x, y);
    let taps = m.kernel.offsets;
    lemma_pixel_index(m, x, y);
    lemma_reach(m);
    lemma_margin(m.kernel_size);
    lemma_scattered_len(m.error, taps, c, (s * 65536) as i64, taps.len());
    assert(m.halftone[c] == 0 || m.halftone[c] == 65536);
    assert forall|i: int| 0 <= i < m.error.len() implies abs_of(#[trigger] m.error[i] as int)
        <= 0x6000_0000_0000_0000 by {
        assert(-0x4000_0000_0000_0000 <= m.error[i] && m.error[i] <= 0x4000_0000_0000_0000);
    }
    lemma_scattered_squares(
        m.error,
        taps,
        m.kernel_radius as int,
        m.padded_width as int,
        m.padded_height as int,
        y + m.padding,
        x + m.padding,
        s,
        taps.len(),
    );
}

/// No entry of the second map at a pixel is so large that twice of it, times one, saturates.
pub open spec fn calm(map: Seq<i64>) -> bool {
    forall|i: int|
        0 <= i < map.len() ==> -0x3000_0000_0000 <= #[trigger] map[i] && map[i] <= 0x3000_0000_0000
}

impl DbsModel {
    /// The energy and the autocorrelation are those of the kernel, whose mass is small.
    pub open spec fn calibrated(self) -> bool {
        &&& self.wf()
        &&& self.regular()
        &&& gentle(self.kernel.offsets)
        &&& self.kernel.c_pp == autocorr_at(
            self.kernel.flat,
            self.kernel_size,
            self.kernel_radius,
            0,
            0,
        )
        &&& forall|l: int|
            0 <= l < self.kernel.autocorr_offsets.len() ==> (#[trigger] self.kernel.autocorr_offsets[l]).weight
                == autocorr_at(
                self.kernel.flat,
                self.kernel_size,
                self.kernel_radius,
                self.kernel.autocorr_offsets[l].dy as int,
                self.kernel.autocorr_offsets[l].dx as int,
            )
    }
}

/// The squares of the weights are the overlap of the kernel with itself.
proof fn lemma_weight_squares(taps: Seq<KernelOffset>, radius: int, n: nat)
    requires
        square_taps(taps, radius),
        n <= taps.len(),
    ensures
        weight_squares(taps, n) == pair_sum(taps, radius, 0, 0, n),
    decreases n,
{
    if n > 0 {
        lemma_weight_squares(taps, radius, (n - 1) as nat);
        let w = 2 * radius + 1;
        lemma_tap_number(n - 1, w);
    }
}

/// What is lost of the energy is less than one for each tap; and the energy is small.
pub proof fn lemma_energy_loss(m: DbsModel)
    requires
        m.calibrated(),
    ensures
        0 <= energy_loss(m) <= 65535 * m.kernel.offsets.len(),
        0 <= m.kernel.offsets.len() <= i32::MAX,
        abs_of(m.kernel.c_pp as int) <= 0x2000_0000_0000,
{
    let taps = m.kernel.offsets;
    let r = m.kernel_radius as int;
    lemma_regular_sizes(m);
    assert(m.kernel_size * m.kernel_size == taps.len());
    lemma_autocorr_is_pair_floor(taps, m.kernel_size, m.kernel_radius, 0, 0);
    law_autocorr_rounding(taps, r, 0, 0, taps.len());
    lemma_weight_squares(taps, r, taps.len());
}

/// Twice a change by one, times a small number.
pub proof fn lemma_double(s: int, e: i64)
    requires
        s == 1 || s == -1,
        -0x3000_0000_0000 <= e <= 0x3000_0000_0000,
    ensures
        fmul(clamp64(2 * (s * 65536)), e) == 2 * s * e,
{
    if s == 1 {
        assert(131072 * e == (2 * e) * 65536);
        assert(((2 * e) * 65536) / 65536 == 2 * e);
    } else {
        assert(-131072 * e == (-2 * e) * 65536);
        assert(((-2 * e) * 65536) / 65536 == -2 * e);
    }
}

/// The expected change when a pixel is toggled: the energy of the kernel, and twice the second map
/// with the sign of the change.
pub proof fn lemma_toggle_delta(m: DbsModel, x: u32, y: u32)
    requires
        m.calibrated(),
        calm(m.e2),
        m.has_pixel(x, y),
    ensures
        m.toggle_delta(x, y) == 2 * toggle_sign(m, x, y) * m.e2[m.index_of(x, y)] + m.kernel.c_pp,
{
    let c = m.index_of(x, y);
    lemma_pixel_index(m, x, y);
    lemma_energy_loss(m);
    assert(-0x3000_0000_0000 <= m.e2[c] && m.e2[c] <= 0x3000_0000_0000);
    lemma_double(toggle_sign(m, x, y), m.e2[c]);
}

/// The expected change of the squared error when a pixel is toggled is the true change, times one,
/// but for what was lost to rounding.
#[verifier::rlimit(50)]
pub proof fn law_toggle_expectation(m: DbsModel, x: u32, y: u32)
    requires
        m.calibrated(),
        roomy(m.error),
        calm(m.e2),
        m.has_pixel(x, y),
    ensures
        65536 * m.toggle_delta(x, y) == squared_error(m.toggled(x, y)) - squared_error(m) + 2
            * toggle_sign(m, x, y) * residue(m, m.index_of(x, y)) - energy_loss(m),
{
    let c = m.index_of(x, y);
    let s = toggle_sign(m, x, y);
    let taps = m.kernel.offsets;
    lemma_pixel_index(m, x, y);
    law_toggle_true_change(m, x, y);
    lemma_toggle_delta(m, x, y);
    let p = under(m.error, taps, c, taps.len());
    let e = m.e2[c] as int;
    assert(m.toggle_delta(x, y) == 2 * s * e + m.kernel.c_pp);
    assert(65536 * (2 * s * e) == 2 * s * (65536 * e - p) + 2 * s * p) by (nonlinear_arith);
}

/// A toggle that is expected to lower the squared error by more than what was lost to rounding does
/// lower it.
pub proof fn law_toggle_lowers_error(m: DbsModel, x: u32, y: u32)
    requires
        m.calibrated(),
        roomy(m.error),
        calm(m.e2),
        m.has_pixel(x, y),
        65536 * m.toggle_delta(x, y) + 65535 * m.kernel.offsets.len() + 2 * abs_of(
            residue(m, m.index_of(x, y)),
        ) < 0,
    ensures
        squared_error(m.toggled(x, y)) < squared_error(m),
{
    law_toggle_expectation(m, x, y);
    lemma_energy_loss(m);
    let s = toggle_sign(m, x, y);
    let r = residue(m, m.index_of(x, y));
    assert(2 * s * r == 2 * r || 2 * s * r == -2 * r) by (nonlinear_arith)
        requires
            s == 1 || s == -1,
    ;
}

/// The error under the kernel once a pixel elsewhere has changed.
pub proof fn lemma_under_scattered(
    map: Seq<i64>,
    taps: Seq<KernelOffset>,
    radius: int,
    stride: int,
    rows: int,
    a: int,
    by: int,
    bx: int,
    sign: int,
    n: nat,
)
    requires
        square_in_array(taps, radius, stride),
        light(taps),
        radius <= bx,
        bx + radius < stride,
        radius <= by,
        by + radius < rows,
        map.len() == stride * rows,
        ample(map),
        sign == 1 || sign == -1,
        n <= taps.len(),
    ensures
        under(
            scattered(map, taps, a, (sign * 65536) as i64, taps.len()),
            taps,
            by * stride + bx,
            n,
        ) == under(map, taps, by * stride + bx, n) + sign * overlap(
            taps,
            a,
            by * stride + bx,
            n,
            taps.len(),
        ),
    decreases n,
{
    let b = by * stride + bx;
    if n > 0 {
        let k = n - 1;
        let w = taps[k].weight as int;
        let j = b + taps[k].offset;
        lemma_under_scattered(map, taps, radius, stride, rows, a, by, bx, sign, (n - 1) as nat);
        lemma_tap_place(taps, radius, stride, rows, by, bx, k);
        assert(-0x6000_0000_0000_0000 <= map[j] && map[j] <= 0x6000_0000_0000_0000);
        lemma_scattered_entry(map, taps, a, sign, taps.len(), j);
        lemma_hits_sign(taps, a, sign, taps.len(), j);
        let h = hits(taps, a, 1, taps.len(), j);
        let rest = overlap(taps, a, b, (n - 1) as nat, taps.len());
        let e = map[j] as int;
        assert(w * (e + sign * h) == w * e + sign * (w * h)) by (nonlinear_arith);
        assert(sign * (rest + w * h) == sign * rest + sign * (w * h)) by (nonlinear_arith);
    } else {
        assert(sign * 0 == 0);
    }
}

/// What is lost when the autocorrelation at a displacement is rounded.
pub open spec fn overlap_loss(m: DbsModel, dy: int, dx: int) -> int {
    pair_sum(m.kernel.offsets, m.kernel_radius as int, dy, dx, m.kernel.offsets.len()) - 65536
        * m.autocorr_weight(dx, dy)
}

/// What is lost of the autocorrelation is less than one for each tap; and it is small. Where it
/// reaches, it is the weight of its tap.
pub proof fn lemma_overlap_loss(m: DbsModel, dy: int, dx: int)
    requires
        m.calibrated(),
    ensures
        0 <= overlap_loss(m, dy, dx) <= 65535 * m.kernel.offsets.len(),
        abs_of(m.autocorr_weight(dx, dy) as int) <= 0x2000_0000_0000,
        m.autocorr_weight(dx, dy) == pair_floor(
            m.kernel.offsets,
            m.kernel_radius as int,
            dy,
            dx,
            m.kernel.offsets.len(),
        ),
        abs_of(dy) <= m.autocorr_radius() && abs_of(dx) <= m.autocorr_radius() ==> {
            let a = 2 * m.autocorr_radius() + 1;
            let l = (dy + m.autocorr_radius()) * a + (dx + m.autocorr_radius());
            &&& 0 <= l < m.kernel.autocorr_offsets.len()
            &&& m.autocorr_weight(dx, dy) == m.kernel.autocorr_offsets[l].weight
            &&& m.kernel.autocorr_offsets[l].dy == dy
            &&& m.kernel.autocorr_offsets[l].dx == dx
        },
{
    let taps = m.kernel.offsets;
    let wide = m.kernel.autocorr_offsets;
    let ar = m.autocorr_radius();
    let r = m.kernel_radius as int;
    lemma_margin(m.kernel_size);
    lemma_regular_sizes(m);
    lemma_size_bound(m.kernel.autocorr_size as int);
    assert(m.kernel.autocorr_size == 2 * ar + 1);
    assert(ar == 2 * r);
    assert(m.kernel_size * m.kernel_size == taps.len());
    law_autocorr_rounding(taps, r, dy, dx, taps.len());
    if abs_of(dy) <= ar && abs_of(dx) <= ar {
        lemma_tap_index(dy, dx, m.kernel.autocorr_size, ar);
        let l = tap_index(dy, dx, m.kernel.autocorr_size, ar);
        assert(l == (dy + ar) * (2 * ar + 1) + (dx + ar));
        assert(m.kernel.autocorr_size * m.kernel.autocorr_size == wide.len());
        assert(m.autocorr_weight(dx, dy) == wide[l].weight);
        assert(wide[l].dy == dy && wide[l].dx == dx);
        lemma_autocorr_is_pair_floor(taps, m.kernel_size, m.kernel_radius, dy, dx);
    } else {
        lemma_pair_sum_far(taps, r, dy, dx, taps.len());
        lemma_pair_floor_far(taps, r, dy, dx, taps.len());
    }
}

/// A swap scatters through the error map as two toggles do.
#[verifier::rlimit(50)]
proof fn lemma_swapped_error(m: DbsModel, x1: u32, y1: u32, x2: u32, y2: u32)
    requires
        bounded(m),
        light(m.kernel.offsets),
        roomy(m.error),
        m.has_pixel(x1, y1),
        m.has_pixel(x2, y2),
        m.swappable(x1, y1, x2, y2),
    ensures
        ({
            let taps = m.kernel.offsets;
            let s = toggle_sign(m, x1, y1);
            m.swapped(x1, y1, x2, y2).error == scattered(
                scattered(m.error, taps, m.index_of(x1, y1), (s * 65536) as i64, taps.len()),
                taps,
                m.index_of(x2, y2),
                (-s * 65536) as i64,
                taps.len(),
            )
        }),
{
    let c1 = m.index_of(x1, y1);
    let c2 = m.index_of(x2, y2);
    let s = toggle_sign(m, x1, y1);
    let taps = m.kernel.offsets;
    let n = taps.len();
    let stride = m.padded_width as int;
    let rows = m.padded_height as int;
    let p1 = m.padded_position(x1, y1);
    let p2 = m.padded_position(x2, y2);
    let change = (s * 65536) as i64;
    let back = (-s * 65536) as i64;
    lemma_pixel_index(m, x1, y1);
    lemma_pixel_index(m, x2, y2);
    lemma_position(m, x1, y1);
    lemma_position(m, x2, y2);
    lemma_regular_sizes(m);
    lemma_margin(m.kernel_size);
    assert(m.halftone[c1] == 0 || m.halftone[c1] == 65536);
    assert(m.halftone[c2] == 0 || m.halftone[c2] == 65536);
    assert(m.swap_changes(x1, y1, x2, y2) == (change, back));
    assert(p1.1 * stride + p1.0 == c1);
    assert(p2.1 * stride + p2.0 == c2);
    let first = scattered(m.error, taps, c1, change, n);
    let second = scattered(first, taps, c2, back, n);
    let w = m.swapped(x1, y1, x2, y2);
    lemma_scattered_len(m.error, taps, c1, change, n);
    lemma_scattered_len(first, taps, c2, back, n);
    lemma_spread_entries(
        m.error,
        m.kernel.flat,
        m.kernel_size,
        m.kernel_radius,
        stride,
        rows,
        p1,
        p2,
        (change, back),
    );
    assert forall|i: int| 0 <= i < m.error.len() implies w.error[i] == second[i] by {
        assert(-0x4000_0000_0000_0000 <= m.error[i] && m.error[i] <= 0x4000_0000_0000_0000);
        lemma_spread_entry_is_two_scatters(
            m.error,
            m.kernel.flat,
            taps,
            m.kernel_size,
            m.kernel_radius,
            stride,
            rows,
            p1,
            p2,
            s,
            i,
        );
    }
    assert(w.error =~= second);
}

/// The squares of a map once a pixel has changed by one and another by as much the other way.
#[verifier::rlimit(50)]
proof fn lemma_two_scatters_squares(
    map: Seq<i64>,
    taps: Seq<KernelOffset>,
    radius: int,
    stride: int,
    rows: int,
    ay: int,
    ax: int,
    by: int,
    bx: int,
    s: int,
)
    requires
        square_in_array(taps, radius, stride),
        light(taps),
        roomy(map),
        radius <= ax,
        ax + radius < stride,
        radius <= ay,
        ay + radius < rows,
        radius <= bx,
        bx + radius < stride,
        radius <= by,
        by + radius < rows,
        map.len() == stride * rows,
        s == 1 || s == -1,
    ensures
        ({
            let n = taps.len();
            let a = ay * stride + ax;
            let b = by * stride + bx;
            let first = scattered(map, taps, a, (s * 65536) as i64, n);
            let second = scattered(first, taps, b, (-s * 65536) as i64, n);
            squares(second, map.len()) == squares(map, map.len()) + 2 * s * (under(map, taps, a, n)
                - under(map, taps, b, n)) + 2 * weight_squares(taps, n) - 2 * pair_sum(
                taps,
                radius,
                ay - by,
                ax - bx,
                n,
            )
        }),
{
    let n = taps.len();
    let a = ay * stride + ax;
    let b = by * stride + bx;
    let first = scattered(map, taps, a, (s * 65536) as i64, n);
    lemma_scattered_len(map, taps, a, (s * 65536) as i64, n);
    assert forall|i: int| 0 <= i < map.len() implies abs_of(#[trigger] map[i] as int)
        <= 0x6000_0000_0000_0000 by {
        assert(-0x4000_0000_0000_0000 <= map[i] && map[i] <= 0x4000_0000_0000_0000);
    }
    assert(ample(map)) by {
        assert forall|i: int| 0 <= i < map.len() implies -0x6000_0000_0000_0000
            <= #[trigger] map[i] && map[i] <= 0x6000_0000_0000_0000 by {
            assert(-0x4000_0000_0000_0000 <= map[i] && map[i] <= 0x4000_0000_0000_0000);
        }
    }
    assert forall|i: int| 0 <= i < first.len() implies abs_of(#[trigger] first[i] as int)
        <= 0x6000_0000_0000_0000 by {
        assert(-0x4000_0000_0000_0000 <= map[i] && map[i] <= 0x4000_0000_0000_0000);
        lemma_scattered_entry(map, taps, a, s, n, i);
        lemma_hits_size(taps, a, s, n, i);
    }
    lemma_scattered_squares(map, taps, radius, stride, rows, ay, ax, s, n);
    lemma_scattered_squares(first, taps, radius, stride, rows, by, bx, -s, n);
    lemma_under_scattered(map, taps, radius, stride, rows, a, by, bx, s, n);
    lemma_overlap_is_pair_sum(taps, radius, stride, ay, ax, by, bx, n);
    let u1 = under(map, taps, a, n);
    let u2 = under(map, taps, b, n);
    let shared = overlap(taps, a, b, n, n);
    assert(2 * s * u1 + 2 * (-s) * (u2 + s * shared) == 2 * s * (u1 - u2) - 2 * shared)
        by (nonlinear_arith)
        requires
            s == 1 || s == -1,
    ;
}

/// A swap changes the squared error by what two toggles change it by, less twice the overlap of the
/// kernel around the one pixel with that around the other.
#[verifier::rlimit(50)]
pub proof fn law_swap_true_change(m: DbsModel, x1: u32, y1: u32, x2: u32, y2: u32)
    requires
        bounded(m),
        light(m.kernel.offsets),
        roomy(m.error),
        m.has_pixel(x1, y1),
        m.has_pixel(x2, y2),
        m.swappable(x1, y1, x2, y2),
    ensures
        ({
            let taps = m.kernel.offsets;
            let p1 = under(m.error, taps, m.index_of(x1, y1), taps.len());
            let p2 = under(m.error, taps, m.index_of(x2, y2), taps.len());
            let shared = pair_sum(taps, m.kernel_radius as int, y1 - y2, x1 - x2, taps.len());
            squared_error(m.swapped(x1, y1, x2, y2)) == squared_error(m) + 2 * toggle_sign(
                m,
                x1,
                y1,
            ) * (p1 - p2) + 2 * weight_squares(taps, taps.len()) - 2 * shared
        }),
{
    let s = toggle_sign(m, x1, y1);
    let taps = m.kernel.offsets;
    let n = taps.len();
    lemma_pixel_index(m, x1, y1);
    lemma_pixel_index(m, x2, y2);
    lemma_position(m, x1, y1);
    lemma_position(m, x2, y2);
    lemma_swapped_error(m, x1, y1, x2, y2);
    let first = scattered(m.error, taps, m.index_of(x1, y1), (s * 65536) as i64, n);
    lemma_scattered_len(m.error, taps, m.index_of(x1, y1), (s * 65536) as i64, n);
    lemma_scattered_len(first, taps, m.index_of(x2, y2), (-s * 65536) as i64, n);
    lemma_two_scatters_squares(
        m.error,
        taps,
        m.kernel_radius as int,
        m.padded_width as int,
        m.padded_height as int,
        y1 + m.padding,
        x1 + m.padding,
        y2 + m.padding,
        x2 + m.padding,
        s,
    );
}

/// The expected change when two pixels are swapped: twice the energy of the kernel, twice the
/// difference of the second map with the sign of the change, and less twice the autocorrelation.
#[verifier::rlimit(50)]
pub proof fn lemma_swap_delta(m: DbsModel, x1: u32, y1: u32, x2: u32, y2: u32)
    requires
        m.calibrated(),
        m.addressable(),
        calm(m.e2),
        m.has_pixel(x1, y1),
        m.has_pixel(x2, y2),
        m.swappable(x1, y1, x2, y2),
    ensures
        m.swap_delta(x1, y1, x2, y2) == 2 * toggle_sign(m, x1, y1) * m.e2[m.index_of(x1, y1)] + 2
            * (-toggle_sign(m, x1, y1)) * m.e2[m.index_of(x2, y2)] + 2 * m.kernel.c_pp - 2
            * m.autocorr_weight(x1 - x2, y1 - y2),
{
    let c1 = m.index_of(x1, y1);
    let c2 = m.index_of(x2, y2);
    let s = toggle_sign(m, x1, y1);
    lemma_pixel_index(m, x1, y1);
    lemma_pixel_index(m, x2, y2);
    lemma_energy_loss(m);
    lemma_overlap_loss(m, y1 - y2, x1 - x2);
    assert(m.halftone[c1] == 0 || m.halftone[c1] == 65536);
    assert(m.halftone[c2] == 0 || m.halftone[c2] == 65536);
    assert(m.swap_changes(x1, y1, x2, y2) == ((s * 65536) as i64, (-s * 65536) as i64));
    assert(-0x3000_0000_0000 <= m.e2[c1] && m.e2[c1] <= 0x3000_0000_0000);
    assert(-0x3000_0000_0000 <= m.e2[c2] && m.e2[c2] <= 0x3000_0000_0000);
    lemma_double(s, m.e2[c1]);
    lemma_double(-s, m.e2[c2]);
    let shared = m.autocorr_weight(x1 - x2, y1 - y2);
    lemma_double(-1, shared);
    assert(fmul((s * 65536) as i64, (-s * 65536) as i64) == -65536) by {
        if s == 1 {
            law_fixed_mul_one((-65536) as i64);
        } else {
            law_fixed_mul_one(65536);
        }
    }
    let e1 = m.e2[c1] as int;
    let e2 = m.e2[c2] as int;
    assert(m.swap_delta(x1, y1, x2, y2) == 2 * s * e1 + 2 * (-s) * e2 + 2 * m.kernel.c_pp - 2
        * shared);
}

/// The expected change of the squared error when two pixels are swapped is the true change, times
/// one, but for what was lost to rounding.
#[verifier::rlimit(50)]
pub proof fn law_swap_expectation(m: DbsModel, x1: u32, y1: u32, x2: u32, y2: u32)
    requires
        m.calibrated(),
        m.addressable(),
        roomy(m.error),
        calm(m.e2),
        m.has_pixel(x1, y1),
        m.has_pixel(x2, y2),
        m.swappable(x1, y1, x2, y2),
    ensures
        65536 * m.swap_delta(x1, y1, x2, y2) == squared_error(m.swapped(x1, y1, x2, y2))
            - squared_error(m) + 2 * toggle_sign(m, x1, y1) * (residue(m, m.index_of(x1, y1))
            - residue(m, m.index_of(x2, y2))) - 2 * energy_loss(m) + 2 * overlap_loss(
            m,
            y1 - y2,
            x1 - x2,
        ),
{
    let c1 = m.index_of(x1, y1);
    let c2 = m.index_of(x2, y2);
    let s = toggle_sign(m, x1, y1);
    let taps = m.kernel.offsets;
    lemma_pixel_index(m, x1, y1);
    lemma_pixel_index(m, x2, y2);
    lemma_mass_light(taps);
    law_swap_true_change(m, x1, y1, x2, y2);
    lemma_swap_delta(m, x1, y1, x2, y2);
    let e1 = m.e2[c1] as int;
    let e2 = m.e2[c2] as int;
    let u1 = under(m.error, taps, c1, taps.len());
    let u2 = under(m.error, taps, c2, taps.len());
    assert(65536 * (2 * s * e1 + 2 * (-s) * e2) == 2 * s * ((65536 * e1 - u1) - (65536 * e2 - u2))
        + 2 * s * (u1 - u2)) by (nonlinear_arith);
}

/// A gentle kernel is light.
pub proof fn lemma_mass_light(taps: Seq<KernelOffset>)
    requires
        gentle(taps),
    ensures
        light(taps),
{
}

/// A swap that is expected to lower the squared error by more than what was lost to rounding does
/// lower it.
#[verifier::rlimit(50)]
pub proof fn law_swap_lowers_error(m: DbsModel, x1: u32, y1: u32, x2: u32, y2: u32)
    requires
        m.calibrated(),
        m.addressable(),
        roomy(m.error),
        calm(m.e2),
        m.has_pixel(x1, y1),
        m.has_pixel(x2, y2),
        m.swappable(x1, y1, x2, y2),
        65536 * m.swap_delta(x1, y1, x2, y2) + 131070 * m.kernel.offsets.len() + 2 * abs_of(
            residue(m, m.index_of(x1, y1)),
        ) + 2 * abs_of(residue(m, m.index_of(x2, y2))) < 0,
    ensures
        squared_error(m.swapped(x1, y1, x2, y2)) < squared_error(m),
{
    law_swap_expectation(m, x1, y1, x2, y2);
    lemma_energy_loss(m);
    lemma_overlap_loss(m, y1 - y2, x1 - x2);
    lemma_swap_bound(
        m.swap_delta(x1, y1, x2, y2) as int,
        squared_error(m.swapped(x1, y1, x2, y2)) - squared_error(m),
        toggle_sign(m, x1, y1),
        residue(m, m.index_of(x1, y1)),
        residue(m, m.index_of(x2, y2)),
        energy_loss(m),
        overlap_loss(m, y1 - y2, x1 - x2),
        m.kernel.offsets.len() as int,
    );
}

/// The true change of a swap is negative where the expected one is by enough.
proof fn lemma_swap_bound(
    expected: int,
    change: int,
    s: int,
    r1: int,
    r2: int,
    loss: int,
    shared: int,
    n: int,
)
    requires
        s == 1 || s == -1,
        65536 * expected == change + 2 * s * (r1 - r2) - 2 * loss + 2 * shared,
        loss <= 65535 * n,
        shared >= 0,
        65536 * expected + 131070 * n + 2 * abs_of(r1) + 2 * abs_of(r2) < 0,
    ensures
        change < 0,
{
    if s == 1 {
        assert(change == 65536 * expected - 2 * (r1 - r2) + 2 * loss - 2 * shared);
    } else {
        assert(2 * s * (r1 - r2) == -2 * (r1 - r2)) by (nonlinear_arith)
            requires
                s == -1,
        ;
        assert(change == 65536 * expected + 2 * (r1 - r2) + 2 * loss - 2 * shared);
    }
}

} // verus!
