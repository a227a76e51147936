//! What toggles and swaps do to the maps, in exact numbers: where nothing saturates, a map is
//! what it was plus what each tap adds.
use crate::context::DbsModel;
use crate::filter::{filter_sum, scattered};
use crate::fixed::{abs_of, fmul};
use crate::fold::{lemma_grid_index, lemma_grid_index_bound};
use crate::kernel::KernelOffset;
use vstd::prelude::*;

verus! {

/// A number times one, or times minus one, is that number with its sign.
pub proof fn law_fixed_mul_one(w: i64)
    requires
        -0x4000_0000_0000 <= w <= 0x4000_0000_0000,
    ensures
        fmul(65536, w) == w,
        fmul(w, 65536) == w,
        fmul(-65536i64 as i64, w) == -w,
        fmul(w, -65536i64 as i64) == -w,
        fmul(0, w) == 0,
{
    assert(65536 * w == w * 65536);
    assert((w * 65536) / 65536 == w);
    assert((w * -65536) / 65536 == -w);
}

/// The product grows by the weight when the other factor grows by one.
proof fn lemma_fixed_mul_step(d: i64, s: int, w: i64)
    requires
        -65536 <= d <= 65536,
        s == 1 || s == -1,
        -65536 <= d + s * 65536 <= 65536,
        -0x4000_0000_0000 <= w <= 0x4000_0000_0000,
    ensures
        fmul((d + s * 65536) as i64, w) == fmul(d, w) + s * w,
{
    assert(-0x4000_0000_0000_0000 <= d * w <= 0x4000_0000_0000_0000) by (nonlinear_arith)
        requires
            -65536 <= d <= 65536,
            -0x4000_0000_0000 <= w <= 0x4000_0000_0000,
    ;
    let e = (d + s * 65536) as int;
    assert(-0x4000_0000_0000_0000 <= e * w <= 0x4000_0000_0000_0000) by (nonlinear_arith)
        requires
            -65536 <= e <= 65536,
            -0x4000_0000_0000 <= w <= 0x4000_0000_0000,
    ;
    let p = d * w;
    assert(e * w == p + (s * w) * 65536) by (nonlinear_arith)
        requires
            e == d + s * 65536,
            p == d * w,
    ;
    let sw = s * w;
    assert((p + sw * 65536) / 65536 == p / 65536 + sw);
}

/// The size of a product with a level between minus one and one.
proof fn lemma_fixed_mul_size(d: i64, w: i64)
    requires
        -65536 <= d <= 65536,
        -0x4000_0000_0000 <= w <= 0x4000_0000_0000,
    ensures
        abs_of(fmul(d, w) as int) <= abs_of(w as int),
{
    assert(-abs_of(w as int) * 65536 <= d * w <= abs_of(w as int) * 65536) by (nonlinear_arith)
        requires
            -65536 <= d <= 65536,
            abs_of(w as int) == (if w < 0 {
                -w
            } else {
                w as int
            }),
    ;
}

/// The absolute weights of the first `n` taps, together.
pub open spec fn weight_mass(taps: Seq<KernelOffset>, n: nat) -> int
    decreases n,
{
    if n == 0 {
        0
    } else {
        weight_mass(taps, (n - 1) as nat) + abs_of(taps[n - 1].weight as int)
    }
}

/// The absolute weights of the taps are, together, no more than two to the power of thirty. No
/// sum of products with levels between minus one and one saturates then.
pub open spec fn light(taps: Seq<KernelOffset>) -> bool {
    weight_mass(taps, taps.len()) <= 0x4000_0000_0000
}

/// No entry of a map is near the ends of the word.
pub open spec fn roomy(map: Seq<i64>) -> bool {
    forall|i: int|
        0 <= i < map.len() ==> -0x4000_0000_0000_0000 <= #[trigger] map[i] && map[i]
            <= 0x4000_0000_0000_0000
}

/// No entry of a map is so near the ends of the word that an operation could make it saturate.
pub open spec fn ample(map: Seq<i64>) -> bool {
    forall|i: int|
        0 <= i < map.len() ==> -0x6000_0000_0000_0000 <= #[trigger] map[i] && map[i]
            <= 0x6000_0000_0000_0000
}

/// The mass of fewer taps is no larger, and each weight is in it.
pub proof fn lemma_mass_grows(taps: Seq<KernelOffset>, n: nat, m: nat)
    requires
        n <= m <= taps.len(),
    ensures
        0 <= weight_mass(taps, n) <= weight_mass(taps, m),
        n < m ==> abs_of(taps[n as int].weight as int) <= weight_mass(taps, m),
    decreases m,
{
    if n < m {
        lemma_mass_grows(taps, n, (m - 1) as nat);
    } else if m > 0 {
        lemma_mass_grows(taps, (n - 1) as nat, (m - 1) as nat);
    }
}

/// A weight of a light kernel is small.
pub proof fn lemma_light_weight(taps: Seq<KernelOffset>, k: int)
    requires
        light(taps),
        0 <= k < taps.len(),
    ensures
        -0x4000_0000_0000 <= taps[k].weight <= 0x4000_0000_0000,
{
    lemma_mass_grows(taps, k as nat, taps.len());
}

/// What the first `n` taps around `center` add to the entry `i` when the pixel there changes by
/// `sign` times one.
pub open spec fn hits(taps: Seq<KernelOffset>, center: int, sign: int, n: nat, i: int) -> int
    decreases n,
{
    if n == 0 {
        0
    } else {
        hits(taps, center, sign, (n - 1) as nat, i) + (if center + taps[n - 1].offset == i {
            sign * taps[n - 1].weight
        } else {
            0
        })
    }
}

/// What taps add is no more than their mass.
pub proof fn lemma_hits_size(taps: Seq<KernelOffset>, center: int, sign: int, n: nat, i: int)
    requires
        n <= taps.len(),
        -1 <= sign <= 1,
    ensures
        abs_of(hits(taps, center, sign, n, i)) <= weight_mass(taps, n),
    decreases n,
{
    if n > 0 {
        lemma_hits_size(taps, center, sign, (n - 1) as nat, i);
        let w = taps[n - 1].weight as int;
        assert(sign * w == 0 || sign * w == w || sign * w == -w) by (nonlinear_arith)
            requires
                sign == 0 || sign == 1 || sign == -1,
        ;
    }
}

/// What taps add changes its sign with the change.
pub proof fn lemma_hits_sign(taps: Seq<KernelOffset>, center: int, sign: int, n: nat, i: int)
    ensures
        hits(taps, center, sign, n, i) == sign * hits(taps, center, 1, n, i),
    decreases n,
{
    if n > 0 {
        lemma_hits_sign(taps, center, sign, (n - 1) as nat, i);
        let a = hits(taps, center, 1, (n - 1) as nat, i);
        let w = taps[n - 1].weight as int;
        assert(sign * (a + w) == sign * a + sign * w) by (nonlinear_arith);
        assert(1 * w == w);
    } else {
        assert(sign * 0 == 0);
    }
}

/// Scattering keeps the length of a map.
pub proof fn lemma_scattered_len(
    map: Seq<i64>,
    taps: Seq<KernelOffset>,
    center: int,
    change: i64,
    n: nat,
)
    ensures
        scattered(map, taps, center, change, n).len() == map.len(),
    decreases n,
{
    if n > 0 {
        lemma_scattered_len(map, taps, center, change, (n - 1) as nat);
    }
}

/// An entry of a map after a pixel has changed by `sign` times one.
pub proof fn lemma_scattered_entry(
    map: Seq<i64>,
    taps: Seq<KernelOffset>,
    center: int,
    sign: int,
    n: nat,
    i: int,
)
    requires
        light(taps),
        n <= taps.len(),
        -1 <= sign <= 1,
        0 <= i < map.len(),
        abs_of(map[i] as int) <= 0x7000_0000_0000_0000,
    ensures
        scattered(map, taps, center, (sign * 65536) as i64, n).len() == map.len(),
        scattered(map, taps, center, (sign * 65536) as i64, n)[i] == map[i] + hits(
            taps,
            center,
            sign,
            n,
            i,
        ),
    decreases n,
{
    let change = (sign * 65536) as i64;
    lemma_scattered_len(map, taps, center, change, n);
    if n > 0 {
        lemma_scattered_entry(map, taps, center, sign, (n - 1) as nat, i);
        lemma_scattered_len(map, taps, center, change, (n - 1) as nat);
        lemma_light_weight(taps, n - 1);
        lemma_hits_size(taps, center, sign, n, i);
        lemma_mass_grows(taps, n, taps.len());
        let w = taps[n - 1].weight;
        law_fixed_mul_one(w);
        assert(fmul(change, w) == sign * w) by {
            if sign == 1 {
                assert(1 * w == w);
            } else if sign == -1 {
                assert(-1 * w == -w);
            } else {
                assert(sign == 0 && 0 * w == 0);
            }
        }
    }
}

/// The taps look the same from both sides: a tap and the one that lies opposite to it weigh the
/// same.
pub open spec fn mirrored(taps: Seq<KernelOffset>) -> bool {
    forall|k: int|
        0 <= k < taps.len() ==> (#[trigger] taps[k]).offset == -taps[taps.len() - 1 - k].offset
            && taps[k].weight == taps[taps.len() - 1 - k].weight
}

/// What mirrored taps around `a` add at `b`, the first `n` of them, and what the others around `b`
/// add at `a`.
proof fn lemma_hits_mirror(taps: Seq<KernelOffset>, a: int, b: int, sign: int, n: nat)
    requires
        mirrored(taps),
        n <= taps.len(),
    ensures
        hits(taps, a, sign, n, b) + hits(taps, b, sign, (taps.len() - n) as nat, a) == hits(
            taps,
            b,
            sign,
            taps.len(),
            a,
        ),
    decreases n,
{
    if n > 0 {
        lemma_hits_mirror(taps, a, b, sign, (n - 1) as nat);
        let k = n - 1;
        assert(taps[k].offset == -taps[taps.len() - 1 - k].offset);
        assert(taps[k].weight == taps[taps.len() - 1 - k].weight);
    }
}

/// Mirrored taps around `a` add at `b` what they add at `a` around `b`.
pub proof fn lemma_hits_mirrored(taps: Seq<KernelOffset>, a: int, b: int, sign: int)
    requires
        mirrored(taps),
    ensures
        hits(taps, a, sign, taps.len(), b) == hits(taps, b, sign, taps.len(), a),
{
    lemma_hits_mirror(taps, a, b, sign, taps.len());
}

/// Every entry is a level between minus one and one.
pub open spec fn levels(src: Seq<i64>) -> bool {
    forall|i: int| 0 <= i < src.len() ==> -65536 <= #[trigger] src[i] && src[i] <= 65536
}

/// The filtered levels are no more than the mass of the taps.
pub proof fn lemma_filter_size(src: Seq<i64>, taps: Seq<KernelOffset>, i: int, n: nat)
    requires
        levels(src),
        light(taps),
        n <= taps.len(),
    ensures
        abs_of(filter_sum(src, taps, i, n) as int) <= weight_mass(taps, n),
        n > 0 ==> filter_sum(src, taps, i, n) == filter_sum(src, taps, i, (n - 1) as nat) + (if 0
            <= i + taps[n - 1].offset < src.len() {
            fmul(src[i + taps[n - 1].offset], taps[n - 1].weight) as int
        } else {
            0
        }),
    decreases n,
{
    if n > 0 {
        lemma_filter_size(src, taps, i, (n - 1) as nat);
        lemma_light_weight(taps, n - 1);
        lemma_mass_grows(taps, n, taps.len());
        let j = i + taps[n - 1].offset;
        if 0 <= j < src.len() {
            lemma_fixed_mul_size(src[j], taps[n - 1].weight);
        }
    }
}

/// The filtered levels after one of them has changed by `sign` times one.
pub proof fn lemma_filter_step(
    src: Seq<i64>,
    taps: Seq<KernelOffset>,
    c: int,
    sign: int,
    i: int,
    n: nat,
)
    requires
        levels(src),
        0 <= c < src.len(),
        sign == 1 || sign == -1,
        -65536 <= src[c] + sign * 65536 <= 65536,
        light(taps),
        n <= taps.len(),
    ensures
        filter_sum(src.update(c, (src[c] + sign * 65536) as i64), taps, i, n) == filter_sum(
            src,
            taps,
            i,
            n,
        ) + hits(taps, i, sign, n, c),
    decreases n,
{
    let next = src.update(c, (src[c] + sign * 65536) as i64);
    assert(levels(next));
    if n > 0 {
        lemma_filter_step(src, taps, c, sign, i, (n - 1) as nat);
        lemma_filter_size(src, taps, i, n);
        lemma_filter_size(next, taps, i, n);
        lemma_light_weight(taps, n - 1);
        let j = i + taps[n - 1].offset;
        if j == c {
            lemma_fixed_mul_step(src[c], sign, taps[n - 1].weight);
        }
    }
}

impl DbsModel {
    /// A pixel of the picture.
    pub open spec fn has_pixel(self, x: u32, y: u32) -> bool {
        x < self.width && y < self.height
    }

    /// Inside of its window, the error map is the filtered difference of the halftone and the
    /// picture.
    pub open spec fn error_exact(self) -> bool {
        forall|i: int|
            0 <= i < self.error.len() && self.error_window().has(
                i / self.padded_width as int,
                i % self.padded_width as int,
            ) ==> #[trigger] self.error[i] == filter_sum(
                self.difference(),
                self.kernel.offsets,
                i,
                self.kernel.offsets.len(),
            )
    }
}

/// Where a pixel of the picture lies in the arrays.
pub proof fn lemma_pixel_index(m: DbsModel, x: u32, y: u32)
    requires
        m.wf(),
        m.has_pixel(x, y),
    ensures
        m.index_of(x, y) == (y + m.padding) * m.padded_width + (x + m.padding),
        0 <= m.index_of(x, y) < m.area(),
        m.center_of(x, y) == m.index_of(x, y),
        m.index_of(x, y) / m.padded_width as int == y + m.padding,
        m.index_of(x, y) % m.padded_width as int == x + m.padding,
{
    lemma_grid_index_bound(
        y + m.padding,
        x + m.padding,
        m.padded_height as int,
        m.padded_width as int,
    );
    lemma_grid_index(y + m.padding, x + m.padding, m.padded_width as int);
    assert(m.padded_height * m.padded_width == m.area()) by (nonlinear_arith)
        requires
            m.area() == m.padded_width * m.padded_height,
    ;
}

/// The difference of the halftone and the picture is between minus one and one.
pub proof fn lemma_difference_levels(m: DbsModel)
    requires
        m.wf(),
    ensures
        levels(m.difference()),
{
    let d = m.difference();
    assert forall|i: int| 0 <= i < d.len() implies -65536 <= #[trigger] d[i] && d[i] <= 65536 by {
        assert(0 <= m.original[i] && m.original[i] <= 65536);
    }
}

/// By how much a pixel changes when it is toggled, in units of one.
pub open spec fn toggle_sign(m: DbsModel, x: u32, y: u32) -> int {
    if m.halftone[m.index_of(x, y)] == 0 {
        1
    } else {
        -1
    }
}

/// A toggle in exact numbers.
pub proof fn lemma_toggled(m: DbsModel, x: u32, y: u32)
    requires
        m.wf(),
        m.has_pixel(x, y),
        light(m.kernel.offsets),
        light(m.kernel.autocorr_offsets),
    ensures
        ({
            let c = m.index_of(x, y);
            let s = toggle_sign(m, x, y);
            let t = m.toggled(x, y);
            &&& t.wf()
            &&& t.halftone == m.halftone.update(c, (m.halftone[c] + s * 65536) as i64)
            &&& forall|i: int|
                0 <= i < m.error.len() && abs_of(m.error[i] as int) <= 0x7000_0000_0000_0000 ==> (
                #[trigger] t.error[i]) == m.error[i] + hits(
                    m.kernel.offsets,
                    c,
                    s,
                    m.kernel.offsets.len(),
                    i,
                )
            &&& forall|i: int|
                0 <= i < m.e2.len() && abs_of(m.e2[i] as int) <= 0x7000_0000_0000_0000 ==> (
                #[trigger] t.e2[i]) == m.e2[i] + hits(
                    m.kernel.autocorr_offsets,
                    c,
                    s,
                    m.kernel.autocorr_offsets.len(),
                    i,
                )
        }),
{
    let c = m.index_of(x, y);
    let s = toggle_sign(m, x, y);
    let t = m.toggled(x, y);
    let taps = m.kernel.offsets;
    let wide = m.kernel.autocorr_offsets;
    lemma_pixel_index(m, x, y);
    assert(t.halftone =~= m.halftone.update(c, (m.halftone[c] + s * 65536) as i64));
    lemma_scattered_len(m.error, taps, c, (s * 65536) as i64, taps.len());
    lemma_scattered_len(m.e2, wide, c, (s * 65536) as i64, wide.len());
    assert forall|i: int|
        0 <= i < m.error.len() && abs_of(m.error[i] as int) <= 0x7000_0000_0000_0000 implies (
    #[trigger] t.error[i]) == m.error[i] + hits(taps, c, s, taps.len(), i) by {
        lemma_scattered_entry(m.error, taps, c, s, taps.len(), i);
    }
    assert forall|i: int|
        0 <= i < m.e2.len() && abs_of(m.e2[i] as int) <= 0x7000_0000_0000_0000 implies (
    #[trigger] t.e2[i]) == m.e2[i] + hits(wide, c, s, wide.len(), i) by {
        lemma_scattered_entry(m.e2, wide, c, s, wide.len(), i);
    }
}

/// A toggle keeps the error map exact, for a kernel that looks the same from both sides and where
/// nothing saturates.
pub proof fn law_toggle_keeps_error(m: DbsModel, x: u32, y: u32)
    requires
        m.wf(),
        m.has_pixel(x, y),
        mirrored(m.kernel.offsets),
        light(m.kernel.offsets),
        m.error_exact(),
    ensures
        m.toggled(x, y).error_exact(),
{
    let c = m.index_of(x, y);
    let s = toggle_sign(m, x, y);
    let t = m.toggled(x, y);
    let taps = m.kernel.offsets;
    lemma_pixel_index(m, x, y);
    assert(t.halftone =~= m.halftone.update(c, (m.halftone[c] + s * 65536) as i64));
    lemma_scattered_len(m.error, taps, c, (s * 65536) as i64, taps.len());
    let d = m.difference();
    lemma_difference_levels(m);
    assert(0 <= m.original[c] && m.original[c] <= 65536);
    assert(t.difference() =~= d.update(c, (d[c] + s * 65536) as i64));
    assert forall|i: int|
        0 <= i < t.error.len() && t.error_window().has(
            i / t.padded_width as int,
            i % t.padded_width as int,
        ) implies #[trigger] t.error[i] == filter_sum(t.difference(), taps, i, taps.len()) by {
        assert(m.error[i] == filter_sum(d, taps, i, taps.len()));
        lemma_filter_size(d, taps, i, taps.len());
        lemma_scattered_entry(m.error, taps, c, s, taps.len(), i);
        lemma_filter_step(d, taps, c, s, i, taps.len());
        lemma_hits_mirrored(taps, c, i, s);
    }
}

/// Toggling a pixel twice undoes it, where nothing saturates.
pub proof fn law_toggle_undone(m: DbsModel, x: u32, y: u32)
    requires
        m.wf(),
        m.has_pixel(x, y),
        light(m.kernel.offsets),
        light(m.kernel.autocorr_offsets),
        roomy(m.error),
        roomy(m.e2),
    ensures
        m.toggled(x, y).toggled(x, y) == m,
{
    let c = m.index_of(x, y);
    let s = toggle_sign(m, x, y);
    let t = m.toggled(x, y);
    let u = t.toggled(x, y);
    let taps = m.kernel.offsets;
    let wide = m.kernel.autocorr_offsets;
    lemma_pixel_index(m, x, y);
    lemma_toggled(m, x, y);
    assert(t.index_of(x, y) == c);
    assert(toggle_sign(t, x, y) == -s);
    lemma_toggled(t, x, y);
    assert(u.halftone =~= m.halftone);
    assert forall|i: int| 0 <= i < m.error.len() implies u.error[i] == m.error[i] by {
        lemma_hits_size(taps, c, s, taps.len(), i);
        assert(t.error[i] == m.error[i] + hits(taps, c, s, taps.len(), i));
        lemma_hits_sign(taps, c, s, taps.len(), i);
        lemma_hits_sign(taps, c, -s, taps.len(), i);
        let h = hits(taps, c, 1, taps.len(), i);
        assert(s * h + (-s) * h == 0) by (nonlinear_arith);
    }
    assert forall|i: int| 0 <= i < m.e2.len() implies u.e2[i] == m.e2[i] by {
        lemma_hits_size(wide, c, s, wide.len(), i);
        assert(t.e2[i] == m.e2[i] + hits(wide, c, s, wide.len(), i));
        lemma_hits_sign(wide, c, s, wide.len(), i);
        lemma_hits_sign(wide, c, -s, wide.len(), i);
        let h = hits(wide, c, 1, wide.len(), i);
        assert(s * h + (-s) * h == 0) by (nonlinear_arith);
    }
    assert(u.error =~= m.error);
    assert(u.e2 =~= m.e2);
    assert(u =~= m);
}

} // verus!
