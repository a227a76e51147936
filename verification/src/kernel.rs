//! The filter kernel of the visual model and its autocorrelation.
use crate::fixed::{
    clamp32, clamp64, clamp_usize, double_to_int, fixed_mul, float_to_fixed, fmul, sat_add32,
    sat_add64, sat_mul32, sat_sub32,
};
use crate::fold::{count_between, grid_fold, lemma_grid_index, lemma_grid_index_bound, row_fold};
use vstd::prelude::*;

verus! {

/// One tap of a kernel: where it lies from the centre, as a step in the plane and as a step in
/// the padded array, and what it weighs.
#[derive(Debug, Clone, Copy)]
pub struct KernelOffset {
    pub dx: i32,
    pub dy: i32,
    pub offset: isize,
    pub weight: i64,
}

/// A kernel with its taps, its weights in an array, its energy, and its autocorrelation.
pub struct HvsKernel {
    pub offsets: Vec<KernelOffset>,
    pub flat: Vec<i64>,
    pub c_pp: i64,
    pub autocorr: Vec<i64>,
    pub autocorr_offsets: Vec<KernelOffset>,
    pub autocorr_size: i32,
}

/// What a kernel holds.
#[verifier::ext_equal]
pub struct KernelModel {
    pub offsets: Seq<KernelOffset>,
    pub flat: Seq<i64>,
    pub c_pp: i64,
    pub autocorr: Seq<i64>,
    pub autocorr_offsets: Seq<KernelOffset>,
    pub autocorr_size: i32,
}

impl View for HvsKernel {
    type V = KernelModel;

    open spec fn view(&self) -> KernelModel {
        KernelModel {
            offsets: self.offsets@,
            flat: self.flat@,
            c_pp: self.c_pp,
            autocorr: self.autocorr@,
            autocorr_offsets: self.autocorr_offsets@,
            autocorr_size: self.autocorr_size,
        }
    }
}

/// The entry of `s` at `i`, and zero where there is none.
pub open spec fn at(s: Seq<i64>, i: int) -> i64 {
    if 0 <= i < s.len() {
        s[i]
    } else {
        0
    }
}

/// An array index from a signed number; the negative ones count as the first.
pub open spec fn to_index(i: int) -> int {
    if i < 0 {
        0
    } else {
        i
    }
}

/// The entry of `s` at `i`, and zero where there is none.
pub fn get_or_zero(s: &[i64], i: usize) -> (r: i64)
    ensures
        r == at(s@, i as int),
{
    if i < s.len() {
        s[i]
    } else {
        0
    }
}

/// `s` with its entry at `i` set to `v`, where there is such an entry.
pub open spec fn with_entry(s: Seq<i64>, i: int, v: i64) -> Seq<i64> {
    if 0 <= i < s.len() {
        s.update(i, v)
    } else {
        s
    }
}

/// Sets the entry of `s` at `i`, where there is such an entry.
pub fn set_entry(s: &mut Vec<i64>, i: usize, v: i64)
    ensures
        final(s)@ == with_entry(old(s)@, i as int, v),
{
    if i < s.len() {
        s.set(i, v);
    }
}

/// Where the weight of the tap `(dy, dx)` of a square kernel lies in its array: `size` is the
/// kernel's width and `radius` the distance of its centre from its edge.
pub open spec fn tap_index(dy: int, dx: int, size: i32, radius: i32) -> int {
    to_index(
        clamp32(clamp32(clamp32(dy + radius) * size) + clamp32(dx + radius)) as int,
    )
}

/// See `tap_index`.
pub fn tap_slot(dy: i32, dx: i32, size: i32, radius: i32) -> (r: usize)
    ensures
        r == tap_index(dy as int, dx as int, size, radius),
{
    let idx: i32 = sat_add32(sat_mul32(sat_add32(dy, radius), size), sat_add32(dx, radius));
    if idx < 0 {
        0
    } else {
        idx as usize
    }
}

/// The squared distance of a tap from the centre, as a short integer.
pub open spec fn tap_distance(dy: int, dx: int) -> i16 {
    let d = clamp32(clamp32(dx * dx) + clamp32(dy * dy));
    if d > i16::MAX {
        i16::MAX
    } else {
        d as i16
    }
}

/// How many taps a kernel of this width has in a row.
pub open spec fn kernel_span(size: i32) -> nat {
    count_between(-(size as int / 2), size as int / 2)
}

/// The squared distances of the taps of a kernel of width `size`, row by row.
pub open spec fn distances_of(size: i32) -> Seq<i16> {
    let n = kernel_span(size) as int;
    let c = size as int / 2;
    Seq::new((n * n) as nat, |k: int| tap_distance(k / n - c, k % n - c))
}

/// The half width of a kernel.
pub fn half_width(size: i32) -> (r: i32)
    ensures
        r == size as int / 2,
        -0x4000_0000 <= r < 0x4000_0000,
{
    assert(size >> 1u32 == size / 2) by (bit_vector);
    size >> 1u32
}

/// The squared distances from the centre of the taps of a kernel of width `size`, row by row.
/// The weight of a tap is a function of this distance.
pub fn kernel_distances(size: i32) -> (r: Vec<i16>)
    ensures
        r@ == distances_of(size),
{
    let center: i64 = half_width(size) as i64;
    let mut r: Vec<i16> = Vec::new();
    let ghost n = kernel_span(size) as int;
    let mut dy: i64 = -center;
    assert((dy + center) * n == 0) by (nonlinear_arith)
        requires
            dy + center == 0,
    ;
    while dy <= center
        invariant
            center == size as int / 2,
            n == kernel_span(size),
            -0x4000_0000 <= center < 0x4000_0000,
            n > 0 ==> -center <= dy <= center + 1,
            n == 0 ==> dy == -center,
            r@.len() == (dy + center) * n,
            forall|k: int|
                0 <= k < r@.len() ==> r@[k] == tap_distance(k / n - center, k % n - center),
        decreases center - dy + 1,
    {
        let mut dx: i64 = -center;
        while dx <= center
            invariant
                center == size as int / 2,
                n == kernel_span(size),
                -0x4000_0000 <= center < 0x4000_0000,
                n > 0,
                -center <= dy <= center,
                -center <= dx <= center + 1,
                r@.len() == (dy + center) * n + (dx + center),
                forall|k: int|
                    0 <= k < r@.len() ==> r@[k] == tap_distance(k / n - center, k % n - center),
            decreases center - dx + 1,
        {
            let dist: i32 = sat_add32(
                sat_mul32(dx as i32, dx as i32),
                sat_mul32(dy as i32, dy as i32),
            );
            proof {
                lemma_grid_index(dy + center, dx + center, n);
                assert(dx * dx >= 0 && dy * dy >= 0) by (nonlinear_arith);
            }
            let short: i16 = if dist > i16::MAX as i32 {
                i16::MAX
            } else {
                dist as i16
            };
            r.push(short);
            dx = dx + 1;
        }
        proof {
            lemma_grid_index_bound(dy + center, 0, n, n);
        }
        dy = dy + 1;
    }
    r
}

/// Adds to a sum the product of the weights at `(ky, kx)` and at `(ky - dy, kx - dx)`, where both
/// lie in the kernel.
pub open spec fn autocorr_step(
    flat: Seq<i64>,
    size: i32,
    center: i32,
    dy: int,
    dx: int,
) -> spec_fn(i64, int, int) -> i64 {
    |sum: i64, ky: int, kx: int|
        {
            let lo = clamp32(-center);
            let ky2 = clamp32(ky - dy);
            let kx2 = clamp32(kx - dx);
            if lo <= ky2 <= center && lo <= kx2 <= center {
                clamp64(
                    sum + fmul(
                        at(flat, tap_index(ky, kx, size, center)),
                        at(flat, tap_index(ky2 as int, kx2 as int, size, center)),
                    ),
                )
            } else {
                sum
            }
        }
}

/// The autocorrelation of a kernel at the displacement `(dy, dx)`.
pub open spec fn autocorr_at(flat: Seq<i64>, size: i32, center: i32, dy: int, dx: int) -> i64 {
    let lo = clamp32(-center) as int;
    let n = count_between(lo, center as int);
    grid_fold(autocorr_step(flat, size, center, dy, dx), 0i64, lo, lo, n, n)
}

/// The width of the autocorrelation of a kernel of width `size`.
pub open spec fn autocorr_width(size: i32) -> i32 {
    clamp32(clamp32(size * 2) - 1)
}

/// The tap number `k` of the autocorrelation, row by row.
pub open spec fn autocorr_tap(flat: Seq<i64>, size: i32, center: i32, k: int) -> KernelOffset {
    let a = kernel_span(autocorr_width(size)) as int;
    let r = autocorr_width(size) as int / 2;
    KernelOffset {
        dx: (k % a - r) as i32,
        dy: (k / a - r) as i32,
        offset: 0,
        weight: autocorr_at(flat, size, center, k / a - r, k % a - r),
    }
}

/// The taps of the autocorrelation, row by row.
pub open spec fn autocorr_taps(flat: Seq<i64>, size: i32, center: i32) -> Seq<KernelOffset> {
    let a = kernel_span(autocorr_width(size)) as int;
    Seq::new((a * a) as nat, |k: int| autocorr_tap(flat, size, center, k))
}

/// A square array of zeros, `size` on a side.
pub open spec fn zero_square(size: i32) -> Seq<i64> {
    Seq::new(to_index(clamp32(size * size) as int) as nat, |i: int| 0i64)
}

/// The array of a square kernel once its first `k` taps are stored.
pub open spec fn stored_taps(taps: Seq<KernelOffset>, size: i32, radius: i32, k: nat) -> Seq<i64>
    decreases k,
{
    if k == 0 {
        zero_square(size)
    } else {
        let tap = taps[k - 1];
        with_entry(
            stored_taps(taps, size, radius, (k - 1) as nat),
            tap_index(tap.dy as int, tap.dx as int, size, radius),
            tap.weight,
        )
    }
}

/// Storing the first `k` taps looks at no others.
pub proof fn lemma_stored_taps_prefix(
    a: Seq<KernelOffset>,
    b: Seq<KernelOffset>,
    size: i32,
    radius: i32,
    k: nat,
)
    requires
        k <= a.len(),
        k <= b.len(),
        forall|i: int| 0 <= i < k ==> a[i] == b[i],
    ensures
        stored_taps(a, size, radius, k) == stored_taps(b, size, radius, k),
    decreases k,
{
    if k > 0 {
        lemma_stored_taps_prefix(a, b, size, radius, (k - 1) as nat);
    }
}

/// The autocorrelation of a kernel at one displacement.
fn correlate(flat: &[i64], size: i32, center: i32, dy: i32, dx: i32) -> (r: i64)
    ensures
        r == autocorr_at(flat@, size, center, dy as int, dx as int),
{
    let lo: i32 = sat_sub32(0, center);
    let mut sum: i64 = 0;
    let ghost n = count_between(lo as int, center as int);
    let ghost f = autocorr_step(flat@, size, center, dy as int, dx as int);
    let mut ky: i64 = lo as i64;
    while ky <= center as i64
        invariant
            lo == clamp32(-center),
            n == count_between(lo as int, center as int),
            f == autocorr_step(flat@, size, center, dy as int, dx as int),
            lo <= ky,
            n > 0 ==> ky <= center + 1,
            n == 0 ==> ky == lo,
            sum == grid_fold(f, 0i64, lo as int, lo as int, (ky - lo) as nat, n),
        decreases center - ky + 1,
    {
        let ghost start = sum;
        let mut kx: i64 = lo as i64;
        while kx <= center as i64
            invariant
                lo == clamp32(-center),
                n == count_between(lo as int, center as int),
                f == autocorr_step(flat@, size, center, dy as int, dx as int),
                lo <= ky <= center,
                lo <= kx <= center + 1,
                sum == row_fold(f, start, ky as int, lo as int, (kx - lo) as nat),
            decreases center - kx + 1,
        {
            let ky2: i32 = sat_sub32(ky as i32, dy);
            let kx2: i32 = sat_sub32(kx as i32, dx);
            if ky2 >= lo && ky2 <= center && kx2 >= lo && kx2 <= center {
                let w1: i64 = get_or_zero(flat, tap_slot(ky as i32, kx as i32, size, center));
                let w2: i64 = get_or_zero(flat, tap_slot(ky2, kx2, size, center));
                sum = sat_add64(sum, fixed_mul(w1, w2));
            }
            kx = kx + 1;
        }
        ky = ky + 1;
    }
    sum
}

/// The autocorrelation of the kernel with the weights `flat`, as an array and as taps.
pub fn generate_autocorr(size: i32, flat: &[i64], center: i32) -> (r: (
    Vec<i64>,
    Vec<KernelOffset>,
))
    ensures
        r.1@ == autocorr_taps(flat@, size, center),
        r.0@ == stored_taps(
            autocorr_taps(flat@, size, center),
            autocorr_width(size),
            (autocorr_width(size) as int / 2) as i32,
            autocorr_taps(flat@, size, center).len(),
        ),
{
    let width: i32 = sat_sub32(sat_mul32(size, 2), 1);
    let radius: i32 = half_width(width);
    let mut autocorr: Vec<i64> = vec![0i64; square_len(width)];
    let mut taps: Vec<KernelOffset> = Vec::new();
    let ghost a = kernel_span(width) as int;
    let ghost all = autocorr_taps(flat@, size, center);
    assert(autocorr@ =~= zero_square(width));
    let mut dy: i64 = -(radius as i64);
    assert((dy + radius) * a == 0) by (nonlinear_arith)
        requires
            dy + radius == 0,
    ;
    while dy <= radius as i64
        invariant
            width == autocorr_width(size),
            radius == width as int / 2,
            a == kernel_span(width),
            all == autocorr_taps(flat@, size, center),
            -0x4000_0000 <= radius < 0x4000_0000,
            a > 0 ==> -radius <= dy <= radius + 1,
            a == 0 ==> dy == -radius,
            taps@.len() == (dy + radius) * a,
            forall|k: int|
                0 <= k < taps@.len() ==> taps@[k] == autocorr_tap(flat@, size, center, k),
            autocorr@ == stored_taps(taps@, width, radius, taps@.len()),
        decreases radius - dy + 1,
    {
        let mut dx: i64 = -(radius as i64);
        while dx <= radius as i64
            invariant
                width == autocorr_width(size),
                radius == width as int / 2,
                a == kernel_span(width),
                all == autocorr_taps(flat@, size, center),
                -0x4000_0000 <= radius < 0x4000_0000,
                -radius <= dy <= radius,
                -radius <= dx <= radius + 1,
                taps@.len() == (dy + radius) * a + (dx + radius),
                forall|k: int|
                    0 <= k < taps@.len() ==> taps@[k] == autocorr_tap(flat@, size, center, k),
                autocorr@ == stored_taps(taps@, width, radius, taps@.len()),
            decreases radius - dx + 1,
        {
            let sum: i64 = correlate(flat, size, center, dy as i32, dx as i32);
            set_entry(&mut autocorr, tap_slot(dy as i32, dx as i32, width, radius), sum);
            let ghost before = taps@;
            taps.push(KernelOffset { dx: dx as i32, dy: dy as i32, offset: 0, weight: sum });
            proof {
                lemma_grid_index(dy + radius, dx + radius, a);
                lemma_stored_taps_prefix(before, taps@, width, radius, before.len());
            }
            dx = dx + 1;
        }
        proof {
            lemma_grid_index_bound(dy + radius, 0, a, a);
        }
        dy = dy + 1;
    }
    assert(taps@ =~= all);
    (autocorr, taps)
}

/// How many entries a square array `size` on a side has.
fn square_len(size: i32) -> (r: usize)
    ensures
        r == to_index(clamp32(size * size) as int),
{
    assert(size * size >= 0) by (nonlinear_arith);
    sat_mul32(size, size) as usize
}

/// The saturated sum of the squares of the first `n` weights.
pub open spec fn energy(flat: Seq<i64>, n: nat) -> i64
    decreases n,
{
    if n == 0 {
        0
    } else {
        clamp64(energy(flat, (n - 1) as nat) + fmul(flat[n - 1], flat[n - 1]))
    }
}

/// The weight in the double with the bit pattern `weights[k]`, and zero where there is none.
pub open spec fn weight_at(weights: Seq<u64>, k: int) -> i64 {
    if 0 <= k < weights.len() {
        double_to_int(weights[k])
    } else {
        0
    }
}

/// The tap number `k` of the kernel, row by row.
pub open spec fn kernel_tap(weights: Seq<u64>, size: i32, k: int) -> KernelOffset {
    let n = kernel_span(size) as int;
    let c = size as int / 2;
    KernelOffset {
        dx: (k % n - c) as i32,
        dy: (k / n - c) as i32,
        offset: 0,
        weight: weight_at(weights, k),
    }
}

/// The taps of the kernel, row by row.
pub open spec fn kernel_taps(weights: Seq<u64>, size: i32) -> Seq<KernelOffset> {
    let n = kernel_span(size) as int;
    Seq::new((n * n) as nat, |k: int| kernel_tap(weights, size, k))
}

/// The kernel of width `size` whose taps weigh, row by row, what the doubles in `weights` say.
pub open spec fn kernel_of(size: i32, weights: Seq<u64>) -> KernelModel {
    let c = (size as int / 2) as i32;
    let taps = kernel_taps(weights, size);
    let flat = stored_taps(taps, size, c, taps.len());
    let a = autocorr_width(size);
    let autocorr_taps = autocorr_taps(flat, size, c);
    KernelModel {
        offsets: taps,
        flat,
        c_pp: energy(flat, flat.len()),
        autocorr: stored_taps(autocorr_taps, a, (a as int / 2) as i32, autocorr_taps.len()),
        autocorr_offsets: autocorr_taps,
        autocorr_size: a,
    }
}

/// The kernel of width `size`. `weights` holds, for each squared distance that
/// `kernel_distances` lists, the bits of the tap's fixed-point weight as a double.
pub fn generate_hvs_kernel(size: i32, weights: &[u64]) -> (r: HvsKernel)
    ensures
        r@ == kernel_of(size, weights@),
{
    let center: i32 = half_width(size);
    let mut offsets: Vec<KernelOffset> = Vec::new();
    let mut flat: Vec<i64> = vec![0i64; square_len(size)];
    let ghost n = kernel_span(size) as int;
    assert(flat@ =~= zero_square(size));
    let mut idx: usize = 0;
    let mut dy: i64 = -(center as i64);
    assert((dy + center) * n == 0) by (nonlinear_arith)
        requires
            dy + center == 0,
    ;
    while dy <= center as i64
        invariant
            center == size as int / 2,
            n == kernel_span(size),
            -0x4000_0000 <= center < 0x4000_0000,
            n > 0 ==> -center <= dy <= center + 1,
            n == 0 ==> dy == -center,
            idx == clamp_usize(offsets@.len() as int),
            offsets@.len() == (dy + center) * n,
            forall|k: int|
                0 <= k < offsets@.len() ==> offsets@[k] == kernel_tap(weights@, size, k),
            flat@ == stored_taps(offsets@, size, center, offsets@.len()),
        decreases center - dy + 1,
    {
        let mut dx: i64 = -(center as i64);
        while dx <= center as i64
            invariant
                center == size as int / 2,
                n == kernel_span(size),
                -0x4000_0000 <= center < 0x4000_0000,
                -center <= dy <= center,
                -center <= dx <= center + 1,
                idx == clamp_usize(offsets@.len() as int),
                offsets@.len() == (dy + center) * n + (dx + center),
                forall|k: int|
                    0 <= k < offsets@.len() ==> offsets@[k] == kernel_tap(weights@, size, k),
                flat@ == stored_taps(offsets@, size, center, offsets@.len()),
            decreases center - dx + 1,
        {
            let weight: i64 = if idx < weights.len() {
                float_to_fixed(weights[idx])
            } else {
                0
            };
            let ghost before = offsets@;
            offsets.push(KernelOffset { dx: dx as i32, dy: dy as i32, offset: 0, weight });
            set_entry(&mut flat, tap_slot(dy as i32, dx as i32, size, center), weight);
            proof {
                lemma_grid_index(dy + center, dx + center, n);
                lemma_stored_taps_prefix(before, offsets@, size, center, before.len());
            }
            idx = idx.saturating_add(1);
            dx = dx + 1;
        }
        proof {
            lemma_grid_index_bound(dy + center, 0, n, n);
        }
        dy = dy + 1;
    }
    assert(offsets@ =~= kernel_taps(weights@, size));
    let mut c_pp: i64 = 0;
    let mut i: usize = 0;
    while i < flat.len()
        invariant
            i <= flat@.len(),
            c_pp == energy(flat@, i as nat),
        decreases flat@.len() - i,
    {
        let w: i64 = flat[i];
        c_pp = sat_add64(c_pp, fixed_mul(w, w));
        i = i + 1;
    }
    let (autocorr, autocorr_offsets) = generate_autocorr(size, flat.as_slice(), center);
    let autocorr_size: i32 = sat_sub32(sat_mul32(size, 2), 1);
    HvsKernel { offsets, flat, c_pp, autocorr, autocorr_offsets, autocorr_size }
}

} // verus!
