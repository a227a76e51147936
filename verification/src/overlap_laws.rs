//! How much two copies of a kernel overlap: the autocorrelation is this overlap, rounded down tap
//! by tap.
use crate::fixed::{abs_of, clamp32, clamp64, fmul};
use crate::fold::{grid_fold, lemma_grid_index, row_fold};
use crate::kernel::{at, autocorr_at, autocorr_step, tap_index, KernelOffset};
use crate::kernel_laws::{
    lemma_opposite, lemma_size_bound, lemma_tap_index, lemma_tap_number, square_in_array,
    square_taps, tap_weights,
};
use crate::map_laws::{hits, lemma_mass_grows, mirrored, weight_mass};
use crate::swap_laws::lemma_square_hits;
use vstd::prelude::*;

verus! {

/// The absolute weights of the taps are, together, no more than two to the power of fourteen. No
/// product of two of them saturates then, nor does a sum of such products.
pub open spec fn gentle(taps: Seq<KernelOffset>) -> bool {
    weight_mass(taps, taps.len()) <= 0x4000_0000
}

/// The weight of the tap `(y, x)` of a square of half width `radius`, and zero where there is none.
pub open spec fn tap_at(taps: Seq<KernelOffset>, radius: int, y: int, x: int) -> int {
    if abs_of(y) <= radius && abs_of(x) <= radius {
        taps[(y + radius) * (2 * radius + 1) + (x + radius)].weight as int
    } else {
        0
    }
}

/// The products of the weights of the first `n` taps with those that lie `(dy, dx)` before them,
/// together.
pub open spec fn pair_sum(taps: Seq<KernelOffset>, radius: int, dy: int, dx: int, n: nat) -> int
    decreases n,
{
    if n == 0 {
        0
    } else {
        let tap = taps[n - 1];
        pair_sum(taps, radius, dy, dx, (n - 1) as nat) + tap.weight * tap_at(
            taps,
            radius,
            tap.dy - dy,
            tap.dx - dx,
        )
    }
}

/// The same with each product rounded down and each sum saturated.
pub open spec fn pair_floor(taps: Seq<KernelOffset>, radius: int, dy: int, dx: int, n: nat) -> i64
    decreases n,
{
    if n == 0 {
        0
    } else {
        let tap = taps[n - 1];
        clamp64(
            pair_floor(taps, radius, dy, dx, (n - 1) as nat) + fmul(
                tap.weight,
                tap_at(taps, radius, tap.dy - dy, tap.dx - dx) as i64,
            ),
        )
    }
}

/// The autocorrelation up to the column `n` of a row.
proof fn lemma_autocorr_row(
    taps: Seq<KernelOffset>,
    size: i32,
    c: i32,
    dy: int,
    dx: int,
    y: int,
    n: nat,
)
    requires
        square_taps(taps, c as int),
        size == 2 * c + 1,
        size * size <= i32::MAX,
        -size < dy < size,
        -size < dx < size,
        0 <= y < size,
        n <= size,
    ensures
        0 <= y * size,
        y * size + n <= taps.len(),
        row_fold(
            autocorr_step(tap_weights(taps), size, c, dy, dx),
            pair_floor(taps, c as int, dy, dx, (y * size) as nat),
            y - c,
            -c as int,
            n,
        ) == pair_floor(taps, c as int, dy, dx, (y * size + n) as nat),
    decreases n,
{
    let flat = tap_weights(taps);
    assert(0 <= y * size && y * size + size <= size * size) by (nonlinear_arith)
        requires
            0 <= y < size,
    ;
    assert(size * size == taps.len());
    if n > 0 {
        lemma_autocorr_row(taps, size, c, dy, dx, y, (n - 1) as nat);
        let ky = y - c;
        let kx = n - 1 - c;
        let k = y * size + n - 1;
        lemma_grid_index(y, n - 1, size as int);
        lemma_tap_index(ky, kx, size, c);
        assert(taps[k].dy == ky && taps[k].dx == kx);
        assert(at(flat, tap_index(ky, kx, size, c)) == taps[k].weight);
        let other = tap_at(taps, c as int, ky - dy, kx - dx);
        lemma_size_bound(size as int);
        assert(clamp32(ky - dy) == ky - dy);
        assert(clamp32(kx - dx) == kx - dx);
        assert(clamp32(-c) == -c);
        if abs_of(ky - dy) <= c && abs_of(kx - dx) <= c {
            lemma_tap_index(ky - dy, kx - dx, size, c);
            assert(at(flat, tap_index(ky - dy, kx - dx, size, c)) == other);
        } else {
            assert(other == 0);
            assert(taps[k].weight * 0 == 0);
            assert(fmul(taps[k].weight, 0) == 0);
        }
        assert(((y * size + n) as nat - 1) as nat == (y * size + (n - 1)) as nat);
    }
}

/// The autocorrelation over the first `rows` rows.
proof fn lemma_autocorr_rows(
    taps: Seq<KernelOffset>,
    size: i32,
    c: i32,
    dy: int,
    dx: int,
    rows: nat,
)
    requires
        square_taps(taps, c as int),
        size == 2 * c + 1,
        size * size <= i32::MAX,
        -size < dy < size,
        -size < dx < size,
        rows <= size,
    ensures
        0 <= rows * size,
        grid_fold(
            autocorr_step(tap_weights(taps), size, c, dy, dx),
            0i64,
            -c as int,
            -c as int,
            rows,
            size as nat,
        ) == pair_floor(taps, c as int, dy, dx, (rows * size) as nat),
    decreases rows,
{
    if rows > 0 {
        lemma_autocorr_rows(taps, size, c, dy, dx, (rows - 1) as nat);
        lemma_autocorr_row(taps, size, c, dy, dx, rows - 1, size as nat);
        assert((rows - 1) * size + size == rows * size) by (nonlinear_arith);
    } else {
        assert(rows * size == 0) by (nonlinear_arith)
            requires
                rows == 0,
        ;
    }
}

/// The autocorrelation is the sum over the pairs of taps, rounded down pair by pair.
pub proof fn lemma_autocorr_is_pair_floor(
    taps: Seq<KernelOffset>,
    size: i32,
    c: i32,
    dy: int,
    dx: int,
)
    requires
        square_taps(taps, c as int),
        size == 2 * c + 1,
        size * size <= i32::MAX,
        -size < dy < size,
        -size < dx < size,
    ensures
        autocorr_at(tap_weights(taps), size, c, dy, dx) == pair_floor(
            taps,
            c as int,
            dy,
            dx,
            taps.len(),
        ),
{
    lemma_autocorr_rows(taps, size, c, dy, dx, size as nat);
    assert(clamp32(-c) == -c);
    assert(size * size == taps.len());
}

/// A weight that is looked up is one of the weights.
pub proof fn lemma_tap_at(taps: Seq<KernelOffset>, radius: int, y: int, x: int)
    requires
        square_taps(taps, radius),
        gentle(taps),
    ensures
        abs_of(tap_at(taps, radius, y, x)) <= 0x4000_0000,
{
    if abs_of(y) <= radius && abs_of(x) <= radius {
        let w = 2 * radius + 1;
        let k = (y + radius) * w + (x + radius);
        assert(0 <= k < w * w) by (nonlinear_arith)
            requires
                k == (y + radius) * w + (x + radius),
                0 <= y + radius < w,
                0 <= x + radius < w,
        ;
        lemma_mass_grows(taps, k as nat, taps.len());
    }
}

/// A product of two small numbers, and what is lost when it is rounded down.
proof fn lemma_product(a: int, b: int)
    requires
        abs_of(a) <= 0x4000_0000,
        abs_of(b) <= 0x4000_0000,
    ensures
        abs_of(a * b) <= abs_of(a) * 0x4000_0000,
        abs_of(a) * 0x4000_0000 <= 0x1000_0000_0000_0000,
        0 <= a * b - 65536 * fmul(a as i64, b as i64) <= 65535,
{
    assert(abs_of(a * b) <= abs_of(a) * 0x4000_0000 <= 0x1000_0000_0000_0000) by (nonlinear_arith)
        requires
            abs_of(a) == (if a < 0 {
                -a
            } else {
                a
            }),
            abs_of(a * b) == (if a * b < 0 {
                -(a * b)
            } else {
                a * b
            }),
            abs_of(a) <= 0x4000_0000,
            -0x4000_0000 <= b <= 0x4000_0000,
    ;
}

/// What is lost when the products are rounded down is less than one for each tap.
pub proof fn law_autocorr_rounding(taps: Seq<KernelOffset>, radius: int, dy: int, dx: int, n: nat)
    requires
        square_taps(taps, radius),
        gentle(taps),
        n <= taps.len() <= i32::MAX,
    ensures
        ({
            let exact = pair_sum(taps, radius, dy, dx, n);
            &&& abs_of(exact) <= weight_mass(taps, n) * 0x4000_0000
            &&& 0 <= exact - 65536 * pair_floor(taps, radius, dy, dx, n) <= 65535 * n
        }),
    decreases n,
{
    if n > 0 {
        law_autocorr_rounding(taps, radius, dy, dx, (n - 1) as nat);
        let tap = taps[n - 1];
        let other = tap_at(taps, radius, tap.dy - dy, tap.dx - dx);
        lemma_tap_at(taps, radius, tap.dy - dy, tap.dx - dx);
        lemma_mass_grows(taps, (n - 1) as nat, taps.len());
        lemma_mass_grows(taps, n, taps.len());
        lemma_product(tap.weight as int, other);
    }
}

/// How much the kernel around `b` overlaps with the one around `a`, over the first `n` taps of the
/// one and the first `m` of the other.
pub open spec fn overlap(taps: Seq<KernelOffset>, a: int, b: int, n: nat, m: nat) -> int
    decreases n,
{
    if n == 0 {
        0
    } else {
        overlap(taps, a, b, (n - 1) as nat, m) + taps[n - 1].weight * hits(
            taps,
            a,
            1,
            m,
            b + taps[n - 1].offset,
        )
    }
}

/// One tap more of the other kernel.
proof fn lemma_overlap_step(taps: Seq<KernelOffset>, a: int, b: int, n: nat, m: nat)
    requires
        m > 0,
    ensures
        overlap(taps, a, b, n, m) == overlap(taps, a, b, n, (m - 1) as nat) + taps[m - 1].weight
            * hits(taps, b, 1, n, a + taps[m - 1].offset),
    decreases n,
{
    let v = taps[m - 1].weight as int;
    if n > 0 {
        lemma_overlap_step(taps, a, b, (n - 1) as nat, m);
        let w = taps[n - 1].weight as int;
        let i = b + taps[n - 1].offset;
        let before = hits(taps, a, 1, (m - 1) as nat, i);
        let rest = hits(taps, b, 1, (n - 1) as nat, a + taps[m - 1].offset);
        assert(1 * v == v && 1 * w == w);
        if a + taps[m - 1].offset == i {
            assert(w * (before + v) == w * before + v * w) by (nonlinear_arith);
            assert(v * (rest + w) == v * rest + v * w) by (nonlinear_arith);
        }
    } else {
        assert(v * 0 == 0);
    }
}

/// Nothing overlaps with no taps.
proof fn lemma_overlap_none(taps: Seq<KernelOffset>, a: int, b: int, n: nat)
    ensures
        overlap(taps, a, b, n, 0) == 0,
    decreases n,
{
    if n > 0 {
        lemma_overlap_none(taps, a, b, (n - 1) as nat);
        assert(taps[n - 1].weight * 0 == 0);
    }
}

/// Two kernels overlap with each other by the same amount.
pub proof fn law_overlap_symmetric(taps: Seq<KernelOffset>, a: int, b: int, n: nat, m: nat)
    ensures
        overlap(taps, a, b, n, m) == overlap(taps, b, a, m, n),
    decreases m,
{
    if m == 0 {
        lemma_overlap_none(taps, a, b, n);
    } else {
        law_overlap_symmetric(taps, a, b, n, (m - 1) as nat);
        lemma_overlap_step(taps, a, b, n, m);
    }
}

/// The overlap of the kernels around two points is the sum over the pairs of taps.
pub proof fn lemma_overlap_is_pair_sum(
    taps: Seq<KernelOffset>,
    radius: int,
    stride: int,
    ay: int,
    ax: int,
    by: int,
    bx: int,
    n: nat,
)
    requires
        square_in_array(taps, radius, stride),
        radius <= ax,
        ax + radius < stride,
        radius <= bx,
        bx + radius < stride,
        n <= taps.len(),
    ensures
        overlap(taps, ay * stride + ax, by * stride + bx, n, taps.len()) == pair_sum(
            taps,
            radius,
            ay - by,
            ax - bx,
            n,
        ),
    decreases n,
{
    if n > 0 {
        lemma_overlap_is_pair_sum(taps, radius, stride, ay, ax, by, bx, (n - 1) as nat);
        let k = n - 1;
        let w = 2 * radius + 1;
        lemma_tap_number(k, w);
        let dy = taps[k].dy as int;
        let dx = taps[k].dx as int;
        assert(dy == k / w - radius && dx == k % w - radius);
        assert(taps[k].offset == dy * stride + dx);
        assert(by * stride + bx + (dy * stride + dx) == (by + dy) * stride + (bx + dx))
            by (nonlinear_arith);
        lemma_square_hits(taps, radius, stride, ay, ax, 1, by + dy, bx + dx, taps.len());
        let other = tap_at(taps, radius, dy - (ay - by), dx - (ax - bx));
        let h = hits(taps, ay * stride + ax, 1, taps.len(), by * stride + bx + taps[k].offset);
        assert(h == other);
    }
}

/// Kernels that lie farther apart than they are wide do not overlap.
pub proof fn lemma_pair_sum_far(taps: Seq<KernelOffset>, radius: int, dy: int, dx: int, n: nat)
    requires
        square_taps(taps, radius),
        n <= taps.len(),
        abs_of(dy) > 2 * radius || abs_of(dx) > 2 * radius,
    ensures
        pair_sum(taps, radius, dy, dx, n) == 0,
    decreases n,
{
    if n > 0 {
        lemma_pair_sum_far(taps, radius, dy, dx, (n - 1) as nat);
        lemma_tap_number(n - 1, 2 * radius + 1);
        let tap = taps[n - 1];
        assert(tap_at(taps, radius, tap.dy - dy, tap.dx - dx) == 0);
        assert(tap.weight * 0 == 0);
    }
}

/// Nor do they where each product is rounded.
pub proof fn lemma_pair_floor_far(taps: Seq<KernelOffset>, radius: int, dy: int, dx: int, n: nat)
    requires
        square_taps(taps, radius),
        n <= taps.len(),
        abs_of(dy) > 2 * radius || abs_of(dx) > 2 * radius,
    ensures
        pair_floor(taps, radius, dy, dx, n) == 0,
    decreases n,
{
    if n > 0 {
        lemma_pair_floor_far(taps, radius, dy, dx, (n - 1) as nat);
        lemma_tap_number(n - 1, 2 * radius + 1);
        let tap = taps[n - 1];
        assert(tap_at(taps, radius, tap.dy - dy, tap.dx - dx) == 0);
        assert(tap.weight * 0 == 0);
    }
}

/// One tap more, where nothing saturates.
pub proof fn lemma_pair_floor_step(taps: Seq<KernelOffset>, radius: int, dy: int, dx: int, n: nat)
    requires
        square_taps(taps, radius),
        gentle(taps),
        0 < n <= taps.len() <= i32::MAX,
    ensures
        pair_floor(taps, radius, dy, dx, n) == pair_floor(taps, radius, dy, dx, (n - 1) as nat)
            + pair_term(taps, radius, dy, dx, n - 1),
{
    let tap = taps[n - 1];
    law_autocorr_rounding(taps, radius, dy, dx, (n - 1) as nat);
    lemma_tap_at(taps, radius, tap.dy - dy, tap.dx - dx);
    lemma_mass_grows(taps, (n - 1) as nat, taps.len());
    lemma_product(tap.weight as int, tap_at(taps, radius, tap.dy - dy, tap.dx - dx));
}

/// The product of the weight of a tap with that of the tap `(dy, dx)` before it, rounded down.
pub open spec fn pair_term(taps: Seq<KernelOffset>, radius: int, dy: int, dx: int, k: int) -> i64 {
    fmul(taps[k].weight, tap_at(taps, radius, taps[k].dy - dy, taps[k].dx - dx) as i64)
}

/// A tap and the one opposite to it, in a square that looks the same from both sides.
proof fn lemma_opposite_tap(taps: Seq<KernelOffset>, radius: int, k: int)
    requires
        square_taps(taps, radius),
        mirrored(taps),
        0 <= k < taps.len(),
    ensures
        taps[taps.len() - 1 - k].dy == -taps[k].dy,
        taps[taps.len() - 1 - k].dx == -taps[k].dx,
        taps[taps.len() - 1 - k].weight == taps[k].weight,
{
    let w = 2 * radius + 1;
    lemma_tap_number(k, w);
    lemma_opposite(k, w);
    assert(taps[k].weight == taps[taps.len() - 1 - k].weight);
}

/// The weights on both sides of the centre.
proof fn lemma_tap_at_mirrored(taps: Seq<KernelOffset>, radius: int, y: int, x: int)
    requires
        square_taps(taps, radius),
        mirrored(taps),
    ensures
        tap_at(taps, radius, -y, -x) == tap_at(taps, radius, y, x),
{
    if abs_of(y) <= radius && abs_of(x) <= radius {
        let w = 2 * radius + 1;
        let k = (y + radius) * w + (x + radius);
        assert(0 <= k < w * w) by (nonlinear_arith)
            requires
                k == (y + radius) * w + (x + radius),
                0 <= y + radius < w,
                0 <= x + radius < w,
        ;
        assert((-y + radius) * w + (-x + radius) == w * w - 1 - k) by (nonlinear_arith)
            requires
                k == (y + radius) * w + (x + radius),
                w == 2 * radius + 1,
        ;
        assert(taps[k].weight == taps[taps.len() - 1 - k].weight);
    }
}

/// The first `n` pairs at a displacement, and the last at the opposite one.
proof fn lemma_pair_floor_reversed(taps: Seq<KernelOffset>, radius: int, dy: int, dx: int, n: nat)
    requires
        square_taps(taps, radius),
        mirrored(taps),
        gentle(taps),
        n <= taps.len() <= i32::MAX,
    ensures
        pair_floor(taps, radius, dy, dx, n) + pair_floor(
            taps,
            radius,
            -dy,
            -dx,
            (taps.len() - n) as nat,
        ) == pair_floor(taps, radius, -dy, -dx, taps.len()),
    decreases n,
{
    if n > 0 {
        lemma_pair_floor_reversed(taps, radius, dy, dx, (n - 1) as nat);
        let k = n - 1;
        lemma_pair_floor_step(taps, radius, dy, dx, n);
        lemma_pair_floor_step(taps, radius, -dy, -dx, (taps.len() - k) as nat);
        lemma_opposite_tap(taps, radius, k);
        lemma_tap_at_mirrored(taps, radius, taps[k].dy - dy, taps[k].dx - dx);
        let j = taps.len() - 1 - k;
        assert(taps[j].dy - (-dy) == -(taps[k].dy - dy));
        assert(taps[j].dx - (-dx) == -(taps[k].dx - dx));
        assert(pair_term(taps, radius, -dy, -dx, j) == pair_term(taps, radius, dy, dx, k));
    }
}

/// The autocorrelation of a kernel that looks the same from both sides does so too.
pub proof fn law_pair_floor_symmetric(taps: Seq<KernelOffset>, radius: int, dy: int, dx: int)
    requires
        square_taps(taps, radius),
        mirrored(taps),
        gentle(taps),
        taps.len() <= i32::MAX,
    ensures
        pair_floor(taps, radius, dy, dx, taps.len()) == pair_floor(
            taps,
            radius,
            -dy,
            -dx,
            taps.len(),
        ),
{
    lemma_pair_floor_reversed(taps, radius, dy, dx, taps.len());
}

/// Pairs of weights between zero and one weigh between zero and one each.
pub proof fn lemma_pair_floor_small(taps: Seq<KernelOffset>, radius: int, dy: int, dx: int, n: nat)
    requires
        square_taps(taps, radius),
        forall|k: int| 0 <= k < taps.len() ==> 0 <= (#[trigger] taps[k]).weight <= 65536,
        n <= taps.len() <= i32::MAX,
    ensures
        0 <= pair_floor(taps, radius, dy, dx, n) <= 65536 * n,
    decreases n,
{
    if n > 0 {
        lemma_pair_floor_small(taps, radius, dy, dx, (n - 1) as nat);
        let a = taps[n - 1].weight as int;
        let y = taps[n - 1].dy - dy;
        let x = taps[n - 1].dx - dx;
        let b = tap_at(taps, radius, y, x);
        assert(0 <= b <= 65536) by {
            if abs_of(y) <= radius && abs_of(x) <= radius {
                let w = 2 * radius + 1;
                let k = (y + radius) * w + (x + radius);
                assert(0 <= k < w * w) by (nonlinear_arith)
                    requires
                        k == (y + radius) * w + (x + radius),
                        0 <= y + radius < w,
                        0 <= x + radius < w,
                ;
                assert(0 <= taps[k].weight <= 65536);
            }
        }
        assert(0 <= a * b <= 65536 * 65536) by (nonlinear_arith)
            requires
                0 <= a <= 65536,
                0 <= b <= 65536,
        ;
    }
}

} // verus!
