//! The kernel and its autocorrelation, tap by tap.
use crate::filter::{bumped, filter_sum, filtered_entry, scattered, Window};
use crate::fixed::{clamp32, clamp64, double_to_int, fmul};
use crate::fold::{grid_fold, lemma_grid_index, lemma_grid_index_bound, row_fold};
use crate::kernel::{
    autocorr_at, autocorr_step, autocorr_taps, autocorr_width, distances_of, energy, kernel_of,
    kernel_span, kernel_taps, stored_taps, tap_index, KernelOffset,
};
use crate::kernel_laws::{
    law_autocorr_weights, lemma_kernel_square, lemma_size_bound, lemma_tap_number,
};
use crate::sums::{lemma_total_grows, stays_in_word, sums_fit, total};
use vstd::prelude::*;

verus! {

/// The number of the tap `(dy, dx)` of a square that reaches `c` from its centre to each side.
pub open spec fn tap_number(dy: int, dx: int, c: int) -> int {
    (dy + c) * (2 * c + 1) + (dx + c)
}

/// An entry of an array, and zero where there is none.
pub open spec fn held(s: Seq<i64>, i: int) -> i64 {
    if 0 <= i < s.len() {
        s[i]
    } else {
        0
    }
}

/// Every tap of a square has a number, and taps have different ones.
pub proof fn lemma_numbered(dy: int, dx: int, c: int)
    requires
        -c <= dy <= c,
        -c <= dx <= c,
    ensures
        0 <= tap_number(dy, dx, c) < (2 * c + 1) * (2 * c + 1),
        tap_number(dy, dx, c) / (2 * c + 1) == dy + c,
        tap_number(dy, dx, c) % (2 * c + 1) == dx + c,
{
    lemma_grid_index_bound(dy + c, dx + c, 2 * c + 1, 2 * c + 1);
    lemma_grid_index(dy + c, dx + c, 2 * c + 1);
}

/// The distance that is listed for a tap is the squared distance from the centre, by the theorem of
/// Pythagoras, or the largest short integer where that is less.
pub proof fn law_distance_of_tap(size: i32, dy: int, dx: int)
    requires
        size >= 0,
        -(size as int / 2) <= dy <= size as int / 2,
        -(size as int / 2) <= dx <= size as int / 2,
    ensures
        ({
            let c = size as int / 2;
            let d = distances_of(size);
            &&& d.len() == (2 * c + 1) * (2 * c + 1)
            &&& 0 <= tap_number(dy, dx, c) < d.len()
            &&& dx * dx + dy * dy <= 32767 ==> d[tap_number(dy, dx, c)] == dx * dx + dy * dy
            &&& dx * dx + dy * dy > 32767 ==> d[tap_number(dy, dx, c)] == 32767
        }),
{
    let c = size as int / 2;
    lemma_numbered(dy, dx, c);
    assert(kernel_span(size) == 2 * c + 1);
    assert(dx * dx >= 0 && dy * dy >= 0) by (nonlinear_arith);
}

/// Distances do not tell rows from columns, nor left from right, nor above from below.
pub proof fn law_distances_look_the_same(size: i32, dy: int, dx: int)
    requires
        size >= 0,
        -(size as int / 2) <= dy <= size as int / 2,
        -(size as int / 2) <= dx <= size as int / 2,
    ensures
        ({
            let c = size as int / 2;
            let d = distances_of(size);
            &&& d[tap_number(dy, dx, c)] == d[tap_number(dx, dy, c)]
            &&& d[tap_number(dy, dx, c)] == d[tap_number(-dy, dx, c)]
            &&& d[tap_number(dy, dx, c)] == d[tap_number(dy, -dx, c)]
        }),
{
    law_distance_of_tap(size, dy, dx);
    law_distance_of_tap(size, dx, dy);
    law_distance_of_tap(size, -dy, dx);
    law_distance_of_tap(size, dy, -dx);
    assert((-dx) * (-dx) == dx * dx && (-dy) * (-dy) == dy * dy) by (nonlinear_arith);
}

/// A kernel has a tap at every displacement up to its half width, row by row. It weighs what the
/// double with its number says, and nothing where there is no such double.
pub proof fn law_tap_of_kernel(size: i32, weights: Seq<u64>, dy: int, dx: int)
    requires
        -(size as int / 2) <= dy <= size as int / 2,
        -(size as int / 2) <= dx <= size as int / 2,
    ensures
        ({
            let c = size as int / 2;
            let k = tap_number(dy, dx, c);
            let taps = kernel_of(size, weights).offsets;
            &&& taps.len() == (2 * c + 1) * (2 * c + 1)
            &&& 0 <= k < taps.len()
            &&& taps[k].dy == dy
            &&& taps[k].dx == dx
            &&& k < weights.len() ==> taps[k].weight == double_to_int(weights[k])
            &&& k >= weights.len() ==> taps[k].weight == 0
        }),
{
    let c = size as int / 2;
    lemma_numbered(dy, dx, c);
    assert(kernel_span(size) == 2 * c + 1);
}

/// Kernels of a negative width have no taps. Those whose width is not positive weigh nothing where
/// they are looked up, and have no autocorrelation.
pub proof fn law_no_width(size: i32, weights: Seq<u64>, i: int)
    requires
        size <= 0,
    ensures
        ({
            let kernel = kernel_of(size, weights);
            &&& size < 0 ==> distances_of(size).len() == 0
            &&& size < 0 ==> kernel.offsets.len() == 0
            &&& kernel.autocorr_offsets.len() == 0
            &&& 0 <= i < kernel.flat.len() ==> kernel.flat[i] == 0
            &&& 0 <= i < kernel.autocorr.len() ==> kernel.autocorr[i] == 0
            &&& kernel.c_pp == 0
        }),
{
    let kernel = kernel_of(size, weights);
    let a = kernel_span(autocorr_width(size)) as int;
    let n = kernel_span(size) as int;
    assert(a == 0);
    assert(a * a == 0) by (nonlinear_arith)
        requires
            a == 0,
    ;
    if size < 0 {
        assert(n * n == 0) by (nonlinear_arith)
            requires
                n == 0,
        ;
    } else {
        assert(n * n == 1) by (nonlinear_arith)
            requires
                n == 1,
        ;
        assert(size * size == 0);
        reveal_with_fuel(stored_taps, 2);
        assert(kernel.flat.len() == 0);
    }
    lemma_zero_energy(kernel.flat, kernel.flat.len());
}

/// Weights of zero have no energy.
proof fn lemma_zero_energy(flat: Seq<i64>, n: nat)
    requires
        n <= flat.len(),
        forall|i: int| 0 <= i < flat.len() ==> flat[i] == 0,
    ensures
        energy(flat, n) == 0,
    decreases n,
{
    if n > 0 {
        lemma_zero_energy(flat, (n - 1) as nat);
        assert(fmul(0, 0) == 0);
    }
}

/// Where the weight of a tap is looked up: row by row, in rows of the width of the kernel. What lies
/// before the first entry is looked up there.
pub proof fn law_tap_index(dy: int, dx: int, size: i32, radius: i32)
    requires
        i32::MIN <= dy + radius <= i32::MAX,
        i32::MIN <= dx + radius <= i32::MAX,
        i32::MIN <= (dy + radius) * size <= i32::MAX,
        (dy + radius) * size + (dx + radius) <= i32::MAX,
    ensures
        ({
            let i = (dy + radius) * size + (dx + radius);
            &&& i >= 0 ==> tap_index(dy, dx, size, radius) == i
            &&& i < 0 ==> tap_index(dy, dx, size, radius) == 0
        }),
{
    assert(clamp32(dy + radius) == dy + radius);
}

/// The autocorrelation is twice as wide as the kernel, less one.
pub proof fn law_autocorr_width(size: i32)
    ensures
        -0x4000_0000 < size < 0x4000_0000 ==> autocorr_width(size) == 2 * size - 1,
        size >= 0x4000_0000 ==> autocorr_width(size) == 0x7fff_fffe,
        size <= -0x4000_0000 ==> autocorr_width(size) == -0x8000_0000,
{
}

/// An array of weights holds in each entry the weight of the last tap that belongs there, and zero
/// where none does.
#[verifier::rlimit(50)]
pub proof fn law_last_tap_is_stored(
    taps: Seq<KernelOffset>,
    size: i32,
    radius: i32,
    n: nat,
    i: int,
)
    requires
        0 <= size,
        size * size <= i32::MAX,
        n <= taps.len(),
        0 <= i < size * size,
    ensures
        stored_taps(taps, size, radius, n).len() == size * size,
        (forall|k: int|
            0 <= k < n ==> tap_index(
                (#[trigger] taps[k]).dy as int,
                taps[k].dx as int,
                size,
                radius,
            ) != i) ==> stored_taps(taps, size, radius, n)[i] == 0,
        forall|k: int|
            #![trigger taps[k]]
            0 <= k < n && tap_index(taps[k].dy as int, taps[k].dx as int, size, radius) == i && (
            forall|j: int|
                k < j < n ==> tap_index(
                    (#[trigger] taps[j]).dy as int,
                    taps[j].dx as int,
                    size,
                    radius,
                ) != i) ==> stored_taps(taps, size, radius, n)[i] == taps[k].weight,
    decreases n,
{
    if n > 0 {
        law_last_tap_is_stored(taps, size, radius, (n - 1) as nat, i);
        let tap = taps[n - 1];
        let j = tap_index(tap.dy as int, tap.dx as int, size, radius);
        if j != i {
            assert(stored_taps(taps, size, radius, n)[i] == stored_taps(
                taps,
                size,
                radius,
                (n - 1) as nat,
            )[i]);
            assert forall|k: int|
                #![trigger taps[k]]
                0 <= k < n && tap_index(taps[k].dy as int, taps[k].dx as int, size, radius) == i
                    && (forall|j: int|
                    k < j < n ==> tap_index(
                        (#[trigger] taps[j]).dy as int,
                        taps[j].dx as int,
                        size,
                        radius,
                    ) != i) implies stored_taps(taps, size, radius, n)[i] == taps[k].weight by {
                assert(k < n - 1);
            }
        }
    }
}

/// The squares of weights.
pub open spec fn square_terms(flat: Seq<i64>) -> spec_fn(int) -> int {
    |k: int| fmul(flat[k], flat[k]) as int
}

/// The energy of a kernel is the sum of the squares of its weights, or the largest number of the
/// word where that is less.
pub proof fn law_energy_is_sum(flat: Seq<i64>, n: nat)
    requires
        n <= flat.len(),
    ensures
        total(square_terms(flat), n) <= i64::MAX ==> energy(flat, n) == total(
            square_terms(flat),
            n,
        ),
        total(square_terms(flat), n) > i64::MAX ==> energy(flat, n) == i64::MAX,
    decreases n,
{
    let f = square_terms(flat);
    assert forall|k: int| 0 <= k < n implies #[trigger] f(k) >= 0 by {
        let w = flat[k];
        assert(w * w >= 0) by (nonlinear_arith);
    }
    if n > 0 {
        lemma_total_grows(f, (n - 1) as nat, n);
        law_energy_is_sum(flat, (n - 1) as nat);
        assert(f(n - 1) >= 0);
    }
}

/// What is added to the autocorrelation at the displacement `(dy, dx)` for the tap number `k`: the
/// product of its weight with that of the tap that lies the displacement before it, if there is
/// one. `flat` holds the weights in rows of `size`.
pub open spec fn overlap_term(
    flat: Seq<i64>,
    size: int,
    c: int,
    dy: int,
    dx: int,
    k: int,
) -> int {
    let y = k / (2 * c + 1);
    let x = k % (2 * c + 1);
    if 0 <= y - dy <= 2 * c && 0 <= x - dx <= 2 * c {
        fmul(held(flat, y * size + x), held(flat, (y - dy) * size + (x - dx))) as int
    } else {
        0
    }
}

/// What is added to the autocorrelation, for each tap.
pub open spec fn overlap_terms(
    flat: Seq<i64>,
    size: int,
    c: int,
    dy: int,
    dx: int,
) -> spec_fn(int) -> int {
    |k: int| overlap_term(flat, size, c, dy, dx, k)
}

/// One step of the autocorrelation adds the term of its tap.
proof fn lemma_term(flat: Seq<i64>, size: i32, c: i32, dy: int, dx: int, y: int, x: int, sum: i64)
    requires
        c >= 0,
        0 <= size,
        2 * c * size + 2 * c <= i32::MAX,
        -i32::MAX / 2 < dy < i32::MAX / 2,
        -i32::MAX / 2 < dx < i32::MAX / 2,
        c <= 0x2000_0000,
        0 <= y <= 2 * c,
        0 <= x <= 2 * c,
    ensures
        ({
            let k = y * (2 * c + 1) + x;
            let t = overlap_term(flat, size as int, c as int, dy, dx, k);
            &&& t != 0 ==> (autocorr_step(flat, size, c, dy, dx))(sum, y - c, x - c) == clamp64(
                sum + t,
            )
            &&& t == 0 ==> (autocorr_step(flat, size, c, dy, dx))(sum, y - c, x - c) == sum
        }),
{
    lemma_grid_index(y, x, 2 * c + 1);
    assert(0 <= y * size <= 2 * c * size) by (nonlinear_arith)
        requires
            0 <= y <= 2 * c,
            0 <= size,
    ;
    law_tap_index(y - c, x - c, size, c);
    assert(clamp32(-c) == -c);
    assert(clamp32(y - c - dy) == y - c - dy);
    assert(clamp32(x - c - dx) == x - c - dx);
    if 0 <= y - dy <= 2 * c && 0 <= x - dx <= 2 * c {
        assert(0 <= (y - dy) * size <= 2 * c * size) by (nonlinear_arith)
            requires
                0 <= y - dy <= 2 * c,
                0 <= size,
        ;
        law_tap_index(y - c - dy, x - c - dx, size, c);
    }
}

/// The autocorrelation up to a column of a row.
proof fn lemma_overlap_row(
    flat: Seq<i64>,
    size: i32,
    c: i32,
    dy: int,
    dx: int,
    y: int,
    n: nat,
)
    requires
        c >= 0,
        0 <= size,
        2 * c * size + 2 * c <= i32::MAX,
        -i32::MAX / 2 < dy < i32::MAX / 2,
        -i32::MAX / 2 < dx < i32::MAX / 2,
        c <= 0x2000_0000,
        0 <= y <= 2 * c,
        n <= 2 * c + 1,
        sums_fit(
            overlap_terms(flat, size as int, c as int, dy, dx),
            ((2 * c + 1) * (2 * c + 1)) as nat,
        ),
    ensures
        ({
            let f = overlap_terms(flat, size as int, c as int, dy, dx);
            let w = 2 * c + 1;
            &&& 0 <= y * w && y * w + n <= w * w
            &&& row_fold(
                autocorr_step(flat, size, c, dy, dx),
                total(f, (y * w) as nat) as i64,
                y - c,
                -c as int,
                n,
            ) == total(f, (y * w + n) as nat)
        }),
    decreases n,
{
    let f = overlap_terms(flat, size as int, c as int, dy, dx);
    let w = 2 * c + 1;
    assert(0 <= y * w && y * w + w <= w * w) by (nonlinear_arith)
        requires
            0 <= y <= w - 1,
    ;
    assert(i64::MIN <= total(f, (y * w) as nat) <= i64::MAX);
    if n > 0 {
        lemma_overlap_row(flat, size, c, dy, dx, y, (n - 1) as nat);
        let before = total(f, (y * w + (n - 1)) as nat);
        assert(i64::MIN <= total(f, (y * w + (n - 1)) as nat) <= i64::MAX);
        assert(i64::MIN <= total(f, (y * w + n) as nat) <= i64::MAX);
        lemma_term(flat, size, c, dy, dx, y, n - 1, before as i64);
        assert(((y * w + n) as nat - 1) as nat == (y * w + (n - 1)) as nat);
        assert(f(y * w + (n - 1)) == overlap_term(
            flat,
            size as int,
            c as int,
            dy,
            dx,
            y * w + (n - 1),
        ));
    }
}

/// The autocorrelation over the first rows.
proof fn lemma_overlap_rows(
    flat: Seq<i64>,
    size: i32,
    c: i32,
    dy: int,
    dx: int,
    rows: nat,
)
    requires
        c >= 0,
        0 <= size,
        2 * c * size + 2 * c <= i32::MAX,
        -i32::MAX / 2 < dy < i32::MAX / 2,
        -i32::MAX / 2 < dx < i32::MAX / 2,
        c <= 0x2000_0000,
        rows <= 2 * c + 1,
        sums_fit(
            overlap_terms(flat, size as int, c as int, dy, dx),
            ((2 * c + 1) * (2 * c + 1)) as nat,
        ),
    ensures
        ({
            let f = overlap_terms(flat, size as int, c as int, dy, dx);
            let w = (2 * c + 1) as nat;
            &&& 0 <= rows * w <= w * w
            &&& grid_fold(
                autocorr_step(flat, size, c, dy, dx),
                0i64,
                -c as int,
                -c as int,
                rows,
                w,
            ) == total(f, (rows * w) as nat)
        }),
    decreases rows,
{
    let f = overlap_terms(flat, size as int, c as int, dy, dx);
    let w = 2 * c + 1;
    assert(0 <= rows * w <= w * w) by (nonlinear_arith)
        requires
            0 <= rows <= w,
    ;
    if rows > 0 {
        lemma_overlap_rows(flat, size, c, dy, dx, (rows - 1) as nat);
        lemma_overlap_row(flat, size, c, dy, dx, rows - 1, w as nat);
        assert((rows - 1) * w + w == rows * w) by (nonlinear_arith);
        assert(i64::MIN <= total(f, ((rows - 1) * w) as nat) <= i64::MAX);
    } else {
        assert(rows * w == 0) by (nonlinear_arith)
            requires
                rows == 0,
        ;
    }
}

/// The autocorrelation of a kernel at a displacement is the sum, over all its taps, of the products
/// of their weights with those of the taps that lie the displacement before them, unless a sum
/// saturates on the way.
pub proof fn law_autocorr_is_sum(flat: Seq<i64>, size: i32, c: i32, dy: int, dx: int)
    requires
        0 <= c <= 0x2000_0000,
        0 <= size,
        2 * c * size + 2 * c <= i32::MAX,
        -i32::MAX / 2 < dy < i32::MAX / 2,
        -i32::MAX / 2 < dx < i32::MAX / 2,
        sums_fit(
            overlap_terms(flat, size as int, c as int, dy, dx),
            ((2 * c + 1) * (2 * c + 1)) as nat,
        ),
    ensures
        autocorr_at(flat, size, c, dy, dx) == total(
            overlap_terms(flat, size as int, c as int, dy, dx),
            ((2 * c + 1) * (2 * c + 1)) as nat,
        ),
{
    assert(clamp32(-c) == -c);
    lemma_overlap_rows(flat, size, c, dy, dx, (2 * c + 1) as nat);
}

/// The autocorrelation of weights has a tap at every displacement that is less than the width, row
/// by row.
pub proof fn law_taps_of_weights(flat: Seq<i64>, size: i32, c: i32, dy: int, dx: int)
    requires
        1 <= size < 0x4000_0000,
        -(size - 1) <= dy <= size - 1,
        -(size - 1) <= dx <= size - 1,
    ensures
        ({
            let k = tap_number(dy, dx, size - 1);
            let taps = autocorr_taps(flat, size, c);
            &&& taps.len() == (2 * size - 1) * (2 * size - 1)
            &&& 0 <= k < taps.len()
            &&& taps[k].dy == dy
            &&& taps[k].dx == dx
            &&& taps[k].weight == autocorr_at(flat, size, c, dy, dx)
        }),
{
    lemma_numbered(dy, dx, size - 1);
    let n = kernel_span(autocorr_width(size)) as int;
    assert(n == 2 * size - 1);
    assert(2 * (size - 1) + 1 == n);
    assert(n * n == (2 * (size - 1) + 1) * (2 * (size - 1) + 1));
    assert(n * n == (2 * size - 1) * (2 * size - 1));
}

/// The autocorrelation of a kernel has a tap at every displacement at which the kernel and its copy
/// overlap, and is twice as wide as the kernel, less one.
pub proof fn law_tap_of_autocorr(size: i32, weights: Seq<u64>, dy: int, dx: int)
    requires
        1 <= size < 0x4000_0000,
        -(size - 1) <= dy <= size - 1,
        -(size - 1) <= dx <= size - 1,
    ensures
        ({
            let k = tap_number(dy, dx, size - 1);
            let kernel = kernel_of(size, weights);
            &&& kernel.autocorr_size == 2 * size - 1
            &&& kernel.autocorr_offsets.len() == (2 * size - 1) * (2 * size - 1)
            &&& 0 <= k < kernel.autocorr_offsets.len()
            &&& kernel.autocorr_offsets[k].dy == dy
            &&& kernel.autocorr_offsets[k].dx == dx
            &&& kernel.autocorr_offsets[k].weight == autocorr_at(
                kernel.flat,
                size,
                (size as int / 2) as i32,
                dy,
                dx,
            )
        }),
{
    law_taps_of_weights(kernel_of(size, weights).flat, size, (size as int / 2) as i32, dy, dx);
}

/// The array of a kernel holds, in its rows, the weights of its taps from the first column and the
/// first row on: all of them for an odd width, and all but the last row and column for an even one.
pub proof fn law_array_of_kernel(size: i32, weights: Seq<u64>, y: int, x: int)
    requires
        1 <= size,
        size * size <= i32::MAX,
        0 <= y < size,
        0 <= x < size,
    ensures
        ({
            let c = size as int / 2;
            let kernel = kernel_of(size, weights);
            &&& kernel.flat.len() == size * size
            &&& 0 <= y * size + x < size * size
            &&& kernel.flat[y * size + x] == kernel.offsets[tap_number(y - c, x - c, c)].weight
        }),
{
    let c = size as int / 2;
    let n = 2 * c + 1;
    let r = c as i32;
    let taps = kernel_taps(weights, size);
    let k = tap_number(y - c, x - c, c);
    let i = y * size + x;
    lemma_kernel_square(size, weights);
    lemma_numbered(y - c, x - c, c);
    lemma_grid_index_bound(y, x, size as int, size as int);
    lemma_size_bound(size as int);
    assert(y * size >= 0) by (nonlinear_arith)
        requires
            y >= 0,
            size >= 1,
    ;
    law_tap_index(y - c, x - c, size, r);
    assert forall|j: int| k < j < taps.len() implies tap_index(
        (#[trigger] taps[j]).dy as int,
        taps[j].dx as int,
        size,
        r,
    ) != i by {
        lemma_tap_number(j, n);
        let v = j / n;
        let u = j % n;
        assert(taps[j].dy == v - c && taps[j].dx == u - c);
        assert(0 <= v * size <= size * size) by (nonlinear_arith)
            requires
                0 <= v <= size,
                size >= 1,
        ;
        assert(v > y || (v == y && u > x)) by (nonlinear_arith)
            requires
                v * n + u == j,
                y * n + x == k,
                k < j,
                0 <= u < n,
                0 <= x < n,
        ;
        assert(v * size + u > y * size + x) by (nonlinear_arith)
            requires
                v > y || (v == y && u > x),
                0 <= u,
                0 <= x < size,
        ;
        assert(clamp32(v * size) == v * size || v * size > i32::MAX);
        assert(v - c + r == v && u - c + r == u);
    }
    law_last_tap_is_stored(taps, size, r, taps.len(), i);
}

/// The energy of a kernel is the sum of the squares of the weights in its array, and the array of
/// its autocorrelation holds the weights of the taps of the autocorrelation.
pub proof fn law_energy_of_kernel(size: i32, weights: Seq<u64>, dy: int, dx: int)
    requires
        1 <= size,
        (2 * size - 1) * (2 * size - 1) <= i32::MAX,
        -(size - 1) <= dy <= size - 1,
        -(size - 1) <= dx <= size - 1,
    ensures
        ({
            let kernel = kernel_of(size, weights);
            let k = tap_number(dy, dx, size - 1);
            &&& kernel.c_pp <= total(square_terms(kernel.flat), kernel.flat.len())
            &&& kernel.c_pp < i64::MAX ==> kernel.c_pp == total(
                square_terms(kernel.flat),
                kernel.flat.len(),
            )
            &&& kernel.autocorr.len() == (2 * size - 1) * (2 * size - 1)
            &&& 0 <= k < kernel.autocorr.len()
            &&& kernel.autocorr[k] == kernel.autocorr_offsets[k].weight
        }),
{
    let kernel = kernel_of(size, weights);
    lemma_size_bound(2 * size - 1);
    law_autocorr_weights(size, weights);
    law_tap_of_autocorr(size, weights, dy, dx);
    law_energy_is_sum(kernel.flat, kernel.flat.len());
}

/// What a filtered entry is made of: for each tap, what lies under it, times its weight.
pub open spec fn filter_terms(
    src: Seq<i64>,
    taps: Seq<KernelOffset>,
    c: int,
) -> spec_fn(int) -> int {
    |k: int| fmul(held(src, c + taps[k].offset), taps[k].weight) as int
}

/// A filtered entry is the sum of the entries under the taps, each times the weight of its tap,
/// unless a sum saturates on the way. A tap outside of the array adds nothing.
pub proof fn law_filter_is_sum(src: Seq<i64>, taps: Seq<KernelOffset>, c: int, n: nat)
    requires
        n <= taps.len(),
        sums_fit(filter_terms(src, taps, c), n),
    ensures
        filter_sum(src, taps, c, n) == total(filter_terms(src, taps, c), n),
    decreases n,
{
    let f = filter_terms(src, taps, c);
    if n > 0 {
        law_filter_is_sum(src, taps, c, (n - 1) as nat);
        assert(i64::MIN <= total(f, n) <= i64::MAX);
        let w = taps[n - 1].weight;
        assert(0 * w == 0);
        assert(fmul(0, w) == 0);
    }
}

/// What the taps around `c` add to the entry `i` when the pixel there changes by `change`.
pub open spec fn scatter_terms(
    taps: Seq<KernelOffset>,
    c: int,
    change: i64,
    i: int,
) -> spec_fn(int) -> int {
    |k: int|
        if c + taps[k].offset == i {
            fmul(change, taps[k].weight) as int
        } else {
            0
        }
}

/// Scattering a change adds to each entry the change, times the weight of the tap, for every tap
/// that leads there, as long as the word holds the sums.
pub proof fn law_scatter_is_sum(
    map: Seq<i64>,
    taps: Seq<KernelOffset>,
    c: int,
    change: i64,
    n: nat,
    i: int,
)
    requires
        n <= taps.len(),
        0 <= i < map.len(),
        stays_in_word(map[i] as int, scatter_terms(taps, c, change, i), n),
    ensures
        scattered(map, taps, c, change, n).len() == map.len(),
        scattered(map, taps, c, change, n)[i] == map[i] + total(
            scatter_terms(taps, c, change, i),
            n,
        ),
    decreases n,
{
    let f = scatter_terms(taps, c, change, i);
    if n > 0 {
        law_scatter_is_sum(map, taps, c, change, (n - 1) as nat, i);
        assert(i64::MIN <= map[i] + total(f, n) <= i64::MAX);
        assert(f(n - 1) == (if c + taps[n - 1].offset == i {
            fmul(change, taps[n - 1].weight) as int
        } else {
            0
        }));
    }
}

/// Filtering changes the entries inside of the window, and no others.
pub proof fn law_window_is_filtered(
    before: i64,
    src: Seq<i64>,
    taps: Seq<KernelOffset>,
    stride: int,
    window: Window,
    y: int,
    x: int,
)
    requires
        0 <= x < stride,
    ensures
        ({
            let after = filtered_entry(before, src, taps, stride, window, y * stride + x);
            &&& y < window.min_y || y >= window.max_y || x < window.min_x || x >= window.max_x
                ==> after == before
            &&& window.min_y <= y < window.max_y && window.min_x <= x < window.max_x && sums_fit(
                filter_terms(src, taps, y * stride + x),
                taps.len(),
            ) ==> after == total(filter_terms(src, taps, y * stride + x), taps.len())
        }),
{
    lemma_grid_index(y, x, stride);
    let i = y * stride + x;
    if sums_fit(filter_terms(src, taps, i), taps.len()) {
        law_filter_is_sum(src, taps, i, taps.len());
    }
}

/// Adding to an entry adds to it, as long as the word holds the sum, and to no other.
pub proof fn law_entry_is_bumped(map: Seq<i64>, i: int, delta: i64, j: int)
    requires
        0 <= j < map.len(),
    ensures
        bumped(map, i, delta).len() == map.len(),
        i != j ==> bumped(map, i, delta)[j] == map[j],
        i == j && i64::MIN <= map[j] + delta <= i64::MAX ==> bumped(map, i, delta)[j] == map[j]
            + delta,
        i == j && map[j] + delta > i64::MAX ==> bumped(map, i, delta)[j] == i64::MAX,
        i == j && map[j] + delta < i64::MIN ==> bumped(map, i, delta)[j] == i64::MIN,
{
}

} // verus!
