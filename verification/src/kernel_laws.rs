//! What the kernel holds: each tap once, and its weight where it is looked up.
use crate::context::{fits, lemma_margin, margin_of, placed, signed_stride, thresholded, DbsModel};
use crate::fixed::clamp32;
use crate::fold::{grid_fold, lemma_grid_index, lemma_grid_index_bound, row_fold};
use crate::kernel::{
    at, autocorr_at, autocorr_step, autocorr_taps, autocorr_width, distances_of, energy, kernel_of,
    kernel_span, kernel_taps, stored_taps, tap_index, weight_at, KernelOffset,
};
use crate::map_laws::mirrored;
use crate::plane::PlaneModel;
use vstd::arithmetic::div_mod::lemma_fundamental_div_mod;
use vstd::prelude::*;

verus! {

/// The taps of a square of half width `radius`, row by row.
pub open spec fn square_taps(taps: Seq<KernelOffset>, radius: int) -> bool {
    let n = 2 * radius + 1;
    &&& radius >= 0
    &&& taps.len() == n * n
    &&& forall|k: int|
        0 <= k < taps.len() ==> (#[trigger] taps[k]).dy == k / n - radius && taps[k].dx == k % n
            - radius
}

/// The number of a tap is that of its row times the width, plus that of its column.
pub proof fn lemma_tap_number(k: int, n: int)
    requires
        n > 0,
        0 <= k < n * n,
    ensures
        0 <= k / n < n,
        0 <= k % n < n,
        (k / n) * n + k % n == k,
{
    lemma_fundamental_div_mod(k, n);
    assert(n * (k / n) == (k / n) * n) by (nonlinear_arith);
    assert(k / n < n) by (nonlinear_arith)
        requires
            n > 0,
            k < n * n,
            n * (k / n) + k % n == k,
            k % n >= 0,
    ;
    assert(k / n >= 0) by (nonlinear_arith)
        requires
            n > 0,
            k >= 0,
            n * (k / n) + k % n == k,
            k % n < n,
    ;
}

/// The weight of the tap `(dy, dx)` lies at its number in the array.
pub proof fn lemma_tap_index(dy: int, dx: int, size: i32, radius: i32)
    requires
        size == 2 * radius + 1,
        radius >= 0,
        size * size <= i32::MAX,
        -radius <= dy <= radius,
        -radius <= dx <= radius,
    ensures
        tap_index(dy, dx, size, radius) == (dy + radius) * size + (dx + radius),
        0 <= tap_index(dy, dx, size, radius) < size * size,
        tap_index(dy, dx, size, radius) / size as int == dy + radius,
        tap_index(dy, dx, size, radius) % size as int == dx + radius,
{
    lemma_grid_index_bound(dy + radius, dx + radius, size as int, size as int);
    lemma_grid_index(dy + radius, dx + radius, size as int);
    assert((dy + radius) * size >= 0) by (nonlinear_arith)
        requires
            dy + radius >= 0,
            size >= 0,
    ;
    assert(clamp32(dy + radius) == dy + radius);
}

/// The array of a square kernel holds the weights of its taps, in their order.
pub proof fn lemma_stored_square(taps: Seq<KernelOffset>, size: i32, radius: i32, k: nat)
    requires
        square_taps(taps, radius as int),
        size == 2 * radius + 1,
        size * size <= i32::MAX,
        k <= taps.len(),
    ensures
        stored_taps(taps, size, radius, k) == Seq::new(
            taps.len(),
            |j: int|
                if j < k {
                    taps[j].weight
                } else {
                    0i64
                },
        ),
    decreases k,
{
    let want = Seq::new(
        taps.len(),
        |j: int|
            if j < k {
                taps[j].weight
            } else {
                0i64
            },
    );
    assert(size * size == (2 * radius + 1) * (2 * radius + 1));
    if k == 0 {
        assert(stored_taps(taps, size, radius, k) =~= want);
    } else {
        lemma_stored_square(taps, size, radius, (k - 1) as nat);
        let tap = taps[k - 1];
        lemma_tap_number(k - 1, size as int);
        lemma_tap_index(tap.dy as int, tap.dx as int, size, radius);
        assert(stored_taps(taps, size, radius, k) =~= want);
    }
}

/// The weights of taps, in their order.
pub open spec fn tap_weights(taps: Seq<KernelOffset>) -> Seq<i64> {
    Seq::new(taps.len(), |j: int| taps[j].weight)
}

/// The taps of a kernel are a square.
pub proof fn lemma_kernel_square(size: i32, weights: Seq<u64>)
    requires
        size >= 0,
    ensures
        square_taps(kernel_taps(weights, size), size as int / 2),
{
    let c = size as int / 2;
    let n = kernel_span(size) as int;
    let taps = kernel_taps(weights, size);
    assert(n == 2 * c + 1);
    assert(n * n >= 0) by (nonlinear_arith);
    assert forall|k: int| 0 <= k < taps.len() implies (#[trigger] taps[k]).dy == k / n - c
        && taps[k].dx == k % n - c by {
        lemma_tap_number(k, n);
    }
}

/// The taps of the autocorrelation are a square.
pub proof fn lemma_autocorr_square(flat: Seq<i64>, size: i32, center: i32)
    requires
        1 <= size,
    ensures
        square_taps(autocorr_taps(flat, size, center), autocorr_width(size) as int / 2),
{
    let r = autocorr_width(size) as int / 2;
    let n = kernel_span(autocorr_width(size)) as int;
    let taps = autocorr_taps(flat, size, center);
    assert(n == 2 * r + 1);
    assert(n * n >= 0) by (nonlinear_arith);
    assert forall|k: int| 0 <= k < taps.len() implies (#[trigger] taps[k]).dy == k / n - r
        && taps[k].dx == k % n - r by {
        lemma_tap_number(k, n);
    }
}

/// A kernel of an odd width holds each of its weights where it is looked up.
pub proof fn law_kernel_weights(size: i32, weights: Seq<u64>)
    requires
        1 <= size,
        size % 2 == 1,
        size * size <= i32::MAX,
    ensures
        kernel_of(size, weights).flat == tap_weights(kernel_of(size, weights).offsets),
        forall|dy: int, dx: int|
            -(size as int / 2) <= dy <= size as int / 2 && -(size as int / 2) <= dx <= size as int
                / 2 ==> #[trigger] at(
                kernel_of(size, weights).flat,
                tap_index(dy, dx, size, (size as int / 2) as i32),
            ) == weight_at(weights, (dy + size as int / 2) * size + (dx + size as int / 2)),
{
    let c = (size as int / 2) as i32;
    let taps = kernel_taps(weights, size);
    lemma_kernel_square(size, weights);
    lemma_stored_square(taps, size, c, taps.len());
    assert(kernel_of(size, weights).flat =~= tap_weights(taps));
    assert forall|dy: int, dx: int| -c <= dy <= c && -c <= dx <= c implies #[trigger] at(
        kernel_of(size, weights).flat,
        tap_index(dy, dx, size, c),
    ) == weight_at(weights, (dy + c) * size + (dx + c)) by {
        lemma_tap_index(dy, dx, size, c);
        assert(kernel_span(size) == size);
    }
}

/// A kernel holds its autocorrelation at each displacement where it is looked up.
pub proof fn law_autocorr_weights(size: i32, weights: Seq<u64>)
    requires
        1 <= size,
        autocorr_width(size) * autocorr_width(size) <= i32::MAX,
    ensures
        kernel_of(size, weights).autocorr == tap_weights(kernel_of(size, weights).autocorr_offsets),
        forall|dy: int, dx: int|
            -(size - 1) <= dy <= size - 1 && -(size - 1) <= dx <= size - 1 ==> #[trigger] at(
                kernel_of(size, weights).autocorr,
                tap_index(dy, dx, autocorr_width(size), (size - 1) as i32),
            ) == autocorr_at(
                kernel_of(size, weights).flat,
                size,
                (size as int / 2) as i32,
                dy,
                dx,
            ),
{
    let a = autocorr_width(size);
    lemma_size_bound(a as int);
    let r = (size - 1) as i32;
    let c = (size as int / 2) as i32;
    let flat = kernel_of(size, weights).flat;
    let taps = autocorr_taps(flat, size, c);
    assert(a == 2 * size - 1);
    assert(a as int / 2 == r);
    lemma_autocorr_square(flat, size, c);
    lemma_stored_square(taps, a, r, taps.len());
    assert(kernel_of(size, weights).autocorr =~= tap_weights(taps));
    assert forall|dy: int, dx: int| -r <= dy <= r && -r <= dx <= r implies #[trigger] at(
        kernel_of(size, weights).autocorr,
        tap_index(dy, dx, a, r),
    ) == autocorr_at(flat, size, c, dy, dx) by {
        lemma_tap_index(dy, dx, a, r);
        assert(kernel_span(a) == a);
    }
}

/// A number whose square fits a signed word of 32 bits is small.
pub proof fn lemma_size_bound(a: int)
    requires
        a * a <= i32::MAX,
    ensures
        -46340 <= a <= 46340,
{
    assert(-46340 <= a <= 46340) by (nonlinear_arith)
        requires
            a * a <= 0x7fff_ffff,
    ;
}

/// The sum of the squares of the weights up to the column `n` of a row.
proof fn lemma_energy_row(flat: Seq<i64>, size: i32, c: i32, y: int, n: nat)
    requires
        size == 2 * c + 1,
        c >= 0,
        size * size <= i32::MAX,
        flat.len() == size * size,
        0 <= y < size,
        n <= size,
    ensures
        0 <= y * size,
        y * size + n <= flat.len(),
        row_fold(
            autocorr_step(flat, size, c, 0, 0),
            energy(flat, (y * size) as nat),
            y - c,
            -c as int,
            n,
        ) == energy(flat, (y * size + n) as nat),
    decreases n,
{
    assert(0 <= y * size && y * size + size <= size * size) by (nonlinear_arith)
        requires
            0 <= y < size,
    ;
    if n > 0 {
        lemma_energy_row(flat, size, c, y, (n - 1) as nat);
        lemma_tap_index(y - c, n - 1 - c, size, c);
        let k = y * size + n - 1;
        assert(at(flat, tap_index(y - c, n - 1 - c, size, c)) == flat[k]);
        assert(clamp32(y - c - 0) == y - c);
        assert(clamp32(n - 1 - c - 0) == n - 1 - c);
        assert(((y * size + n) as nat - 1) as nat == (y * size + (n - 1)) as nat);
    }
}

/// The sum of the squares of the weights of the first `rows` rows.
proof fn lemma_energy_rows(flat: Seq<i64>, size: i32, c: i32, rows: nat)
    requires
        size == 2 * c + 1,
        c >= 0,
        size * size <= i32::MAX,
        flat.len() == size * size,
        rows <= size,
    ensures
        0 <= rows * size,
        grid_fold(
            autocorr_step(flat, size, c, 0, 0),
            0i64,
            -c as int,
            -c as int,
            rows,
            size as nat,
        ) == energy(flat, (rows * size) as nat),
    decreases rows,
{
    if rows > 0 {
        lemma_energy_rows(flat, size, c, (rows - 1) as nat);
        lemma_energy_row(flat, size, c, rows - 1, size as nat);
        assert((rows - 1) * size + size == rows * size) by (nonlinear_arith);
    } else {
        assert(rows * size == 0) by (nonlinear_arith)
            requires
                rows == 0,
        ;
    }
}

/// The energy of a kernel of an odd width is its autocorrelation where it is not displaced.
pub proof fn law_energy_is_autocorr(size: i32, weights: Seq<u64>)
    requires
        1 <= size,
        size % 2 == 1,
        size * size <= i32::MAX,
    ensures
        kernel_of(size, weights).c_pp == autocorr_at(
            kernel_of(size, weights).flat,
            size,
            (size as int / 2) as i32,
            0,
            0,
        ),
{
    let c = (size as int / 2) as i32;
    let flat = kernel_of(size, weights).flat;
    law_kernel_weights(size, weights);
    lemma_kernel_square(size, weights);
    assert(flat.len() == size * size);
    assert(clamp32(-c) == -c);
    lemma_energy_rows(flat, size, c, size as nat);
}

/// The taps of a square of half width `radius`, placed in an array with rows of `stride` entries.
pub open spec fn square_in_array(taps: Seq<KernelOffset>, radius: int, stride: int) -> bool {
    &&& square_taps(taps, radius)
    &&& forall|k: int|
        0 <= k < taps.len() ==> (#[trigger] taps[k]).offset == taps[k].dy * stride + taps[k].dx
}

impl DbsModel {
    /// The kernel is a square of an odd width, as is its autocorrelation, both placed in the
    /// arrays, and each weight lies where it is looked up.
    pub open spec fn regular(self) -> bool {
        &&& self.kernel_size >= 1
        &&& self.kernel_size % 2 == 1
        &&& self.kernel.autocorr_size * self.kernel.autocorr_size <= i32::MAX
        &&& square_in_array(
            self.kernel.offsets,
            self.kernel_radius as int,
            self.padded_width as int,
        )
        &&& square_in_array(
            self.kernel.autocorr_offsets,
            self.autocorr_radius() as int,
            self.padded_width as int,
        )
        &&& self.kernel.flat == tap_weights(self.kernel.offsets)
        &&& self.kernel.autocorr == tap_weights(self.kernel.autocorr_offsets)
    }
}

/// Taps that reach no farther than the margin can be placed without saturation.
pub proof fn lemma_placed(taps: Seq<KernelOffset>, radius: int, stride: usize, rows: int)
    requires
        square_taps(taps, radius),
        2 * radius <= rows,
        radius <= stride,
        stride * rows * 8 <= isize::MAX,
        stride <= isize::MAX || radius == 0,
    ensures
        square_in_array(placed(taps, signed_stride(stride)), radius, stride as int),
{
    let p = placed(taps, signed_stride(stride));
    let n = 2 * radius + 1;
    assert forall|k: int| 0 <= k < p.len() implies (#[trigger] p[k]).offset == p[k].dy * stride
        + p[k].dx && p[k].dy == k / n - radius && p[k].dx == k % n - radius by {
        lemma_tap_number(k, n);
        assert(taps[k].dy == k / n - radius);
        let dy = taps[k].dy as int;
        if radius == 0 {
            assert(dy == 0 && taps[k].dx == 0);
            assert(dy * stride == 0 && dy * signed_stride(stride) == 0) by (nonlinear_arith)
                requires
                    dy == 0,
            ;
        }
        assert(-(stride * rows) <= dy * stride <= stride * rows) by (nonlinear_arith)
            requires
                -radius <= dy <= radius,
                0 <= 2 * radius <= rows,
                stride >= 0,
        ;
        assert(stride * radius <= stride * rows) by (nonlinear_arith)
            requires
                0 <= radius <= rows,
                stride >= 0,
        ;
        assert(dy * stride + radius <= stride * rows * 8 && dy * stride - radius >= -(stride * rows
            * 8)) by (nonlinear_arith)
            requires
                -radius <= dy <= radius,
                0 <= 2 * radius <= rows,
                radius <= stride,
                -(stride * rows) <= dy * stride <= stride * rows,
        ;
    }
}

/// The sides of arrays that can be allocated are not too long for an index.
pub proof fn lemma_sides(width: u32, height: u32, size: i32)
    requires
        fits(width, height, size),
    ensures
        ({
            let pw = width + 2 * margin_of(size);
            let ph = height + 2 * margin_of(size);
            &&& 0 < pw <= usize::MAX
            &&& 0 <= ph <= isize::MAX
            &&& pw <= isize::MAX || margin_of(size) == 0
            &&& pw * ph >= 0
        }),
{
    lemma_margin(size);
    let pw = width + 2 * margin_of(size);
    let ph = height + 2 * margin_of(size);
    if ph > 0 {
        assert(pw <= pw * ph) by (nonlinear_arith)
            requires
                pw >= 0,
                ph > 0,
        ;
    }
    assert(ph <= pw * ph) by (nonlinear_arith)
        requires
            pw > 0,
            ph >= 0,
    ;
}

/// The context of a picture is regular, for a kernel of an odd width.
pub proof fn law_context_regular(img: PlaneModel, size: i32, weights: Seq<u64>)
    requires
        fits(img.width, img.height, size),
        1 <= size,
        size % 2 == 1,
        autocorr_width(size) * autocorr_width(size) <= i32::MAX,
    ensures
        thresholded(img, size, weights).with_error().with_e2().regular(),
{
    let m = thresholded(img, size, weights);
    let k = kernel_of(size, weights);
    let a = autocorr_width(size);
    let c = (size as int / 2) as i32;
    lemma_size_bound(a as int);
    lemma_margin(size);
    let p = margin_of(size);
    assert(p == size - 1);
    let pw = img.width + 2 * p;
    let ph = img.height + 2 * p;
    lemma_sides(img.width, img.height, size);
    assert(m.padded_width == pw && m.padded_height == ph);
    assert(size * size <= i32::MAX) by (nonlinear_arith)
        requires
            1 <= size <= 46340,
    ;
    law_kernel_weights(size, weights);
    law_autocorr_weights(size, weights);
    lemma_kernel_square(size, weights);
    lemma_autocorr_square(k.flat, size, c);
    lemma_placed(k.offsets, c as int, m.padded_width, ph);
    lemma_placed(k.autocorr_offsets, size - 1, m.padded_width, ph);
    assert(tap_weights(m.kernel.offsets) =~= tap_weights(k.offsets));
    assert(tap_weights(m.kernel.autocorr_offsets) =~= tap_weights(k.autocorr_offsets));
}

/// The weights look the same from both sides.
pub open spec fn mirrored_weights(weights: Seq<u64>, len: int) -> bool {
    &&& weights.len() == len
    &&& forall|k: int| 0 <= k < len ==> #[trigger] weights[k] == weights[len - 1 - k]
}

/// Two squared distances are equal for a tap and the one opposite to it, so weights that are a
/// function of the distance look the same from both sides.
pub proof fn law_distances_mirrored(size: i32, k: int)
    requires
        0 <= k < distances_of(size).len(),
    ensures
        distances_of(size)[k] == distances_of(size)[distances_of(size).len() - 1 - k],
{
    let n = kernel_span(size) as int;
    let c = size as int / 2;
    let len = distances_of(size).len();
    assert(n * n >= 0) by (nonlinear_arith);
    if n == 0 {
        assert(n * n == 0);
    }
    assert(n == 2 * c + 1);
    lemma_tap_number(k, n);
    lemma_opposite(k, n);
    let dy = k / n - c;
    let dx = k % n - c;
    assert((n * n - 1 - k) / n - c == -dy);
    assert((n * n - 1 - k) % n - c == -dx);
    assert((-dx) * (-dx) == dx * dx) by (nonlinear_arith);
    assert((-dy) * (-dy) == dy * dy) by (nonlinear_arith);
}

/// The tap opposite to one in a square.
pub proof fn lemma_opposite(k: int, n: int)
    requires
        n > 0,
        0 <= k < n * n,
    ensures
        (n * n - 1 - k) / n == n - 1 - k / n,
        (n * n - 1 - k) % n == n - 1 - k % n,
{
    lemma_tap_number(k, n);
    assert(n * n - 1 - k == (n - 1 - k / n) * n + (n - 1 - k % n)) by (nonlinear_arith)
        requires
            (k / n) * n + k % n == k,
    ;
    lemma_grid_index(n - 1 - k / n, n - 1 - k % n, n);
}

/// A kernel whose weights look the same from both sides has taps that do.
pub proof fn law_context_mirrored(img: PlaneModel, size: i32, weights: Seq<u64>)
    requires
        fits(img.width, img.height, size),
        1 <= size,
        size % 2 == 1,
        autocorr_width(size) * autocorr_width(size) <= i32::MAX,
        mirrored_weights(weights, size * size),
    ensures
        mirrored(thresholded(img, size, weights).with_error().with_e2().kernel.offsets),
{
    law_context_regular(img, size, weights);
    let m = thresholded(img, size, weights);
    let taps = m.kernel.offsets;
    let n = size as int;
    let c = size as int / 2;
    assert(kernel_span(size) == n);
    assert forall|k: int| 0 <= k < taps.len() implies (#[trigger] taps[k]).offset == -taps[taps.len()
        - 1 - k].offset && taps[k].weight == taps[taps.len() - 1 - k].weight by {
        let j = taps.len() - 1 - k;
        lemma_tap_number(k, n);
        lemma_opposite(k, n);
        assert(taps[j].dy == -taps[k].dy && taps[j].dx == -taps[k].dx);
        let dy = taps[k].dy as int;
        let stride = m.padded_width as int;
        assert((-dy) * stride == -(dy * stride)) by (nonlinear_arith);
        assert(weights[k] == weights[n * n - 1 - k]);
    }
}

} // verus!
