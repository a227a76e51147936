//! Filtering of padded arrays, row by row and in parallel.
use crate::fixed::{clamp64, fixed_mul, fmul, sat_add64, sat_sub64};
use crate::fold::lemma_grid_index;
use crate::kernel::KernelOffset;
use rayon::iter::{IndexedParallelIterator, IntoParallelRefIterator, ParallelIterator};
use rayon::slice::ParallelSliceMut;
use vstd::prelude::*;

verus! {

/// A rectangle of rows and columns; the upper bounds lie outside of it.
#[derive(Debug, Clone, Copy)]
pub struct Window {
    pub min_y: usize,
    pub max_y: usize,
    pub min_x: usize,
    pub max_x: usize,
}

impl Window {
    /// Whether the window holds the point in row `y` and column `x`.
    pub open spec fn has(self, y: int, x: int) -> bool {
        self.min_y <= y < self.max_y && self.min_x <= x < self.max_x
    }
}

/// The saturated sum of the entries of `src` under the first `n` taps around `center`, each
/// times the weight of its tap. A tap outside of the array adds nothing.
pub open spec fn filter_sum(src: Seq<i64>, taps: Seq<KernelOffset>, center: int, n: nat) -> i64
    decreases n,
{
    if n == 0 {
        0
    } else {
        let sum = filter_sum(src, taps, center, (n - 1) as nat);
        let j = center + taps[n - 1].offset;
        if 0 <= j < src.len() {
            clamp64(sum + fmul(src[j], taps[n - 1].weight))
        } else {
            sum
        }
    }
}

/// The entry `i` of an array after filtering: the filtered `src` inside of the window, and what
/// was there outside of it.
pub open spec fn filtered_entry(
    before: i64,
    src: Seq<i64>,
    taps: Seq<KernelOffset>,
    stride: int,
    window: Window,
    i: int,
) -> i64 {
    if window.has(i / stride, i % stride) {
        filter_sum(src, taps, i, taps.len())
    } else {
        before
    }
}

/// The array index of the tap that lies `offset` from `center`, if it lies in an array of `len`
/// entries.
pub fn tap_position(center: isize, offset: isize, len: usize) -> (r: Option<usize>)
    requires
        center >= 0,
        len <= isize::MAX,
    ensures
        r == (if 0 <= center + offset < len {
            Some((center + offset) as usize)
        } else {
            None
        }),
{
    let j: isize = center.wrapping_add(offset);
    if j >= 0 && (j as usize) < len {
        Some(j as usize)
    } else {
        None
    }
}

/// `map` with `delta` added to its entry at `i`, where there is such an entry; the sum saturates.
pub open spec fn bumped(map: Seq<i64>, i: int, delta: i64) -> Seq<i64> {
    if 0 <= i < map.len() {
        map.update(i, clamp64(map[i] + delta))
    } else {
        map
    }
}

/// Adds `delta` to the entry of `map` at `i`, where there is such an entry.
pub fn bump(map: &mut Vec<i64>, i: usize, delta: i64)
    ensures
        final(map)@ == bumped(old(map)@, i as int, delta),
{
    if i < map.len() {
        let v: i64 = sat_add64(map[i], delta);
        map.set(i, v);
    }
}

/// `map` once `change`, times the weight of the tap, is added under the first `n` taps around
/// `center`.
pub open spec fn scattered(
    map: Seq<i64>,
    taps: Seq<KernelOffset>,
    center: int,
    change: i64,
    n: nat,
) -> Seq<i64>
    decreases n,
{
    if n == 0 {
        map
    } else {
        bumped(
            scattered(map, taps, center, change, (n - 1) as nat),
            center + taps[n - 1].offset,
            fmul(change, taps[n - 1].weight),
        )
    }
}

/// See `scattered`.
pub fn scatter(map: &mut Vec<i64>, taps: &[KernelOffset], center: isize, change: i64)
    requires
        center >= 0,
        old(map)@.len() <= isize::MAX,
    ensures
        final(map)@ == scattered(old(map)@, taps@, center as int, change, taps@.len()),
        final(map)@.len() == old(map)@.len(),
{
    let ghost before = map@;
    let mut n: usize = 0;
    while n < taps.len()
        invariant
            n <= taps@.len(),
            center >= 0,
            map@.len() == before.len() <= isize::MAX,
            map@ == scattered(before, taps@, center as int, change, n as nat),
        decreases taps@.len() - n,
    {
        match tap_position(center, taps[n].offset, map.len()) {
            Some(j) => {
                bump(map, j, fixed_mul(change, taps[n].weight));
            },
            None => {},
        }
        n = n + 1;
    }
}

/// See `filter_sum`.
fn filter_at(src: &[i64], taps: &[KernelOffset], center: usize) -> (r: i64)
    requires
        center <= isize::MAX,
        src@.len() <= isize::MAX,
    ensures
        r == filter_sum(src@, taps@, center as int, taps@.len()),
{
    let mut sum: i64 = 0;
    let mut n: usize = 0;
    while n < taps.len()
        invariant
            n <= taps@.len(),
            center <= isize::MAX,
            src@.len() <= isize::MAX,
            sum == filter_sum(src@, taps@, center as int, n as nat),
        decreases taps@.len() - n,
    {
        match tap_position(center as isize, taps[n].offset, src.len()) {
            Some(j) => {
                sum = sat_add64(sum, fixed_mul(src[j], taps[n].weight));
            },
            None => {},
        }
        n = n + 1;
    }
    sum
}

/// Sets an entry of a slice.
fn set_slice(row: &mut [i64], x: usize, v: i64)
    requires
        x < old(row)@.len(),
    ensures
        final(row)@ == old(row)@.update(x as int, v),
{
    let (_head, tail) = row.split_at_mut(x);
    match tail.first_mut() {
        Some(slot) => {
            *slot = v;
        },
        None => {},
    }
}

/// Filters the row `y` of an array with rows of `stride` entries.
pub fn filter_row(
    row: &mut [i64],
    y: usize,
    src: &[i64],
    taps: &[KernelOffset],
    stride: usize,
    window: Window,
)
    requires
        old(row)@.len() <= stride,
        y * stride + old(row)@.len() <= src@.len() <= isize::MAX,
    ensures
        final(row)@.len() == old(row)@.len(),
        forall|x: int|
            0 <= x < old(row)@.len() ==> final(row)@[x] == filtered_entry(
                old(row)@[x],
                src@,
                taps@,
                stride as int,
                window,
                y * stride + x,
            ),
{
    let ghost len = row@.len();
    let ghost before = row@;
    if y < window.min_y || y >= window.max_y {
        proof {
            assert forall|k: int| 0 <= k < len implies row@[k] == filtered_entry(
                before[k],
                src@,
                taps@,
                stride as int,
                window,
                y * stride + k,
            ) by {
                lemma_grid_index(y as int, k, stride as int);
            }
        }
        return;
    }
    let mut x: usize = window.min_x;
    while x < window.max_x && x < row.len()
        invariant
            row@.len() == len == before.len(),
            len <= stride,
            y * stride + len <= src@.len() <= isize::MAX,
            window.min_y <= y < window.max_y,
            window.min_x <= x,
            window.min_x <= window.max_x ==> x <= window.max_x,
            forall|k: int|
                0 <= k < len ==> row@[k] == (if window.min_x <= k < x && k < window.max_x {
                    filter_sum(src@, taps@, y * stride + k, taps@.len())
                } else {
                    before[k]
                }),
        decreases len - x,
    {
        let center: usize = y * stride + x;
        let sum: i64 = filter_at(src, taps, center);
        set_slice(row, x, sum);
        x = x + 1;
    }
    proof {
        assert forall|k: int| 0 <= k < len implies row@[k] == filtered_entry(
            before[k],
            src@,
            taps@,
            stride as int,
            window,
            y * stride + k,
        ) by {
            lemma_grid_index(y as int, k, stride as int);
        }
    }
}

/// Filters `map` inside of the window with `ParallelSliceMut::par_chunks_mut` of `rayon`, which
/// cuts it into consecutive chunks of `stride` entries (the last may be shorter) and hands each
/// to `filter_row` once, with its number. The contract claims that each entry ends up as
/// `filter_row` leaves it in its chunk.
#[verifier::external_body]
pub(crate) fn filter_rows(
    map: &mut Vec<i64>,
    src: &Vec<i64>,
    taps: &Vec<KernelOffset>,
    stride: usize,
    window: Window,
)
    requires
        stride > 0,
        old(map)@.len() == src@.len() <= isize::MAX,
    ensures
        final(map)@.len() == old(map)@.len(),
        forall|i: int|
            0 <= i < old(map)@.len() ==> final(map)@[i] == filtered_entry(
                old(map)@[i],
                src@,
                taps@,
                stride as int,
                window,
                i,
            ),
{
    map.par_chunks_mut(stride).enumerate().for_each(
        |(y, row)| filter_row(row, y, src, taps, stride, window),
    );
}

/// The saturated difference of two levels.
pub fn level_difference(halftone: &i64, original: &i64) -> (r: i64)
    ensures
        r == clamp64(*halftone - *original),
{
    sat_sub64(*halftone, *original)
}

/// The differences of two arrays, entry by entry, with the parallel iterators of `rayon`. The
/// contract claims that `par_iter`, `zip`, `map` and `collect` keep the order of the entries and
/// stop where the shorter array does.
#[verifier::external_body]
pub(crate) fn differences(halftone: &Vec<i64>, original: &Vec<i64>) -> (r: Vec<i64>)
    ensures
        r@.len() == (if halftone@.len() <= original@.len() {
            halftone@.len()
        } else {
            original@.len()
        }),
        forall|i: int| 0 <= i < r@.len() ==> r@[i] == clamp64(halftone@[i] - original@[i]),
{
    halftone.par_iter().zip(original.par_iter()).map(|(h, o)| level_difference(h, o)).collect()
}

} // verus!
