//! The two operations of the search, toggling a pixel and swapping two, and what they are
//! expected to do to the squared error.
use crate::context::{lemma_margin, DbsContext, DbsModel};
use crate::filter::{bump, bumped, scatter, scattered};
use crate::fixed::{
    abs_of, clamp32, clamp64, fixed_mul, fmul, max_of, min_of, sat_add32, sat_add64, sat_mul64,
    sat_mul_usize, sat_sub32, sat_sub64,
};
use crate::fold::{count_between, grid_fold, row_fold};
use crate::kernel::{
    at, get_or_zero, half_width, set_entry, tap_index, tap_slot, to_index, with_entry,
};
use vstd::prelude::*;

verus! {

/// A coordinate as a signed number, and zero where it is none.
pub open spec fn signed(x: u32) -> int {
    if x <= i32::MAX {
        x as int
    } else {
        0
    }
}

/// See `signed`.
fn to_signed(x: u32) -> (r: i32)
    ensures
        r == signed(x),
{
    if x <= i32::MAX as u32 {
        x as i32
    } else {
        0
    }
}

/// What is added at `point` when the entries at `pos1` and `pos2` change by `changes`: the two
/// changes, each times the weight of the tap that leads to `point`. None where neither position
/// has a tap there. `table` holds the weights of a square kernel of width `size`.
pub open spec fn swap_change(
    table: Seq<i64>,
    size: i32,
    radius: i32,
    point: (int, int),
    pos1: (i32, i32),
    pos2: (i32, i32),
    changes: (i64, i64),
) -> Option<i64> {
    let dx1 = clamp32(point.0 - pos1.0) as int;
    let dy1 = clamp32(point.1 - pos1.1) as int;
    let dx2 = clamp32(point.0 - pos2.0) as int;
    let dy2 = clamp32(point.1 - pos2.1) as int;
    let in1 = abs_of(dx1) <= radius && abs_of(dy1) <= radius;
    let in2 = abs_of(dx2) <= radius && abs_of(dy2) <= radius;
    let d1 = fmul(changes.0, at(table, tap_index(dy1, dx1, size, radius)));
    let d2 = fmul(changes.1, at(table, tap_index(dy2, dx2, size, radius)));
    if in1 && in2 {
        Some(clamp64(d1 + d2))
    } else if in1 {
        Some(d1)
    } else if in2 {
        Some(d2)
    } else {
        None
    }
}

/// The distances of `point` from both positions have an absolute value.
pub open spec fn distances_exist(
    radius: i32,
    point: (int, int),
    pos1: (i32, i32),
    pos2: (i32, i32),
) -> bool {
    &&& point.0 - pos1.0 > i32::MIN
    &&& abs_of(clamp32(point.0 - pos1.0) as int) <= radius ==> point.1 - pos1.1 > i32::MIN
    &&& point.0 - pos2.0 > i32::MIN
    &&& abs_of(clamp32(point.0 - pos2.0) as int) <= radius ==> point.1 - pos2.1 > i32::MIN
}

/// See `swap_change`.
fn change_at(
    table: &[i64],
    size: i32,
    radius: i32,
    point: (i32, i32),
    pos1: (i32, i32),
    pos2: (i32, i32),
    changes: (i64, i64),
) -> (r: Option<i64>)
    requires
        distances_exist(radius, (point.0 as int, point.1 as int), pos1, pos2),
    ensures
        r == swap_change(
            table@,
            size,
            radius,
            (point.0 as int, point.1 as int),
            pos1,
            pos2,
            changes,
        ),
{
    let dx1: i32 = sat_sub32(point.0, pos1.0);
    let dy1: i32 = sat_sub32(point.1, pos1.1);
    let dx2: i32 = sat_sub32(point.0, pos2.0);
    let dy2: i32 = sat_sub32(point.1, pos2.1);
    let in1: bool = magnitude(dx1) <= radius && magnitude(dy1) <= radius;
    let in2: bool = magnitude(dx2) <= radius && magnitude(dy2) <= radius;
    if !in1 && !in2 {
        return None;
    }
    let mut delta: i64 = 0;
    if in1 {
        let w: i64 = get_or_zero(table, tap_slot(dy1, dx1, size, radius));
        delta = sat_add64(delta, fixed_mul(changes.0, w));
    }
    if in2 {
        let w: i64 = get_or_zero(table, tap_slot(dy2, dx2, size, radius));
        delta = sat_add64(delta, fixed_mul(changes.1, w));
    }
    Some(delta)
}

/// The absolute value of a number that has one.
fn magnitude(x: i32) -> (r: i32)
    requires
        x > i32::MIN,
    ensures
        r == abs_of(x as int),
{
    if x < 0 {
        -x
    } else {
        x
    }
}

/// Whether a number is no farther than `radius` from zero.
fn within(d: i32, radius: i32) -> (r: bool)
    ensures
        r == (-radius <= d <= radius),
{
    -(radius as i64) <= d as i64 && d <= radius
}

/// The rectangle around two points that reaches `radius` past them: the least and the largest
/// column, then the least and the largest row.
pub open spec fn bounds_of(p1: (i32, i32), p2: (i32, i32), radius: i32) -> (i32, i32, i32, i32) {
    (
        clamp32(min_of(p1.0 as int, p2.0 as int) - radius),
        clamp32(max_of(p1.0 as int, p2.0 as int) + radius),
        clamp32(min_of(p1.1 as int, p2.1 as int) - radius),
        clamp32(max_of(p1.1 as int, p2.1 as int) + radius),
    )
}

/// Adds to the entry at a point what a swap changes there.
pub open spec fn spread_step(
    table: Seq<i64>,
    size: i32,
    radius: i32,
    stride: int,
    pos1: (i32, i32),
    pos2: (i32, i32),
    changes: (i64, i64),
) -> spec_fn(Seq<i64>, int, int) -> Seq<i64> {
    |map: Seq<i64>, py: int, px: int|
        match swap_change(table, size, radius, (px, py), pos1, pos2, changes) {
            Some(delta) => bumped(map, to_index(py) * stride + to_index(px), delta),
            None => map,
        }
}

/// `map` once a swap is carried through around both positions.
pub open spec fn spread(
    map: Seq<i64>,
    table: Seq<i64>,
    size: i32,
    radius: i32,
    stride: int,
    pos1: (i32, i32),
    pos2: (i32, i32),
    changes: (i64, i64),
) -> Seq<i64> {
    let b = bounds_of(pos1, pos2, radius);
    grid_fold(
        spread_step(table, size, radius, stride, pos1, pos2, changes),
        map,
        b.2 as int,
        b.0 as int,
        count_between(b.2 as int, b.3 as int),
        count_between(b.0 as int, b.1 as int),
    )
}

/// The two positions are so near that every distance in the rectangle around them exists.
pub open spec fn near(pos1: (i32, i32), pos2: (i32, i32), radius: i32) -> bool {
    &&& 0 <= pos1.0 && 0 <= pos1.1 && 0 <= pos2.0 && 0 <= pos2.1
    &&& radius <= 0x4000_0000
    &&& abs_of(pos1.0 - pos2.0) + radius <= i32::MAX
    &&& abs_of(pos1.1 - pos2.1) + radius <= i32::MAX
}

/// The entry of an array with rows of `stride` entries, in the row `y` and column `x`; negative
/// numbers count as zero.
fn entry_slot(y: i32, x: i32, stride: usize) -> (r: usize)
    ensures
        to_index(y as int) * stride + to_index(x as int) < usize::MAX ==> r == to_index(y as int)
            * stride + to_index(x as int),
        to_index(y as int) * stride + to_index(x as int) >= usize::MAX ==> r == usize::MAX,
{
    let row: usize = if y < 0 {
        0
    } else {
        y as usize
    };
    let column: usize = if x < 0 {
        0
    } else {
        x as usize
    };
    assert(row * stride >= 0) by (nonlinear_arith)
        requires
            row >= 0,
            stride >= 0,
    ;
    sat_mul_usize(row, stride).saturating_add(column)
}

/// See `spread`.
fn spread_swap(
    map: &mut Vec<i64>,
    table: &[i64],
    size: i32,
    radius: i32,
    stride: usize,
    pos1: (i32, i32),
    pos2: (i32, i32),
    changes: (i64, i64),
)
    requires
        near(pos1, pos2, radius),
    ensures
        final(map)@ == spread(
            old(map)@,
            table@,
            size,
            radius,
            stride as int,
            pos1,
            pos2,
            changes,
        ),
        final(map)@.len() == old(map)@.len(),
{
    let (min_x, max_x, min_y, max_y) = DbsContext::swap_bounds(pos1, pos2, radius);
    let ghost before = map@;
    let ghost f = spread_step(table@, size, radius, stride as int, pos1, pos2, changes);
    let ghost cols = count_between(min_x as int, max_x as int);
    let mut py: i64 = min_y as i64;
    while py <= max_y as i64
        invariant
            near(pos1, pos2, radius),
            (min_x, max_x, min_y, max_y) == bounds_of(pos1, pos2, radius),
            f == spread_step(table@, size, radius, stride as int, pos1, pos2, changes),
            cols == count_between(min_x as int, max_x as int),
            min_y <= py,
            min_y <= max_y ==> py <= max_y + 1,
            min_y > max_y ==> py == min_y,
            map@.len() == before.len(),
            map@ == grid_fold(f, before, min_y as int, min_x as int, (py - min_y) as nat, cols),
        decreases max_y - py + 1,
    {
        let ghost start = map@;
        let mut px: i64 = min_x as i64;
        while px <= max_x as i64
            invariant
                near(pos1, pos2, radius),
                (min_x, max_x, min_y, max_y) == bounds_of(pos1, pos2, radius),
                f == spread_step(table@, size, radius, stride as int, pos1, pos2, changes),
                min_y <= py <= max_y,
                min_x <= px,
                min_x <= max_x ==> px <= max_x + 1,
                min_x > max_x ==> px == min_x,
                map@.len() == before.len(),
                map@ == row_fold(f, start, py as int, min_x as int, (px - min_x) as nat),
            decreases max_x - px + 1,
        {
            let point: (i32, i32) = (px as i32, py as i32);
            match change_at(table, size, radius, point, pos1, pos2, changes) {
                Some(delta) => {
                    assert(map.len() == map@.len());
                    bump(map, entry_slot(py as i32, px as i32, stride), delta);
                },
                None => {},
            }
            px = px + 1;
        }
        py = py + 1;
    }
}

impl DbsModel {
    /// The weight of the kernel at a displacement, and zero past its edge.
    pub open spec fn kernel_weight(self, dx: int, dy: int) -> i64 {
        let r = self.kernel_radius as int;
        if -r <= dx <= r && -r <= dy <= r {
            at(self.kernel.flat, tap_index(dy, dx, self.kernel_size, self.kernel_radius))
        } else {
            0
        }
    }

    /// The half width of the autocorrelation.
    pub open spec fn autocorr_radius(self) -> i32 {
        (self.kernel.autocorr_size as int / 2) as i32
    }

    /// The autocorrelation of the kernel at a displacement, and zero where the kernel and its copy
    /// do not overlap.
    pub open spec fn autocorr_weight(self, dx: int, dy: int) -> i64 {
        let r = self.autocorr_radius() as int;
        if -r <= dx <= r && -r <= dy <= r {
            at(
                self.kernel.autocorr,
                tap_index(dy, dx, self.kernel.autocorr_size, self.autocorr_radius()),
            )
        } else {
            0
        }
    }

    /// The expected change of the squared error when a pixel is toggled.
    pub open spec fn toggle_delta(self, x: u32, y: u32) -> i64 {
        let i = self.index_of(x, y);
        let change: int = if at(self.halftone, i) == 0 {
            65536
        } else {
            -65536
        };
        clamp64(fmul(clamp64(2 * change), at(self.e2, i)) + self.kernel.c_pp)
    }

    /// The array index of a pixel as a signed number, and zero where it is none.
    pub open spec fn center_of(self, x: u32, y: u32) -> int {
        if self.index_of(x, y) <= isize::MAX {
            self.index_of(x, y)
        } else {
            0
        }
    }

    /// The context once a pixel is toggled.
    pub open spec fn toggled(self, x: u32, y: u32) -> DbsModel {
        let i = self.index_of(x, y);
        let value: i64 = if at(self.halftone, i) == 0 {
            65536
        } else {
            0
        };
        let change = clamp64(value - at(self.halftone, i));
        let taps = self.kernel.offsets;
        let wide_taps = self.kernel.autocorr_offsets;
        DbsModel {
            halftone: with_entry(self.halftone, i, value),
            error: scattered(self.error, taps, self.center_of(x, y), change, taps.len()),
            e2: scattered(self.e2, wide_taps, self.center_of(x, y), change, wide_taps.len()),
            ..self
        }
    }

    /// Whether the values of two pixels differ by at least one half.
    pub open spec fn swappable(self, x1: u32, y1: u32, x2: u32, y2: u32) -> bool {
        abs_of(at(self.halftone, self.index_of(x1, y1)) - at(self.halftone, self.index_of(x2, y2)))
            >= 32768
    }

    /// By how much the two pixels change when they are swapped.
    pub open spec fn swap_changes(self, x1: u32, y1: u32, x2: u32, y2: u32) -> (i64, i64) {
        let change = clamp64(
            at(self.halftone, self.index_of(x2, y2)) - at(self.halftone, self.index_of(x1, y1)),
        );
        (change, clamp64(-change))
    }

    /// The expected change of the squared error when two pixels are swapped.
    pub open spec fn swap_delta(self, x1: u32, y1: u32, x2: u32, y2: u32) -> i64 {
        let (c1, c2) = self.swap_changes(x1, y1, x2, y2);
        let dx = clamp32(signed(x1) - signed(x2));
        let dy = clamp32(signed(y1) - signed(y2));
        let term1 = fmul(clamp64(2 * c1), at(self.e2, self.index_of(x1, y1)));
        let term2 = fmul(clamp64(2 * c2), at(self.e2, self.index_of(x2, y2)));
        let term3 = clamp64(2 * self.kernel.c_pp);
        let term4 = fmul(
            clamp64(2 * fmul(c1, c2)),
            self.autocorr_weight(dx as int, dy as int),
        );
        clamp64(clamp64(clamp64(term1 + term2) + term3) + term4)
    }

    /// A pixel's column and row in the arrays.
    pub open spec fn padded_position(self, x: u32, y: u32) -> (i32, i32) {
        let p = if self.padding <= i32::MAX {
            self.padding as int
        } else {
            0
        };
        (clamp32(signed(x) + p), clamp32(signed(y) + p))
    }

    /// Whether every distance around the two pixels exists.
    pub open spec fn swap_in_range(self, x1: u32, y1: u32, x2: u32, y2: u32) -> bool {
        let p1 = self.padded_position(x1, y1);
        let p2 = self.padded_position(x2, y2);
        near(p1, p2, self.kernel_radius) && near(p1, p2, self.autocorr_radius())
    }

    /// The context once two pixels are swapped.
    pub open spec fn swapped(self, x1: u32, y1: u32, x2: u32, y2: u32) -> DbsModel {
        let i1 = self.index_of(x1, y1);
        let i2 = self.index_of(x2, y2);
        let p1 = self.padded_position(x1, y1);
        let p2 = self.padded_position(x2, y2);
        let changes = self.swap_changes(x1, y1, x2, y2);
        let stride = self.padded_width as int;
        DbsModel {
            halftone: with_entry(
                with_entry(self.halftone, i1, at(self.halftone, i2)),
                i2,
                at(self.halftone, i1),
            ),
            error: spread(
                self.error,
                self.kernel.flat,
                self.kernel_size,
                self.kernel_radius,
                stride,
                p1,
                p2,
                changes,
            ),
            e2: spread(
                self.e2,
                self.kernel.autocorr,
                self.kernel.autocorr_size,
                self.autocorr_radius(),
                stride,
                p1,
                p2,
                changes,
            ),
            ..self
        }
    }

    /// The pixel number `k` around a pixel, if it lies in the picture.
    pub open spec fn neighbour(self, x: u32, y: u32, k: int) -> Option<(u32, u32)> {
        let nx = clamp32(signed(x) + neighbour_step(k).0);
        let ny = clamp32(signed(y) + neighbour_step(k).1);
        let w = if self.width <= i32::MAX {
            self.width as int
        } else {
            i32::MAX as int
        };
        let h = if self.height <= i32::MAX {
            self.height as int
        } else {
            i32::MAX as int
        };
        if 0 <= nx < w && 0 <= ny < h {
            Some((nx as u32, ny as u32))
        } else {
            None
        }
    }

    /// The expected change of the squared error when a pixel is swapped with its neighbour number
    /// `k`, where they can be swapped.
    pub open spec fn neighbour_delta(self, x: u32, y: u32, k: int) -> Option<i64> {
        match self.neighbour(x, y, k) {
            Some((nx, ny)) => if self.swappable(x, y, nx, ny) {
                Some(self.swap_delta(x, y, nx, ny))
            } else {
                None
            },
            None => None,
        }
    }

    /// The best of doing nothing, toggling a pixel, and swapping it with one of its first `n`
    /// neighbours: the expected change of the squared error and what brings it about. An operation
    /// has to do better than all before it.
    pub open spec fn best(self, x: u32, y: u32, n: nat) -> (i64, Choice)
        decreases n,
    {
        if n == 0 {
            if self.toggle_delta(x, y) < 0 {
                (self.toggle_delta(x, y), Choice::Toggle)
            } else {
                (0, Choice::Keep)
            }
        } else {
            let before = self.best(x, y, (n - 1) as nat);
            match self.neighbour_delta(x, y, n - 1) {
                Some(delta) => if delta < before.0 {
                    (delta, Choice::Swap((n - 1) as usize))
                } else {
                    before
                },
                None => before,
            }
        }
    }

    /// The context once the best operation at a pixel is carried out.
    pub open spec fn improved(self, x: u32, y: u32) -> DbsModel {
        match self.best(x, y, 8).1 {
            Choice::Keep => self,
            Choice::Toggle => self.toggled(x, y),
            Choice::Swap(k) => {
                let n = self.neighbour(x, y, k as int)->0;
                self.swapped(x, y, n.0, n.1)
            },
        }
    }
}

/// What to do at a pixel. A swap is with the neighbour of the given number.
#[derive(Debug, Clone, Copy)]
pub enum Choice {
    Keep,
    Toggle,
    Swap(usize),
}

/// The step to the neighbour number `k`: the eight pixels around, clockwise from the right.
pub open spec fn neighbour_step(k: int) -> (int, int) {
    if k == 0 {
        (1, 0)
    } else if k == 1 {
        (1, 1)
    } else if k == 2 {
        (0, 1)
    } else if k == 3 {
        (-1, 1)
    } else if k == 4 {
        (-1, 0)
    } else if k == 5 {
        (-1, -1)
    } else if k == 6 {
        (0, -1)
    } else {
        (1, -1)
    }
}

/// See `neighbour_step`.
fn step_to(k: usize) -> (r: (i32, i32))
    ensures
        r.0 == neighbour_step(k as int).0,
        r.1 == neighbour_step(k as int).1,
{
    if k == 0 {
        (1, 0)
    } else if k == 1 {
        (1, 1)
    } else if k == 2 {
        (0, 1)
    } else if k == 3 {
        (-1, 1)
    } else if k == 4 {
        (-1, 0)
    } else if k == 5 {
        (-1, -1)
    } else if k == 6 {
        (0, -1)
    } else {
        (1, -1)
    }
}

/// Two neighbours can always be swapped.
proof fn lemma_neighbour_in_range(m: DbsModel, x: u32, y: u32, k: int)
    requires
        m.wf(),
        m.neighbour(x, y, k) is Some,
    ensures
        ({
            let n = m.neighbour(x, y, k)->0;
            m.swap_in_range(x, y, n.0, n.1)
        }),
{
    lemma_margin(m.kernel_size);
}

impl DbsContext {
    /// The weight of the kernel at a displacement, and zero past its edge.
    pub fn get_kernel_weight(&self, dx: i32, dy: i32) -> (r: i64)
        ensures
            r == self@.kernel_weight(dx as int, dy as int),
    {
        if !within(dx, self.kernel_radius) || !within(dy, self.kernel_radius) {
            return 0;
        }
        get_or_zero(
            self.kernel.flat.as_slice(),
            tap_slot(dy, dx, self.kernel_size, self.kernel_radius),
        )
    }

    /// The autocorrelation of the kernel at a displacement, and zero where the kernel and its copy
    /// do not overlap.
    pub fn get_autocorr(&self, dx: i32, dy: i32) -> (r: i64)
        ensures
            r == self@.autocorr_weight(dx as int, dy as int),
    {
        let radius: i32 = half_width(self.kernel.autocorr_size);
        if !within(dx, radius) || !within(dy, radius) {
            return 0;
        }
        get_or_zero(
            self.kernel.autocorr.as_slice(),
            tap_slot(dy, dx, self.kernel.autocorr_size, radius),
        )
    }

    /// The expected change of the squared error when a pixel is toggled.
    pub fn calc_toggle_delta_se(&self, xx: u32, yy: u32) -> (r: i64)
        ensures
            r == self@.toggle_delta(xx, yy),
    {
        let idx: usize = self.pixel_index(xx, yy);
        let old_val: i64 = get_or_zero(self.halftone.as_slice(), idx);
        let change: i64 = if old_val == 0 {
            65536
        } else {
            -65536
        };
        let e2: i64 = get_or_zero(self.e2_map.as_slice(), idx);
        let term1: i64 = fixed_mul(sat_mul64(2, change), e2);
        sat_add64(term1, self.kernel.c_pp)
    }

    /// Toggles a pixel and carries the change through both maps.
    pub fn apply_toggle(&mut self, xx: u32, yy: u32)
        requires
            old(self)@.wf(),
        ensures
            final(self)@ == old(self)@.toggled(xx, yy),
            final(self)@.wf(),
    {
        let ghost m = self@;
        let idx: usize = self.pixel_index(xx, yy);
        let old_val: i64 = get_or_zero(self.halftone.as_slice(), idx);
        let new_val: i64 = if old_val == 0 {
            65536
        } else {
            0
        };
        let change: i64 = sat_sub64(new_val, old_val);
        set_entry(&mut self.halftone, idx, new_val);
        let center: isize = if idx <= isize::MAX as usize {
            idx as isize
        } else {
            0
        };
        scatter(&mut self.error_map, self.kernel.offsets.as_slice(), center, change);
        scatter(&mut self.e2_map, self.kernel.autocorr_offsets.as_slice(), center, change);
        assert(self@ =~= m.toggled(xx, yy));
    }

    /// Whether the values of two pixels differ by at least one half.
    pub fn can_swap(&self, x1: u32, y1: u32, x2: u32, y2: u32) -> (r: bool)
        requires
            self@.wf(),
        ensures
            r == self@.swappable(x1, y1, x2, y2),
    {
        let val1: i64 = get_or_zero(self.halftone.as_slice(), self.pixel_index(x1, y1));
        let val2: i64 = get_or_zero(self.halftone.as_slice(), self.pixel_index(x2, y2));
        let difference: i64 = sat_sub64(val1, val2);
        if difference < 0 {
            -difference >= 32768
        } else {
            difference >= 32768
        }
    }

    /// The rectangle around two points that reaches `kernel_radius` past them.
    pub fn swap_bounds(p1: (i32, i32), p2: (i32, i32), kernel_radius: i32) -> (r: (
        i32,
        i32,
        i32,
        i32,
    ))
        ensures
            r == bounds_of(p1, p2, kernel_radius),
    {
        let (x1, y1) = p1;
        let (x2, y2) = p2;
        let left: i32 = if x1 <= x2 {
            x1
        } else {
            x2
        };
        let right: i32 = if x1 >= x2 {
            x1
        } else {
            x2
        };
        let top: i32 = if y1 <= y2 {
            y1
        } else {
            y2
        };
        let bottom: i32 = if y1 >= y2 {
            y1
        } else {
            y2
        };
        (
            sat_sub32(left, kernel_radius),
            sat_add32(right, kernel_radius),
            sat_sub32(top, kernel_radius),
            sat_add32(bottom, kernel_radius),
        )
    }

    /// What a swap adds to the error map at one point: see `swap_change`.
    pub fn calc_swap_delta_e(
        &self,
        point: (i32, i32),
        pos1: (i32, i32),
        pos2: (i32, i32),
        changes: (i64, i64),
    ) -> (r: Option<i64>)
        requires
            distances_exist(
                self.kernel_radius,
                (point.0 as int, point.1 as int),
                pos1,
                pos2,
            ),
        ensures
            r == swap_change(
                self@.kernel.flat,
                self@.kernel_size,
                self@.kernel_radius,
                (point.0 as int, point.1 as int),
                pos1,
                pos2,
                changes,
            ),
    {
        change_at(
            self.kernel.flat.as_slice(),
            self.kernel_size,
            self.kernel_radius,
            point,
            pos1,
            pos2,
            changes,
        )
    }

    /// The expected change of the squared error when two pixels are swapped.
    pub fn calc_swap_delta_se(&self, x1: u32, y1: u32, x2: u32, y2: u32) -> (r: i64)
        ensures
            r == self@.swap_delta(x1, y1, x2, y2),
    {
        let idx1: usize = self.pixel_index(x1, y1);
        let idx2: usize = self.pixel_index(x2, y2);
        let val1: i64 = get_or_zero(self.halftone.as_slice(), idx1);
        let val2: i64 = get_or_zero(self.halftone.as_slice(), idx2);
        let change1: i64 = sat_sub64(val2, val1);
        let change2: i64 = sat_sub64(0, change1);
        let e2_1: i64 = get_or_zero(self.e2_map.as_slice(), idx1);
        let e2_2: i64 = get_or_zero(self.e2_map.as_slice(), idx2);
        let dx: i32 = sat_sub32(to_signed(x1), to_signed(x2));
        let dy: i32 = sat_sub32(to_signed(y1), to_signed(y2));
        let c_12: i64 = self.get_autocorr(dx, dy);
        let term1: i64 = fixed_mul(sat_mul64(2, change1), e2_1);
        let term2: i64 = fixed_mul(sat_mul64(2, change2), e2_2);
        let term3: i64 = sat_mul64(2, self.kernel.c_pp);
        let term4: i64 = fixed_mul(sat_mul64(2, fixed_mul(change1, change2)), c_12);
        sat_add64(sat_add64(sat_add64(term1, term2), term3), term4)
    }

    /// A pixel's column and row in the arrays.
    fn position(&self, x: u32, y: u32) -> (r: (i32, i32))
        ensures
            r == self@.padded_position(x, y),
    {
        let padding: i32 = if self.padding <= i32::MAX as usize {
            self.padding as i32
        } else {
            0
        };
        (sat_add32(to_signed(x), padding), sat_add32(to_signed(y), padding))
    }

    /// Swaps two pixels and carries the change through both maps.
    pub fn apply_swap(&mut self, x1: u32, y1: u32, x2: u32, y2: u32)
        requires
            old(self)@.wf(),
            old(self)@.swap_in_range(x1, y1, x2, y2),
        ensures
            final(self)@ == old(self)@.swapped(x1, y1, x2, y2),
            final(self)@.wf(),
    {
        let ghost m = self@;
        let idx1: usize = self.pixel_index(x1, y1);
        let idx2: usize = self.pixel_index(x2, y2);
        let val1: i64 = get_or_zero(self.halftone.as_slice(), idx1);
        let val2: i64 = get_or_zero(self.halftone.as_slice(), idx2);
        let change1: i64 = sat_sub64(val2, val1);
        let change2: i64 = sat_sub64(0, change1);
        set_entry(&mut self.halftone, idx1, val2);
        set_entry(&mut self.halftone, idx2, val1);
        let pos1: (i32, i32) = self.position(x1, y1);
        let pos2: (i32, i32) = self.position(x2, y2);
        spread_swap(
            &mut self.error_map,
            self.kernel.flat.as_slice(),
            self.kernel_size,
            self.kernel_radius,
            self.padded_width,
            pos1,
            pos2,
            (change1, change2),
        );
        let radius: i32 = half_width(self.kernel.autocorr_size);
        spread_swap(
            &mut self.e2_map,
            self.kernel.autocorr.as_slice(),
            self.kernel.autocorr_size,
            radius,
            self.padded_width,
            pos1,
            pos2,
            (change1, change2),
        );
        assert(self@ =~= m.swapped(x1, y1, x2, y2));
    }

    /// The pixel number `k` around a pixel, if it lies in the picture.
    fn neighbour_at(&self, xx: u32, yy: u32, k: usize) -> (r: Option<(u32, u32)>)
        ensures
            r == self@.neighbour(xx, yy, k as int),
    {
        let (dx, dy) = step_to(k);
        let nx: i32 = sat_add32(to_signed(xx), dx);
        let ny: i32 = sat_add32(to_signed(yy), dy);
        let w: i32 = if self.width <= i32::MAX as u32 {
            self.width as i32
        } else {
            i32::MAX
        };
        let h: i32 = if self.height <= i32::MAX as u32 {
            self.height as i32
        } else {
            i32::MAX
        };
        if nx >= 0 && nx < w && ny >= 0 && ny < h {
            Some((nx as u32, ny as u32))
        } else {
            None
        }
    }

    /// The best operation at a pixel: see `DbsModel::best`.
    pub fn best_choice(&self, xx: u32, yy: u32) -> (r: Choice)
        requires
            self@.wf(),
        ensures
            r == self@.best(xx, yy, 8).1,
            r matches Choice::Swap(k) ==> self@.neighbour(xx, yy, k as int) is Some,
    {
        let mut best_delta_se: i64 = 0;
        let mut choice: Choice = Choice::Keep;
        let toggle_delta: i64 = self.calc_toggle_delta_se(xx, yy);
        if toggle_delta < best_delta_se {
            best_delta_se = toggle_delta;
            choice = Choice::Toggle;
        }
        let mut k: usize = 0;
        while k < 8
            invariant
                self@.wf(),
                k <= 8,
                (best_delta_se, choice) == self@.best(xx, yy, k as nat),
                choice matches Choice::Swap(j) ==> self@.neighbour(xx, yy, j as int) is Some,
            decreases 8 - k,
        {
            match self.neighbour_at(xx, yy, k) {
                Some((nx, ny)) => {
                    if self.can_swap(xx, yy, nx, ny) {
                        let swap_delta: i64 = self.calc_swap_delta_se(xx, yy, nx, ny);
                        if swap_delta < best_delta_se {
                            best_delta_se = swap_delta;
                            choice = Choice::Swap(k);
                        }
                    }
                },
                None => {},
            }
            k = k + 1;
        }
        choice
    }

    /// Carries out the best operation at a pixel, if one lowers the squared error. Says whether it
    /// was a toggle.
    pub fn try_best_operation(&mut self, xx: u32, yy: u32) -> (r: Option<bool>)
        requires
            old(self)@.wf(),
        ensures
            final(self)@ == old(self)@.improved(xx, yy),
            final(self)@.wf(),
            r == (match old(self)@.best(xx, yy, 8).1 {
                Choice::Keep => None,
                Choice::Toggle => Some(true),
                Choice::Swap(k) => Some(false),
            }),
    {
        match self.best_choice(xx, yy) {
            Choice::Keep => None,
            Choice::Toggle => {
                self.apply_toggle(xx, yy);
                Some(true)
            },
            Choice::Swap(k) => {
                match self.neighbour_at(xx, yy, k) {
                    Some((nx, ny)) => {
                        proof {
                            lemma_neighbour_in_range(self@, xx, yy, k as int);
                        }
                        self.apply_swap(xx, yy, nx, ny);
                    },
                    None => {},
                }
                Some(false)
            },
        }
    }
}

} // verus!
