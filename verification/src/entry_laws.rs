//! What the operations do, entry by entry, and what is expected of them, in plain numbers.
use crate::context::{lemma_margin, DbsModel};
use crate::fixed::{abs_of, fmul};
use crate::fold::{lemma_grid_index, lemma_grid_index_bound};
use crate::kernel::{at, tap_index, with_entry};
use crate::kernel_laws::{lemma_size_bound, lemma_tap_index};
use crate::map_laws::{
    ample, law_fixed_mul_one, lemma_pixel_index, lemma_scattered_len, lemma_toggled, toggle_sign,
};
use crate::ops::{bounds_of, signed, swap_change};
use crate::sums::{stays_in_word, total};
use crate::swap_laws::{
    changed_entry, inside, lemma_position, lemma_reach, lemma_regular_sizes, lemma_spread_entries,
    lemma_square_hits,
};
use crate::tap_laws::{held, law_scatter_is_sum, law_tap_index, scatter_terms};
use vstd::arithmetic::div_mod::lemma_fundamental_div_mod;
use vstd::prelude::*;

verus! {

/// The entry of the pixel in column `x` and row `y`: the arrays hold the rows of the picture one
/// after the other, with a margin on every side.
pub open spec fn entry(m: DbsModel, x: int, y: int) -> int {
    (y + m.padding) * m.padded_width + (x + m.padding)
}

/// Every pixel has an entry of its own, in the row and in the column that the margin shifts it to.
pub proof fn law_entry_of_pixel(m: DbsModel, x: u32, y: u32, i: int)
    requires
        m.wf(),
        x < m.width,
        y < m.height,
        0 <= i < m.area(),
    ensures
        0 <= m.index_of(x, y) < m.halftone.len(),
        m.index_of(x, y) == entry(m, x as int, y as int),
        i == m.index_of(x, y) <==> i / m.padded_width as int == y + m.padding && i
            % m.padded_width as int == x + m.padding,
{
    lemma_pixel_index(m, x, y);
    let w = m.padded_width as int;
    lemma_fundamental_div_mod(i, w);
    assert(w * (i / w) == (i / w) * w) by (nonlinear_arith);
}

/// The entry of any column and row, also past the picture, unless the word does not hold its
/// number; it is the largest then.
pub proof fn law_entry_anywhere(m: DbsModel, x: u32, y: u32)
    ensures
        entry(m, x as int, y as int) <= usize::MAX ==> m.index_of(x, y) == entry(
            m,
            x as int,
            y as int,
        ),
        entry(m, x as int, y as int) > usize::MAX ==> m.index_of(x, y) == usize::MAX,
{
    assert((y + m.padding) * m.padded_width >= 0) by (nonlinear_arith);
}

/// Two pixels can be swapped just where one is on and the other is off.
pub proof fn law_swappable_iff_different(m: DbsModel, x1: u32, y1: u32, x2: u32, y2: u32)
    requires
        m.wf(),
        x1 < m.width,
        y1 < m.height,
        x2 < m.width,
        y2 < m.height,
    ensures
        m.swappable(x1, y1, x2, y2) <==> m.halftone[entry(m, x1 as int, y1 as int)]
            != m.halftone[entry(m, x2 as int, y2 as int)],
{
    lemma_pixel_index(m, x1, y1);
    lemma_pixel_index(m, x2, y2);
}

/// Twice a number, as far as the integer product of the number and two has a place in the word: the
/// double stays at the largest, or the least, past that.
pub open spec fn doubled(v: int) -> int {
    if v >= 0x4000_0000_0000 {
        0x7fff_ffff_ffff
    } else if v < -0x4000_0000_0000 {
        -0x8000_0000_0000
    } else {
        2 * v
    }
}

/// A product with two, or with minus two.
proof fn lemma_twice(n: int, w: i64)
    requires
        n == 2 || n == -2,
    ensures
        n == 2 ==> fmul((n * 65536) as i64, w) == doubled(w as int),
        n == -2 ==> fmul((n * 65536) as i64, w) == doubled(-w),
{
    if n == 2 {
        assert((131072 * w) / 65536 == 2 * w);
    } else {
        assert((-131072 * w) / 65536 == -2 * w);
    }
}

/// The expected change of a toggle: the energy of the kernel, and twice the second map at the
/// pixel, added where the pixel is turned on and taken off where it is turned off.
pub proof fn law_toggle_delta_value(m: DbsModel, x: u32, y: u32)
    requires
        entry(m, x as int, y as int) <= usize::MAX,
    ensures
        ({
            let i = entry(m, x as int, y as int);
            let twice = if held(m.halftone, i) == 0 {
                doubled(held(m.e2, i) as int)
            } else {
                doubled(-held(m.e2, i))
            };
            &&& i64::MIN <= m.kernel.c_pp + twice <= i64::MAX ==> m.toggle_delta(x, y)
                == m.kernel.c_pp + twice
            &&& m.kernel.c_pp + twice > i64::MAX ==> m.toggle_delta(x, y) == i64::MAX
            &&& m.kernel.c_pp + twice < i64::MIN ==> m.toggle_delta(x, y) == i64::MIN
        }),
{
    law_entry_anywhere(m, x, y);
    let i = entry(m, x as int, y as int);
    lemma_twice(2, held(m.e2, i));
    lemma_twice(-2, held(m.e2, i));
}

/// The expected change of a swap, for any two values that are exchanged and where nothing
/// saturates: twice the change of each pixel, times the second map there, twice the energy, and
/// twice the product of the two changes, times the autocorrelation at the displacement of the
/// pixels.
pub proof fn law_swap_delta_by_changes(m: DbsModel, x1: u32, y1: u32, x2: u32, y2: u32)
    requires
        entry(m, x1 as int, y1 as int) <= usize::MAX,
        entry(m, x2 as int, y2 as int) <= usize::MAX,
        x1 <= i32::MAX,
        y1 <= i32::MAX,
        x2 <= i32::MAX,
        y2 <= i32::MAX,
    ensures
        ({
            let i = entry(m, x1 as int, y1 as int);
            let j = entry(m, x2 as int, y2 as int);
            let change = held(m.halftone, j) - held(m.halftone, i);
            let fits = -0x2000_0000_0000_0000 <= change <= 0x2000_0000_0000_0000;
            let first = fmul((2 * change) as i64, held(m.e2, i));
            let second = fmul((-2 * change) as i64, held(m.e2, j));
            let product = fmul(change as i64, (-change) as i64);
            let shared = fmul((2 * product) as i64, m.autocorr_weight(x1 - x2, y1 - y2));
            let energy = 2 * m.kernel.c_pp;
            fits && i64::MIN <= energy <= i64::MAX && i64::MIN <= first + second <= i64::MAX
                && i64::MIN <= first + second + energy <= i64::MAX && i64::MIN <= first + second
                + energy + shared <= i64::MAX ==> m.swap_delta(x1, y1, x2, y2) == first + second
                + energy + shared
        }),
{
    law_entry_anywhere(m, x1, y1);
    law_entry_anywhere(m, x2, y2);
}

/// The weight of the kernel at a displacement lies in its array, row by row; past its edge it is
/// zero. So does its autocorrelation.
pub proof fn law_weights_in_rows(m: DbsModel, dx: int, dy: int)
    requires
        m.wf(),
        m.kernel_size >= 1,
        m.kernel.autocorr_size * m.kernel.autocorr_size <= i32::MAX,
    ensures
        ({
            let n = m.kernel_size as int;
            let r = n / 2;
            m.kernel_weight(dx, dy) == (if -r <= dx <= r && -r <= dy <= r {
                held(m.kernel.flat, (dy + r) * n + (dx + r))
            } else {
                0
            })
        }),
        ({
            let r = m.kernel_size - 1;
            let n = 2 * r + 1;
            m.autocorr_weight(dx, dy) == (if -r <= dx <= r && -r <= dy <= r {
                held(m.kernel.autocorr, (dy + r) * n + (dx + r))
            } else {
                0
            })
        }),
{
    let a = m.kernel.autocorr_size as int;
    let n = m.kernel_size as int;
    let r = n / 2;
    lemma_size_bound(a);
    assert(n <= 23170);
    if -r <= dx <= r && -r <= dy <= r {
        assert(0 <= (dy + r) * n <= 23170 * 23170) by (nonlinear_arith)
            requires
                0 <= dy + r <= 23170,
                0 <= n <= 23170,
        ;
        law_tap_index(dy, dx, m.kernel_size, m.kernel_radius);
    }
    if -(n - 1) <= dx <= n - 1 && -(n - 1) <= dy <= n - 1 {
        lemma_tap_index(dy, dx, m.kernel.autocorr_size, m.autocorr_radius());
    }
}

/// The rectangle that a swap is carried through reaches as far past the outer columns and rows of
/// the two points as the kernel does, unless a number saturates.
pub proof fn law_swap_rectangle(p1: (i32, i32), p2: (i32, i32), radius: i32, x: int, y: int)
    requires
        i32::MIN <= p1.0 - radius && p1.0 + radius <= i32::MAX,
        i32::MIN <= p2.0 - radius && p2.0 + radius <= i32::MAX,
        i32::MIN <= p1.1 - radius && p1.1 + radius <= i32::MAX,
        i32::MIN <= p2.1 - radius && p2.1 + radius <= i32::MAX,
        radius >= 0,
    ensures
        ({
            let b = bounds_of(p1, p2, radius);
            &&& b.0 <= x <= b.1 <==> (p1.0 - radius <= x || p2.0 - radius <= x) && (x <= p1.0
                + radius || x <= p2.0 + radius)
            &&& b.2 <= y <= b.3 <==> (p1.1 - radius <= y || p2.1 - radius <= y) && (y <= p1.1
                + radius || y <= p2.1 + radius)
        }),
{
}

/// What a swap adds to the error map at a point: each of the two changes, times the weight of the
/// kernel at the displacement of the point. Nothing, where the kernel reaches the point from
/// neither position.
pub proof fn law_change_at_point(
    m: DbsModel,
    point: (int, int),
    pos1: (i32, i32),
    pos2: (i32, i32),
    changes: (i64, i64),
)
    requires
        i32::MIN < point.0 - pos1.0 <= i32::MAX,
        i32::MIN < point.1 - pos1.1 <= i32::MAX,
        i32::MIN < point.0 - pos2.0 <= i32::MAX,
        i32::MIN < point.1 - pos2.1 <= i32::MAX,
    ensures
        ({
            let r = m.kernel_radius;
            let near1 = -r <= point.0 - pos1.0 <= r && -r <= point.1 - pos1.1 <= r;
            let near2 = -r <= point.0 - pos2.0 <= r && -r <= point.1 - pos2.1 <= r;
            let d1 = fmul(changes.0, m.kernel_weight(point.0 - pos1.0, point.1 - pos1.1));
            let d2 = fmul(changes.1, m.kernel_weight(point.0 - pos2.0, point.1 - pos2.1));
            let change = swap_change(
                m.kernel.flat,
                m.kernel_size,
                m.kernel_radius,
                point,
                pos1,
                pos2,
                changes,
            );
            &&& change is None <==> !near1 && !near2
            &&& (near1 || near2) && i64::MIN <= d1 + d2 <= i64::MAX ==> change == Some(
                (d1 + d2) as i64,
            )
        }),
{
    assert(fmul(changes.0, 0) == 0) by {
        assert(changes.0 * 0 == 0);
    }
    assert(fmul(changes.1, 0) == 0) by {
        assert(changes.1 * 0 == 0);
    }
}

/// Any two pixels of a picture whose rows and columns have numbers in a signed word can be swapped.
pub proof fn law_any_two_pixels_in_range(m: DbsModel, x1: u32, y1: u32, x2: u32, y2: u32)
    requires
        m.wf(),
        m.padded_width <= i32::MAX,
        m.padded_height <= i32::MAX,
        x1 < m.width,
        y1 < m.height,
        x2 < m.width,
        y2 < m.height,
    ensures
        m.swap_in_range(x1, y1, x2, y2),
{
    lemma_margin(m.kernel_size);
}

/// A coordinate that has no place in a signed word counts as zero.
pub proof fn law_signed_coordinate(x: u32)
    ensures
        x < 0x8000_0000 ==> signed(x) == x,
        x >= 0x8000_0000 ==> signed(x) == 0,
{
}

/// An array with one entry set.
pub proof fn law_entry_is_set(s: Seq<i64>, i: int, v: i64, j: int)
    requires
        0 <= j < s.len(),
    ensures
        with_entry(s, i, v).len() == s.len(),
        with_entry(s, i, v)[j] == (if i == j {
            v
        } else {
            s[j]
        }),
        at(s, j) == s[j],
        !(0 <= i < s.len()) ==> at(s, i) == 0,
{
}

/// The expected change of a swap of two pixels that differ: twice the energy of the kernel, less
/// twice its autocorrelation at the displacement of the pixels, and twice the second map, added at
/// the pixel that is turned on and taken off at the one that is turned off; unless the word does
/// not hold a sum on the way.
pub proof fn law_swap_delta_value(m: DbsModel, x1: u32, y1: u32, x2: u32, y2: u32)
    requires
        m.wf(),
        x1 < m.width <= i32::MAX,
        y1 < m.height <= i32::MAX,
        x2 < m.width,
        y2 < m.height,
        m.halftone[entry(m, x1 as int, y1 as int)] != m.halftone[entry(m, x2 as int, y2 as int)],
    ensures
        ({
            let i = entry(m, x1 as int, y1 as int);
            let j = entry(m, x2 as int, y2 as int);
            let maps = if m.halftone[i] == 0 {
                doubled(m.e2[i] as int) + doubled(-m.e2[j])
            } else {
                doubled(-m.e2[i]) + doubled(m.e2[j] as int)
            };
            let energy = 2 * m.kernel.c_pp;
            let shared = doubled(-m.autocorr_weight(x1 - x2, y1 - y2));
            i64::MIN <= energy <= i64::MAX && i64::MIN <= maps + energy <= i64::MAX && i64::MIN
                <= maps + energy + shared <= i64::MAX ==> m.swap_delta(x1, y1, x2, y2) == maps
                + energy + shared
        }),
{
    lemma_pixel_index(m, x1, y1);
    lemma_pixel_index(m, x2, y2);
    let i = m.index_of(x1, y1);
    let j = m.index_of(x2, y2);
    assert(m.halftone[i] == 0 || m.halftone[i] == 65536);
    assert(m.halftone[j] == 0 || m.halftone[j] == 65536);
    lemma_twice(2, m.e2[i]);
    lemma_twice(-2, m.e2[i]);
    lemma_twice(2, m.e2[j]);
    lemma_twice(-2, m.e2[j]);
    lemma_twice(-2, m.autocorr_weight(x1 - x2, y1 - y2));
    assert(fmul(65536, -65536i64 as i64) == -65536) by {
        assert(65536 * -65536 == -4294967296);
    }
    assert(fmul(-65536i64 as i64, 65536) == -65536) by {
        assert(-65536 * 65536 == -4294967296);
    }
}

/// A toggle turns a pixel on where it was off, and off where it was on, and adds to each map, under
/// every tap around the pixel, the change times the weight of the tap, as long as the word holds
/// the sums. Nothing else changes.
pub proof fn law_toggle_by_taps(m: DbsModel, x: u32, y: u32, i: int)
    requires
        m.wf(),
        entry(m, x as int, y as int) <= isize::MAX,
        0 <= i < m.area(),
    ensures
        ({
            let t = m.toggled(x, y);
            let c = entry(m, x as int, y as int);
            let change: i64 = if held(m.halftone, c) == 0 {
                65536
            } else {
                (-65536) as i64
            };
            let taps = m.kernel.offsets;
            let wide = m.kernel.autocorr_offsets;
            &&& t == DbsModel { halftone: t.halftone, error: t.error, e2: t.e2, ..m }
            &&& t.halftone.len() == t.error.len() == t.e2.len() == m.area()
            &&& t.halftone[i] == (if i == c {
                65536 - m.halftone[i]
            } else {
                m.halftone[i] as int
            })
            &&& stays_in_word(m.error[i] as int, scatter_terms(taps, c, change, i), taps.len())
                ==> t.error[i] == m.error[i] + total(
                scatter_terms(taps, c, change, i),
                taps.len(),
            )
            &&& stays_in_word(m.e2[i] as int, scatter_terms(wide, c, change, i), wide.len())
                ==> t.e2[i] == m.e2[i] + total(scatter_terms(wide, c, change, i), wide.len())
        }),
{
    law_entry_anywhere(m, x, y);
    let c = entry(m, x as int, y as int);
    let change: i64 = if held(m.halftone, c) == 0 {
        65536
    } else {
        (-65536) as i64
    };
    let taps = m.kernel.offsets;
    let wide = m.kernel.autocorr_offsets;
    assert((y + m.padding) * m.padded_width >= 0) by (nonlinear_arith);
    if c < m.area() {
        assert(m.halftone[c] == 0 || m.halftone[c] == 65536);
    }
    lemma_scattered_len(m.error, taps, c, change, taps.len());
    lemma_scattered_len(m.e2, wide, c, change, wide.len());
    if stays_in_word(m.error[i] as int, scatter_terms(taps, c, change, i), taps.len()) {
        law_scatter_is_sum(m.error, taps, c, change, taps.len(), i);
    }
    if stays_in_word(m.e2[i] as int, scatter_terms(wide, c, change, i), wide.len()) {
        law_scatter_is_sum(m.e2, wide, c, change, wide.len(), i);
    }
}

/// A toggle adds to the error map, at each point around the pixel, the weight of the kernel at the
/// displacement of the point, and to the second map its autocorrelation there, or takes them off,
/// where nothing saturates. Farther away nothing changes.
pub proof fn law_toggle_by_points(m: DbsModel, x: u32, y: u32, px: int, py: int)
    requires
        m.tame(),
        ample(m.error),
        ample(m.e2),
        x < m.width,
        y < m.height,
        -m.padding <= px < m.width + m.padding,
        -m.padding <= py < m.height + m.padding,
    ensures
        ({
            let t = m.toggled(x, y);
            let i = entry(m, px, py);
            let on = m.halftone[entry(m, x as int, y as int)] != 0;
            &&& !on ==> t.error[i] == m.error[i] + m.kernel_weight(px - x, py - y)
            &&& !on ==> t.e2[i] == m.e2[i] + m.autocorr_weight(px - x, py - y)
            &&& on ==> t.error[i] == m.error[i] - m.kernel_weight(px - x, py - y)
            &&& on ==> t.e2[i] == m.e2[i] - m.autocorr_weight(px - x, py - y)
        }),
{
    lemma_pixel_index(m, x, y);
    lemma_toggled(m, x, y);
    lemma_reach(m);
    lemma_regular_sizes(m);
    let w = m.padded_width as int;
    let i = entry(m, px, py);
    lemma_grid_index_bound(py + m.padding, px + m.padding, m.padded_height as int, w);
    assert(m.padded_height * m.padded_width == m.area()) by (nonlinear_arith)
        requires
            m.area() == m.padded_width * m.padded_height,
    ;
    assert(-0x6000_0000_0000_0000 <= m.error[i] && m.error[i] <= 0x6000_0000_0000_0000);
    assert(-0x6000_0000_0000_0000 <= m.e2[i] && m.e2[i] <= 0x6000_0000_0000_0000);
    let s = toggle_sign(m, x, y);
    lemma_square_hits(
        m.kernel.offsets,
        m.kernel_radius as int,
        w,
        y + m.padding,
        x + m.padding,
        s,
        py + m.padding,
        px + m.padding,
        m.kernel.offsets.len(),
    );
    lemma_square_hits(
        m.kernel.autocorr_offsets,
        m.autocorr_radius() as int,
        w,
        y + m.padding,
        x + m.padding,
        s,
        py + m.padding,
        px + m.padding,
        m.kernel.autocorr_offsets.len(),
    );
    law_weights_in_rows(m, px - x, py - y);
    let k = m.kernel_weight(px - x, py - y) as int;
    let a = m.autocorr_weight(px - x, py - y) as int;
    assert(s * 0 == 0);
    assert(s == 1 ==> s * k == k && s * a == a);
    assert(s == -1 ==> s * k == -k && s * a == -a) by {
        assert(-1 * k == -k && -1 * a == -a);
    }
}

/// What a swap of two pixels that differ does to the halftone.
proof fn lemma_swap_exchanges(m: DbsModel, x1: u32, y1: u32, x2: u32, y2: u32, px: int, py: int)
    requires
        m.wf(),
        x1 < m.width,
        y1 < m.height,
        x2 < m.width,
        y2 < m.height,
        -m.padding <= px < m.width + m.padding,
        -m.padding <= py < m.height + m.padding,
    ensures
        m.swapped(x1, y1, x2, y2).halftone.len() == m.area(),
        0 <= entry(m, px, py) < m.area(),
        entry(m, px, py) / m.padded_width as int == py + m.padding,
        entry(m, px, py) % m.padded_width as int == px + m.padding,
        m.swapped(x1, y1, x2, y2).halftone[entry(m, px, py)] == (if px == x2 && py == y2 {
            m.halftone[entry(m, x1 as int, y1 as int)]
        } else if px == x1 && py == y1 {
            m.halftone[entry(m, x2 as int, y2 as int)]
        } else {
            m.halftone[entry(m, px, py)]
        }),
{
    let w = m.padded_width as int;
    lemma_pixel_index(m, x1, y1);
    lemma_pixel_index(m, x2, y2);
    lemma_grid_index(py + m.padding, px + m.padding, w);
    lemma_grid_index_bound(py + m.padding, px + m.padding, m.padded_height as int, w);
    assert(m.padded_height * m.padded_width == m.area()) by (nonlinear_arith)
        requires
            m.area() == m.padded_width * m.padded_height,
    ;
}

/// An entry of a map once a pixel is turned on and another is turned off.
proof fn lemma_turned(
    before: i64,
    table: Seq<i64>,
    size: i32,
    radius: i32,
    stride: int,
    pos1: (i32, i32),
    pos2: (i32, i32),
    i: int,
    w1: i64,
    w2: i64,
    first: bool,
)
    requires
        stride > 0,
        0 <= pos1.0 && 0 <= pos1.1 && 0 <= pos2.0 && 0 <= pos2.1,
        0 <= i / stride <= i32::MAX,
        0 <= i % stride <= i32::MAX,
        abs_of(before as int) <= 0x4000_0000_0000_0000,
        abs_of(w1 as int) <= 0x4000_0000_0000,
        abs_of(w2 as int) <= 0x4000_0000_0000,
        ({
            let dx = i % stride - pos1.0;
            let dy = i / stride - pos1.1;
            w1 == (if -radius <= dx <= radius && -radius <= dy <= radius {
                at(table, tap_index(dy, dx, size, radius))
            } else {
                0
            })
        }),
        ({
            let dx = i % stride - pos2.0;
            let dy = i / stride - pos2.1;
            w2 == (if -radius <= dx <= radius && -radius <= dy <= radius {
                at(table, tap_index(dy, dx, size, radius))
            } else {
                0
            })
        }),
    ensures
        ({
            let changes: (i64, i64) = if first {
                (65536, (-65536) as i64)
            } else {
                ((-65536) as i64, 65536)
            };
            changed_entry(before, table, size, radius, stride, pos1, pos2, changes, i) == (
            if first {
                before + w1 - w2
            } else {
                before - w1 + w2
            })
        }),
{
    law_fixed_mul_one(w1);
    law_fixed_mul_one(w2);
}

/// The positions of two pixels that are swapped, and by how much they change.
#[verifier::rlimit(50)]
proof fn lemma_swap_ready(m: DbsModel, x1: u32, y1: u32, x2: u32, y2: u32, px: int, py: int)
    requires
        m.wf(),
        m.addressable(),
        m.kernel_size >= 1,
        x1 < m.width,
        y1 < m.height,
        x2 < m.width,
        y2 < m.height,
        m.halftone[entry(m, x1 as int, y1 as int)] != m.halftone[entry(m, x2 as int, y2 as int)],
        -m.padding <= px < m.width + m.padding,
        -m.padding <= py < m.height + m.padding,
    ensures
        ({
            let w = m.padded_width as int;
            let h = m.padded_height as int;
            let i = entry(m, px, py);
            let p1 = m.padded_position(x1, y1);
            let p2 = m.padded_position(x2, y2);
            let first = m.halftone[entry(m, x1 as int, y1 as int)] == 0;
            let changes = m.swap_changes(x1, y1, x2, y2);
            &&& 0 <= i < m.area()
            &&& i / w == py + m.padding && i % w == px + m.padding
            &&& p1.0 == x1 + m.padding && p1.1 == y1 + m.padding
            &&& p2.0 == x2 + m.padding && p2.1 == y2 + m.padding
            &&& inside(p1, m.kernel_radius, w, h) && inside(p2, m.kernel_radius, w, h)
            &&& inside(p1, m.autocorr_radius(), w, h) && inside(p2, m.autocorr_radius(), w, h)
            &&& m.kernel_radius >= 0 && m.autocorr_radius() >= 0
            &&& first ==> changes == (65536i64, (-65536) as i64)
            &&& !first ==> changes == ((-65536) as i64, 65536i64)
        }),
{
    lemma_pixel_index(m, x1, y1);
    lemma_pixel_index(m, x2, y2);
    lemma_swap_exchanges(m, x1, y1, x2, y2, px, py);
    lemma_position(m, x1, y1);
    lemma_position(m, x2, y2);
    lemma_reach(m);
    assert(m.halftone[m.index_of(x1, y1)] == 0 || m.halftone[m.index_of(x1, y1)] == 65536);
    assert(m.halftone[m.index_of(x2, y2)] == 0 || m.halftone[m.index_of(x2, y2)] == 65536);
}

/// What a swap of two pixels that differ does to the error map.
#[verifier::rlimit(50)]
proof fn lemma_swap_error(m: DbsModel, x1: u32, y1: u32, x2: u32, y2: u32, px: int, py: int)
    requires
        m.wf(),
        m.addressable(),
        m.kernel_size >= 1,
        x1 < m.width,
        y1 < m.height,
        x2 < m.width,
        y2 < m.height,
        m.halftone[entry(m, x1 as int, y1 as int)] != m.halftone[entry(m, x2 as int, y2 as int)],
        -m.padding <= px < m.width + m.padding,
        -m.padding <= py < m.height + m.padding,
        abs_of(m.error[entry(m, px, py)] as int) <= 0x4000_0000_0000_0000,
        abs_of(m.kernel_weight(px - x1, py - y1) as int) <= 0x4000_0000_0000,
        abs_of(m.kernel_weight(px - x2, py - y2) as int) <= 0x4000_0000_0000,
    ensures
        ({
            let t = m.swapped(x1, y1, x2, y2);
            let i = entry(m, px, py);
            let w1 = m.kernel_weight(px - x1, py - y1);
            let w2 = m.kernel_weight(px - x2, py - y2);
            let first = m.halftone[entry(m, x1 as int, y1 as int)] == 0;
            &&& t.error.len() == m.area()
            &&& first ==> t.error[i] == m.error[i] + w1 - w2
            &&& !first ==> t.error[i] == m.error[i] - w1 + w2
        }),
{
    let i = entry(m, px, py);
    let w = m.padded_width as int;
    lemma_swap_ready(m, x1, y1, x2, y2, px, py);
    let p1 = m.padded_position(x1, y1);
    let p2 = m.padded_position(x2, y2);
    let first = m.halftone[entry(m, x1 as int, y1 as int)] == 0;
    let changes = m.swap_changes(x1, y1, x2, y2);
    lemma_spread_entries(
        m.error,
        m.kernel.flat,
        m.kernel_size,
        m.kernel_radius,
        w,
        m.padded_height as int,
        p1,
        p2,
        changes,
    );
    lemma_turned(
        m.error[i],
        m.kernel.flat,
        m.kernel_size,
        m.kernel_radius,
        w,
        p1,
        p2,
        i,
        m.kernel_weight(px - x1, py - y1),
        m.kernel_weight(px - x2, py - y2),
        first,
    );
}

/// What a swap of two pixels that differ does to the second map.
#[verifier::rlimit(50)]
proof fn lemma_swap_e2(m: DbsModel, x1: u32, y1: u32, x2: u32, y2: u32, px: int, py: int)
    requires
        m.wf(),
        m.addressable(),
        m.kernel_size >= 1,
        x1 < m.width,
        y1 < m.height,
        x2 < m.width,
        y2 < m.height,
        m.halftone[entry(m, x1 as int, y1 as int)] != m.halftone[entry(m, x2 as int, y2 as int)],
        -m.padding <= px < m.width + m.padding,
        -m.padding <= py < m.height + m.padding,
        abs_of(m.e2[entry(m, px, py)] as int) <= 0x4000_0000_0000_0000,
        abs_of(m.autocorr_weight(px - x1, py - y1) as int) <= 0x4000_0000_0000,
        abs_of(m.autocorr_weight(px - x2, py - y2) as int) <= 0x4000_0000_0000,
    ensures
        ({
            let t = m.swapped(x1, y1, x2, y2);
            let i = entry(m, px, py);
            let w1 = m.autocorr_weight(px - x1, py - y1);
            let w2 = m.autocorr_weight(px - x2, py - y2);
            let first = m.halftone[entry(m, x1 as int, y1 as int)] == 0;
            &&& t.e2.len() == m.area()
            &&& first ==> t.e2[i] == m.e2[i] + w1 - w2
            &&& !first ==> t.e2[i] == m.e2[i] - w1 + w2
        }),
{
    let i = entry(m, px, py);
    let w = m.padded_width as int;
    lemma_swap_ready(m, x1, y1, x2, y2, px, py);
    let p1 = m.padded_position(x1, y1);
    let p2 = m.padded_position(x2, y2);
    let first = m.halftone[entry(m, x1 as int, y1 as int)] == 0;
    let changes = m.swap_changes(x1, y1, x2, y2);
    lemma_spread_entries(
        m.e2,
        m.kernel.autocorr,
        m.kernel.autocorr_size,
        m.autocorr_radius(),
        w,
        m.padded_height as int,
        p1,
        p2,
        changes,
    );
    lemma_turned(
        m.e2[i],
        m.kernel.autocorr,
        m.kernel.autocorr_size,
        m.autocorr_radius(),
        w,
        p1,
        p2,
        i,
        m.autocorr_weight(px - x1, py - y1),
        m.autocorr_weight(px - x2, py - y2),
        first,
    );
}

/// A swap of two pixels that differ exchanges them, and adds to each map, at every point, the
/// weight at the displacement from the pixel that is turned on, and takes off that from the other,
/// where nothing saturates. Nothing else changes.
pub proof fn law_swap_by_points(
    m: DbsModel,
    x1: u32,
    y1: u32,
    x2: u32,
    y2: u32,
    px: int,
    py: int,
)
    requires
        m.wf(),
        m.addressable(),
        m.kernel_size >= 1,
        x1 < m.width,
        y1 < m.height,
        x2 < m.width,
        y2 < m.height,
        m.halftone[entry(m, x1 as int, y1 as int)] != m.halftone[entry(m, x2 as int, y2 as int)],
        -m.padding <= px < m.width + m.padding,
        -m.padding <= py < m.height + m.padding,
        abs_of(m.error[entry(m, px, py)] as int) <= 0x4000_0000_0000_0000,
        abs_of(m.e2[entry(m, px, py)] as int) <= 0x4000_0000_0000_0000,
        abs_of(m.kernel_weight(px - x1, py - y1) as int) <= 0x4000_0000_0000,
        abs_of(m.kernel_weight(px - x2, py - y2) as int) <= 0x4000_0000_0000,
        abs_of(m.autocorr_weight(px - x1, py - y1) as int) <= 0x4000_0000_0000,
        abs_of(m.autocorr_weight(px - x2, py - y2) as int) <= 0x4000_0000_0000,
    ensures
        ({
            let t = m.swapped(x1, y1, x2, y2);
            let i = entry(m, px, py);
            let k1 = m.kernel_weight(px - x1, py - y1);
            let k2 = m.kernel_weight(px - x2, py - y2);
            let a1 = m.autocorr_weight(px - x1, py - y1);
            let a2 = m.autocorr_weight(px - x2, py - y2);
            let first = m.halftone[entry(m, x1 as int, y1 as int)] == 0;
            &&& t == DbsModel { halftone: t.halftone, error: t.error, e2: t.e2, ..m }
            &&& t.halftone.len() == t.error.len() == t.e2.len() == m.area()
            &&& px == x1 && py == y1 ==> t.halftone[i] == m.halftone[entry(m, x2 as int, y2 as int)]
            &&& px == x2 && py == y2 ==> t.halftone[i] == m.halftone[entry(m, x1 as int, y1 as int)]
            &&& !(px == x1 && py == y1) && !(px == x2 && py == y2) ==> t.halftone[i]
                == m.halftone[i]
            &&& first ==> t.error[i] == m.error[i] + k1 - k2 && t.e2[i] == m.e2[i] + a1 - a2
            &&& !first ==> t.error[i] == m.error[i] - k1 + k2 && t.e2[i] == m.e2[i] - a1 + a2
        }),
{
    lemma_swap_exchanges(m, x1, y1, x2, y2, px, py);
    lemma_swap_error(m, x1, y1, x2, y2, px, py);
    lemma_swap_e2(m, x1, y1, x2, y2, px, py);
}

} // verus!
