//! A swap does what two toggles do.
use crate::context::{lemma_margin, DbsModel};
use crate::filter::{filter_sum, scattered};
use crate::fixed::{abs_of, clamp64, fmul};
use crate::fold::{count_between, grid_fold, lemma_grid_index, lemma_grid_index_bound, row_fold};
use crate::kernel::{at, tap_index, KernelOffset};
use crate::kernel_laws::{
    lemma_size_bound, lemma_tap_index, lemma_tap_number, square_in_array, square_taps, tap_weights,
};
use crate::map_laws::{
    ample, hits, law_fixed_mul_one, law_toggle_keeps_error, lemma_difference_levels,
    lemma_filter_size, lemma_hits_size, lemma_light_weight, lemma_pixel_index,
    lemma_scattered_entry, lemma_scattered_len, lemma_toggled, light, mirrored, toggle_sign,
};
use crate::ops::{bounds_of, near, spread, spread_step, swap_change};
use vstd::arithmetic::div_mod::lemma_fundamental_div_mod;
use vstd::prelude::*;

verus! {

/// The entry `i` of a map once a swap is carried through at its point.
pub open spec fn changed_entry(
    before: i64,
    table: Seq<i64>,
    size: i32,
    radius: i32,
    stride: int,
    pos1: (i32, i32),
    pos2: (i32, i32),
    changes: (i64, i64),
    i: int,
) -> i64 {
    match swap_change(table, size, radius, (i % stride, i / stride), pos1, pos2, changes) {
        Some(delta) => clamp64(before + delta),
        None => before,
    }
}

/// A map once a swap is carried through along a row.
proof fn lemma_spread_row(
    map: Seq<i64>,
    table: Seq<i64>,
    size: i32,
    radius: i32,
    stride: int,
    pos1: (i32, i32),
    pos2: (i32, i32),
    changes: (i64, i64),
    y: int,
    x0: int,
    n: nat,
)
    requires
        0 <= y,
        0 <= x0,
        x0 + n <= stride,
    ensures
        ({
            let f = spread_step(table, size, radius, stride, pos1, pos2, changes);
            let out = row_fold(f, map, y, x0, n);
            &&& out.len() == map.len()
            &&& forall|i: int|
                0 <= i < map.len() ==> #[trigger] out[i] == (if i / stride == y && x0 <= i % stride
                    < x0 + n {
                    changed_entry(map[i], table, size, radius, stride, pos1, pos2, changes, i)
                } else {
                    map[i]
                })
        }),
    decreases n,
{
    let f = spread_step(table, size, radius, stride, pos1, pos2, changes);
    let out = row_fold(f, map, y, x0, n);
    if n > 0 {
        lemma_spread_row(
            map,
            table,
            size,
            radius,
            stride,
            pos1,
            pos2,
            changes,
            y,
            x0,
            (n - 1) as nat,
        );
        let before = row_fold(f, map, y, x0, (n - 1) as nat);
        let x = x0 + n - 1;
        assert(out == f(before, y, x));
        lemma_grid_index(y, x, stride);
        assert forall|i: int| 0 <= i < map.len() implies #[trigger] out[i] == (if i / stride == y
            && x0 <= i % stride < x0 + n {
            changed_entry(map[i], table, size, radius, stride, pos1, pos2, changes, i)
        } else {
            map[i]
        }) by {
            lemma_fundamental_div_mod(i, stride);
            assert(i / stride == y && i % stride == x ==> i == y * stride + x) by (nonlinear_arith)
                requires
                    i == stride * (i / stride) + i % stride,
            ;
            assert(before[i] == (if i / stride == y && x0 <= i % stride < x0 + n - 1 {
                changed_entry(map[i], table, size, radius, stride, pos1, pos2, changes, i)
            } else {
                map[i]
            }));
        }
    }
}

/// A map once a swap is carried through over a rectangle.
proof fn lemma_spread_grid(
    map: Seq<i64>,
    table: Seq<i64>,
    size: i32,
    radius: i32,
    stride: int,
    pos1: (i32, i32),
    pos2: (i32, i32),
    changes: (i64, i64),
    y0: int,
    x0: int,
    rows: nat,
    cols: nat,
)
    requires
        0 <= y0,
        0 <= x0,
        x0 + cols <= stride,
    ensures
        ({
            let f = spread_step(table, size, radius, stride, pos1, pos2, changes);
            let out = grid_fold(f, map, y0, x0, rows, cols);
            &&& out.len() == map.len()
            &&& forall|i: int|
                0 <= i < map.len() ==> #[trigger] out[i] == (if y0 <= i / stride < y0 + rows && x0
                    <= i % stride < x0 + cols {
                    changed_entry(map[i], table, size, radius, stride, pos1, pos2, changes, i)
                } else {
                    map[i]
                })
        }),
    decreases rows,
{
    if rows > 0 {
        let f = spread_step(table, size, radius, stride, pos1, pos2, changes);
        lemma_spread_grid(
            map,
            table,
            size,
            radius,
            stride,
            pos1,
            pos2,
            changes,
            y0,
            x0,
            (rows - 1) as nat,
            cols,
        );
        let before = grid_fold(f, map, y0, x0, (rows - 1) as nat, cols);
        lemma_spread_row(
            before,
            table,
            size,
            radius,
            stride,
            pos1,
            pos2,
            changes,
            y0 + rows - 1,
            x0,
            cols,
        );
    }
}

/// A point in an array and all points within `radius` of it lie in the same array.
pub open spec fn inside(pos: (i32, i32), radius: i32, stride: int, rows: int) -> bool {
    &&& radius <= pos.0
    &&& pos.0 + radius < stride
    &&& radius <= pos.1
    &&& pos.1 + radius < rows
}

/// A map once a swap is carried through around both positions.
pub proof fn lemma_spread_entries(
    map: Seq<i64>,
    table: Seq<i64>,
    size: i32,
    radius: i32,
    stride: int,
    rows: int,
    pos1: (i32, i32),
    pos2: (i32, i32),
    changes: (i64, i64),
)
    requires
        radius >= 0,
        stride > 0,
        stride <= i32::MAX,
        rows <= i32::MAX,
        inside(pos1, radius, stride, rows),
        inside(pos2, radius, stride, rows),
        map.len() == stride * rows,
    ensures
        spread(map, table, size, radius, stride, pos1, pos2, changes).len() == map.len(),
        forall|i: int|
            0 <= i < map.len() ==> #[trigger] spread(
                map,
                table,
                size,
                radius,
                stride,
                pos1,
                pos2,
                changes,
            )[i] == changed_entry(map[i], table, size, radius, stride, pos1, pos2, changes, i),
{
    let b = bounds_of(pos1, pos2, radius);
    let out = spread(map, table, size, radius, stride, pos1, pos2, changes);
    lemma_spread_grid(
        map,
        table,
        size,
        radius,
        stride,
        pos1,
        pos2,
        changes,
        b.2 as int,
        b.0 as int,
        count_between(b.2 as int, b.3 as int),
        count_between(b.0 as int, b.1 as int),
    );
    assert forall|i: int| 0 <= i < map.len() implies #[trigger] out[i] == changed_entry(
        map[i],
        table,
        size,
        radius,
        stride,
        pos1,
        pos2,
        changes,
        i,
    ) by {
        lemma_fundamental_div_mod(i, stride);
        assert(0 <= i / stride < rows) by (nonlinear_arith)
            requires
                stride > 0,
                0 <= i < stride * rows,
                i == stride * (i / stride) + i % stride,
                0 <= i % stride < stride,
        ;
    }
}

/// What the taps of a square around a point add at another: the weight of the one tap that leads
/// there, if one does.
pub proof fn lemma_square_hits(
    taps: Seq<KernelOffset>,
    radius: int,
    stride: int,
    cy: int,
    cx: int,
    sign: int,
    iy: int,
    ix: int,
    n: nat,
)
    requires
        square_in_array(taps, radius, stride),
        radius <= cx,
        cx + radius < stride,
        0 <= ix < stride,
        n <= taps.len(),
    ensures
        ({
            let k = (iy - cy + radius) * (2 * radius + 1) + (ix - cx + radius);
            let near = abs_of(iy - cy) <= radius && abs_of(ix - cx) <= radius;
            &&& near ==> 0 <= k < taps.len()
            &&& hits(taps, cy * stride + cx, sign, n, iy * stride + ix) == (if near && k < n {
                sign * taps[k].weight
            } else {
                0
            })
        }),
    decreases n,
{
    let w = 2 * radius + 1;
    let k = (iy - cy + radius) * w + (ix - cx + radius);
    let near = abs_of(iy - cy) <= radius && abs_of(ix - cx) <= radius;
    if near {
        lemma_grid_index_bound(iy - cy + radius, ix - cx + radius, w, w);
        lemma_grid_index(iy - cy + radius, ix - cx + radius, w);
    }
    if n > 0 {
        lemma_square_hits(taps, radius, stride, cy, cx, sign, iy, ix, (n - 1) as nat);
        let j = n - 1;
        lemma_tap_number(j, w);
        let dy = taps[j].dy as int;
        let dx = taps[j].dx as int;
        assert(dy == j / w - radius && dx == j % w - radius);
        assert(taps[j].offset == dy * stride + dx);
        assert(cy * stride + cx + (dy * stride + dx) == (cy + dy) * stride + (cx + dx))
            by (nonlinear_arith);
        lemma_grid_index(cy + dy, cx + dx, stride);
        lemma_grid_index(iy, ix, stride);
        if cy * stride + cx + taps[j].offset == iy * stride + ix {
            assert(iy == cy + dy && ix == cx + dx);
            assert(j == k);
        } else if near && j == k {
            assert(dy == iy - cy && dx == ix - cx);
            assert(false);
        }
    }
}

/// The margin around a picture is as wide as the autocorrelation reaches.
pub proof fn lemma_reach(m: DbsModel)
    requires
        m.wf(),
        m.kernel_size >= 1,
    ensures
        m.autocorr_radius() == m.padding,
        0 <= m.kernel_radius <= m.padding,
        m.padded_width == m.width + 2 * m.padding,
        m.padded_height == m.height + 2 * m.padding,
{
    lemma_margin(m.kernel_size);
}

/// Where a pixel of a picture that is not too large lies in the arrays.
pub proof fn lemma_position(m: DbsModel, x: u32, y: u32)
    requires
        m.wf(),
        m.has_pixel(x, y),
        m.kernel_size >= 1,
        m.padded_width <= i32::MAX,
        m.padded_height <= i32::MAX,
    ensures
        m.padded_position(x, y) == ((x + m.padding) as i32, (y + m.padding) as i32),
        inside(
            m.padded_position(x, y),
            m.autocorr_radius(),
            m.padded_width as int,
            m.padded_height as int,
        ),
        inside(
            m.padded_position(x, y),
            m.kernel_radius,
            m.padded_width as int,
            m.padded_height as int,
        ),
        m.autocorr_radius() == m.padding,
{
    lemma_margin(m.kernel_size);
}

/// What a swap adds to an entry of a map is what two toggles add.
#[verifier::rlimit(50)]
pub proof fn lemma_spread_entry_is_two_scatters(
    map: Seq<i64>,
    table: Seq<i64>,
    taps: Seq<KernelOffset>,
    size: i32,
    radius: i32,
    stride: int,
    rows: int,
    pos1: (i32, i32),
    pos2: (i32, i32),
    sign: int,
    i: int,
)
    requires
        square_in_array(taps, radius as int, stride),
        light(taps),
        0 <= i < map.len(),
        abs_of(map[i] as int) <= 0x6000_0000_0000_0000,
        table == tap_weights(taps),
        size == 2 * radius + 1,
        size * size <= i32::MAX,
        0 < stride <= i32::MAX,
        rows <= i32::MAX,
        inside(pos1, radius, stride, rows),
        inside(pos2, radius, stride, rows),
        map.len() == stride * rows,
        sign == 1 || sign == -1,
    ensures
        ({
            let c1 = pos1.1 * stride + pos1.0;
            let c2 = pos2.1 * stride + pos2.0;
            let change = (sign * 65536) as i64;
            let back = (-sign * 65536) as i64;
            spread(map, table, size, radius, stride, pos1, pos2, (change, back))[i] == scattered(
                scattered(map, taps, c1, change, taps.len()),
                taps,
                c2,
                back,
                taps.len(),
            )[i]
        }),
{
    let c1 = pos1.1 * stride + pos1.0;
    let c2 = pos2.1 * stride + pos2.0;
    let change = (sign * 65536) as i64;
    let back = (-sign * 65536) as i64;
    let changes = (change, back);
    let out = spread(map, table, size, radius, stride, pos1, pos2, changes);
    let first = scattered(map, taps, c1, change, taps.len());
    let second = scattered(first, taps, c2, back, taps.len());
    lemma_spread_entries(map, table, size, radius, stride, rows, pos1, pos2, changes);
    lemma_scattered_len(map, taps, c1, change, taps.len());
    lemma_scattered_len(first, taps, c2, back, taps.len());
    let iy = i / stride;
    let ix = i % stride;
    lemma_fundamental_div_mod(i, stride);
    assert(i == iy * stride + ix) by (nonlinear_arith)
        requires
            i == stride * iy + ix,
    ;
    assert(0 <= iy < rows) by (nonlinear_arith)
        requires
            stride > 0,
            0 <= i < stride * rows,
            i == stride * iy + ix,
            0 <= ix < stride,
    ;
    let n = taps.len();
    let h1 = hits(taps, c1, sign, n, i);
    let h2 = hits(taps, c2, -sign, n, i);
    lemma_hits_size(taps, c1, sign, n, i);
    lemma_hits_size(taps, c2, -sign, n, i);
    lemma_scattered_entry(map, taps, c1, sign, n, i);
    lemma_scattered_entry(first, taps, c2, -sign, n, i);
    assert(second[i] == map[i] + h1 + h2);
    lemma_square_hits(
        taps,
        radius as int,
        stride,
        pos1.1 as int,
        pos1.0 as int,
        sign,
        iy,
        ix,
        n,
    );
    lemma_square_hits(
        taps,
        radius as int,
        stride,
        pos2.1 as int,
        pos2.0 as int,
        -sign,
        iy,
        ix,
        n,
    );
    let in1 = abs_of(ix - pos1.0) <= radius && abs_of(iy - pos1.1) <= radius;
    let in2 = abs_of(ix - pos2.0) <= radius && abs_of(iy - pos2.1) <= radius;
    if in1 {
        lemma_tap_index(iy - pos1.1, ix - pos1.0, size, radius);
        lemma_tap_weight(taps, iy - pos1.1, ix - pos1.0, size, radius, sign);
    }
    if in2 {
        lemma_tap_index(iy - pos2.1, ix - pos2.0, size, radius);
        lemma_tap_weight(taps, iy - pos2.1, ix - pos2.0, size, radius, -sign);
    }
    assert(out[i] == changed_entry(map[i], table, size, radius, stride, pos1, pos2, changes, i));
}

/// What a swap adds to a map is what two toggles add.
proof fn lemma_spread_is_two_scatters(
    map: Seq<i64>,
    table: Seq<i64>,
    taps: Seq<KernelOffset>,
    size: i32,
    radius: i32,
    stride: int,
    rows: int,
    pos1: (i32, i32),
    pos2: (i32, i32),
    sign: int,
)
    requires
        square_in_array(taps, radius as int, stride),
        light(taps),
        ample(map),
        table == tap_weights(taps),
        size == 2 * radius + 1,
        size * size <= i32::MAX,
        0 < stride <= i32::MAX,
        rows <= i32::MAX,
        inside(pos1, radius, stride, rows),
        inside(pos2, radius, stride, rows),
        map.len() == stride * rows,
        sign == 1 || sign == -1,
    ensures
        ({
            let c1 = pos1.1 * stride + pos1.0;
            let c2 = pos2.1 * stride + pos2.0;
            let change = (sign * 65536) as i64;
            let back = (-sign * 65536) as i64;
            spread(map, table, size, radius, stride, pos1, pos2, (change, back)) == scattered(
                scattered(map, taps, c1, change, taps.len()),
                taps,
                c2,
                back,
                taps.len(),
            )
        }),
{
    let c1 = pos1.1 * stride + pos1.0;
    let c2 = pos2.1 * stride + pos2.0;
    let change = (sign * 65536) as i64;
    let back = (-sign * 65536) as i64;
    let out = spread(map, table, size, radius, stride, pos1, pos2, (change, back));
    let first = scattered(map, taps, c1, change, taps.len());
    let second = scattered(first, taps, c2, back, taps.len());
    lemma_spread_entries(map, table, size, radius, stride, rows, pos1, pos2, (change, back));
    lemma_scattered_len(map, taps, c1, change, taps.len());
    lemma_scattered_len(first, taps, c2, back, taps.len());
    assert forall|i: int| 0 <= i < map.len() implies out[i] == second[i] by {
        lemma_spread_entry_is_two_scatters(
            map,
            table,
            taps,
            size,
            radius,
            stride,
            rows,
            pos1,
            pos2,
            sign,
            i,
        );
    }
    assert(out =~= second);
}

/// The change by one times the weight that is looked up.
proof fn lemma_tap_weight(
    taps: Seq<KernelOffset>,
    dy: int,
    dx: int,
    size: i32,
    radius: i32,
    sign: int,
)
    requires
        square_taps(taps, radius as int),
        light(taps),
        size == 2 * radius + 1,
        size * size <= i32::MAX,
        abs_of(dy) <= radius,
        abs_of(dx) <= radius,
        sign == 1 || sign == -1,
    ensures
        fmul(
            (sign * 65536) as i64,
            at(tap_weights(taps), tap_index(dy, dx, size, radius)),
        ) == sign * taps[(dy + radius) * (2 * radius + 1) + (dx + radius)].weight,
{
    lemma_tap_index(dy, dx, size, radius);
    let k = tap_index(dy, dx, size, radius);
    assert(size * size == (2 * radius + 1) * (2 * radius + 1));
    lemma_light_weight(taps, k);
    law_fixed_mul_one(taps[k].weight);
    if sign == 1 {
        assert(1 * taps[k].weight == taps[k].weight);
    } else {
        assert(-1 * taps[k].weight == -taps[k].weight);
    }
}

impl DbsModel {
    /// Every row and column of the arrays has a number in a signed word of 32 bits.
    pub open spec fn addressable(self) -> bool {
        self.padded_width <= i32::MAX && self.padded_height <= i32::MAX
    }

    /// The maps follow each toggle exactly: the kernel is regular and its mass small.
    pub open spec fn tame(self) -> bool {
        &&& self.wf()
        &&& self.regular()
        &&& light(self.kernel.offsets)
        &&& light(self.kernel.autocorr_offsets)
    }
}

/// Swapping two pixels of which one is on and the other is off does what toggling the one and then
/// the other does, where nothing saturates.
#[verifier::rlimit(50)]
pub proof fn law_swap_is_two_toggles(m: DbsModel, x1: u32, y1: u32, x2: u32, y2: u32)
    requires
        m.tame(),
        m.addressable(),
        m.has_pixel(x1, y1),
        m.has_pixel(x2, y2),
        m.swappable(x1, y1, x2, y2),
        ample(m.error),
        ample(m.e2),
    ensures
        m.swapped(x1, y1, x2, y2) == m.toggled(x1, y1).toggled(x2, y2),
{
    let i1 = m.index_of(x1, y1);
    let i2 = m.index_of(x2, y2);
    let s = toggle_sign(m, x1, y1);
    let t = m.toggled(x1, y1);
    let u = t.toggled(x2, y2);
    let w = m.swapped(x1, y1, x2, y2);
    lemma_margin(m.kernel_size);
    lemma_pixel_index(m, x1, y1);
    lemma_pixel_index(m, x2, y2);
    lemma_position(m, x1, y1);
    lemma_position(m, x2, y2);
    lemma_toggled(m, x1, y1);
    lemma_pixel_index(t, x2, y2);
    let p1 = m.padded_position(x1, y1);
    let p2 = m.padded_position(x2, y2);
    let stride = m.padded_width as int;
    assert(m.halftone[i1] == 0 || m.halftone[i1] == 65536);
    assert(m.halftone[i2] == 0 || m.halftone[i2] == 65536);
    assert(m.swap_changes(x1, y1, x2, y2) == ((s * 65536) as i64, (-s * 65536) as i64));
    assert(i1 != i2);
    assert(t.halftone[i2] == m.halftone[i2]);
    assert(w.halftone =~= u.halftone);
    assert(p1.1 * stride + p1.0 == i1);
    assert(p2.1 * stride + p2.0 == i2);
    let r = m.kernel_radius;
    lemma_regular_sizes(m);
    lemma_spread_is_two_scatters(
        m.error,
        m.kernel.flat,
        m.kernel.offsets,
        m.kernel_size,
        r,
        stride,
        m.padded_height as int,
        p1,
        p2,
        s,
    );
    assert(w.error == u.error);
    lemma_spread_is_two_scatters(
        m.e2,
        m.kernel.autocorr,
        m.kernel.autocorr_offsets,
        m.kernel.autocorr_size,
        m.autocorr_radius(),
        stride,
        m.padded_height as int,
        p1,
        p2,
        s,
    );
    assert(w.e2 == u.e2);
    assert(w =~= u);
}

/// A kernel whose autocorrelation is stored in a square of 32-bit size is itself.
pub proof fn lemma_regular_sizes(m: DbsModel)
    requires
        m.wf(),
        m.regular(),
    ensures
        m.kernel_size == 2 * m.kernel_radius + 1,
        m.kernel_radius >= 0,
        m.autocorr_radius() == 2 * m.kernel_radius,
        m.kernel_size * m.kernel_size <= i32::MAX,
{
    lemma_margin(m.kernel_size);
    let a = m.kernel.autocorr_size as int;
    let z = m.kernel_size as int;
    lemma_size_bound(a);
    assert(z <= a);
    assert(z * z <= a * a) by (nonlinear_arith)
        requires
            0 <= z <= a,
    ;
}

/// A swap keeps the error map exact, for a kernel that looks the same from both sides and where
/// nothing saturates.
#[verifier::rlimit(50)]
pub proof fn law_swap_keeps_error(m: DbsModel, x1: u32, y1: u32, x2: u32, y2: u32)
    requires
        m.wf(),
        m.regular(),
        m.addressable(),
        light(m.kernel.offsets),
        mirrored(m.kernel.offsets),
        m.has_pixel(x1, y1),
        m.has_pixel(x2, y2),
        m.swappable(x1, y1, x2, y2),
        m.error_exact(),
    ensures
        m.swapped(x1, y1, x2, y2).error_exact(),
{
    let i1 = m.index_of(x1, y1);
    let i2 = m.index_of(x2, y2);
    let s = toggle_sign(m, x1, y1);
    let t = m.toggled(x1, y1);
    let u = t.toggled(x2, y2);
    let w = m.swapped(x1, y1, x2, y2);
    let taps = m.kernel.offsets;
    lemma_regular_sizes(m);
    lemma_pixel_index(m, x1, y1);
    lemma_pixel_index(m, x2, y2);
    lemma_position(m, x1, y1);
    lemma_position(m, x2, y2);
    lemma_scattered_len(m.error, taps, i1, (s * 65536) as i64, taps.len());
    lemma_scattered_len(
        m.e2,
        m.kernel.autocorr_offsets,
        i1,
        (s * 65536) as i64,
        m.kernel.autocorr_offsets.len(),
    );
    assert(t.wf());
    law_toggle_keeps_error(m, x1, y1);
    law_toggle_keeps_error(t, x2, y2);
    lemma_pixel_index(t, x2, y2);
    let p1 = m.padded_position(x1, y1);
    let p2 = m.padded_position(x2, y2);
    let stride = m.padded_width as int;
    assert(m.halftone[i1] == 0 || m.halftone[i1] == 65536);
    assert(m.halftone[i2] == 0 || m.halftone[i2] == 65536);
    assert(m.swap_changes(x1, y1, x2, y2) == ((s * 65536) as i64, (-s * 65536) as i64));
    assert(i1 != i2);
    assert(t.halftone[i2] == m.halftone[i2]);
    assert(w.halftone =~= u.halftone);
    assert(w.difference() =~= u.difference());
    assert(p1.1 * stride + p1.0 == i1);
    assert(p2.1 * stride + p2.0 == i2);
    lemma_spread_entries(
        m.error,
        m.kernel.flat,
        m.kernel_size,
        m.kernel_radius,
        stride,
        m.padded_height as int,
        p1,
        p2,
        m.swap_changes(x1, y1, x2, y2),
    );
    lemma_scattered_len(t.error, taps, i2, (-s * 65536) as i64, taps.len());
    assert forall|i: int|
        0 <= i < w.error.len() && w.error_window().has(
            i / w.padded_width as int,
            i % w.padded_width as int,
        ) implies #[trigger] w.error[i] == filter_sum(
        w.difference(),
        w.kernel.offsets,
        i,
        w.kernel.offsets.len(),
    ) by {
        lemma_difference_levels(m);
        assert(m.error[i] == filter_sum(m.difference(), taps, i, taps.len()));
        lemma_filter_size(m.difference(), taps, i, taps.len());
        lemma_spread_entry_is_two_scatters(
            m.error,
            m.kernel.flat,
            taps,
            m.kernel_size,
            m.kernel_radius,
            stride,
            m.padded_height as int,
            p1,
            p2,
            s,
            i,
        );
        assert(w.error[i] == u.error[i]);
    }
}

/// A swap keeps a context well formed.
pub proof fn lemma_swapped_wf(m: DbsModel, x1: u32, y1: u32, x2: u32, y2: u32)
    requires
        m.wf(),
    ensures
        m.swapped(x1, y1, x2, y2).wf(),
{
    let p1 = m.padded_position(x1, y1);
    let p2 = m.padded_position(x2, y2);
    let changes = m.swap_changes(x1, y1, x2, y2);
    let stride = m.padded_width as int;
    let b = bounds_of(p1, p2, m.kernel_radius);
    let c = bounds_of(p1, p2, m.autocorr_radius());
    lemma_spread_len(
        m.error,
        m.kernel.flat,
        m.kernel_size,
        m.kernel_radius,
        stride,
        p1,
        p2,
        changes,
        b.2 as int,
        b.0 as int,
        count_between(b.2 as int, b.3 as int),
        count_between(b.0 as int, b.1 as int),
    );
    lemma_spread_len(
        m.e2,
        m.kernel.autocorr,
        m.kernel.autocorr_size,
        m.autocorr_radius(),
        stride,
        p1,
        p2,
        changes,
        c.2 as int,
        c.0 as int,
        count_between(c.2 as int, c.3 as int),
        count_between(c.0 as int, c.1 as int),
    );
}

/// Carrying a swap through keeps the length of a map.
proof fn lemma_spread_len(
    map: Seq<i64>,
    table: Seq<i64>,
    size: i32,
    radius: i32,
    stride: int,
    pos1: (i32, i32),
    pos2: (i32, i32),
    changes: (i64, i64),
    y0: int,
    x0: int,
    rows: nat,
    cols: nat,
)
    ensures
        grid_fold(
            spread_step(table, size, radius, stride, pos1, pos2, changes),
            map,
            y0,
            x0,
            rows,
            cols,
        ).len() == map.len(),
    decreases rows,
{
    let f = spread_step(table, size, radius, stride, pos1, pos2, changes);
    if rows > 0 {
        lemma_spread_len(
            map,
            table,
            size,
            radius,
            stride,
            pos1,
            pos2,
            changes,
            y0,
            x0,
            (rows - 1) as nat,
            cols,
        );
        lemma_spread_row_len(
            grid_fold(f, map, y0, x0, (rows - 1) as nat, cols),
            f,
            y0 + rows - 1,
            x0,
            cols,
        );
    }
}

proof fn lemma_spread_row_len(
    map: Seq<i64>,
    f: spec_fn(Seq<i64>, int, int) -> Seq<i64>,
    y: int,
    x0: int,
    n: nat,
)
    requires
        forall|s: Seq<i64>, a: int, b: int| (#[trigger] f(s, a, b)).len() == s.len(),
    ensures
        row_fold(f, map, y, x0, n).len() == map.len(),
    decreases n,
{
    if n > 0 {
        lemma_spread_row_len(map, f, y, x0, (n - 1) as nat);
    }
}

/// A swap keeps the tone of the picture: as many pixels are on as before.
pub proof fn law_swap_keeps_tone(m: DbsModel, x1: u32, y1: u32, x2: u32, y2: u32)
    requires
        m.wf(),
        m.has_pixel(x1, y1),
        m.has_pixel(x2, y2),
    ensures
        m.swapped(x1, y1, x2, y2).halftone.to_multiset() == m.halftone.to_multiset(),
{
    let i1 = m.index_of(x1, y1);
    let i2 = m.index_of(x2, y2);
    let h = m.halftone;
    lemma_pixel_index(m, x1, y1);
    lemma_pixel_index(m, x2, y2);
    let step = h.update(i1, h[i2]);
    let out = m.swapped(x1, y1, x2, y2).halftone;
    assert(out == step.update(i2, h[i1]));
    broadcast use vstd::seq_lib::group_to_multiset_ensures;
    assert(step.to_multiset() =~= h.to_multiset().insert(h[i2]).remove(h[i1])) by {
        assert(h.contains(h[i1]));
    }
    if i1 == i2 {
        assert(out =~= h);
    } else {
        assert(step[i2] == h[i2]);
        assert(out.to_multiset() =~= step.to_multiset().insert(h[i1]).remove(h[i2]));
        assert(h.to_multiset().count(h[i1]) > 0 && h.to_multiset().count(h[i2]) > 0) by {
            assert(h.contains(h[i1]) && h.contains(h[i2]));
        }
        assert(out.to_multiset() =~= h.to_multiset());
    }
}

/// A toggle changes one pixel of the halftone, and no other.
pub proof fn law_toggle_changes_one_pixel(m: DbsModel, x: u32, y: u32, i: int)
    requires
        m.wf(),
        m.has_pixel(x, y),
        0 <= i < m.halftone.len(),
    ensures
        m.toggled(x, y).halftone[i] != m.halftone[i] <==> i == m.index_of(x, y),
{
    lemma_pixel_index(m, x, y);
}

} // verus!
