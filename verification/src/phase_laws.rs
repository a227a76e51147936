//! The blocks of one phase do not get in each other's way: what happens in one does not depend on
//! whether, and when, the others are visited.
use crate::blocks::Block;
use crate::context::{lemma_margin, DbsModel};
use crate::filter::scattered;
use crate::fixed::abs_of;
use crate::fold::lemma_grid_index;
use crate::follow_laws::{
    follows, law_improvement_follows, law_maps_depend_on_halftone, lemma_follows_itself,
};
use crate::grid_laws::law_phase_blocks_apart;
use crate::kernel::KernelOffset;
use crate::kernel_laws::{lemma_tap_number, square_in_array};
use crate::map_laws::{lemma_pixel_index, lemma_scattered_len, roomy};
use crate::ops::Choice;
use crate::search::{fresh_tally, processed, row_count, row_len, Tally};
use crate::search_laws::{
    blocks_inside, law_best_is_least, law_blocks_inside, lemma_improved_frame, lemma_rows_keep,
};
use crate::swap_laws::{changed_entry, lemma_position, lemma_regular_sizes, lemma_spread_entries};
use vstd::arithmetic::div_mod::lemma_fundamental_div_mod;
use vstd::prelude::*;

verus! {

/// Whether an entry of the arrays lies within `d` of a pixel, in its row and in its column.
pub open spec fn entry_near(m: DbsModel, x: int, y: int, d: int, i: int) -> bool {
    &&& abs_of(i % m.padded_width as int - m.padding - x) <= d
    &&& abs_of(i / m.padded_width as int - m.padding - y) <= d
}

/// Whether an entry of the arrays lies within `d` of a block.
pub open spec fn entry_close(m: DbsModel, block: Block, d: int, i: int) -> bool {
    &&& block.start_x - d <= i % m.padded_width as int - m.padding < block.end_x + d
    &&& block.start_y - d <= i / m.padded_width as int - m.padding < block.end_y + d
}

/// Two contexts with the same picture and kernel.
pub open spec fn same_frame(a: DbsModel, b: DbsModel) -> bool {
    b == (DbsModel { halftone: b.halftone, error: b.error, e2: b.e2, ..a })
}

/// Contexts in which operations reach as far as the kernel does, and no farther.
pub open spec fn bounded(m: DbsModel) -> bool {
    m.wf() && m.regular() && m.addressable()
}

/// Scattering treats equal entries alike.
proof fn lemma_scattered_alike(
    a: Seq<i64>,
    b: Seq<i64>,
    taps: Seq<KernelOffset>,
    center: int,
    change: i64,
    n: nat,
    i: int,
)
    requires
        a.len() == b.len(),
        0 <= i < a.len(),
        a[i] == b[i],
    ensures
        scattered(a, taps, center, change, n)[i] == scattered(b, taps, center, change, n)[i],
    decreases n,
{
    lemma_scattered_len(a, taps, center, change, n);
    lemma_scattered_len(b, taps, center, change, n);
    if n > 0 {
        lemma_scattered_alike(a, b, taps, center, change, (n - 1) as nat, i);
        lemma_scattered_len(a, taps, center, change, (n - 1) as nat);
        lemma_scattered_len(b, taps, center, change, (n - 1) as nat);
    }
}

/// Scattering reaches no farther than the taps do.
proof fn lemma_scattered_far(
    map: Seq<i64>,
    taps: Seq<KernelOffset>,
    radius: int,
    stride: int,
    cy: int,
    cx: int,
    change: i64,
    n: nat,
    i: int,
)
    requires
        square_in_array(taps, radius, stride),
        radius <= cx,
        cx + radius < stride,
        n <= taps.len(),
        0 <= i < map.len(),
        abs_of(i / stride - cy) > radius || abs_of(i % stride - cx) > radius,
    ensures
        scattered(map, taps, cy * stride + cx, change, n)[i] == map[i],
    decreases n,
{
    if n > 0 {
        let k = n - 1;
        let c = cy * stride + cx;
        lemma_scattered_far(map, taps, radius, stride, cy, cx, change, (n - 1) as nat, i);
        lemma_scattered_len(map, taps, c, change, (n - 1) as nat);
        let w = 2 * radius + 1;
        lemma_tap_number(k, w);
        let dy = taps[k].dy as int;
        let dx = taps[k].dx as int;
        assert(dy == k / w - radius && dx == k % w - radius);
        assert(taps[k].offset == dy * stride + dx);
        assert(cy * stride + cx + (dy * stride + dx) == (cy + dy) * stride + (cx + dx))
            by (nonlinear_arith);
        lemma_grid_index(cy + dy, cx + dx, stride);
        assert(c + taps[k].offset != i);
    }
}

/// What a toggle does to an entry of the maps.
proof fn lemma_toggle_entry(m: DbsModel, x: u32, y: u32, i: int)
    requires
        bounded(m),
        m.has_pixel(x, y),
        0 <= i < m.area(),
    ensures
        m.toggled(x, y).halftone.len() == m.area(),
        m.toggled(x, y).e2.len() == m.area(),
        m.toggled(x, y).error.len() == m.area(),
        !entry_near(m, x as int, y as int, m.kernel_radius as int, i) ==> m.toggled(
            x,
            y,
        ).error[i] == m.error[i],
        !entry_near(m, x as int, y as int, 0, i) ==> m.toggled(x, y).halftone[i] == m.halftone[i],
        !entry_near(m, x as int, y as int, m.autocorr_radius() as int, i) ==> m.toggled(
            x,
            y,
        ).e2[i] == m.e2[i],
{
    lemma_pixel_index(m, x, y);
    lemma_position(m, x, y);
    let c = m.index_of(x, y);
    let wide = m.kernel.autocorr_offsets;
    let change: i64 = if m.halftone[c] == 0 {
        65536
    } else {
        (-65536) as i64
    };
    assert(m.halftone[c] == 0 || m.halftone[c] == 65536);
    lemma_scattered_len(m.e2, wide, c, change, wide.len());
    let taps = m.kernel.offsets;
    lemma_scattered_len(m.error, taps, c, change, taps.len());
    if !entry_near(m, x as int, y as int, m.kernel_radius as int, i) {
        lemma_scattered_far(
            m.error,
            taps,
            m.kernel_radius as int,
            m.padded_width as int,
            y + m.padding,
            x + m.padding,
            change,
            taps.len(),
            i,
        );
    }
    if !entry_near(m, x as int, y as int, m.autocorr_radius() as int, i) {
        lemma_scattered_far(
            m.e2,
            wide,
            m.autocorr_radius() as int,
            m.padded_width as int,
            y + m.padding,
            x + m.padding,
            change,
            wide.len(),
            i,
        );
    }
}

/// What a swap does to an entry of the maps.
#[verifier::rlimit(50)]
proof fn lemma_swap_entry(m: DbsModel, x1: u32, y1: u32, x2: u32, y2: u32, i: int)
    requires
        bounded(m),
        m.has_pixel(x1, y1),
        m.has_pixel(x2, y2),
        0 <= i < m.area(),
    ensures
        ({
            let t = m.swapped(x1, y1, x2, y2);
            let r = m.autocorr_radius() as int;
            let k = m.kernel_radius as int;
            &&& t.error.len() == m.area()
            &&& !entry_near(m, x1 as int, y1 as int, k, i) && !entry_near(
                m,
                x2 as int,
                y2 as int,
                k,
                i,
            ) ==> t.error[i] == m.error[i]
            &&& t.halftone.len() == m.area()
            &&& t.e2.len() == m.area()
            &&& !entry_near(m, x1 as int, y1 as int, 0, i) && !entry_near(
                m,
                x2 as int,
                y2 as int,
                0,
                i,
            ) ==> t.halftone[i] == m.halftone[i]
            &&& !entry_near(m, x1 as int, y1 as int, r, i) && !entry_near(
                m,
                x2 as int,
                y2 as int,
                r,
                i,
            ) ==> t.e2[i] == m.e2[i]
            &&& t.e2[i] == changed_entry(
                m.e2[i],
                m.kernel.autocorr,
                m.kernel.autocorr_size,
                m.autocorr_radius(),
                m.padded_width as int,
                m.padded_position(x1, y1),
                m.padded_position(x2, y2),
                m.swap_changes(x1, y1, x2, y2),
                i,
            )
        }),
{
    lemma_pixel_index(m, x1, y1);
    lemma_pixel_index(m, x2, y2);
    lemma_position(m, x1, y1);
    lemma_position(m, x2, y2);
    lemma_margin(m.kernel_size);
    let p1 = m.padded_position(x1, y1);
    let p2 = m.padded_position(x2, y2);
    let stride = m.padded_width as int;
    lemma_spread_entries(
        m.e2,
        m.kernel.autocorr,
        m.kernel.autocorr_size,
        m.autocorr_radius(),
        stride,
        m.padded_height as int,
        p1,
        p2,
        m.swap_changes(x1, y1, x2, y2),
    );
    lemma_regular_sizes(m);
    lemma_spread_entries(
        m.error,
        m.kernel.flat,
        m.kernel_size,
        m.kernel_radius,
        stride,
        m.padded_height as int,
        p1,
        p2,
        m.swap_changes(x1, y1, x2, y2),
    );
    lemma_fundamental_div_mod(i, stride);
    assert(0 <= i / stride < m.padded_height) by (nonlinear_arith)
        requires
            stride > 0,
            0 <= i < stride * m.padded_height,
            i == stride * (i / stride) + i % stride,
            0 <= i % stride < stride,
    ;
}

/// The neighbour of a pixel is a pixel next to it.
proof fn lemma_neighbour(m: DbsModel, x: u32, y: u32, k: int)
    requires
        bounded(m),
        m.has_pixel(x, y),
        m.neighbour(x, y, k) is Some,
    ensures
        ({
            let n = m.neighbour(x, y, k)->0;
            &&& m.has_pixel(n.0, n.1)
            &&& abs_of(n.0 - x) <= 1
            &&& abs_of(n.1 - y) <= 1
            &&& entry_near(m, x as int, y as int, 1, m.index_of(n.0, n.1))
        }),
{
    let n = m.neighbour(x, y, k)->0;
    assert(m.has_pixel(n.0, n.1));
    lemma_pixel_index(m, n.0, n.1);
}

/// The best operation at a pixel changes the halftone only next to it, and the maps only as far as
/// the kernel, or its autocorrelation, reaches from there.
pub proof fn law_improvement_is_local(m: DbsModel, x: u32, y: u32, i: int)
    requires
        bounded(m),
        m.has_pixel(x, y),
        0 <= i < m.area(),
    ensures
        !entry_near(m, x as int, y as int, 1, i) ==> m.improved(x, y).halftone[i] == m.halftone[i],
        !entry_near(m, x as int, y as int, m.autocorr_radius() + 1, i) ==> m.improved(x, y).e2[i]
            == m.e2[i],
        !entry_near(m, x as int, y as int, m.kernel_radius + 1, i) ==> m.improved(x, y).error[i]
            == m.error[i],
{
    law_best_is_least(m, x, y, 8);
    match m.best(x, y, 8).1 {
        Choice::Keep => {},
        Choice::Toggle => {
            lemma_toggle_entry(m, x, y, i);
        },
        Choice::Swap(k) => {
            let n = m.neighbour(x, y, k as int)->0;
            assert(m.neighbour_delta(x, y, k as int) is Some);
            lemma_neighbour(m, x, y, k as int);
            lemma_swap_entry(m, x, y, n.0, n.1, i);
        },
    }
}

/// Two contexts that cannot be told apart at a pixel and next to it.
pub open spec fn alike_near(a: DbsModel, b: DbsModel, x: u32, y: u32) -> bool {
    &&& same_frame(a, b)
    &&& forall|i: int|
        #![trigger a.halftone[i]]
        #![trigger b.halftone[i]]
        0 <= i < a.area() && entry_near(a, x as int, y as int, 1, i) ==> a.halftone[i]
            == b.halftone[i]
    &&& forall|i: int|
        #![trigger a.e2[i]]
        #![trigger b.e2[i]]
        0 <= i < a.area() && entry_near(a, x as int, y as int, 1, i) ==> a.e2[i] == b.e2[i]
}

/// The best operation at a pixel depends on nothing but the halftone and the second map there and
/// next to it.
#[verifier::rlimit(50)]
pub proof fn law_best_is_local(a: DbsModel, b: DbsModel, x: u32, y: u32, n: nat)
    requires
        bounded(a),
        b.wf(),
        alike_near(a, b, x, y),
        a.has_pixel(x, y),
        n <= 8,
    ensures
        a.best(x, y, n) == b.best(x, y, n),
    decreases n,
{
    lemma_pixel_index(a, x, y);
    let c = a.index_of(x, y);
    assert(entry_near(a, x as int, y as int, 1, c));
    assert(b.index_of(x, y) == c);
    assert(a.halftone[c] == b.halftone[c]);
    assert(a.e2[c] == b.e2[c]);
    assert(a.toggle_delta(x, y) == b.toggle_delta(x, y));
    if n > 0 {
        law_best_is_local(a, b, x, y, (n - 1) as nat);
        let k = n - 1;
        assert(a.neighbour(x, y, k) == b.neighbour(x, y, k));
        if a.neighbour(x, y, k) is Some {
            let q = a.neighbour(x, y, k)->0;
            lemma_neighbour(a, x, y, k);
            lemma_pixel_index(a, q.0, q.1);
            let d = a.index_of(q.0, q.1);
            assert(b.index_of(q.0, q.1) == d);
            assert(a.halftone[d] == b.halftone[d]);
            assert(a.e2[d] == b.e2[d]);
            assert(a.swappable(x, y, q.0, q.1) == b.swappable(x, y, q.0, q.1));
            assert(a.swap_delta(x, y, q.0, q.1) == b.swap_delta(x, y, q.0, q.1));
        }
        assert(a.neighbour_delta(x, y, k) == b.neighbour_delta(x, y, k));
    }
}

/// A toggle treats equal entries alike.
proof fn lemma_toggled_alike(a: DbsModel, b: DbsModel, x: u32, y: u32, i: int)
    requires
        bounded(a),
        b.wf(),
        alike_near(a, b, x, y),
        a.has_pixel(x, y),
        0 <= i < a.area(),
        a.halftone[i] == b.halftone[i],
        a.e2[i] == b.e2[i],
    ensures
        a.toggled(x, y).halftone[i] == b.toggled(x, y).halftone[i],
        a.toggled(x, y).e2[i] == b.toggled(x, y).e2[i],
{
    lemma_pixel_index(a, x, y);
    let c = a.index_of(x, y);
    assert(b.index_of(x, y) == c);
    assert(entry_near(a, x as int, y as int, 1, c));
    assert(a.halftone[c] == b.halftone[c]);
    assert(a.halftone[c] == 0 || a.halftone[c] == 65536);
    let wide = a.kernel.autocorr_offsets;
    let change: i64 = if a.halftone[c] == 0 {
        65536
    } else {
        (-65536) as i64
    };
    lemma_scattered_alike(a.e2, b.e2, wide, c, change, wide.len(), i);
}

/// A swap with a neighbour treats equal entries alike.
#[verifier::rlimit(50)]
proof fn lemma_swapped_alike(
    a: DbsModel,
    b: DbsModel,
    x: u32,
    y: u32,
    nx: u32,
    ny: u32,
    i: int,
)
    requires
        bounded(a),
        b.wf(),
        alike_near(a, b, x, y),
        a.has_pixel(x, y),
        a.has_pixel(nx, ny),
        entry_near(a, x as int, y as int, 1, a.index_of(nx, ny)),
        0 <= i < a.area(),
        a.halftone[i] == b.halftone[i],
        a.e2[i] == b.e2[i],
    ensures
        a.swapped(x, y, nx, ny).halftone[i] == b.swapped(x, y, nx, ny).halftone[i],
        a.swapped(x, y, nx, ny).e2[i] == b.swapped(x, y, nx, ny).e2[i],
{
    lemma_pixel_index(a, x, y);
    lemma_pixel_index(a, nx, ny);
    let c = a.index_of(x, y);
    let d = a.index_of(nx, ny);
    assert(b.index_of(x, y) == c);
    assert(b.index_of(nx, ny) == d);
    assert(entry_near(a, x as int, y as int, 1, c));
    assert(a.halftone[c] == b.halftone[c]);
    assert(a.halftone[d] == b.halftone[d]);
    assert(a.swap_changes(x, y, nx, ny) == b.swap_changes(x, y, nx, ny));
    lemma_swap_entry(a, x, y, nx, ny, i);
    lemma_swap_entry(b, x, y, nx, ny, i);
}

/// The best operation at a pixel treats equal entries alike.
#[verifier::rlimit(50)]
proof fn lemma_improved_alike(a: DbsModel, b: DbsModel, x: u32, y: u32, i: int)
    requires
        bounded(a),
        b.wf(),
        alike_near(a, b, x, y),
        a.has_pixel(x, y),
        0 <= i < a.area(),
        a.halftone[i] == b.halftone[i],
        a.e2[i] == b.e2[i],
    ensures
        a.improved(x, y).halftone[i] == b.improved(x, y).halftone[i],
        a.improved(x, y).e2[i] == b.improved(x, y).e2[i],
{
    law_best_is_local(a, b, x, y, 8);
    law_best_is_least(a, x, y, 8);
    match a.best(x, y, 8).1 {
        Choice::Keep => {},
        Choice::Toggle => {
            lemma_toggled_alike(a, b, x, y, i);
        },
        Choice::Swap(k) => {
            let q = a.neighbour(x, y, k as int)->0;
            assert(a.neighbour_delta(x, y, k as int) is Some);
            assert(b.neighbour(x, y, k as int) == a.neighbour(x, y, k as int));
            lemma_neighbour(a, x, y, k as int);
            lemma_swapped_alike(a, b, x, y, q.0, q.1, i);
        },
    }
}

/// Two contexts that cannot be told apart in a block and next to it.
pub open spec fn alike(a: DbsModel, b: DbsModel, block: Block) -> bool {
    &&& bounded(a)
    &&& bounded(b)
    &&& same_frame(a, b)
    &&& forall|i: int|
        #![trigger a.halftone[i]]
        #![trigger b.halftone[i]]
        0 <= i < a.area() && entry_close(a, block, 1, i) ==> a.halftone[i] == b.halftone[i]
    &&& forall|i: int|
        #![trigger a.e2[i]]
        #![trigger b.e2[i]]
        0 <= i < a.area() && entry_close(a, block, 1, i) ==> a.e2[i] == b.e2[i]
}

/// A visit to a pixel of a block keeps contexts alike, and counts the same.
proof fn lemma_visit_alike(s: Tally, t: Tally, block: Block, x: u32, y: u32)
    requires
        alike(s.model, t.model, block),
        s.toggles == t.toggles,
        s.swaps == t.swaps,
        block.has(x as int, y as int),
        s.model.has_pixel(x, y),
    ensures
        alike(s.visit(x, y).model, t.visit(x, y).model, block),
        s.visit(x, y).toggles == t.visit(x, y).toggles,
        s.visit(x, y).swaps == t.visit(x, y).swaps,
{
    let a = s.model;
    let b = t.model;
    assert(alike_near(a, b, x, y));
    law_best_is_local(a, b, x, y, 8);
    lemma_improved_frame(a, x, y);
    lemma_improved_frame(b, x, y);
    let c = a.improved(x, y);
    let d = b.improved(x, y);
    assert forall|i: int| 0 <= i < c.area() && entry_close(c, block, 1, i) implies c.halftone[i]
        == d.halftone[i] && c.e2[i] == d.e2[i] by {
        assert(entry_close(a, block, 1, i));
        assert(a.halftone[i] == b.halftone[i]);
        assert(a.e2[i] == b.e2[i]);
        lemma_improved_alike(a, b, x, y, i);
    }
}

proof fn lemma_row_alike(s: Tally, t: Tally, block: Block, y: u32, n: nat)
    requires
        alike(s.model, t.model, block),
        s.toggles == t.toggles,
        s.swaps == t.swaps,
        block.end_x <= s.model.width,
        block.start_y <= y < block.end_y,
        y < s.model.height,
        n <= row_len(block),
    ensures
        alike(s.visit_row(block, y, n).model, t.visit_row(block, y, n).model, block),
        s.visit_row(block, y, n).toggles == t.visit_row(block, y, n).toggles,
        s.visit_row(block, y, n).swaps == t.visit_row(block, y, n).swaps,
        same_frame(s.model, s.visit_row(block, y, n).model),
    decreases n,
{
    if n > 0 {
        lemma_row_alike(s, t, block, y, (n - 1) as nat);
        let x = if y % 2 == 0 {
            block.start_x + n - 1
        } else {
            block.end_x - n
        };
        let before = s.visit_row(block, y, (n - 1) as nat);
        lemma_improved_frame(before.model, x as u32, y);
        lemma_visit_alike(before, t.visit_row(block, y, (n - 1) as nat), block, x as u32, y);
    }
}

proof fn lemma_rows_alike(s: Tally, t: Tally, block: Block, n: nat)
    requires
        alike(s.model, t.model, block),
        s.toggles == t.toggles,
        s.swaps == t.swaps,
        block.end_x <= s.model.width,
        block.end_y <= s.model.height,
        n <= row_count(block),
    ensures
        alike(s.visit_rows(block, n).model, t.visit_rows(block, n).model, block),
        s.visit_rows(block, n).toggles == t.visit_rows(block, n).toggles,
        s.visit_rows(block, n).swaps == t.visit_rows(block, n).swaps,
        same_frame(s.model, s.visit_rows(block, n).model),
    decreases n,
{
    if n > 0 {
        lemma_rows_alike(s, t, block, (n - 1) as nat);
        lemma_row_alike(
            s.visit_rows(block, (n - 1) as nat),
            t.visit_rows(block, (n - 1) as nat),
            block,
            (block.start_y + n - 1) as u32,
            row_len(block),
        );
    }
}

/// In contexts that cannot be told apart in a block and next to it, the same happens there.
pub proof fn law_block_is_local(a: DbsModel, b: DbsModel, block: Block)
    requires
        alike(a, b, block),
        block.end_x <= a.width,
        block.end_y <= a.height,
    ensures
        alike(processed(a, block).model, processed(b, block).model, block),
        processed(a, block).toggles == processed(b, block).toggles,
        processed(a, block).swaps == processed(b, block).swaps,
        same_frame(a, processed(a, block).model),
{
    lemma_rows_alike(fresh_tally(a), fresh_tally(b), block, row_count(block));
}

/// What a block leaves as it was: the halftone but next to it, and the maps but as far from there
/// as the kernel, or its autocorrelation, reaches.
pub open spec fn spared(m: DbsModel, t: DbsModel, block: Block) -> bool {
    &&& bounded(t)
    &&& same_frame(m, t)
    &&& forall|i: int|
        #![trigger m.halftone[i]]
        #![trigger t.halftone[i]]
        0 <= i < m.area() && !entry_close(m, block, 1, i) ==> t.halftone[i] == m.halftone[i]
    &&& forall|i: int|
        #![trigger m.e2[i]]
        #![trigger t.e2[i]]
        0 <= i < m.area() && !entry_close(m, block, m.autocorr_radius() + 1, i) ==> t.e2[i]
            == m.e2[i]
    &&& forall|i: int|
        #![trigger m.error[i]]
        #![trigger t.error[i]]
        0 <= i < m.area() && !entry_close(m, block, m.kernel_radius + 1, i) ==> t.error[i]
            == m.error[i]
}

proof fn lemma_visit_spares(m: DbsModel, t: DbsModel, block: Block, x: u32, y: u32)
    requires
        bounded(m),
        spared(m, t, block),
        block.has(x as int, y as int),
        m.has_pixel(x, y),
    ensures
        spared(m, t.improved(x, y), block),
{
    let u = t.improved(x, y);
    lemma_improved_frame(t, x, y);
    assert forall|i: int| 0 <= i < m.area() && !entry_close(m, block, 1, i) implies u.halftone[i]
        == m.halftone[i] by {
        law_improvement_is_local(t, x, y, i);
        assert(t.halftone[i] == m.halftone[i]);
    }
    assert forall|i: int|
        0 <= i < m.area() && !entry_close(m, block, m.autocorr_radius() + 1, i) implies u.e2[i]
        == m.e2[i] by {
        law_improvement_is_local(t, x, y, i);
        assert(t.e2[i] == m.e2[i]);
    }
    assert forall|i: int|
        0 <= i < m.area() && !entry_close(m, block, m.kernel_radius + 1, i) implies u.error[i]
        == m.error[i] by {
        law_improvement_is_local(t, x, y, i);
        assert(t.error[i] == m.error[i]);
    }
}

proof fn lemma_row_spares(m: DbsModel, t: Tally, block: Block, y: u32, n: nat)
    requires
        bounded(m),
        spared(m, t.model, block),
        block.end_x <= m.width,
        block.start_y <= y < block.end_y,
        y < m.height,
        n <= row_len(block),
    ensures
        spared(m, t.visit_row(block, y, n).model, block),
    decreases n,
{
    if n > 0 {
        lemma_row_spares(m, t, block, y, (n - 1) as nat);
        let x = if y % 2 == 0 {
            block.start_x + n - 1
        } else {
            block.end_x - n
        };
        lemma_visit_spares(m, t.visit_row(block, y, (n - 1) as nat).model, block, x as u32, y);
    }
}

proof fn lemma_rows_spare(m: DbsModel, t: Tally, block: Block, n: nat)
    requires
        bounded(m),
        spared(m, t.model, block),
        block.end_x <= m.width,
        block.end_y <= m.height,
        n <= row_count(block),
    ensures
        spared(m, t.visit_rows(block, n).model, block),
    decreases n,
{
    if n > 0 {
        lemma_rows_spare(m, t, block, (n - 1) as nat);
        lemma_row_spares(
            m,
            t.visit_rows(block, (n - 1) as nat),
            block,
            (block.start_y + n - 1) as u32,
            row_len(block),
        );
    }
}

/// A block changes the halftone only in it and next to it, and the maps only as far from there as
/// the kernel, or its autocorrelation, reaches.
pub proof fn law_block_spares_the_rest(m: DbsModel, block: Block)
    requires
        bounded(m),
        block.end_x <= m.width,
        block.end_y <= m.height,
    ensures
        spared(m, processed(m, block).model, block),
{
    lemma_rows_spare(m, fresh_tally(m), block, row_count(block));
}

/// Whether two blocks lie at least `d` apart, in a row or in a column.
pub open spec fn blocks_apart(a: Block, b: Block, d: int) -> bool {
    ||| a.end_x + d <= b.start_x
    ||| b.end_x + d <= a.start_x
    ||| a.end_y + d <= b.start_y
    ||| b.end_y + d <= a.start_y
}

/// A list of blocks of a picture, every two of them a block's size apart.
pub open spec fn scattered_blocks(m: DbsModel, list: Seq<Block>) -> bool {
    &&& blocks_inside(list, m.width as int, m.height as int)
    &&& forall|j: int, k: int|
        #![trigger list[j], list[k]]
        0 <= j < list.len() && 0 <= k < list.len() && j != k ==> blocks_apart(
            list[j],
            list[k],
            m.block_size() as int,
        )
}

/// Whether an entry lies within `d` of none of the first `n` blocks.
pub open spec fn entry_free(m: DbsModel, list: Seq<Block>, n: nat, d: int, i: int) -> bool {
    forall|j: int| 0 <= j < n ==> !entry_close(m, #[trigger] list[j], d, i)
}

/// What next to one block can be seen is out of the reach of a block that lies a block's size
/// apart, for a kernel that is at least three wide.
proof fn lemma_out_of_reach(m: DbsModel, a: Block, b: Block, i: int)
    requires
        m.wf(),
        m.kernel_size >= 3,
        m.addressable(),
        blocks_apart(a, b, m.block_size() as int),
        entry_close(m, a, 1, i),
    ensures
        !entry_close(m, b, m.autocorr_radius() + 1, i),
        !entry_close(m, b, 1, i),
{
    lemma_margin(m.kernel_size);
    let r = m.autocorr_radius() as int;
    assert(r >= 2);
    assert(m.block_size() == 2 * r);
}

/// What the first blocks of a list leave behind.
pub open spec fn visited(m: DbsModel, t: DbsModel, list: Seq<Block>, n: nat) -> bool {
    &&& follows(m, t)
    &&& forall|i: int, j: int|
        #![trigger t.halftone[i], list[j]]
        0 <= i < m.area() && 0 <= j < n && entry_close(m, list[j], 1, i) ==> t.halftone[i]
            == processed(m, list[j]).model.halftone[i]
    &&& forall|i: int|
        #![trigger t.halftone[i]]
        0 <= i < m.area() && entry_free(m, list, n, 1, i) ==> t.halftone[i] == m.halftone[i]
    &&& forall|i: int|
        #![trigger t.e2[i]]
        0 <= i < m.area() && entry_free(m, list, n, m.autocorr_radius() + 1, i) ==> t.e2[i]
            == m.e2[i]
}

/// A block is followed by the maps.
proof fn lemma_block_follows(m: DbsModel, t: DbsModel, block: Block)
    requires
        m.tame(),
        m.addressable(),
        roomy(m.error),
        roomy(m.e2),
        follows(m, t),
        block.end_x <= m.width,
        block.end_y <= m.height,
    ensures
        follows(m, processed(t, block).model),
{
    let w = m.width;
    let h = m.height;
    let p = |c: DbsModel| follows(m, c);
    assert forall|c: DbsModel, x: u32, y: u32|
        #![trigger c.improved(x, y)]
        p(c) && x < w && y < h implies p(c.improved(x, y)) by {
        law_improvement_follows(m, c, x, y);
    }
    lemma_rows_keep(p, w, h, fresh_tally(t), block, row_count(block));
}

/// Once the first blocks of a list are visited, nothing has changed in and next to the others.
proof fn lemma_rest_alike(m: DbsModel, t: DbsModel, list: Seq<Block>, n: nat)
    requires
        m.tame(),
        m.addressable(),
        m.kernel_size >= 3,
        scattered_blocks(m, list),
        visited(m, t, list, n),
        n < list.len(),
    ensures
        alike(m, t, list[n as int]),
{
    let b = list[n as int];
    assert forall|i: int| 0 <= i < m.area() && entry_close(m, b, 1, i) implies m.halftone[i]
        == t.halftone[i] && m.e2[i] == t.e2[i] by {
        assert forall|j: int| 0 <= j < n implies !entry_close(m, #[trigger] list[j], 1, i)
            && !entry_close(m, list[j], m.autocorr_radius() + 1, i) by {
            assert(blocks_apart(list[n as int], list[j], m.block_size() as int));
            lemma_out_of_reach(m, b, list[j], i);
        }
        assert(entry_free(m, list, n, 1, i));
        assert(entry_free(m, list, n, m.autocorr_radius() + 1, i));
        assert(t.halftone[i] == m.halftone[i]);
        assert(t.e2[i] == m.e2[i]);
    }
}

/// One block more.
#[verifier::rlimit(50)]
proof fn lemma_visited_step(m: DbsModel, t: DbsModel, list: Seq<Block>, n: nat)
    requires
        m.tame(),
        m.addressable(),
        m.kernel_size >= 3,
        roomy(m.error),
        roomy(m.e2),
        scattered_blocks(m, list),
        visited(m, t, list, n),
        n < list.len(),
    ensures
        visited(m, processed(t, list[n as int]).model, list, n + 1),
        processed(t, list[n as int]).toggles == processed(m, list[n as int]).toggles,
        processed(t, list[n as int]).swaps == processed(m, list[n as int]).swaps,
{
    let b = list[n as int];
    let u = processed(t, b).model;
    let v = processed(m, b).model;
    let r = m.autocorr_radius() + 1;
    lemma_rest_alike(m, t, list, n);
    lemma_block_follows(m, t, b);
    law_block_is_local(m, t, b);
    law_block_spares_the_rest(t, b);
    assert forall|i: int, j: int|
        #![trigger u.halftone[i], list[j]]
        0 <= i < m.area() && 0 <= j < n + 1 && entry_close(m, list[j], 1, i) implies u.halftone[i]
        == processed(m, list[j]).model.halftone[i] by {
        if j == n {
            assert(v.halftone[i] == u.halftone[i]);
        } else {
            assert(blocks_apart(list[j], list[n as int], m.block_size() as int));
            lemma_out_of_reach(m, list[j], b, i);
            assert(!entry_close(t, b, 1, i));
            assert(u.halftone[i] == t.halftone[i]);
        }
    }
    assert forall|i: int|
        #![trigger u.halftone[i]]
        0 <= i < m.area() && entry_free(m, list, n + 1, 1, i) implies u.halftone[i]
        == m.halftone[i] by {
        assert(!entry_close(m, list[n as int], 1, i));
        assert(!entry_close(t, b, 1, i));
        assert(entry_free(m, list, n, 1, i));
        assert(u.halftone[i] == t.halftone[i]);
    }
    assert forall|i: int|
        #![trigger u.e2[i]]
        0 <= i < m.area() && entry_free(m, list, n + 1, r, i) implies u.e2[i] == m.e2[i] by {
        assert(!entry_close(m, list[n as int], r, i));
        assert(!entry_close(t, b, r, i));
        assert(entry_free(m, list, n, r, i));
        assert(u.e2[i] == t.e2[i]);
    }
}

proof fn lemma_visited(m: DbsModel, list: Seq<Block>, n: nat)
    requires
        m.tame(),
        m.addressable(),
        m.kernel_size >= 3,
        roomy(m.error),
        roomy(m.e2),
        scattered_blocks(m, list),
        n <= list.len(),
    ensures
        visited(m, fresh_tally(m).visit_blocks(list, n).model, list, n),
    decreases n,
{
    if n == 0 {
        lemma_follows_itself(m);
    } else {
        lemma_visited(m, list, (n - 1) as nat);
        lemma_visited_step(
            m,
            fresh_tally(m).visit_blocks(list, (n - 1) as nat).model,
            list,
            (n - 1) as nat,
        );
    }
}

/// A block of a list counts what it would count if it were the only one, for a kernel at least
/// three wide and where nothing saturates.
pub proof fn law_block_counts_alone(m: DbsModel, list: Seq<Block>, n: nat)
    requires
        m.tame(),
        m.addressable(),
        m.kernel_size >= 3,
        roomy(m.error),
        roomy(m.e2),
        scattered_blocks(m, list),
        n < list.len(),
    ensures
        ({
            let before = fresh_tally(m).visit_blocks(list, n).model;
            &&& processed(before, list[n as int]).toggles == processed(m, list[n as int]).toggles
            &&& processed(before, list[n as int]).swaps == processed(m, list[n as int]).swaps
        }),
{
    lemma_visited(m, list, n);
    lemma_visited_step(m, fresh_tally(m).visit_blocks(list, n).model, list, n);
}

/// The order in which blocks that lie a block's size apart are visited makes no difference, for a
/// kernel at least three wide and where nothing saturates.
pub proof fn law_order_of_blocks_is_free(m: DbsModel, list: Seq<Block>, other: Seq<Block>)
    requires
        m.tame(),
        m.addressable(),
        m.kernel_size >= 3,
        roomy(m.error),
        roomy(m.e2),
        scattered_blocks(m, list),
        scattered_blocks(m, other),
        forall|b: Block| list.contains(b) <==> other.contains(b),
    ensures
        fresh_tally(m).visit_blocks(list, list.len()).model == fresh_tally(m).visit_blocks(
            other,
            other.len(),
        ).model,
{
    let t = fresh_tally(m).visit_blocks(list, list.len()).model;
    let u = fresh_tally(m).visit_blocks(other, other.len()).model;
    lemma_visited(m, list, list.len());
    lemma_visited(m, other, other.len());
    assert forall|i: int| 0 <= i < m.area() implies t.halftone[i] == u.halftone[i] by {
        if entry_free(m, list, list.len(), 1, i) {
            assert forall|j: int| 0 <= j < other.len() implies !entry_close(
                m,
                #[trigger] other[j],
                1,
                i,
            ) by {
                assert(other.contains(other[j]));
                assert(list.contains(other[j]));
                let k = choose|k: int| 0 <= k < list.len() && list[k] == other[j];
                assert(!entry_close(m, list[k], 1, i));
            }
            assert(entry_free(m, other, other.len(), 1, i));
        } else {
            let j = choose|j: int|
                0 <= j < list.len() && entry_close(m, #[trigger] list[j], 1, i);
            assert(list.contains(list[j]));
            assert(other.contains(list[j]));
            let k = choose|k: int| 0 <= k < other.len() && other[k] == list[j];
            assert(t.halftone[i] == processed(m, list[j]).model.halftone[i]);
            assert(u.halftone[i] == processed(m, other[k]).model.halftone[i]);
        }
    }
    assert(t.halftone =~= u.halftone);
    law_maps_depend_on_halftone(m, t, u);
}

/// The blocks of one phase lie a block's size apart, so that they can be visited in any order.
pub proof fn law_phase_is_scattered(m: DbsModel, shift: (i32, i32), f: int)
    requires
        m.grid(shift.0, shift.1, m.block_size()).sound(),
        m.block_size() <= i32::MAX,
    ensures
        scattered_blocks(m, m.grid(shift.0, shift.1, m.block_size()).phase(f)),
{
    let g = m.grid(shift.0, shift.1, m.block_size());
    let list = g.phase(f);
    law_blocks_inside(m, shift.0, shift.1, m.block_size(), f);
    assert forall|j: int, k: int|
        #![trigger list[j], list[k]]
        0 <= j < list.len() && 0 <= k < list.len() && j != k implies blocks_apart(
        list[j],
        list[k],
        m.block_size() as int,
    ) by {
        law_phase_blocks_apart(g, f, j, k);
    }
}

/// The blocks of one phase can be visited in any order, for a kernel at least three wide and where
/// nothing saturates: the context is the same afterwards.
pub proof fn law_order_in_a_phase_is_free(
    m: DbsModel,
    shift: (i32, i32),
    f: int,
    order: Seq<Block>,
)
    requires
        m.tame(),
        m.addressable(),
        m.kernel_size >= 3,
        roomy(m.error),
        roomy(m.e2),
        m.grid(shift.0, shift.1, m.block_size()).sound(),
        m.block_size() <= i32::MAX,
        order.no_duplicates(),
        forall|b: Block|
            order.contains(b) <==> m.grid(shift.0, shift.1, m.block_size()).phase(f).contains(b),
    ensures
        ({
            let blocks = m.grid(shift.0, shift.1, m.block_size()).phase(f);
            fresh_tally(m).visit_blocks(order, order.len()).model == fresh_tally(m).visit_blocks(
                blocks,
                blocks.len(),
            ).model
        }),
{
    let blocks = m.grid(shift.0, shift.1, m.block_size()).phase(f);
    law_phase_is_scattered(m, shift, f);
    assert forall|j: int| 0 <= j < order.len() implies blocks.contains(#[trigger] order[j]) by {
        assert(order.contains(order[j]));
    }
    assert forall|j: int, k: int|
        #![trigger order[j], order[k]]
        0 <= j < order.len() && 0 <= k < order.len() && j != k implies blocks_apart(
        order[j],
        order[k],
        m.block_size() as int,
    ) by {
        assert(order[j] != order[k]);
        let p = choose|p: int| 0 <= p < blocks.len() && blocks[p] == order[j];
        let q = choose|q: int| 0 <= q < blocks.len() && blocks[q] == order[k];
        assert(blocks_apart(blocks[p], blocks[q], m.block_size() as int));
    }
    law_order_of_blocks_is_free(m, order, blocks);
}

/// Two blocks that lie a block's size apart, for a kernel at least three wide: no pixel and no
/// entry of the error map that the one can change can be changed by the other, and nothing that the
/// one looks at can be changed by the other. (Entries of the second map that the one adds to can be
/// added to by the other, but only by swaps with pixels outside of the blocks.)
pub proof fn law_influence_is_apart(m: DbsModel, a: Block, b: Block, i: int)
    requires
        m.wf(),
        m.kernel_size >= 3,
        m.addressable(),
        blocks_apart(a, b, m.block_size() as int),
        0 <= i < m.area(),
    ensures
        !(entry_close(m, a, 1, i) && entry_close(m, b, 1, i)),
        !(entry_close(m, a, m.kernel_radius + 1, i) && entry_close(m, b, m.kernel_radius + 1, i)),
        !(entry_close(m, a, 1, i) && entry_close(m, b, m.autocorr_radius() + 1, i)),
        !(entry_close(m, b, 1, i) && entry_close(m, a, m.autocorr_radius() + 1, i)),
        !(entry_close(m, a, m.autocorr_radius() as int, i) && entry_close(
            m,
            b,
            m.autocorr_radius() as int,
            i,
        )),
{
    lemma_margin(m.kernel_size);
    let r = m.autocorr_radius() as int;
    assert(r >= 2);
    assert(m.block_size() == 2 * r);
    let p = m.padding as int;
    assert(p < 0x3000_0000) by (nonlinear_arith)
        requires
            p >= 0,
            m.padded_width >= 2 * p,
            m.padded_height >= 2 * p,
            m.padded_width * m.padded_height * 8 <= 0x7fff_ffff_ffff_ffff,
    ;
    assert(m.kernel_radius + 1 <= r);
}

} // verus!
