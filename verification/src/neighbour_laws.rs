//! Which pixels a pixel can be swapped with, and what is done at it.
use crate::context::DbsModel;
use crate::ops::{neighbour_step, Choice};
use crate::search_laws::law_best_is_least;
use vstd::prelude::*;

verus! {

/// Whether two pixels differ, and by at most one in the column and in the row.
pub open spec fn adjacent(x: int, y: int, nx: int, ny: int) -> bool {
    &&& -1 <= nx - x <= 1
    &&& -1 <= ny - y <= 1
    &&& !(nx == x && ny == y)
}

/// The neighbours of a pixel are pixels of the picture next to it. They are numbered clockwise from
/// the right: the first three after the right one lie below, the next one to the left, the last
/// three above.
pub proof fn law_neighbours_are_adjacent(m: DbsModel, x: u32, y: u32, k: int)
    requires
        x < i32::MAX,
        y < i32::MAX,
        0 <= k < 8,
    ensures
        m.neighbour(x, y, k) matches Some(n) ==> {
            &&& n.0 < m.width && n.1 < m.height
            &&& adjacent(x as int, y as int, n.0 as int, n.1 as int)
            &&& n.0 == x + 1 <==> k <= 1 || k == 7
            &&& n.0 == x - 1 <==> 3 <= k <= 5
            &&& n.1 == y + 1 <==> 1 <= k <= 3
            &&& n.1 == y - 1 <==> 5 <= k
        },
{
}

/// Every pixel of the picture next to a pixel is one of its eight neighbours.
pub proof fn law_every_adjacent_pixel_is_neighbour(
    m: DbsModel,
    x: u32,
    y: u32,
    nx: u32,
    ny: u32,
) -> (k: int)
    requires
        x < i32::MAX,
        y < i32::MAX,
        nx < m.width && nx < i32::MAX,
        ny < m.height && ny < i32::MAX,
        adjacent(x as int, y as int, nx as int, ny as int),
    ensures
        0 <= k < 8,
        m.neighbour(x, y, k) == Some((nx, ny)),
{
    let dx = nx - x;
    let dy = ny - y;
    let k: int = if dx == 1 {
        if dy == 0 {
            0
        } else if dy == 1 {
            1
        } else {
            7
        }
    } else if dx == 0 {
        if dy == 1 {
            2
        } else {
            6
        }
    } else if dy == 1 {
        3
    } else if dy == 0 {
        4
    } else {
        5
    };
    assert(neighbour_step(k) == (dx, dy));
    k
}

/// What is expected of the best operation at a pixel is no more than what is expected of toggling
/// it, of swapping it with any pixel of the picture next to it that it can be swapped with, and of
/// keeping it; and it is what is expected of one of these.
pub proof fn law_best_over_pixels(m: DbsModel, x: u32, y: u32)
    requires
        x < i32::MAX,
        y < i32::MAX,
        m.width <= i32::MAX,
        m.height <= i32::MAX,
    ensures
        ({
            let b = m.best(x, y, 8);
            &&& b.0 <= 0
            &&& b.0 <= m.toggle_delta(x, y)
            &&& forall|nx: u32, ny: u32|
                nx < m.width && ny < m.height && adjacent(x as int, y as int, nx as int, ny as int)
                    && m.swappable(x, y, nx, ny) ==> b.0 <= #[trigger] m.swap_delta(x, y, nx, ny)
            &&& match b.1 {
                Choice::Keep => b.0 == 0,
                Choice::Toggle => b.0 < 0 && b.0 == m.toggle_delta(x, y),
                Choice::Swap(k) => b.0 < 0 && exists|nx: u32, ny: u32|
                    nx < m.width && ny < m.height && adjacent(
                        x as int,
                        y as int,
                        nx as int,
                        ny as int,
                    ) && m.swappable(x, y, nx, ny) && b.0 == #[trigger] m.swap_delta(x, y, nx, ny)
                        && m.neighbour(x, y, k as int) == Some((nx, ny)),
            }
        }),
{
    law_best_is_least(m, x, y, 8);
    let b = m.best(x, y, 8);
    assert forall|nx: u32, ny: u32|
        nx < m.width && ny < m.height && adjacent(x as int, y as int, nx as int, ny as int)
            && m.swappable(x, y, nx, ny) implies b.0 <= #[trigger] m.swap_delta(x, y, nx, ny) by {
        let k = law_every_adjacent_pixel_is_neighbour(m, x, y, nx, ny);
        assert(m.neighbour_delta(x, y, k) == Some(m.swap_delta(x, y, nx, ny)));
    }
    if b.1 is Swap {
        let k = b.1->Swap_0 as int;
        law_neighbours_are_adjacent(m, x, y, k);
        let n = m.neighbour(x, y, k)->0;
        assert(m.swap_delta(x, y, n.0, n.1) == b.0);
    }
}

/// The operation that comes first among the best is the one that is chosen.
proof fn lemma_best_is_first(m: DbsModel, x: u32, y: u32, n: nat)
    requires
        n <= 8,
    ensures
        ({
            let b = m.best(x, y, n);
            &&& b.1 matches Choice::Swap(k) ==> {
                &&& k < n
                &&& b.0 < 0
                &&& b.0 < m.toggle_delta(x, y)
                &&& forall|j: int|
                    0 <= j < k ==> (#[trigger] m.neighbour_delta(x, y, j) matches Some(d) ==> b.0
                        < d)
            }
        }),
    decreases n,
{
    if n > 0 {
        lemma_best_is_first(m, x, y, (n - 1) as nat);
        law_best_is_least(m, x, y, (n - 1) as nat);
    }
}

/// A pixel is kept where nothing is expected to lower the squared error.
pub proof fn law_pixel_is_kept(m: DbsModel, x: u32, y: u32)
    requires
        x < m.width <= i32::MAX,
        y < m.height <= i32::MAX,
        m.toggle_delta(x, y) >= 0,
        forall|nx: u32, ny: u32|
            nx < m.width && ny < m.height && adjacent(x as int, y as int, nx as int, ny as int)
                && m.swappable(x, y, nx, ny) ==> #[trigger] m.swap_delta(x, y, nx, ny) >= 0,
    ensures
        m.best(x, y, 8).1 is Keep,
        m.improved(x, y) == m,
{
    law_best_over_pixels(m, x, y);
}

/// A pixel is toggled where that is expected to lower the squared error, and no swap to lower it
/// further.
pub proof fn law_pixel_is_toggled(m: DbsModel, x: u32, y: u32)
    requires
        x < m.width <= i32::MAX,
        y < m.height <= i32::MAX,
        m.toggle_delta(x, y) < 0,
        forall|nx: u32, ny: u32|
            nx < m.width && ny < m.height && adjacent(x as int, y as int, nx as int, ny as int)
                && m.swappable(x, y, nx, ny) ==> #[trigger] m.swap_delta(x, y, nx, ny)
                >= m.toggle_delta(x, y),
    ensures
        m.best(x, y, 8).1 is Toggle,
        m.improved(x, y) == m.toggled(x, y),
{
    law_best_over_pixels(m, x, y);
    lemma_best_is_first(m, x, y, 8);
}

/// A pixel is swapped with a pixel next to it where that is expected to lower the squared error, by
/// more than a toggle, and by more than any other swap.
pub proof fn law_pixel_is_swapped(m: DbsModel, x: u32, y: u32, nx: u32, ny: u32)
    requires
        x < m.width <= i32::MAX,
        y < m.height <= i32::MAX,
        nx < m.width,
        ny < m.height,
        adjacent(x as int, y as int, nx as int, ny as int),
        m.swappable(x, y, nx, ny),
        m.swap_delta(x, y, nx, ny) < 0,
        m.swap_delta(x, y, nx, ny) < m.toggle_delta(x, y),
        forall|ox: u32, oy: u32|
            ox < m.width && oy < m.height && adjacent(x as int, y as int, ox as int, oy as int)
                && m.swappable(x, y, ox, oy) && !(ox == nx && oy == ny) ==> m.swap_delta(
                x,
                y,
                nx,
                ny,
            ) < #[trigger] m.swap_delta(x, y, ox, oy),
    ensures
        m.best(x, y, 8).1 is Swap,
        m.improved(x, y) == m.swapped(x, y, nx, ny),
{
    law_best_over_pixels(m, x, y);
    let b = m.best(x, y, 8);
    assert(b.0 <= m.swap_delta(x, y, nx, ny));
}

/// Among equally good operations the first is carried out: a toggle before any swap, and the swaps
/// clockwise from the right.
pub proof fn law_first_of_the_best(m: DbsModel, x: u32, y: u32, k: int)
    requires
        0 <= k < 8,
        m.neighbour_delta(x, y, k) is Some,
        m.neighbour_delta(x, y, k)->0 < 0,
        m.neighbour_delta(x, y, k)->0 < m.toggle_delta(x, y),
        forall|j: int|
            0 <= j < 8 && j != k ==> (#[trigger] m.neighbour_delta(x, y, j) matches Some(d) ==> (
            m.neighbour_delta(x, y, k)->0 < d || (j > k && m.neighbour_delta(x, y, k)->0 == d))),
    ensures
        ({
            let n = m.neighbour(x, y, k)->0;
            m.improved(x, y) == m.swapped(x, y, n.0, n.1)
        }),
        m.best(x, y, 8).1 == Choice::Swap(k as usize),
{
    law_best_is_least(m, x, y, 8);
    lemma_best_is_first(m, x, y, 8);
    let b = m.best(x, y, 8);
    assert(b.0 <= m.neighbour_delta(x, y, k)->0);
    assert(b.1 is Swap);
    let j = b.1->Swap_0 as int;
    assert(m.neighbour_delta(x, y, j) == Some(b.0));
}

} // verus!
