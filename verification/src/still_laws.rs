//! Pictures that are black and white already: a search leaves them as they are.
use crate::context::{fits, thresholded, DbsModel};
use crate::entry_laws::{
    law_swap_delta_value, law_swappable_iff_different, law_toggle_delta_value,
};
use crate::filter::filter_sum;
use crate::fixed::fmul;
use crate::kernel::{energy, KernelOffset};
use crate::map_laws::lemma_pixel_index;
use crate::neighbour_laws::{adjacent, law_pixel_is_kept};
use crate::picture::halftone_outcome;
use crate::picture_laws::{law_first_halftone, lemma_start_wf};
use crate::plane::PlaneModel;
use crate::progress::Event;
use crate::render::rendered;
use crate::rest_laws::law_at_rest_settles;
use crate::search::{fresh_tally, passes, search_ends, settles, tally, Tally};
use crate::usual_laws::start_of;
use crate::walk_laws::{law_end_of_search, law_passes_in_turn};
use vstd::arithmetic::div_mod::lemma_fundamental_div_mod;
use vstd::prelude::*;

verus! {

/// Every pixel of a picture is black or white.
pub open spec fn black_and_white(img: PlaneModel) -> bool {
    forall|k: int|
        0 <= k < img.width * img.height ==> #[trigger] img.pixels[k] == 0 || img.pixels[k] == 255
}

/// Filtering nothing gives nothing.
proof fn lemma_filter_nothing(src: Seq<i64>, taps: Seq<KernelOffset>, c: int, n: nat)
    requires
        forall|i: int| 0 <= i < src.len() ==> src[i] == 0,
    ensures
        filter_sum(src, taps, c, n) == 0,
    decreases n,
{
    if n > 0 {
        lemma_filter_nothing(src, taps, c, (n - 1) as nat);
        let w = taps[n - 1].weight;
        assert(0 * w == 0);
        assert(fmul(0, w) == 0);
    }
}

/// The energy of a kernel is not negative.
proof fn lemma_energy_positive(flat: Seq<i64>, n: nat)
    requires
        n <= flat.len(),
    ensures
        energy(flat, n) >= 0,
    decreases n,
{
    if n > 0 {
        lemma_energy_positive(flat, (n - 1) as nat);
        let w = flat[n - 1];
        assert(w * w >= 0) by (nonlinear_arith);
    }
}

/// The maps of a picture in black and white are zero.
pub proof fn law_no_error_in_black_and_white(
    img: PlaneModel,
    size: i32,
    weights: Seq<u64>,
    i: int,
)
    requires
        fits(img.width, img.height, size),
        black_and_white(img),
        0 <= i < start_of(img, size, weights).area(),
    ensures
        start_of(img, size, weights).original[i] == start_of(img, size, weights).halftone[i],
        start_of(img, size, weights).error[i] == 0,
        start_of(img, size, weights).e2[i] == 0,
{
    let a = thresholded(img, size, weights);
    let b = a.with_error();
    lemma_start_wf(img, size, weights);
    assert forall|j: int| 0 <= j < a.difference().len() implies a.difference()[j] == 0 by {
        let w = a.padded_width as int;
        let p = a.padding as int;
        let y = j / w - p;
        let x = j % w - p;
        if 0 <= x < img.width && 0 <= y < img.height {
            let k = y * img.width + x;
            assert(0 <= k < img.width * img.height) by (nonlinear_arith)
                requires
                    k == y * img.width + x,
                    0 <= x < img.width,
                    0 <= y < img.height,
            ;
            assert(img.pixels[k] == 0 || img.pixels[k] == 255);
        }
    }
    assert(a.difference()[i] == 0);
    assert forall|j: int| 0 <= j < b.error.len() implies b.error[j] == 0 by {
        lemma_filter_nothing(a.difference(), a.kernel.offsets, j, a.kernel.offsets.len());
    }
    lemma_filter_nothing(b.error, a.kernel.offsets, i, a.kernel.offsets.len());
}

/// The autocorrelation of a kernel is nowhere next to its centre larger than at its centre.
pub open spec fn peaked(m: DbsModel) -> bool {
    forall|dx: int, dy: int|
        -1 <= dx <= 1 && -1 <= dy <= 1 ==> #[trigger] m.autocorr_weight(dx, dy) <= m.kernel.c_pp
}

/// In a picture in black and white, no pixel is changed.
pub proof fn law_black_and_white_is_kept(
    img: PlaneModel,
    size: i32,
    weights: Seq<u64>,
    x: u32,
    y: u32,
)
    requires
        fits(img.width, img.height, size),
        black_and_white(img),
        peaked(start_of(img, size, weights)),
        x < img.width <= i32::MAX,
        y < img.height <= i32::MAX,
    ensures
        start_of(img, size, weights).best(x, y, 8).1 is Keep,
{
    let m = start_of(img, size, weights);
    lemma_start_wf(img, size, weights);
    lemma_pixel_index(m, x, y);
    law_no_error_in_black_and_white(img, size, weights, m.index_of(x, y));
    lemma_energy_positive(m.kernel.flat, m.kernel.flat.len());
    assert(m.kernel.c_pp >= 0);
    law_toggle_delta_value(m, x, y);
    assert forall|nx: u32, ny: u32|
        nx < m.width && ny < m.height && adjacent(x as int, y as int, nx as int, ny as int)
            && m.swappable(x, y, nx, ny) implies #[trigger] m.swap_delta(x, y, nx, ny) >= 0 by {
        lemma_pixel_index(m, nx, ny);
        law_no_error_in_black_and_white(img, size, weights, m.index_of(nx, ny));
        law_swappable_iff_different(m, x, y, nx, ny);
        law_swap_delta_value(m, x, y, nx, ny);
        assert(m.autocorr_weight(x - nx, y - ny) <= m.kernel.c_pp);
    }
    law_pixel_is_kept(m, x, y);
}

/// A search that starts where no operation helps at any pixel ends there, and counts nothing.
pub proof fn law_search_at_rest(m: DbsModel, end: Tally, shown: Seq<Event>)
    requires
        forall|x: u32, y: u32| m.has_pixel(x, y) ==> (#[trigger] m.best(x, y, 8)).1 is Keep,
        search_ends(m, end, shown),
    ensures
        end == fresh_tally(m),
{
    let shifts = law_end_of_search(m, end, shown);
    law_at_rest_settles(m, shifts[0]);
    assert(shifts.take(0).len() == 0);
    assert(passes(m, shifts.take(0)) == fresh_tally(m));
    if shifts.len() > 1 {
        assert(!settles(passes(m, shifts.take(0)).model, shifts[0]));
    }
    law_passes_in_turn(m, shifts, Seq::empty());
}

/// The first halftone of a picture in black and white is the picture.
pub proof fn law_black_and_white_is_its_halftone(img: PlaneModel, size: i32, weights: Seq<u64>)
    requires
        fits(img.width, img.height, size),
        img.wf(),
        black_and_white(img),
    ensures
        rendered(start_of(img, size, weights), img.width, img.height) == img.pixels.take(
            img.width * img.height,
        ),
{
    let bytes = rendered(start_of(img, size, weights), img.width, img.height);
    let w = img.width as int;
    let h = img.height as int;
    let want = img.pixels.take(w * h);
    assert(h * w == w * h) by (nonlinear_arith);
    assert(w * h >= 0) by (nonlinear_arith)
        requires
            w >= 0,
            h >= 0,
    ;
    assert forall|k: int| 0 <= k < w * h implies bytes[k] == want[k] by {
        lemma_fundamental_div_mod(k, w);
        let y = k / w;
        let x = k % w;
        assert(w > 0) by (nonlinear_arith)
            requires
                0 <= k < w * h,
                w >= 0,
                h >= 0,
        ;
        assert(0 <= y < h) by (nonlinear_arith)
            requires
                0 <= k < w * h,
                k == w * y + x,
                0 <= x < w,
        ;
        assert(w * y == y * w) by (nonlinear_arith);
        law_first_halftone(img, size, weights, x as u32, y as u32);
        assert(img.pixels[k] == 0 || img.pixels[k] == 255);
    }
    assert(bytes =~= want);
}

/// A picture in black and white comes out of a search as it went in, and nothing is counted.
pub proof fn law_black_and_white_stays(
    img: PlaneModel,
    size: i32,
    weights: Seq<u64>,
    bytes: Seq<u8>,
    toggles: i32,
    swaps: i32,
    shown: Seq<Event>,
)
    requires
        fits(img.width, img.height, size),
        img.wf(),
        black_and_white(img),
        peaked(start_of(img, size, weights)),
        img.width <= i32::MAX,
        img.height <= i32::MAX,
        halftone_outcome(img, size, weights, bytes, toggles, swaps, shown),
    ensures
        bytes == img.pixels.take(img.width * img.height),
        toggles == 0,
        swaps == 0,
{
    let m = start_of(img, size, weights);
    let last = choose|last: DbsModel| #[trigger]
        search_ends(m, tally(last, toggles, swaps), shown) && bytes == rendered(
            last,
            img.width,
            img.height,
        );
    assert forall|x: u32, y: u32| m.has_pixel(x, y) implies (#[trigger] m.best(
        x,
        y,
        8,
    )).1 is Keep by {
        law_black_and_white_is_kept(img, size, weights, x, y);
    }
    law_search_at_rest(m, tally(last, toggles, swaps), shown);
    law_black_and_white_is_its_halftone(img, size, weights);
}

} // verus!
