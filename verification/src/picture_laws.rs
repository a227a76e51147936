//! What a picture becomes: levels, a first halftone, two maps, and bytes again.
use crate::context::{fits, lemma_margin, margin_of, padded_level, thresholded, DbsModel};
use crate::entry_laws::{entry, law_entry_anywhere};
use crate::fixed::max_of;
use crate::fold::{lemma_grid_index, lemma_grid_index_bound};
use crate::kernel::kernel_of;
use crate::kernel_laws::{lemma_autocorr_square, lemma_kernel_square, lemma_placed, lemma_sides};
use crate::map_laws::lemma_pixel_index;
use crate::picture::{color_fits, halftone_outcome, planned_dims, scaling_fits};
use crate::plane::{level_of, threshold, PlaneModel};
use crate::progress::Event;
use crate::render::{channel_of, count_sum, merged, rendered};
use crate::search::{drawn_search_ends, search_ends, search_with, tally};
use crate::search_laws::law_search_frame;
use crate::sums::{sums_fit, total};
use crate::tap_laws::{
    filter_terms, held, law_filter_is_sum, law_tap_of_autocorr, law_tap_of_kernel, tap_number,
};
use crate::usual_laws::start_of;
use vstd::prelude::*;

verus! {

/// The level of a byte is its share of white, rounded down to the next fixed-point number.
pub proof fn law_level_of_byte(v: u8)
    ensures
        255 * level_of(v) <= 65536 * v < 255 * level_of(v) + 255,
        0 <= level_of(v) <= 65536,
{
}

/// A level becomes the nearer one of black and white; just between them it becomes black.
pub proof fn law_threshold_is_nearest(level: i64)
    ensures
        threshold(level) == 0 || threshold(level) == 65536,
        threshold(level) == 0 <==> level - 0 <= 65536 - level,
        threshold(level) == 65536 <==> 65536 - level < level - 0,
{
}

/// A byte becomes white just where it is in the upper half.
pub proof fn law_upper_half_is_white(v: u8)
    ensures
        v >= 128 <==> threshold(level_of(v)) == 65536,
        v < 128 <==> threshold(level_of(v)) == 0,
{
}

/// How wide the margin around a picture is: one less than the kernel is wide.
pub proof fn law_margin_of_width(size: i32)
    ensures
        size <= 0 ==> margin_of(size) == 0,
        1 <= size <= 0x4000_0000 ==> margin_of(size) == size - 1,
        size > 0x4000_0000 ==> margin_of(size) == 0x3fff_ffff,
{
}

/// A picture can be halftoned just where an array of eight bytes for each pixel, and for each entry
/// of the margin, can be allocated and has columns.
pub proof fn law_fits_in_memory(width: u32, height: u32, size: i32)
    ensures
        1 <= size <= 0x4000_0000 ==> (fits(width, height, size) <==> width + 2 * (size - 1) > 0 && 8
            * ((width + 2 * (size - 1)) * (height + 2 * (size - 1))) <= isize::MAX),
        size <= 0 ==> (fits(width, height, size) <==> width > 0 && 8 * (width * height)
            <= isize::MAX),
        size > 0x4000_0000 ==> fits(width, height, size) == fits(width, height, 0x4000_0000),
{
    law_margin_of_width(size);
    law_margin_of_width(0x4000_0000);
}

/// In the arrays of a picture, every byte has its level, and its first pixel of the halftone, where
/// the margin shifts it to. Around the picture there is nothing.
pub proof fn law_picture_in_arrays(
    img: PlaneModel,
    size: i32,
    weights: Seq<u64>,
    x: int,
    y: int,
)
    requires
        fits(img.width, img.height, size),
        -margin_of(size) <= x < img.width + margin_of(size),
        -margin_of(size) <= y < img.height + margin_of(size),
    ensures
        ({
            let m = start_of(img, size, weights);
            let p = margin_of(size);
            let i = (y + p) * (img.width + 2 * p) + (x + p);
            let inside = 0 <= x < img.width && 0 <= y < img.height;
            let v = img.pixels[y * img.width + x];
            &&& m.width == img.width && m.height == img.height
            &&& m.padding == p
            &&& m.padded_width == img.width + 2 * p
            &&& m.padded_height == img.height + 2 * p
            &&& m.kernel_size == size
            &&& m.kernel_radius == size as int / 2
            &&& m.original.len() == m.halftone.len() == (img.width + 2 * p) * (img.height + 2 * p)
            &&& 0 <= i < m.halftone.len()
            &&& i == entry(m, x, y)
            &&& inside ==> 255 * m.original[i] <= 65536 * v < 255 * m.original[i] + 255
            &&& inside && v >= 128 ==> m.halftone[i] == 65536
            &&& inside && v < 128 ==> m.halftone[i] == 0
            &&& !inside ==> m.original[i] == 0 && m.halftone[i] == 0
        }),
{
    let p = margin_of(size);
    let w = img.width + 2 * p;
    let h = img.height + 2 * p;
    let i = (y + p) * w + (x + p);
    lemma_margin(size);
    lemma_sides(img.width, img.height, size);
    lemma_grid_index(y + p, x + p, w);
    lemma_grid_index_bound(y + p, x + p, h, w);
    assert(h * w == w * h) by (nonlinear_arith);
    let m = thresholded(img, size, weights);
    assert(m.padded_width == w && m.padded_height == h);
    assert(m.original[i] == padded_level(img, p, w, i));
    if 0 <= x < img.width && 0 <= y < img.height {
        law_upper_half_is_white(img.pixel(x, y));
        law_level_of_byte(img.pixel(x, y));
    }
}

/// In the arrays of a picture, the step of a tap leads as many rows down, and as many columns to the
/// right, as the tap lies from the centre. Nothing else of the kernel depends on the picture.
pub proof fn law_kernel_in_arrays(img: PlaneModel, size: i32, weights: Seq<u64>, dy: int, dx: int)
    requires
        fits(img.width, img.height, size),
        size < 0x4000_0000,
    ensures
        ({
            let c = size as int / 2;
            let kernel = start_of(img, size, weights).kernel;
            let plain = kernel_of(size, weights);
            let stride = img.width + 2 * margin_of(size);
            let k = tap_number(dy, dx, c);
            let j = tap_number(dy, dx, size - 1);
            &&& kernel.offsets.len() == plain.offsets.len()
            &&& kernel.autocorr_offsets.len() == plain.autocorr_offsets.len()
            &&& kernel.flat == plain.flat
            &&& kernel.autocorr == plain.autocorr
            &&& kernel.c_pp == plain.c_pp
            &&& kernel.autocorr_size == plain.autocorr_size
            &&& -c <= dy <= c && -c <= dx <= c ==> {
                &&& 0 <= k < kernel.offsets.len()
                &&& kernel.offsets[k].dy == dy && kernel.offsets[k].dx == dx
                &&& kernel.offsets[k].offset == dy * stride + dx
                &&& kernel.offsets[k].weight == plain.offsets[k].weight
            }
            &&& -(size - 1) <= dy <= size - 1 && -(size - 1) <= dx <= size - 1 ==> {
                &&& 0 <= j < kernel.autocorr_offsets.len()
                &&& kernel.autocorr_offsets[j].dy == dy && kernel.autocorr_offsets[j].dx == dx
                &&& kernel.autocorr_offsets[j].offset == dy * stride + dx
                &&& kernel.autocorr_offsets[j].weight == plain.autocorr_offsets[j].weight
            }
        }),
{
    let c = size as int / 2;
    let plain = kernel_of(size, weights);
    let m = thresholded(img, size, weights);
    law_margin_of_width(size);
    lemma_margin(size);
    lemma_sides(img.width, img.height, size);
    let h = img.height + 2 * margin_of(size);
    assert(m.padded_width == img.width + 2 * margin_of(size));
    if -c <= dy <= c && -c <= dx <= c {
        lemma_kernel_square(size, weights);
        lemma_placed(plain.offsets, c, m.padded_width, h);
        law_tap_of_kernel(size, weights, dy, dx);
    }
    if -(size - 1) <= dy <= size - 1 && -(size - 1) <= dx <= size - 1 {
        lemma_autocorr_square(plain.flat, size, c as i32);
        lemma_placed(plain.autocorr_offsets, size - 1, m.padded_width, h);
        law_tap_of_autocorr(size, weights, dy, dx);
    }
}

/// To fill in the maps is to filter: the error map becomes the difference of the halftone and the
/// picture, filtered, as far around the picture as the kernel reaches, and the second map becomes
/// the error map, filtered once more, in the picture. Everywhere else they stay, and so does
/// everything else.
pub proof fn law_maps_are_filtered(m: DbsModel, gap: Seq<i64>, x: int, y: int)
    requires
        m.wf(),
        gap.len() == m.area(),
        forall|i: int|
            0 <= i < gap.len() ==> #[trigger] gap[i] == m.halftone[i] - m.original[i],
        -m.padding <= x < m.width + m.padding,
        -m.padding <= y < m.height + m.padding,
    ensures
        ({
            let t = m.with_error().with_e2();
            let taps = m.kernel.offsets;
            let i = entry(m, x, y);
            let r: int = if m.kernel_size < 0 {
                0
            } else {
                m.kernel_size as int / 2
            };
            &&& t == DbsModel { error: t.error, e2: t.e2, ..m }
            &&& t.error.len() == m.area()
            &&& t.e2.len() == m.area()
            &&& 0 <= i < m.area()
            &&& if -r <= x < m.width + r && -r <= y < m.height + r {
                sums_fit(filter_terms(gap, taps, i), taps.len()) ==> t.error[i] == total(
                    filter_terms(gap, taps, i),
                    taps.len(),
                )
            } else {
                t.error[i] == m.error[i]
            }
            &&& if 0 <= x < m.width && 0 <= y < m.height {
                sums_fit(filter_terms(t.error, taps, i), taps.len()) ==> t.e2[i] == total(
                    filter_terms(t.error, taps, i),
                    taps.len(),
                )
            } else {
                t.e2[i] == m.e2[i]
            }
        }),
{
    let t = m.with_error().with_e2();
    let taps = m.kernel.offsets;
    let i = entry(m, x, y);
    let w = m.padded_width as int;
    lemma_margin(m.kernel_size);
    lemma_grid_index(y + m.padding, x + m.padding, w);
    lemma_grid_index_bound(y + m.padding, x + m.padding, m.padded_height as int, w);
    assert(m.padded_height * m.padded_width == m.area()) by (nonlinear_arith)
        requires
            m.area() == m.padded_width * m.padded_height,
    ;
    assert forall|j: int| 0 <= j < gap.len() implies m.difference()[j] == gap[j] by {
        assert(gap[j] == m.halftone[j] - m.original[j]);
        assert(0 <= m.original[j] && m.original[j] <= 65536);
    }
    assert(m.difference() =~= gap);
    if sums_fit(filter_terms(gap, taps, i), taps.len()) {
        law_filter_is_sum(gap, taps, i, taps.len());
    }
    if sums_fit(filter_terms(t.error, taps, i), taps.len()) {
        law_filter_is_sum(t.error, taps, i, taps.len());
    }
}

/// The maps of a picture are zero at first where they are not filled in, and filled in from its
/// first halftone.
pub proof fn law_maps_of_picture(
    img: PlaneModel,
    size: i32,
    weights: Seq<u64>,
)
    requires
        fits(img.width, img.height, size),
    ensures
        ({
            let m = start_of(img, size, weights);
            let zeros = Seq::new(m.area() as nat, |j: int| 0i64);
            let bare = DbsModel { error: zeros, e2: zeros, ..m };
            bare.wf() && m == bare.with_error().with_e2()
        }),
{
    let a = thresholded(img, size, weights);
    let m = start_of(img, size, weights);
    lemma_start_wf(img, size, weights);
    let zeros = Seq::new(m.area() as nat, |j: int| 0i64);
    assert(a.error =~= zeros);
    assert(a.e2 =~= zeros);
}

/// The bytes of a halftone lie row by row: white where the pixel is on, and black where it is off.
pub proof fn law_byte_of_pixel(m: DbsModel, x: u32, y: u32)
    requires
        m.wf(),
        x < m.width,
        y < m.height,
    ensures
        ({
            let bytes = rendered(m, m.width, m.height);
            let k = y * m.width + x;
            &&& bytes.len() == m.width * m.height
            &&& 0 <= k < bytes.len()
            &&& m.halftone[entry(m, x as int, y as int)] == 65536 ==> bytes[k] == 255
            &&& m.halftone[entry(m, x as int, y as int)] == 0 ==> bytes[k] == 0
        }),
{
    lemma_pixel_index(m, x, y);
    lemma_grid_index(y as int, x as int, m.width as int);
    lemma_grid_index_bound(y as int, x as int, m.height as int, m.width as int);
    assert(m.height * m.width == m.width * m.height) by (nonlinear_arith);
}

/// Columns and rows are rendered row by row, as many as are asked for: white where the array has more
/// than one half at their entry, and black elsewhere.
pub proof fn law_rendered_row_by_row(m: DbsModel, width: u32, height: u32, x: u32, y: u32)
    requires
        x < width,
        y < height,
    ensures
        ({
            let bytes = rendered(m, width, height);
            let k = y * width + x;
            let i = entry(m, x as int, y as int);
            &&& bytes.len() == width * height
            &&& 0 <= k < bytes.len()
            &&& i <= usize::MAX ==> {
                &&& held(m.halftone, i) > 32768 ==> bytes[k] == 255
                &&& held(m.halftone, i) <= 32768 ==> bytes[k] == 0
            }
        }),
{
    law_entry_anywhere(m, x, y);
    lemma_grid_index(y as int, x as int, width as int);
    lemma_grid_index_bound(y as int, x as int, height as int, width as int);
    assert(height * width == width * height) by (nonlinear_arith);
}

/// A picture that no operation changes is rendered as its bytes are: white in the upper half, black
/// in the lower. So one that is black and white already stays what it is.
pub proof fn law_first_halftone(img: PlaneModel, size: i32, weights: Seq<u64>, x: u32, y: u32)
    requires
        fits(img.width, img.height, size),
        x < img.width,
        y < img.height,
    ensures
        ({
            let k = y * img.width + x;
            let byte = rendered(start_of(img, size, weights), img.width, img.height)[k];
            &&& img.pixels[k] >= 128 ==> byte == 255
            &&& img.pixels[k] < 128 ==> byte == 0
            &&& img.pixels[k] == 0 || img.pixels[k] == 255 ==> byte == img.pixels[k]
        }),
{
    let m = start_of(img, size, weights);
    lemma_margin(size);
    law_picture_in_arrays(img, size, weights, x as int, y as int);
    lemma_start_wf(img, size, weights);
    law_byte_of_pixel(m, x, y);
}

/// The context of a picture is well formed.
pub proof fn lemma_start_wf(img: PlaneModel, size: i32, weights: Seq<u64>)
    requires
        fits(img.width, img.height, size),
    ensures
        start_of(img, size, weights).wf(),
{
    let a = thresholded(img, size, weights);
    lemma_margin(size);
    lemma_sides(img.width, img.height, size);
    assert forall|i: int| 0 <= i < a.original.len() implies 0 <= #[trigger] a.original[i]
        && a.original[i] <= 65536 by {}
}

/// A search ends with a picture in black and white, with a byte for each pixel: white where the
/// context at which it ended has its pixel on.
pub proof fn law_outcome_is_black_and_white(
    img: PlaneModel,
    size: i32,
    weights: Seq<u64>,
    bytes: Seq<u8>,
    toggles: i32,
    swaps: i32,
    shown: Seq<Event>,
) -> (m: DbsModel)
    requires
        fits(img.width, img.height, size),
        halftone_outcome(img, size, weights, bytes, toggles, swaps, shown),
    ensures
        search_ends(start_of(img, size, weights), tally(m, toggles, swaps), shown),
        drawn_search_ends(start_of(img, size, weights), tally(m, toggles, swaps), shown),
        m.wf(),
        m.width == img.width,
        m.height == img.height,
        bytes.len() == img.width * img.height,
        forall|x: u32, y: u32|
            #![trigger entry(m, x as int, y as int)]
            x < img.width && y < img.height ==> {
                &&& m.halftone[entry(m, x as int, y as int)] == 65536 ==> bytes[y * img.width + x]
                    == 255
                &&& m.halftone[entry(m, x as int, y as int)] == 0 ==> bytes[y * img.width + x] == 0
            },
{
    let start = start_of(img, size, weights);
    let m = choose|m: DbsModel| #[trigger]
        search_ends(start, tally(m, toggles, swaps), shown) && drawn_search_ends(
            start,
            tally(m, toggles, swaps),
            shown,
        ) && bytes == rendered(m, img.width, img.height);
    let shifts = choose|shifts: Seq<(i32, i32)>| #[trigger]
        search_with(start, shifts, tally(m, toggles, swaps));
    lemma_start_wf(img, size, weights);
    law_search_frame(start, shifts);
    assert(img.height * img.width == img.width * img.height) by (nonlinear_arith);
    assert forall|x: u32, y: u32|
        #![trigger entry(m, x as int, y as int)]
        x < img.width && y < img.height implies {
        &&& m.halftone[entry(m, x as int, y as int)] == 65536 ==> bytes[y * img.width + x] == 255
        &&& m.halftone[entry(m, x as int, y as int)] == 0 ==> bytes[y * img.width + x] == 0
    } by {
        law_byte_of_pixel(m, x, y);
    }
    m
}

/// The bytes of a color picture: red, green and blue of each pixel, in this order.
pub proof fn law_colors_in_turn(r: Seq<u8>, g: Seq<u8>, b: Seq<u8>, k: int)
    requires
        r.len() == g.len() == b.len(),
        0 <= k < r.len(),
    ensures
        merged(r, g, b).len() == r.len() + g.len() + b.len(),
        merged(r, g, b)[3 * k] == r[k],
        merged(r, g, b)[3 * k + 1] == g[k],
        merged(r, g, b)[3 * k + 2] == b[k],
{
}

/// A channel of a color picture holds one of the three bytes of each pixel.
pub proof fn law_channel_of_pixel(bytes: Seq<u8>, len: nat, k: int)
    requires
        3 * len <= bytes.len(),
        0 <= k < len,
    ensures
        channel_of(bytes, 0, len).len() == len,
        channel_of(bytes, 1, len).len() == len,
        channel_of(bytes, 2, len).len() == len,
        channel_of(bytes, 0, len)[k] == bytes[3 * k],
        channel_of(bytes, 1, len)[k] == bytes[3 * k + 1],
        channel_of(bytes, 2, len)[k] == bytes[3 * k + 2],
{
}

/// The counts of three channels add up, as long as the word holds the sums; past its end they stay
/// at the largest.
pub proof fn law_counts_of_channels(r: i32, g: i32, b: i32)
    ensures
        i32::MIN <= r + g <= i32::MAX && i32::MIN <= r + g + b <= i32::MAX ==> count_sum(r, g, b)
            == r + g + b,
        r >= 0 && g >= 0 && b >= 0 && r + g + b > i32::MAX ==> count_sum(r, g, b) == i32::MAX,
{
}

/// A picture is scaled to the planned dimensions; a side of zero counts as one.
pub proof fn law_planned_dims(width: u32, height: u32)
    ensures
        width > 0 ==> planned_dims(width, height).0 == width,
        height > 0 ==> planned_dims(width, height).1 == height,
        width == 0 ==> planned_dims(width, height).0 == 1,
        height == 0 ==> planned_dims(width, height).1 == 1,
{
}

/// A picture can be scaled if no side is longer than two to the power of twenty-two, and the
/// picture, the result, and the steps between them have room for sixteen bytes for each pixel; and
/// only then.
pub proof fn law_scaling_fits(width: u32, height: u32, new_width: u32, new_height: u32)
    ensures
        scaling_fits(width, height, new_width, new_height) <==> {
            &&& width <= 4194304 && height <= 4194304
            &&& new_width <= 4194304 && new_height <= 4194304
            &&& 16 * (width * height) <= isize::MAX
            &&& 16 * (new_width * new_height) <= isize::MAX
            &&& 16 * (new_width * height) <= isize::MAX
            &&& 16 * (width * new_height) <= isize::MAX
        },
{
    let x = max_of(width as int, new_width as int);
    let y = max_of(height as int, new_height as int);
    assert forall|a: int, b: int| 0 <= a <= x && 0 <= b <= y implies #[trigger] (a * b) <= x
        * y by {
        assert(a * b <= x * y) by (nonlinear_arith)
            requires
                0 <= a <= x,
                0 <= b <= y,
        ;
    }
    assert(width * height <= x * y);
    assert(new_width * new_height <= x * y);
    assert(new_width * height <= x * y);
    assert(width * new_height <= x * y);
}

/// The channels of a color picture can be taken out where there is room for its three bytes for
/// each pixel.
pub proof fn law_color_fits(width: u32, height: u32)
    ensures
        color_fits(width, height) <==> width * height + width * height + width * height
            <= isize::MAX,
{
}

} // verus!
