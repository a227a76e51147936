//! Pictures as they come out of a file.
use crate::context::{fits, lemma_margin, margin_of, picture_fits, thresholded, DbsModel};
use crate::fixed::max_of;
use crate::input::ResizePlan;
use crate::plane::{GrayPlane, PlaneModel};
use crate::progress::{Event, Progress};
use crate::render::{channel_of, rendered, split_channels};
use crate::search::{drawn_search_ends, perform_dbs_with_progress, search_ends, tally};
use image::{DynamicImage, GenericImageView};
use vstd::prelude::*;

verus! {

#[verifier::external_type_specification]
#[verifier::external_body]
pub struct ExDynamicImage(image::DynamicImage);

/// The width and the height of a picture.
pub uninterp spec fn image_dims(img: DynamicImage) -> (u32, u32);

/// The bytes of a picture in shades of gray, row by row.
pub uninterp spec fn luma8_samples(img: DynamicImage) -> Seq<u8>;

/// The bytes of a picture in color, three for each pixel, row by row.
pub uninterp spec fn rgb8_samples(img: DynamicImage) -> Seq<u8>;

/// The width and the height of a picture: `GenericImageView::dimensions` of `image`. The contract
/// names them.
#[verifier::external_body]
fn dimensions(img: &DynamicImage) -> (r: (u32, u32))
    ensures
        r == image_dims(*img),
{
    img.dimensions()
}

/// A picture in shades of gray: `DynamicImage::to_luma8` of `image`. The contract names the bytes
/// and claims that there is one for each pixel.
#[verifier::external_body]
fn luma8(img: &DynamicImage) -> (r: Vec<u8>)
    ensures
        r@ == luma8_samples(*img),
        r@.len() == image_dims(*img).0 * image_dims(*img).1,
{
    img.to_luma8().into_raw()
}

/// A picture in color: `DynamicImage::to_rgb8` of `image`, which panics where its bytes cannot be
/// allocated. The contract names the bytes and claims that there are three for each pixel.
#[verifier::external_body]
fn rgb8(img: &DynamicImage) -> (r: Vec<u8>)
    requires
        3 * (image_dims(*img).0 * image_dims(*img).1) <= isize::MAX,
    ensures
        r@ == rgb8_samples(*img),
        r@.len() == 3 * (image_dims(*img).0 * image_dims(*img).1),
{
    img.to_rgb8().into_raw()
}

/// A picture scaled to new dimensions: `DynamicImage::resize_exact` of `image` with the `Lanczos3`
/// filter, which panics where a buffer cannot be allocated, or where the weights of a sample sum up
/// to zero. They can only where single precision takes a sample point past the edge of the picture,
/// which it does not as long as no side is longer than `LONGEST_SIDE`. The contract claims that the
/// result has the new dimensions, and that a picture which has them already is copied. What the
/// pixels are is left unsaid otherwise: the filter goes through the sine function of the machine.
#[verifier::external_body]
fn scaled(img: &DynamicImage, width: u32, height: u32) -> (r: DynamicImage)
    requires
        width > 0,
        height > 0,
        scaling_fits(image_dims(*img).0, image_dims(*img).1, width, height),
    ensures
        image_dims(r) == (width, height),
        image_dims(*img) == (width, height) ==> luma8_samples(r) == luma8_samples(*img),
        image_dims(*img) == (width, height) ==> rgb8_samples(r) == rgb8_samples(*img),
{
    img.resize_exact(width, height, image::imageops::FilterType::Lanczos3)
}

/// The longest side that a picture can be scaled from or to.
pub const LONGEST_SIDE: u32 = 0x40_0000;

/// Whether a picture can be scaled: no side is too long, and the buffers that it takes can be
/// allocated, with sixteen bytes for each pixel of the picture, of the result, and of the step
/// between them.
pub open spec fn scaling_fits(width: u32, height: u32, new_width: u32, new_height: u32) -> bool {
    &&& width <= LONGEST_SIDE && height <= LONGEST_SIDE
    &&& new_width <= LONGEST_SIDE && new_height <= LONGEST_SIDE
    &&& max_of(width as int, new_width as int) * max_of(height as int, new_height as int) * 16
        <= isize::MAX
}

/// The channel of a picture in shades of gray.
pub fn mono_plane(img: &DynamicImage) -> (r: GrayPlane)
    ensures
        r@ == (PlaneModel {
            width: image_dims(*img).0,
            height: image_dims(*img).1,
            pixels: luma8_samples(*img),
        }),
        r@.wf(),
{
    let (width, height) = dimensions(img);
    GrayPlane { width, height, pixels: luma8(img) }
}

/// Whether the bytes of a picture in color can be allocated.
pub open spec fn color_fits(width: u32, height: u32) -> bool {
    3 * (width * height) <= isize::MAX
}

/// The three channels of a picture in color, unless its bytes cannot be allocated.
pub fn color_planes(img: &DynamicImage) -> (r: Option<(GrayPlane, GrayPlane, GrayPlane)>)
    ensures
        r is Some <==> color_fits(image_dims(*img).0, image_dims(*img).1),
        r matches Some(planes) ==> {
            let (width, height) = image_dims(*img);
            let len = (width * height) as nat;
            let bytes = rgb8_samples(*img);
            &&& planes.0@ == (PlaneModel { width, height, pixels: channel_of(bytes, 0, len) })
            &&& planes.1@ == (PlaneModel { width, height, pixels: channel_of(bytes, 1, len) })
            &&& planes.2@ == (PlaneModel { width, height, pixels: channel_of(bytes, 2, len) })
            &&& planes.0@.wf() && planes.1@.wf() && planes.2@.wf()
        },
{
    let (width, height) = dimensions(img);
    assert(0 <= width * height <= 0xffff_ffff * 0xffff_ffff) by (nonlinear_arith)
        requires
            0 <= width <= 0xffff_ffff,
            0 <= height <= 0xffff_ffff,
    ;
    if 3 * (width as u128 * height as u128) > isize::MAX as u128 {
        return None;
    }
    let bytes: Vec<u8> = rgb8(img);
    Some(split_channels(width, height, &bytes))
}

/// The larger of two numbers.
fn larger(a: u32, b: u32) -> (r: u32)
    ensures
        r == max_of(a as int, b as int),
{
    if a >= b {
        a
    } else {
        b
    }
}

/// The dimensions of a picture that is scaled as planned: those of the plan, but at least one
/// pixel.
pub open spec fn planned_dims(width: u32, height: u32) -> (u32, u32) {
    (max_of(width as int, 1) as u32, max_of(height as int, 1) as u32)
}

/// Whether a picture is what comes of scaling another to new dimensions: what `scaled` can return.
pub closed spec fn scaled_from(
    img: DynamicImage,
    width: u32,
    height: u32,
    out: DynamicImage,
) -> bool {
    call_ensures(scaled, (&img, width, height), out)
}

/// Scales a picture as planned. None where it is too large for that.
pub fn resize_picture(img: DynamicImage, plan: ResizePlan) -> (r: Option<DynamicImage>)
    ensures
        plan matches ResizePlan::Resize { width, height } ==> {
            let dims = planned_dims(width, height);
            &&& r is Some <==> scaling_fits(
                image_dims(img).0,
                image_dims(img).1,
                dims.0,
                dims.1,
            )
            &&& r matches Some(out) ==> {
                &&& scaled_from(img, dims.0, dims.1, out)
                &&& image_dims(out) == dims
                &&& image_dims(img) == dims ==> luma8_samples(out) == luma8_samples(img)
                &&& image_dims(img) == dims ==> rgb8_samples(out) == rgb8_samples(img)
            }
        },
        !(plan is Resize) ==> r == Some(img),
{
    match plan {
        ResizePlan::Resize { width, height } => {
            let (w, h) = dimensions(&img);
            let new_width: u32 = larger(width, 1);
            let new_height: u32 = larger(height, 1);
            if w > LONGEST_SIDE || h > LONGEST_SIDE || new_width > LONGEST_SIDE || new_height
                > LONGEST_SIDE {
                return None;
            }
            let x: u32 = larger(w, new_width);
            let y: u32 = larger(h, new_height);
            assert(0 <= x * y <= 0x40_0000 * 0x40_0000) by (nonlinear_arith)
                requires
                    0 <= x <= 0x40_0000,
                    0 <= y <= 0x40_0000,
            ;
            if (x as u128 * y as u128) * 16 > isize::MAX as u128 {
                return None;
            }
            Some(scaled(&img, new_width, new_height))
        },
        ResizePlan::Keep => Some(img),
        ResizePlan::Invalid => Some(img),
    }
}

/// The bytes that a search on a plane can end with, the counts, and what it shows on the way.
pub open spec fn halftone_outcome(
    img: PlaneModel,
    size: i32,
    weights: Seq<u64>,
    bytes: Seq<u8>,
    toggles: i32,
    swaps: i32,
    shown: Seq<Event>,
) -> bool {
    exists|m: DbsModel| #[trigger]
        search_ends(
            thresholded(img, size, weights).with_error().with_e2(),
            tally(m, toggles, swaps),
            shown,
        ) && drawn_search_ends(
            thresholded(img, size, weights).with_error().with_e2(),
            tally(m, toggles, swaps),
            shown,
        ) && bytes == rendered(m, img.width, img.height)
}

/// Halftones a picture in shades of gray: its bytes, and how many pixels were toggled and how many
/// swapped. None where its arrays cannot be allocated.
pub fn process_mono<F: Fn(Event)>(
    img: &DynamicImage,
    size: i32,
    weights: &[u64],
    progress: &mut Progress<F>,
) -> (r: Option<(Vec<u8>, i32, i32)>)
    requires
        old(progress).ready(),
    ensures
        r is Some <==> fits(image_dims(*img).0, image_dims(*img).1, size),
        r is None ==> final(progress)@ == old(progress)@,
        r matches Some(out) ==> {
            &&& (old(progress)@.push(Event::Initializing)).is_prefix_of(final(progress)@)
            &&& final(progress)@.last() == Event::Finished
            &&& halftone_outcome(
                (PlaneModel {
                    width: image_dims(*img).0,
                    height: image_dims(*img).1,
                    pixels: luma8_samples(*img),
                }),
                size,
                weights@,
                out.0@,
                out.1,
                out.2,
                final(progress)@.drop_last().skip(old(progress)@.len() as int + 1),
            )
        },
        final(progress).ready(),
        final(progress).watcher() == old(progress).watcher(),
{
    let plane: GrayPlane = mono_plane(img);
    if !picture_fits(plane.width, plane.height, size) {
        return None;
    }
    let (dbs, toggles, swaps) = perform_dbs_with_progress(&plane, size, weights, progress);
    assert(plane.height * plane.width == plane.width * plane.height) by (nonlinear_arith);
    proof {
        lemma_margin(size);
        let w = plane.width as int;
        let h = plane.height as int;
        let p = margin_of(size);
        assert(w * h <= (w + 2 * p) * (h + 2 * p)) by (nonlinear_arith)
            requires
                w >= 0,
                h >= 0,
                p >= 0,
        ;
    }
    Some((dbs.render(plane.width, plane.height), toggles, swaps))
}

} // verus!
