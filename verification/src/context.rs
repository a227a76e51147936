//! The state of the search: the picture, its halftone, and the two error maps.
use crate::filter::{differences, filter_rows, filtered_entry, Window};
use crate::fixed::{
    clamp64, clamp_isize, clamp_usize, sat_mul32, sat_mul_add_isize, sat_mul_usize, sat_sub32,
};
use crate::fold::{lemma_grid_index, lemma_grid_index_bound};
use crate::kernel::{
    autocorr_width, generate_hvs_kernel, half_width, kernel_of, to_index, HvsKernel, KernelModel,
    KernelOffset,
};
use crate::plane::{byte_level, level_of, threshold, threshold_level, GrayPlane, PlaneModel};
use vstd::prelude::*;

verus! {

/// A picture that is being halftoned. The arrays have a margin around the picture, so that every
/// tap around a pixel lies in them.
pub struct DbsContext {
    pub width: u32,
    pub height: u32,
    pub padded_width: usize,
    pub padded_height: usize,
    pub padding: usize,
    pub original: Vec<i64>,
    pub halftone: Vec<i64>,
    pub error_map: Vec<i64>,
    pub e2_map: Vec<i64>,
    pub kernel: HvsKernel,
    pub kernel_size: i32,
    pub kernel_radius: i32,
}

/// What a context holds.
#[verifier::ext_equal]
pub struct DbsModel {
    pub width: u32,
    pub height: u32,
    pub padded_width: usize,
    pub padded_height: usize,
    pub padding: usize,
    pub original: Seq<i64>,
    pub halftone: Seq<i64>,
    pub error: Seq<i64>,
    pub e2: Seq<i64>,
    pub kernel: KernelModel,
    pub kernel_size: i32,
    pub kernel_radius: i32,
}

impl View for DbsContext {
    type V = DbsModel;

    open spec fn view(&self) -> DbsModel {
        DbsModel {
            width: self.width,
            height: self.height,
            padded_width: self.padded_width,
            padded_height: self.padded_height,
            padding: self.padding,
            original: self.original@,
            halftone: self.halftone@,
            error: self.error_map@,
            e2: self.e2_map@,
            kernel: self.kernel@,
            kernel_size: self.kernel_size,
            kernel_radius: self.kernel_radius,
        }
    }
}

/// The margin around a picture that is filtered with a kernel of width `size`.
pub open spec fn margin_of(size: i32) -> int {
    to_index(autocorr_width(size) as int / 2)
}

/// Whether the arrays for a picture of these dimensions can be allocated, and have rows.
pub open spec fn fits(width: u32, height: u32, size: i32) -> bool {
    &&& width + 2 * margin_of(size) > 0
    &&& (width + 2 * margin_of(size)) * (height + 2 * margin_of(size)) * 8 <= isize::MAX
}

/// The taps with their steps in an array whose rows have `stride` entries.
pub open spec fn placed(taps: Seq<KernelOffset>, stride: int) -> Seq<KernelOffset> {
    Seq::new(
        taps.len(),
        |k: int|
            KernelOffset {
                offset: clamp_isize(clamp_isize(taps[k].dy * stride) + taps[k].dx),
                ..taps[k]
            },
    )
}

/// The length of a row as a signed number, and zero where it is none.
pub open spec fn signed_stride(padded_width: usize) -> int {
    if padded_width <= isize::MAX {
        padded_width as int
    } else {
        0
    }
}

/// The level of the entry `i` of a padded array: that of its pixel, and zero in the margin.
pub open spec fn padded_level(img: PlaneModel, padding: int, padded_width: int, i: int) -> i64 {
    let y = i / padded_width - padding;
    let x = i % padded_width - padding;
    if 0 <= x < img.width && 0 <= y < img.height {
        level_of(img.pixel(x, y))
    } else {
        0
    }
}

/// The kernel for a picture whose padded rows have `padded_width` entries.
pub open spec fn placed_kernel(kernel: KernelModel, padded_width: usize) -> KernelModel {
    KernelModel {
        offsets: placed(kernel.offsets, signed_stride(padded_width)),
        autocorr_offsets: placed(kernel.autocorr_offsets, signed_stride(padded_width)),
        ..kernel
    }
}

/// A picture before the error maps are computed: each pixel of the halftone is the level nearest
/// to that of the picture.
pub open spec fn thresholded(img: PlaneModel, size: i32, weights: Seq<u64>) -> DbsModel {
    let p = margin_of(size);
    let pw = (img.width + 2 * p) as usize;
    let ph = (img.height + 2 * p) as usize;
    let original = Seq::new((pw * ph) as nat, |i: int| padded_level(img, p, pw as int, i));
    DbsModel {
        width: img.width,
        height: img.height,
        padded_width: pw,
        padded_height: ph,
        padding: p as usize,
        original,
        halftone: Seq::new((pw * ph) as nat, |i: int| threshold(original[i])),
        error: Seq::new((pw * ph) as nat, |i: int| 0i64),
        e2: Seq::new((pw * ph) as nat, |i: int| 0i64),
        kernel: placed_kernel(kernel_of(size, weights), pw),
        kernel_size: size,
        kernel_radius: (size as int / 2) as i32,
    }
}

impl DbsModel {
    /// How many entries the arrays have.
    pub open spec fn area(self) -> int {
        self.padded_width * self.padded_height
    }

    /// The dimensions agree, every pixel of the halftone is off or on, and every level of the
    /// picture lies between.
    pub open spec fn wf(self) -> bool {
        &&& self.padding == margin_of(self.kernel_size)
        &&& self.padded_width == self.width + 2 * self.padding
        &&& self.padded_height == self.height + 2 * self.padding
        &&& self.padded_width > 0
        &&& self.area() * 8 <= isize::MAX
        &&& self.original.len() == self.area()
        &&& self.halftone.len() == self.area()
        &&& self.error.len() == self.area()
        &&& self.e2.len() == self.area()
        &&& self.kernel_radius == self.kernel_size as int / 2
        &&& self.kernel.autocorr_size == autocorr_width(self.kernel_size)
        &&& forall|i: int|
            0 <= i < self.halftone.len() ==> self.halftone[i] == 0 || self.halftone[i] == 65536
        &&& forall|i: int|
            0 <= i < self.original.len() ==> 0 <= #[trigger] self.original[i] && self.original[i]
                <= 65536
    }

    /// The array index of a pixel; it saturates.
    pub open spec fn index_of(self, x: u32, y: u32) -> int {
        clamp_usize((y + self.padding) * self.padded_width + (x + self.padding)) as int
    }

    /// How far the error map reaches past the picture.
    pub open spec fn reach(self) -> int {
        to_index(self.kernel_radius as int)
    }

    /// Where the error map is not zero from the start.
    pub open spec fn error_window(self) -> Window {
        Window {
            min_y: clamp_usize(self.padding - self.reach()),
            max_y: clamp_usize(self.padding + self.height + self.reach()),
            min_x: clamp_usize(self.padding - self.reach()),
            max_x: clamp_usize(self.padding + self.width + self.reach()),
        }
    }

    /// Where the picture lies in the arrays.
    pub open spec fn picture_window(self) -> Window {
        Window {
            min_y: self.padding,
            max_y: clamp_usize(self.padding + self.height),
            min_x: self.padding,
            max_x: clamp_usize(self.padding + self.width),
        }
    }

    /// The halftone less the picture.
    pub open spec fn difference(self) -> Seq<i64> {
        Seq::new(
            self.halftone.len(),
            |i: int| clamp64(self.halftone[i] - self.original[i]),
        )
    }

    /// The context with its error map filled in: the difference, filtered.
    pub open spec fn with_error(self) -> DbsModel {
        DbsModel {
            error: Seq::new(
                self.error.len(),
                |i: int|
                    filtered_entry(
                        self.error[i],
                        self.difference(),
                        self.kernel.offsets,
                        self.padded_width as int,
                        self.error_window(),
                        i,
                    ),
            ),
            ..self
        }
    }

    /// The context with its second map filled in: the error map, filtered once more.
    pub open spec fn with_e2(self) -> DbsModel {
        DbsModel {
            e2: Seq::new(
                self.e2.len(),
                |i: int|
                    filtered_entry(
                        self.e2[i],
                        self.error,
                        self.kernel.offsets,
                        self.padded_width as int,
                        self.picture_window(),
                        i,
                    ),
            ),
            ..self
        }
    }
}

/// The half width of a kernel is at most its margin, and both are small.
pub proof fn lemma_margin(size: i32)
    ensures
        0 <= margin_of(size) < 0x4000_0000,
        to_index(size as int / 2) <= margin_of(size),
        -0x4000_0000 <= size as int / 2 < 0x4000_0000,
        -0x4000_0000 <= autocorr_width(size) as int / 2 < 0x4000_0000,
        autocorr_width(size) as int / 2 <= margin_of(size),
{
}

/// Gives the taps their steps in an array whose rows have `stride` entries.
fn place_taps(taps: &mut Vec<KernelOffset>, stride: isize)
    ensures
        final(taps)@ == placed(old(taps)@, stride as int),
{
    let ghost before = taps@;
    let mut k: usize = 0;
    while k < taps.len()
        invariant
            k <= taps@.len() == before.len(),
            forall|j: int| 0 <= j < k ==> taps@[j] == placed(before, stride as int)[j],
            forall|j: int| k <= j < before.len() ==> taps@[j] == before[j],
        decreases before.len() - k,
    {
        let tap: KernelOffset = taps[k];
        let offset: isize = sat_mul_add_isize(tap.dy as isize, stride, tap.dx as isize);
        taps.set(k, KernelOffset { dx: tap.dx, dy: tap.dy, offset, weight: tap.weight });
        k = k + 1;
    }
    assert(taps@ =~= placed(before, stride as int));
}

/// Whether a picture of these dimensions can be halftoned with a kernel of width `size`: see
/// `DbsContext::new`.
pub fn picture_fits(width: u32, height: u32, size: i32) -> (r: bool)
    ensures
        r == fits(width, height, size),
{
    let radius: i32 = half_width(doubled_width(size));
    let margin: u128 = if radius < 0 {
        0
    } else {
        radius as u128
    };
    let w: u128 = width as u128 + 2 * margin;
    let h: u128 = height as u128 + 2 * margin;
    assert(0 <= w * h <= 0x2_0000_0000 * 0x2_0000_0000) by (nonlinear_arith)
        requires
            0 <= w <= 0x2_0000_0000,
            0 <= h <= 0x2_0000_0000,
    ;
    w > 0 && w * h * 8 <= isize::MAX as u128
}

/// The width of the autocorrelation of a kernel of width `size`.
fn doubled_width(size: i32) -> (r: i32)
    ensures
        r == autocorr_width(size),
{
    sat_sub32(sat_mul32(size, 2), 1)
}

impl DbsContext {
    /// The array index of a pixel; it saturates.
    pub fn pixel_index(&self, xx: u32, yy: u32) -> (r: usize)
        ensures
            r == self@.index_of(xx, yy),
    {
        let py: usize = (yy as usize).saturating_add(self.padding);
        let px: usize = (xx as usize).saturating_add(self.padding);
        proof {
            let w = self.padded_width as int;
            assert(py == yy + self.padding || w == 0 || py * w >= usize::MAX && (yy + self.padding)
                * w >= usize::MAX) by (nonlinear_arith)
                requires
                    w >= 0,
                    py == clamp_usize(yy + self.padding),
                    yy + self.padding >= 0,
            ;
            assert(py * w >= 0) by (nonlinear_arith)
                requires
                    py >= 0,
                    w >= 0,
            ;
            if w == 0 {
                assert(py * w == 0 && (yy + self.padding) * w == 0) by (nonlinear_arith)
                    requires
                        w == 0,
                ;
            }
        }
        sat_mul_usize(py, self.padded_width).saturating_add(px)
    }

    /// The context of a picture, for a kernel of width `size` with the weights that
    /// `generate_hvs_kernel` takes.
    pub fn new(img: &GrayPlane, size: i32, weights: &[u64]) -> (r: DbsContext)
        requires
            img@.wf(),
            fits(img.width, img.height, size),
        ensures
            r@ == thresholded(img@, size, weights@).with_error().with_e2(),
            r@.wf(),
    {
        proof {
            lemma_margin(size);
        }
        let radius: i32 = half_width(doubled_width(size));
        let padding: usize = if radius < 0 {
            0
        } else {
            radius as usize
        };
        proof {
            let pw = img.width + 2 * padding;
            let ph = img.height + 2 * padding;
            assert(ph > 0 ==> pw <= pw * ph) by (nonlinear_arith)
                requires
                    pw >= 0,
            ;
            assert(pw > 0 ==> ph <= pw * ph) by (nonlinear_arith)
                requires
                    ph >= 0,
            ;
        }
        let padded_width: usize = img.width as usize + 2 * padding;
        let padded_height: usize = img.height as usize + 2 * padding;
        let size_all: usize = sat_mul_usize(padded_width, padded_height);
        let mut kernel: HvsKernel = generate_hvs_kernel(size, weights);
        let stride: isize = if padded_width <= isize::MAX as usize {
            padded_width as isize
        } else {
            0
        };
        place_taps(&mut kernel.offsets, stride);
        place_taps(&mut kernel.autocorr_offsets, stride);
        let mut original: Vec<i64> = Vec::with_capacity(size_all);
        let mut halftone: Vec<i64> = Vec::with_capacity(size_all);
        let ghost m = thresholded(img@, size, weights@);
        let mut y: usize = 0;
        assert(y * padded_width == 0);
        while y < padded_height
            invariant
                img@.wf(),
                m == thresholded(img@, size, weights@),
                padding == margin_of(size),
                padded_width == m.padded_width == img.width + 2 * padding,
                padded_height == m.padded_height == img.height + 2 * padding,
                padded_width > 0,
                padded_width * padded_height * 8 <= isize::MAX,
                y <= padded_height,
                original@.len() == y * padded_width,
                halftone@.len() == y * padded_width,
                forall|i: int|
                    0 <= i < original@.len() ==> original@[i] == padded_level(
                        img@,
                        padding as int,
                        padded_width as int,
                        i,
                    ) && 0 <= original@[i] <= 65536 && halftone@[i] == threshold(original@[i]),
            decreases padded_height - y,
        {
            let mut x: usize = 0;
            while x < padded_width
                invariant
                    img@.wf(),
                    padding == margin_of(size),
                    padded_width == img.width + 2 * padding,
                    padded_height == img.height + 2 * padding,
                    y < padded_height,
                    x <= padded_width,
                    padded_width > 0,
                    padded_width * padded_height * 8 <= isize::MAX,
                    original@.len() == y * padded_width + x,
                    halftone@.len() == y * padded_width + x,
                    forall|i: int|
                        0 <= i < original@.len() ==> original@[i] == padded_level(
                            img@,
                            padding as int,
                            padded_width as int,
                            i,
                        ) && 0 <= original@[i] <= 65536 && halftone@[i] == threshold(original@[i]),
                decreases padded_width - x,
            {
                proof {
                    lemma_grid_index(y as int, x as int, padded_width as int);
                }
                let level: i64 = if x >= padding && x - padding < img.width as usize && y >= padding
                    && y - padding < img.height as usize {
                    proof {
                        lemma_grid_index_bound(
                            y - padding,
                            x - padding,
                            img.height as int,
                            img.width as int,
                        );
                        assert(img.pixels.len() == img.pixels@.len());
                        assert(img.height * img.width == img.width * img.height)
                            by (nonlinear_arith);
                        assert((y - padding) * img.width >= 0) by (nonlinear_arith)
                            requires
                                y >= padding,
                        ;
                    }
                    byte_level(img.pixels[(y - padding) * (img.width as usize) + (x - padding)])
                } else {
                    0
                };
                original.push(level);
                halftone.push(threshold_level(level));
                x = x + 1;
            }
            proof {
                lemma_grid_index_bound(y as int, 0, padded_height as int, padded_width as int);
            }
            y = y + 1;
        }
        let mut ctx: DbsContext = DbsContext {
            width: img.width,
            height: img.height,
            padded_width,
            padded_height,
            padding,
            original,
            halftone,
            error_map: vec![0i64; size_all],
            e2_map: vec![0i64; size_all],
            kernel,
            kernel_size: size,
            kernel_radius: half_width(size),
        };
        assert(padded_height * padded_width == padded_width * padded_height) by (nonlinear_arith);
        assert(ctx@ =~= m);
        ctx.initialize_error_map();
        ctx
    }

    /// Fills in the error map and the second map.
    pub fn initialize_error_map(&mut self)
        requires
            old(self)@.wf(),
        ensures
            final(self)@ == old(self)@.with_error().with_e2(),
            final(self)@.wf(),
    {
        proof {
            lemma_margin(self.kernel_size);
        }
        let diff: Vec<i64> = differences(&self.halftone, &self.original);
        let ghost m = self@;
        assert(diff@ =~= m.difference());
        let width: usize = self.width as usize;
        let height: usize = self.height as usize;
        let reach: usize = if self.kernel_radius < 0 {
            0
        } else {
            self.kernel_radius as usize
        };
        let around: Window = Window {
            min_y: self.padding.saturating_sub(reach),
            max_y: self.padding.saturating_add(height).saturating_add(reach),
            min_x: self.padding.saturating_sub(reach),
            max_x: self.padding.saturating_add(width).saturating_add(reach),
        };
        filter_rows(&mut self.error_map, &diff, &self.kernel.offsets, self.padded_width, around);
        assert(self@ =~= m.with_error());
        let inside: Window = Window {
            min_y: self.padding,
            max_y: self.padding.saturating_add(height),
            min_x: self.padding,
            max_x: self.padding.saturating_add(width),
        };
        filter_rows(
            &mut self.e2_map,
            &self.error_map,
            &self.kernel.offsets,
            self.padded_width,
            inside,
        );
        assert(self@ =~= m.with_error().with_e2());
    }
}

} // verus!
