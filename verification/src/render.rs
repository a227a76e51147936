//! Halftones as bytes, black and white.
use crate::context::{DbsContext, DbsModel};
use crate::fixed::{clamp32, sat_add32};
use crate::fold::lemma_grid_index;
use crate::kernel::{at, get_or_zero};
use crate::plane::{GrayPlane, PlaneModel};
use vstd::prelude::*;

verus! {

impl DbsModel {
    /// The byte of a pixel of the halftone: white where it is on, and black where it is off.
    pub open spec fn pixel_byte(self, x: u32, y: u32) -> u8 {
        if at(self.halftone, self.index_of(x, y)) > 32768 {
            255
        } else {
            0
        }
    }
}

/// The bytes of the first `width` columns and `height` rows of a halftone, row by row.
pub open spec fn rendered(m: DbsModel, width: u32, height: u32) -> Seq<u8> {
    Seq::new(
        (height * width) as nat,
        |k: int| m.pixel_byte((k % (width as int)) as u32, (k / (width as int)) as u32),
    )
}

/// The bytes of a color picture with these channels: three for each pixel, one of each channel.
pub open spec fn merged(r: Seq<u8>, g: Seq<u8>, b: Seq<u8>) -> Seq<u8> {
    Seq::new(
        3 * r.len(),
        |k: int|
            if k % 3 == 0 {
                r[k / 3]
            } else if k % 3 == 1 {
                g[k / 3]
            } else {
                b[k / 3]
            },
    )
}

/// Every third byte, from number `channel` on.
pub open spec fn channel_of(bytes: Seq<u8>, channel: int, len: nat) -> Seq<u8> {
    Seq::new(len, |k: int| bytes[3 * k + channel])
}

impl DbsContext {
    /// The byte of a pixel of the halftone.
    pub fn output_byte(&self, x: u32, y: u32) -> (r: u8)
        ensures
            r == self@.pixel_byte(x, y),
    {
        if get_or_zero(self.halftone.as_slice(), self.pixel_index(x, y)) > 32768 {
            255
        } else {
            0
        }
    }

    /// The bytes of the halftone, row by row.
    pub fn render(&self, width: u32, height: u32) -> (r: Vec<u8>)
        requires
            height * width <= isize::MAX,
        ensures
            r@ == rendered(self@, width, height),
    {
        let mut bytes: Vec<u8> = Vec::new();
        let mut y: u32 = 0;
        assert(y * width == 0);
        while y < height
            invariant
                y <= height,
                bytes@.len() == y * width,
                forall|k: int|
                    0 <= k < bytes@.len() ==> bytes@[k] == self@.pixel_byte(
                        (k % (width as int)) as u32,
                        (k / (width as int)) as u32,
                    ),
            decreases height - y,
        {
            let mut x: u32 = 0;
            while x < width
                invariant
                    x <= width,
                    bytes@.len() == y * width + x,
                    forall|k: int|
                        0 <= k < bytes@.len() ==> bytes@[k] == self@.pixel_byte(
                            (k % (width as int)) as u32,
                            (k / (width as int)) as u32,
                        ),
                decreases width - x,
            {
                proof {
                    lemma_grid_index(y as int, x as int, width as int);
                }
                bytes.push(self.output_byte(x, y));
                x = x + 1;
            }
            assert((y + 1) * width == y * width + width) by (nonlinear_arith);
            y = y + 1;
        }
        assert(bytes@ =~= rendered(self@, width, height));
        bytes
    }
}

/// The bytes of a color picture whose three channels are halftones, pixel by pixel.
pub fn merge_channels(
    red: &DbsContext,
    green: &DbsContext,
    blue: &DbsContext,
    width: u32,
    height: u32,
) -> (bytes: Vec<u8>)
    requires
        height * width * 3 <= isize::MAX,
    ensures
        bytes@ == merged(
            rendered(red@, width, height),
            rendered(green@, width, height),
            rendered(blue@, width, height),
        ),
{
    let r: Vec<u8> = red.render(width, height);
    let g: Vec<u8> = green.render(width, height);
    let b: Vec<u8> = blue.render(width, height);
    let mut bytes: Vec<u8> = Vec::new();
    let mut k: usize = 0;
    while k < r.len()
        invariant
            k <= r@.len() == g@.len() == b@.len(),
            bytes@.len() == 3 * k,
            forall|i: int| 0 <= i < bytes@.len() ==> bytes@[i] == merged(r@, g@, b@)[i],
        decreases r@.len() - k,
    {
        bytes.push(r[k]);
        bytes.push(g[k]);
        bytes.push(b[k]);
        k = k + 1;
    }
    assert(bytes@ =~= merged(r@, g@, b@));
    bytes
}

/// The channels of a color picture, from its bytes, pixel by pixel.
pub fn split_channels(width: u32, height: u32, bytes: &Vec<u8>) -> (r: (
    GrayPlane,
    GrayPlane,
    GrayPlane,
))
    requires
        3 * (width * height) <= bytes@.len(),
    ensures
        r.0@ == (PlaneModel {
            width,
            height,
            pixels: channel_of(bytes@, 0, (width * height) as nat),
        }),
        r.1@ == (PlaneModel {
            width,
            height,
            pixels: channel_of(bytes@, 1, (width * height) as nat),
        }),
        r.2@ == (PlaneModel {
            width,
            height,
            pixels: channel_of(bytes@, 2, (width * height) as nat),
        }),
        r.0@.wf() && r.1@.wf() && r.2@.wf(),
{
    let mut red: Vec<u8> = Vec::new();
    let mut green: Vec<u8> = Vec::new();
    let mut blue: Vec<u8> = Vec::new();
    assert(width * height >= 0) by (nonlinear_arith);
    assert(bytes.len() == bytes@.len());
    let count: usize = (width as usize) * (height as usize);
    let mut k: usize = 0;
    while k < count
        invariant
            k <= count,
            3 * count <= bytes@.len() <= usize::MAX,
            red@ == channel_of(bytes@, 0, k as nat),
            green@ == channel_of(bytes@, 1, k as nat),
            blue@ == channel_of(bytes@, 2, k as nat),
        decreases count - k,
    {
        red.push(bytes[3 * k]);
        green.push(bytes[3 * k + 1]);
        blue.push(bytes[3 * k + 2]);
        k = k + 1;
        assert(red@ =~= channel_of(bytes@, 0, k as nat));
        assert(green@ =~= channel_of(bytes@, 1, k as nat));
        assert(blue@ =~= channel_of(bytes@, 2, k as nat));
    }
    (
        GrayPlane { width, height, pixels: red },
        GrayPlane { width, height, pixels: green },
        GrayPlane { width, height, pixels: blue },
    )
}

/// The saturated sum of the counts of three channels, from the first to the last.
pub open spec fn count_sum(r: i32, g: i32, b: i32) -> i32 {
    clamp32(clamp32(r + g) + b)
}

/// The toggles and the swaps of three channels together.
pub fn total_counts(red: (i32, i32), green: (i32, i32), blue: (i32, i32)) -> (r: (i32, i32))
    ensures
        r.0 == count_sum(red.0, green.0, blue.0),
        r.1 == count_sum(red.1, green.1, blue.1),
{
    (sat_add32(sat_add32(red.0, green.0), blue.0), sat_add32(sat_add32(red.1, green.1), blue.1))
}

/// How many pixels a picture has; the product saturates.
pub fn total_pixels(width: u32, height: u32) -> (r: u64)
    ensures
        r == (if width * height <= u32::MAX {
            width * height
        } else {
            u32::MAX as int
        }),
{
    match width.checked_mul(height) {
        Some(v) => v as u64,
        None => u32::MAX as u64,
    }
}

/// Taking the channels of a color picture out gives back what was put together.
pub proof fn law_split_undoes_merge(r: Seq<u8>, g: Seq<u8>, b: Seq<u8>)
    requires
        r.len() == g.len() == b.len(),
    ensures
        channel_of(merged(r, g, b), 0, r.len()) == r,
        channel_of(merged(r, g, b), 1, r.len()) == g,
        channel_of(merged(r, g, b), 2, r.len()) == b,
{
    assert(channel_of(merged(r, g, b), 0, r.len()) =~= r);
    assert(channel_of(merged(r, g, b), 1, r.len()) =~= g);
    assert(channel_of(merged(r, g, b), 2, r.len()) =~= b);
}

} // verus!
