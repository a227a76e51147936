//! Planes of bytes: the channels of a picture.
use crate::fixed::FIXED_HALF;
use vstd::prelude::*;

verus! {

/// A channel of a picture, one byte for each pixel, row by row. Bytes past the last pixel are
/// not read.
pub struct GrayPlane {
    pub width: u32,
    pub height: u32,
    pub pixels: Vec<u8>,
}

/// What a plane holds.
#[verifier::ext_equal]
pub struct PlaneModel {
    pub width: u32,
    pub height: u32,
    pub pixels: Seq<u8>,
}

impl View for GrayPlane {
    type V = PlaneModel;

    open spec fn view(&self) -> PlaneModel {
        PlaneModel { width: self.width, height: self.height, pixels: self.pixels@ }
    }
}

impl PlaneModel {
    /// Every pixel has its byte.
    pub open spec fn wf(self) -> bool {
        self.width * self.height <= self.pixels.len()
    }

    /// The byte of the pixel in column `x` and row `y`.
    pub open spec fn pixel(self, x: int, y: int) -> u8 {
        self.pixels[y * self.width + x]
    }
}

/// A byte as a fixed-point level between zero and one, rounded down.
pub open spec fn level_of(v: u8) -> i64 {
    (v * 65536 / 255) as i64
}

/// The fixed-point level nearest to a fixed-point level that is zero or one.
pub open spec fn threshold(level: i64) -> i64 {
    if level > 32768 {
        65536
    } else {
        0
    }
}

/// See `level_of`.
pub fn byte_level(v: u8) -> (r: i64)
    ensures
        r == level_of(v),
        0 <= r <= 65536,
{
    v as i64 * 65536 / 255
}

/// See `threshold`.
pub fn threshold_level(level: i64) -> (r: i64)
    ensures
        r == threshold(level),
{
    if level > FIXED_HALF {
        65536
    } else {
        0
    }
}

} // verus!
