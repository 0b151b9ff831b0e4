use vstd::prelude::*;

verus! {

/// Number of slots in the table of previously seen pixels.
pub const SEEN_PIXEL_ARRAY_SIZE: usize = 64;

/// Longest run that a single run chunk can describe.
pub const MAX_RUN_LENGTH: u8 = 62;

/// Channel count of an image without alpha.
pub const RGB_CHANNELS: u8 = 3;

/// Channel count of an image with alpha.
pub const RGBA_CHANNELS: u8 = 4;

/// A colour value with four 8-bit channels.
#[derive(Clone, Copy, PartialEq, Eq, Structural, Debug)]
pub struct Pixel {
    pub r: u8,
    pub g: u8,
    pub b: u8,
    pub a: u8,
}

/// Slot of the seen-pixel table that `p` belongs to.
pub open spec fn pixel_hash(p: Pixel) -> int {
    (p.r * 3 + p.g * 5 + p.b * 7 + p.a * 11) % 64
}

impl Pixel {
    pub fn new(r: u8, g: u8, b: u8, a: u8) -> (p: Pixel)
        ensures
            p == (Pixel { r, g, b, a }),
    {
        Pixel { r, g, b, a }
    }

    /// Get the pixel's r.
    pub fn r(&self) -> (v: u8)
        ensures
            v == self.r,
    {
        self.r
    }

    /// Get the pixel's g.
    pub fn g(&self) -> (v: u8)
        ensures
            v == self.g,
    {
        self.g
    }

    /// Get the pixel's b.
    pub fn b(&self) -> (v: u8)
        ensures
            v == self.b,
    {
        self.b
    }

    /// Get the pixel's a.
    pub fn a(&self) -> (v: u8)
        ensures
            v == self.a,
    {
        self.a
    }

    /// Table slot of this pixel: `(3r + 5g + 7b + 11a)` in 8-bit arithmetic, modulo 64.
    pub fn hash(&self) -> (h: usize)
        ensures
            h == pixel_hash(*self),
            h < SEEN_PIXEL_ARRAY_SIZE,
    {
        // 64 divides 256, so reducing the 8-bit wrapped sum or the exact sum gives the same slot.
        let s: u32 = self.r as u32 * 3 + self.g as u32 * 5 + self.b as u32 * 7 + self.a as u32 * 11;
        (s % 64) as usize
    }
}

} // verus!
