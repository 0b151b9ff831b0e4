use vstd::prelude::*;

verus! {

/// One pixel of an image, with or without alpha.
#[derive(Clone, Copy, PartialEq, Eq, Structural, Debug)]
pub enum Pixel {
    RGB { r: u8, g: u8, b: u8 },
    RGBA { r: u8, g: u8, b: u8, a: u8 },
}

impl Pixel {
    /// Returns `true` if the pixel is [`RGB`](Pixel::RGB).
    pub fn is_rgb(&self) -> (r: bool)
        ensures
            r == (*self is RGB),
    {
        match self {
            Pixel::RGB { .. } => true,
            _ => false,
        }
    }

    /// Returns `true` if the pixel is [`RGBA`](Pixel::RGBA).
    pub fn is_rgba(&self) -> (r: bool)
        ensures
            r == (*self is RGBA),
    {
        match self {
            Pixel::RGBA { .. } => true,
            _ => false,
        }
    }
}

/// An image as a list of pixels with its dimensions.
pub struct Image {
    width: u32,
    height: u32,
    pixels: Vec<Pixel>,
}

impl Image {
    pub closed spec fn spec_width(&self) -> u32 {
        self.width
    }

    pub closed spec fn spec_height(&self) -> u32 {
        self.height
    }

    pub closed spec fn spec_pixels(&self) -> Seq<Pixel> {
        self.pixels@
    }

    fn new(width: u32, height: u32, pixels: Vec<Pixel>) -> (img: Self)
        ensures
            img.spec_width() == width,
            img.spec_height() == height,
            img.spec_pixels() == pixels@,
    {
        Image { width, height, pixels }
    }

    /// An image whose pixels have no alpha.
    pub fn new_rgb(width: u32, height: u32, pixels: Vec<Pixel>) -> (img: Self)
        requires
            forall|i: int| 0 <= i < pixels@.len() ==> #[trigger] pixels@[i] is RGB,
        ensures
            img.spec_width() == width,
            img.spec_height() == height,
            img.spec_pixels() == pixels@,
    {
        Image::new(width, height, pixels)
    }

    /// An image whose pixels carry alpha.
    pub fn new_rgba(width: u32, height: u32, pixels: Vec<Pixel>) -> (img: Self)
        requires
            forall|i: int| 0 <= i < pixels@.len() ==> #[trigger] pixels@[i] is RGBA,
        ensures
            img.spec_width() == width,
            img.spec_height() == height,
            img.spec_pixels() == pixels@,
    {
        Image::new(width, height, pixels)
    }

    /// Get the image's width.
    pub fn width(&self) -> (w: u32)
        ensures
            w == self.spec_width(),
    {
        self.width
    }

    /// Get the image's height.
    pub fn height(&self) -> (h: u32)
        ensures
            h == self.spec_height(),
    {
        self.height
    }

    /// Get a reference to the image's pixels.
    pub fn pixels(&self) -> (p: &[Pixel])
        ensures
            p@ == self.spec_pixels(),
    {
        self.pixels.as_slice()
    }
}

} // verus!
