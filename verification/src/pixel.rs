//! Per-pixel colour transforms: invert and greyscale, on the text-format
//! `Pixel` (8-bit channels) and the binary-format `BinaryPixel` (wider
//! channels, logically still 0..=255).

use vstd::prelude::*;

verus! {

/// Largest value a channel may hold: the only channel depth supported.
pub const CHANNEL_MAX: u32 = 255;

/// A pixel of the text-format image: three 8-bit channels.
#[derive(Copy, Clone, PartialEq, Eq, Structural)]
pub struct Pixel {
    pub red: u8,
    pub blue: u8,
    pub green: u8,
}

/// A pixel of the binary-format image. The channels are stored with
/// headroom for deeper formats, but each is logically 0..=255.
#[derive(Copy, Clone, PartialEq, Eq, Structural)]
pub struct BinaryPixel {
    pub r: u32,
    pub g: u32,
    pub b: u32,
}

impl BinaryPixel {
    /// All channels within the supported 8-bit depth.
    pub open spec fn valid(self) -> bool {
        self.r <= CHANNEL_MAX && self.g <= CHANNEL_MAX && self.b <= CHANNEL_MAX
    }
}

/// The two supported image transformations.
#[derive(Copy, Clone, PartialEq, Eq, Structural)]
pub enum ImageProcess {
    Invert,
    Greyscale,
}

/// What invert does to one channel.
pub open spec fn spec_invert_channel(c: u8) -> u8 {
    (255 - c) as u8
}

/// The greyscale value of a channel triple: integer mean, truncating.
pub open spec fn spec_grey(r: u8, g: u8, b: u8) -> u8 {
    ((r + g + b) / 3) as u8
}

/// What invert does to a whole 8-bit pixel.
pub open spec fn spec_invert_pixel(p: Pixel) -> Pixel {
    Pixel { red: spec_invert_channel(p.red), blue: spec_invert_channel(p.blue), green: spec_invert_channel(p.green) }
}

/// What greyscale does to a whole 8-bit pixel.
pub open spec fn spec_greyscale_pixel(p: Pixel) -> Pixel {
    let grey = spec_grey(p.red, p.green, p.blue);
    Pixel { red: grey, blue: grey, green: grey }
}

impl Pixel {
    /// Builds a pixel from its three channels.
    pub fn new(red: u8, green: u8, blue: u8) -> (r: Pixel)
        ensures
            r == (Pixel { red, blue, green }),
    {
        Pixel { red, blue, green }
    }

    /// The red channel.
    pub fn red(&self) -> (r: u8)
        ensures
            r == self.red,
    {
        self.red
    }

    /// The blue channel.
    pub fn blue(&self) -> (r: u8)
        ensures
            r == self.blue,
    {
        self.blue
    }

    /// The green channel.
    pub fn green(&self) -> (r: u8)
        ensures
            r == self.green,
    {
        self.green
    }

    /// Inverts the pixel: each channel becomes 255 minus itself.
    pub fn invert(&mut self)
        ensures
            *final(self) == spec_invert_pixel(*old(self)),
    {
        self.red = 255 - self.red;
        self.blue = 255 - self.blue;
        self.green = 255 - self.green;
    }

    /// Channel-wise equality.
    pub fn eq(self, other: Pixel) -> (r: bool)
        ensures
            r == (self == other),
    {
        self.red == other.red && self.blue == other.blue && self.green == other.green
    }

    /// Replaces every channel by the truncating mean of the three.
    pub fn greyscale(&mut self)
        ensures
            *final(self) == spec_greyscale_pixel(*old(self)),
    {
        let gris: u32 = (self.red as u32 + self.blue as u32 + self.green as u32) / 3;
        self.red = gris as u8;
        self.blue = gris as u8;
        self.green = gris as u8;
    }
}

/// What invert does to a binary pixel.
pub open spec fn spec_invert_binary(p: BinaryPixel) -> BinaryPixel {
    BinaryPixel { r: (255 - p.r) as u32, g: (255 - p.g) as u32, b: (255 - p.b) as u32 }
}

/// What greyscale does to a binary pixel.
pub open spec fn spec_greyscale_binary(p: BinaryPixel) -> BinaryPixel {
    let grey = ((p.r + p.g + p.b) / 3) as u32;
    BinaryPixel { r: grey, g: grey, b: grey }
}

/// Inverts a binary pixel's channels.
pub fn invert_binary_pixel(pixel: &mut BinaryPixel)
    requires
        old(pixel).valid(),
    ensures
        *final(pixel) == spec_invert_binary(*old(pixel)),
        final(pixel).valid(),
{
    pixel.r = 255 - pixel.r;
    pixel.b = 255 - pixel.b;
    pixel.g = 255 - pixel.g;
}

/// Turns a binary pixel into greyscale.
pub fn greyscale_binary_pixel(pixel: &mut BinaryPixel)
    requires
        old(pixel).valid(),
    ensures
        *final(pixel) == spec_greyscale_binary(*old(pixel)),
        final(pixel).valid(),
{
    let grey = (pixel.r + pixel.b + pixel.g) / 3;
    pixel.r = grey;
    pixel.b = grey;
    pixel.g = grey;
}

/// Law: inverting twice gives the original pixel back, since
/// 255 - (255 - c) == c for every 8-bit channel.
pub proof fn lemma_invert_involution(p: Pixel)
    ensures
        spec_invert_pixel(spec_invert_pixel(p)) == p,
{
}

/// Law: inverting a binary pixel twice gives the original back, for every
/// pixel whose channels are within the supported depth.
pub proof fn lemma_invert_binary_involution(p: BinaryPixel)
    requires
        p.valid(),
    ensures
        spec_invert_binary(spec_invert_binary(p)) == p,
{
}

/// Law: after greyscale all three channels are equal, and each equals the
/// truncating integer mean of the original channels.
pub proof fn lemma_greyscale_converges(p: Pixel)
    ensures
        spec_greyscale_pixel(p).red == spec_greyscale_pixel(p).blue,
        spec_greyscale_pixel(p).blue == spec_greyscale_pixel(p).green,
        spec_greyscale_pixel(p).red == (p.red + p.green + p.blue) / 3,
{
}

/// Law: after greyscale of a binary pixel all three channels are equal, and
/// each equals the truncating integer mean of the original channels.
pub proof fn lemma_greyscale_binary_converges(p: BinaryPixel)
    requires
        p.valid(),
    ensures
        spec_greyscale_binary(p).r == spec_greyscale_binary(p).g,
        spec_greyscale_binary(p).g == spec_greyscale_binary(p).b,
        spec_greyscale_binary(p).r == (p.r + p.g + p.b) / 3,
{
}

} // verus!
