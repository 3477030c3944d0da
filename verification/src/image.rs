//! The whole-image in-memory representation of the text pixel format: a
//! flat pixel vector plus the header fields, with the per-pixel transforms
//! applied one-shot and a renderer that lays the image out as text.

use vstd::prelude::*;

use crate::header::{dec_digits, push_decimal};
use crate::pixel::{spec_greyscale_pixel, spec_invert_pixel, Pixel};

verus! {

/// A whole image held in memory: every pixel, plus the header fields.
pub struct Image {
    pub pixels: Vec<Pixel>,
    pub heigth: usize,
    pub width: usize,
    pub rgb_type: Vec<u8>,
    pub max_val: u8,
}

/// One pixel's text line: the three channel values separated by spaces,
/// ended by LF.
pub open spec fn spec_pixel_line(p: Pixel) -> Seq<u8> {
    dec_digits(p.red as int) + seq![32u8] + dec_digits(p.blue as int) + seq![32u8] + dec_digits(
        p.green as int,
    ) + seq![10u8]
}

/// The text lines of a pixel sequence, one line per pixel, in order.
pub open spec fn spec_pixel_lines(s: Seq<Pixel>) -> Seq<u8>
    decreases s.len(),
{
    if s.len() == 0 {
        Seq::empty()
    } else {
        spec_pixel_line(s[0]) + spec_pixel_lines(s.drop_first())
    }
}

/// Appending a pixel appends its line.
pub proof fn lemma_pixel_lines_push(s: Seq<Pixel>, p: Pixel)
    ensures
        spec_pixel_lines(s.push(p)) == spec_pixel_lines(s) + spec_pixel_line(p),
    decreases s.len(),
{
    if s.len() == 0 {
        assert(s.push(p).drop_first() =~= Seq::<Pixel>::empty());
        assert(spec_pixel_lines(Seq::<Pixel>::empty()) == Seq::<u8>::empty());
        assert(s.push(p)[0] == p);
        assert(spec_pixel_lines(s.push(p)) =~= spec_pixel_lines(s) + spec_pixel_line(p));
    } else {
        assert(s.push(p).drop_first() =~= s.drop_first().push(p));
        lemma_pixel_lines_push(s.drop_first(), p);
        assert(spec_pixel_lines(s.push(p)) =~= spec_pixel_lines(s) + spec_pixel_line(p));
    }
}

/// The text layout of a whole image: the format type line, the dimensions
/// line, the max-value line, then one line per pixel.
pub open spec fn spec_render(img: Image) -> Seq<u8> {
    img.rgb_type@ + seq![10u8] + dec_digits(img.heigth as int) + seq![32u8] + dec_digits(
        img.width as int,
    ) + seq![10u8] + dec_digits(img.max_val as int) + seq![10u8] + spec_pixel_lines(img.pixels@)
}

impl Image {
    /// Inverts every pixel of the image; the header fields stay.
    pub fn invert(&mut self)
        ensures
            final(self).pixels@.len() == old(self).pixels@.len(),
            forall|i: int|
                0 <= i < old(self).pixels@.len() ==> final(self).pixels@[i] == spec_invert_pixel(
                    old(self).pixels@[i],
                ),
            final(self).heigth == old(self).heigth,
            final(self).width == old(self).width,
            final(self).rgb_type == old(self).rgb_type,
            final(self).max_val == old(self).max_val,
    {
        let n = self.pixels.len();
        let mut i: usize = 0;
        while i < n
            invariant
                0 <= i <= n,
                self.pixels@.len() == n,
                n == old(self).pixels@.len(),
                forall|k: int|
                    0 <= k < i ==> self.pixels@[k] == spec_invert_pixel(old(self).pixels@[k]),
                forall|k: int| i <= k < n ==> self.pixels@[k] == old(self).pixels@[k],
                self.heigth == old(self).heigth,
                self.width == old(self).width,
                self.rgb_type == old(self).rgb_type,
                self.max_val == old(self).max_val,
            decreases n - i,
        {
            let mut p = self.pixels[i];
            p.invert();
            self.pixels.set(i, p);
            i = i + 1;
        }
    }

    /// Turns every pixel of the image grey; the header fields stay.
    pub fn greyscale(&mut self)
        ensures
            final(self).pixels@.len() == old(self).pixels@.len(),
            forall|i: int|
                0 <= i < old(self).pixels@.len() ==> final(self).pixels@[i] == spec_greyscale_pixel(
                    old(self).pixels@[i],
                ),
            final(self).heigth == old(self).heigth,
            final(self).width == old(self).width,
            final(self).rgb_type == old(self).rgb_type,
            final(self).max_val == old(self).max_val,
    {
        let n = self.pixels.len();
        let mut i: usize = 0;
        while i < n
            invariant
                0 <= i <= n,
                self.pixels@.len() == n,
                n == old(self).pixels@.len(),
                forall|k: int|
                    0 <= k < i ==> self.pixels@[k] == spec_greyscale_pixel(old(self).pixels@[k]),
                forall|k: int| i <= k < n ==> self.pixels@[k] == old(self).pixels@[k],
                self.heigth == old(self).heigth,
                self.width == old(self).width,
                self.rgb_type == old(self).rgb_type,
                self.max_val == old(self).max_val,
            decreases n - i,
        {
            let mut p = self.pixels[i];
            p.greyscale();
            self.pixels.set(i, p);
            i = i + 1;
        }
    }

    /// Lays the image out as text, byte for byte as `spec_render` says.
    pub fn render(&self) -> (r: Vec<u8>)
        ensures
            r@ == spec_render(*self),
    {
        let mut out: Vec<u8> = Vec::new();
        let mut j: usize = 0;
        while j < self.rgb_type.len()
            invariant
                0 <= j <= self.rgb_type@.len(),
                out@ == self.rgb_type@.take(j as int),
            decreases self.rgb_type@.len() - j,
        {
            out.push(self.rgb_type[j]);
            j = j + 1;
            proof {
                assert(out@ =~= self.rgb_type@.take(j as int));
            }
        }
        proof {
            assert(self.rgb_type@.take(self.rgb_type@.len() as int) =~= self.rgb_type@);
        }
        out.push(10);
        push_decimal(&mut out, self.heigth);
        out.push(32);
        push_decimal(&mut out, self.width);
        out.push(10);
        push_decimal(&mut out, self.max_val as usize);
        out.push(10);
        let ghost head = out@;

        let n = self.pixels.len();
        let mut i: usize = 0;
        while i < n
            invariant
                0 <= i <= n,
                n == self.pixels@.len(),
                out@ == head + spec_pixel_lines(self.pixels@.take(i as int)),
            decreases n - i,
        {
            let p = self.pixels[i];
            push_decimal(&mut out, p.red as usize);
            out.push(32);
            push_decimal(&mut out, p.blue as usize);
            out.push(32);
            push_decimal(&mut out, p.green as usize);
            out.push(10);
            proof {
                lemma_pixel_lines_push(self.pixels@.take(i as int), self.pixels@[i as int]);
                assert(self.pixels@.take(i as int).push(self.pixels@[i as int]) =~= self.pixels@
                    .take(i as int + 1));
                assert(out@ =~= head + spec_pixel_lines(self.pixels@.take(i as int + 1)));
            }
            i = i + 1;
        }
        proof {
            assert(self.pixels@.take(n as int) =~= self.pixels@);
            assert(out@ =~= spec_render(*self));
        }
        out
    }
}

} // verus!
