//! A grid of display-encoded colors kept in an `image::RgbImage`: the image
//! that a render fills from the colors its tiles produced, and the decoded
//! texture that a surface reads its color from.

use vstd::prelude::*;
use vstd::arithmetic::div_mod::{lemma_fundamental_div_mod, lemma_fundamental_div_mod_converse};
use image::{Rgb, RgbImage};
use crate::pixels::Rgb8;

verus! {

/// An `image::RgbImage` whose buffer holds the samples of its pixels and
/// nothing more. Its contents are hidden from the verifier: what a raster
/// holds is named by `raster_size` and `raster_pixels`, and only the
/// trusted functions below touch the image itself.
#[verifier::external_body]
#[derive(Debug)]
pub struct Raster {
    image: RgbImage,
}

/// Width and height of a raster, in this order.
pub uninterp spec fn raster_size(raster: Raster) -> (u32, u32);

/// The pixels of a raster, row by row from the top, each row from the left:
/// `width * height` of them.
pub uninterp spec fn raster_pixels(raster: Raster) -> Seq<Rgb8>;

/// The color that a fresh raster shows everywhere.
pub open spec fn black() -> Rgb8 {
    Rgb8 { red: 0, green: 0, blue: 0 }
}

/// One rendered pixel: its row, its column and its display-encoded color.
pub type Sample = (usize, usize, Rgb8);

/// The color that the pixel at (`row`, `col`) shows once `samples` have been
/// written in order: that of the last sample for this pixel, black if there
/// is none.
pub open spec fn shown(samples: Seq<Sample>, row: int, col: int) -> Rgb8
    decreases samples.len(),
{
    if samples.len() == 0 {
        black()
    } else if samples.last().0 == row && samples.last().1 == col {
        samples.last().2
    } else {
        shown(samples.drop_last(), row, col)
    }
}

/// The pixels of a raster `width` wide and `height` high on which `samples`
/// have been written in order.
pub open spec fn composed(width: int, height: int, samples: Seq<Sample>) -> Seq<Rgb8> {
    Seq::new((width * height) as nat, |i: int| shown(samples, i / width, i % width))
}

/// Pixels as bytes: three for each pixel, red, green, blue.
pub open spec fn samples_of(pixels: Seq<Rgb8>) -> Seq<u8> {
    Seq::new(
        3 * pixels.len(),
        |i: int|
            if i % 3 == 0 {
                pixels[i / 3].red
            } else if i % 3 == 1 {
                pixels[i / 3].green
            } else {
                pixels[i / 3].blue
            },
    )
}

/// Bytes as pixels: each run of three bytes is one pixel.
pub open spec fn pixels_of(raw: Seq<u8>) -> Seq<Rgb8> {
    Seq::new(
        raw.len() / 3,
        |i: int| Rgb8 { red: raw[3 * i], green: raw[3 * i + 1], blue: raw[3 * i + 2] },
    )
}

impl Raster {
    /// `ImageBuffer::new`: an image of the given size with every sample
    /// zero. It panics when the number of samples, three per pixel, does not
    /// fit in `usize`, be it for one row or for all, which `requires` leaves
    /// out.
    #[verifier::external_body]
    fn image_new(width: u32, height: u32) -> (raster: Raster)
        requires
            3 * width <= usize::MAX,
            3 * width * height <= usize::MAX,
        ensures
            raster_size(raster) == (width, height),
            raster_pixels(raster) == Seq::new((width * height) as nat, |i: int| black()),
    {
        Raster { image: RgbImage::new(width, height) }
    }

    /// `ImageBuffer::from_raw`: an image of the given size over the buffer
    /// `raw`, which the function accepts when the number of samples, three
    /// per pixel, fits in `usize`, for one row and for all, and `raw` holds
    /// at least as many. Asked for here with exactly that many, it succeeds,
    /// and the pixels are the runs of three samples in order.
    #[verifier::external_body]
    fn image_from_raw(width: u32, height: u32, raw: Vec<u8>) -> (r: Option<Raster>)
        requires
            3 * width <= usize::MAX,
            raw@.len() == 3 * width * height,
        ensures
            r is Some,
            raster_size(r->0) == (width, height),
            raster_pixels(r->0) == pixels_of(raw@),
    {
        match RgbImage::from_raw(width, height, raw) {
            Some(image) => Some(Raster { image }),
            None => None,
        }
    }

    /// `ImageBuffer::put_pixel`: replaces the pixel in column `x` of row `y`
    /// and no other. It panics when `x` or `y` lies outside the image, which
    /// `requires` leaves out.
    #[verifier::external_body]
    fn image_put_pixel(&mut self, x: u32, y: u32, color: Rgb8)
        requires
            x < raster_size(*old(self)).0,
            y < raster_size(*old(self)).1,
        ensures
            raster_size(*final(self)) == raster_size(*old(self)),
            raster_pixels(*final(self)) == raster_pixels(*old(self)).update(
                y * raster_size(*old(self)).0 + x,
                color,
            ),
    {
        self.image.put_pixel(x, y, Rgb([color.red, color.green, color.blue]))
    }

    /// `ImageBuffer::get_pixel`: the pixel in column `x` of row `y`. It
    /// panics when `x` or `y` lies outside the image, which `requires`
    /// leaves out.
    #[verifier::external_body]
    fn image_get_pixel(&self, x: u32, y: u32) -> (color: Rgb8)
        requires
            x < raster_size(*self).0,
            y < raster_size(*self).1,
        ensures
            color == raster_pixels(*self)[y * raster_size(*self).0 + x],
    {
        let pixel = self.image.get_pixel(x, y);
        Rgb8 { red: pixel.0[0], green: pixel.0[1], blue: pixel.0[2] }
    }

    /// `ImageBuffer::dimensions`: the width and the height of the image.
    #[verifier::external_body]
    fn image_dimensions(&self) -> (size: (u32, u32))
        ensures
            size == raster_size(*self),
    {
        self.image.dimensions()
    }

    /// `ImageBuffer::into_raw`: the buffer behind the image, which for a
    /// raster holds the samples of its pixels, row by row, three for each
    /// pixel.
    #[verifier::external_body]
    fn image_into_raw(self) -> (raw: Vec<u8>)
        ensures
            raw@ == samples_of(raster_pixels(self)),
    {
        self.image.into_raw()
    }

    /// The raster whose pixels are the runs of three bytes of `raw`, if
    /// `raw` holds exactly `width * height` of them and the bytes of one row
    /// can be counted in `usize`; otherwise none.
    pub fn from_raw(width: u32, height: u32, raw: Vec<u8>) -> (r: Option<Raster>)
        ensures
            r is Some <==> raw@.len() == 3 * width * height && 3 * width <= usize::MAX,
            r is Some ==> raster_size(r->0) == (width, height) && raster_pixels(r->0) == pixels_of(
                raw@,
            ),
    {
        assert(3 * width * height == 3 * (width * height)) by (nonlinear_arith);
        assert(width * height <= 0xffff_ffff * 0xffff_ffff) by (nonlinear_arith)
            requires
                0 <= width <= 0xffff_ffff,
                0 <= height <= 0xffff_ffff,
        ;
        let wanted: u128 = 3 * ((width as u128) * (height as u128));
        let row: u128 = 3 * (width as u128);
        if raw.len() as u128 == wanted && row <= usize::MAX as u128 {
            Raster::image_from_raw(width, height, raw)
        } else {
            None
        }
    }

    /// A raster `width` wide and `height` high that shows `samples`,
    /// written in order on black: each pixel has the color of the last
    /// sample that names it.
    pub fn compose(width: usize, height: usize, samples: &Vec<Sample>) -> (raster: Raster)
        requires
            width <= u32::MAX,
            height <= u32::MAX,
            3 * width <= usize::MAX,
            3 * width * height <= usize::MAX,
            forall|i: int|
                0 <= i < samples@.len() ==> (#[trigger] samples@[i]).0 < height && samples@[i].1
                    < width,
        ensures
            raster_size(raster) == (width as u32, height as u32),
            raster_pixels(raster) == composed(width as int, height as int, samples@),
    {
        let mut raster = Raster::image_new(width as u32, height as u32);
        let mut n: usize = 0;
        assert(raster_pixels(raster) =~= composed(
            width as int,
            height as int,
            samples@.take(0),
        ));
        while n < samples.len()
            invariant
                n <= samples@.len(),
                width <= u32::MAX,
                height <= u32::MAX,
                raster_size(raster) == (width as u32, height as u32),
                forall|i: int|
                    0 <= i < samples@.len() ==> (#[trigger] samples@[i]).0 < height
                        && samples@[i].1 < width,
                raster_pixels(raster) == composed(
                    width as int,
                    height as int,
                    samples@.take(n as int),
                ),
            decreases samples@.len() - n,
        {
            let (row, col, color) = samples[n];
            proof {
                lemma_composed_push(
                    width as int,
                    height as int,
                    samples@.take(n as int),
                    samples@[n as int],
                );
                assert(samples@.take(n as int).push(samples@[n as int]) =~= samples@.take(
                    n as int + 1,
                ));
            }
            raster.image_put_pixel(col as u32, row as u32, color);
            n = n + 1;
        }
        assert(samples@.take(n as int) =~= samples@);
        raster
    }

    /// The color in column `x` of row `y`.
    pub fn pixel(&self, x: u32, y: u32) -> (color: Rgb8)
        requires
            x < raster_size(*self).0,
            y < raster_size(*self).1,
        ensures
            color == raster_pixels(*self)[y * raster_size(*self).0 + x],
    {
        self.image_get_pixel(x, y)
    }

    /// Width and height of the raster, in this order.
    pub fn dimensions(&self) -> (size: (u32, u32))
        ensures
            size == raster_size(*self),
    {
        self.image_dimensions()
    }

    /// The pixels of the raster as bytes, row by row, three for each pixel.
    pub fn into_raw(self) -> (raw: Vec<u8>)
        ensures
            raw@ == samples_of(raster_pixels(self)),
    {
        self.image_into_raw()
    }
}

/// Writing one more sample changes the pixel that it names and no other.
pub proof fn lemma_composed_push(width: int, height: int, samples: Seq<Sample>, next: Sample)
    requires
        0 <= next.0 < height,
        0 <= next.1 < width,
    ensures
        composed(width, height, samples.push(next)) == composed(width, height, samples).update(
            next.0 * width + next.1,
            next.2,
        ),
        0 <= next.0 * width + next.1 < width * height,
{
    let row = next.0 as int;
    let col = next.1 as int;
    let target = row * width + col;
    assert(0 <= row * width && row * width + width <= height * width && width * height == height
        * width) by (nonlinear_arith)
        requires
            0 <= row < height,
            0 < width,
    ;
    let after = composed(width, height, samples.push(next));
    let before = composed(width, height, samples).update(target, next.2);
    assert(samples.push(next).drop_last() =~= samples);
    assert forall|i: int| 0 <= i < width * height implies after[i] == before[i] by {
        if i == target {
            lemma_fundamental_div_mod_converse(i, width, row, col);
        } else {
            lemma_fundamental_div_mod(i, width);
            assert((i / width) * width == width * (i / width)) by (nonlinear_arith);
        }
    }
    assert(after =~= before);
}

/// Bytes and pixels are two readings of one buffer: cutting bytes into
/// pixels and spelling the pixels out again gives the bytes back, when
/// their number is a multiple of three; and the other way round always.
pub proof fn lemma_samples_round_trip(raw: Seq<u8>, pixels: Seq<Rgb8>)
    ensures
        raw.len() % 3 == 0 ==> samples_of(pixels_of(raw)) == raw,
        pixels_of(samples_of(pixels)) == pixels,
{
    if raw.len() % 3 == 0 {
        assert(samples_of(pixels_of(raw)) =~= raw);
    }
    assert(pixels_of(samples_of(pixels)) =~= pixels);
}

/// Samples that name different pixels can be written in any order: each of
/// them is shown at its own pixel, and a pixel that none of them names
/// stays black.
pub proof fn lemma_shown_disjoint(samples: Seq<Sample>, row: int, col: int)
    requires
        forall|i: int, j: int|
            0 <= i < j < samples.len() ==> !(samples[i].0 == samples[j].0 && samples[i].1
                == samples[j].1),
    ensures
        forall|i: int|
            0 <= i < samples.len() && (#[trigger] samples[i]).0 == row && samples[i].1 == col
                ==> shown(samples, row, col) == samples[i].2,
        (forall|i: int|
            0 <= i < samples.len() ==> !((#[trigger] samples[i]).0 == row && samples[i].1 == col))
            ==> shown(samples, row, col) == black(),
    decreases samples.len(),
{
    if samples.len() > 0 {
        let rest = samples.drop_last();
        assert(forall|i: int| 0 <= i < rest.len() ==> rest[i] == samples[i]);
        lemma_shown_disjoint(rest, row, col);
        let last = samples.len() - 1;
        assert(samples.last() == samples[last]);
        assert forall|i: int|
            0 <= i < samples.len() && (#[trigger] samples[i]).0 == row && samples[i].1
                == col implies shown(samples, row, col) == samples[i].2 by {
            if i < last {
                assert(rest[i] == samples[i]);
            }
        }
    }
}

/// Where every sample for a pixel carries one color, and there is such a
/// sample, the pixel shows that color, in whatever order and however often
/// the samples were written.
pub proof fn lemma_shown_agreeing(samples: Seq<Sample>, row: int, col: int, color: Rgb8)
    requires
        forall|i: int|
            0 <= i < samples.len() && (#[trigger] samples[i]).0 == row && samples[i].1 == col
                ==> samples[i].2 == color,
        exists|i: int|
            0 <= i < samples.len() && (#[trigger] samples[i]).0 == row && samples[i].1 == col,
    ensures
        shown(samples, row, col) == color,
    decreases samples.len(),
{
    let last = samples.len() - 1;
    assert(samples.last() == samples[last]);
    if !(samples[last].0 == row && samples[last].1 == col) {
        let rest = samples.drop_last();
        let i = choose|i: int|
            0 <= i < samples.len() && (#[trigger] samples[i]).0 == row && samples[i].1 == col;
        assert(rest[i] == samples[i]);
        assert(forall|j: int| 0 <= j < rest.len() ==> rest[j] == samples[j]);
        lemma_shown_agreeing(rest, row, col, color);
    }
}

} // verus!
