//! A frame buffer of 8-bit RGB triples stored row by row.

use vstd::prelude::*;

verus! {

/// Number of bytes that one pixel occupies.
pub const DEPTH: usize = 3;

/// A display-encoded color: one byte per channel.
#[derive(Debug, Clone, Copy, PartialEq, Eq, Structural)]
pub struct Rgb8 {
    pub red: u8,
    pub green: u8,
    pub blue: u8,
}

/// A `width` x `height` image held as `width * height * 3` bytes: rows from
/// top to bottom, pixels from left to right, channels red, green, blue.
#[derive(Debug, PartialEq, Eq)]
pub struct Pixels {
    pub width: usize,
    pub height: usize,
    pixels: Vec<u8>,
}

/// What a `Pixels` value stands for: its dimensions and its bytes.
pub struct Frame {
    pub width: nat,
    pub height: nat,
    pub bytes: Seq<u8>,
}

impl Frame {
    /// The buffer holds exactly the bytes of `width * height` pixels.
    pub open spec fn wf(self) -> bool {
        self.bytes.len() == self.width * self.height * 3
    }

    /// Index of the first byte of the pixel at (`row`, `col`).
    pub open spec fn offset(self, row: int, col: int) -> int {
        (self.width * row + col) * 3
    }

    /// The pixel at (`row`, `col`) lies inside the buffer.
    pub open spec fn holds(self, row: int, col: int) -> bool {
        0 <= self.offset(row, col) && self.offset(row, col) + 2 < self.bytes.len()
    }

    /// The color stored at (`row`, `col`).
    pub open spec fn color_at(self, row: int, col: int) -> Rgb8 {
        let offset = self.offset(row, col);
        Rgb8 {
            red: self.bytes[offset],
            green: self.bytes[offset + 1],
            blue: self.bytes[offset + 2],
        }
    }

    /// The frame after `color` has been written at (`row`, `col`).
    pub open spec fn with_color(self, row: int, col: int, color: Rgb8) -> Frame {
        let offset = self.offset(row, col);
        Frame {
            bytes: self.bytes.update(offset, color.red).update(offset + 1, color.green).update(
                offset + 2,
                color.blue,
            ),
            ..self
        }
    }

    /// The black frame of the given size.
    pub open spec fn black(width: nat, height: nat) -> Frame {
        Frame { width, height, bytes: Seq::new(width * height * 3, |i: int| 0u8) }
    }
}

impl View for Pixels {
    type V = Frame;

    closed spec fn view(&self) -> Frame {
        Frame { width: self.width as nat, height: self.height as nat, bytes: self.pixels@ }
    }
}

impl Pixels {
    /// A black image of the given size.
    pub fn new(width: usize, height: usize) -> (r: Pixels)
        requires
            width * height * 3 <= usize::MAX,
        ensures
            r@ == Frame::black(width as nat, height as nat),
            r@.wf(),
    {
        assert(width * height <= width * height * 3) by (nonlinear_arith);
        let len: usize = width * height * DEPTH;
        let pixels: Vec<u8> = vec![0u8; len];
        assert(pixels@ =~= Seq::new((width * height * 3) as nat, |i: int| 0u8));
        Pixels { width, height, pixels }
    }

    /// Stores `color` at (`row`, `col`) and leaves every other byte as it was.
    pub fn set_color(&mut self, row: usize, col: usize, color: Rgb8)
        requires
            old(self)@.holds(row as int, col as int),
        ensures
            final(self)@ == old(self)@.with_color(row as int, col as int, color),
    {
        proof {
            let w = self.width as int;
            let r = row as int;
            assert(0 <= w * r) by (nonlinear_arith)
                requires
                    0 <= w,
                    0 <= r,
            ;
            assert(self.pixels@.len() == self.pixels.len());
        }
        let offset: usize = (self.width * row + col) * DEPTH;
        self.pixels[offset] = color.red;
        self.pixels[offset + 1] = color.green;
        self.pixels[offset + 2] = color.blue;
    }

    /// The stored bytes, in storage order.
    pub fn bytes(&self) -> (r: &Vec<u8>)
        ensures
            r@ == self@.bytes,
    {
        &self.pixels
    }

    /// Number of pixels in a row.
    pub fn width(&self) -> (r: usize)
        ensures
            r == self@.width,
    {
        self.width
    }

    /// Number of rows.
    pub fn height(&self) -> (r: usize)
        ensures
            r == self@.height,
    {
        self.height
    }
}

/// Two pixels of one image lie three bytes apart or more, and each inside
/// the buffer.
pub proof fn lemma_offsets(frame: Frame, row: int, col: int, other_row: int, other_col: int)
    requires
        frame.wf(),
        0 <= row < frame.height,
        0 <= col < frame.width,
        0 <= other_row < frame.height,
        0 <= other_col < frame.width,
    ensures
        frame.holds(row, col),
        (row, col) != (other_row, other_col) ==> frame.offset(row, col) + 3 <= frame.offset(
            other_row,
            other_col,
        ) || frame.offset(other_row, other_col) + 3 <= frame.offset(row, col),
{
    let w = frame.width as int;
    let h = frame.height as int;
    assert(0 <= w * row && w * row + w <= w * h) by (nonlinear_arith)
        requires
            0 <= row < h,
            0 < w,
    ;
    if row < other_row {
        assert(w * row + w <= w * other_row) by (nonlinear_arith)
            requires
                row + 1 <= other_row,
                0 < w,
        ;
    }
    if other_row < row {
        assert(w * other_row + w <= w * row) by (nonlinear_arith)
            requires
                other_row + 1 <= row,
                0 < w,
        ;
    }
}

/// Writing a pixel of a well-formed frame sets the color of that pixel,
/// keeps the color of every other pixel, and leaves the frame well formed.
pub proof fn lemma_with_color(
    frame: Frame,
    row: int,
    col: int,
    color: Rgb8,
    other_row: int,
    other_col: int,
)
    requires
        frame.wf(),
        0 <= row < frame.height,
        0 <= col < frame.width,
        0 <= other_row < frame.height,
        0 <= other_col < frame.width,
    ensures
        frame.with_color(row, col, color).wf(),
        frame.with_color(row, col, color).color_at(row, col) == color,
        (row, col) != (other_row, other_col) ==> frame.with_color(row, col, color).color_at(
            other_row,
            other_col,
        ) == frame.color_at(other_row, other_col),
{
    lemma_offsets(frame, row, col, other_row, other_col);
    lemma_offsets(frame, other_row, other_col, row, col);
}

/// Every pixel of a black frame is black.
pub proof fn lemma_black(width: nat, height: nat, row: int, col: int)
    requires
        0 <= row < height,
        0 <= col < width,
    ensures
        Frame::black(width, height).wf(),
        Frame::black(width, height).color_at(row, col) == (Rgb8 { red: 0, green: 0, blue: 0 }),
{
    lemma_offsets(Frame::black(width, height), row, col, row, col);
}

} // verus!
