//! The image buffer: a dense row-major grid of colours with explicit
//! width and height.

use vstd::prelude::*;
use crate::colour::Rgb;

verus! {

/// A 2-D grid of colours with width `W >= 0` and height `H >= 0`, indexed
/// `(x, y)` with `x` the column and `y` the row, stored row-major: pixel
/// `(x, y)` sits at position `y * W + x`.
pub struct ImageBuf {
    width: usize,
    height: usize,
    pixels: Vec<Rgb>,
}

impl View for ImageBuf {
    type V = Seq<Rgb>;

    closed spec fn view(&self) -> Seq<Rgb> {
        self.pixels@
    }
}

/// A pixel `(x, y)` with `x < w` and `y < h` sits at a valid row-major
/// position of a `w * h` buffer.
pub proof fn lemma_row_major_index(w: int, h: int, x: int, y: int)
    requires
        0 <= x < w,
        0 <= y < h,
    ensures
        0 <= y * w + x < w * h,
{
    assert(y * w + x < w * h) by (nonlinear_arith)
        requires
            0 <= x < w,
            0 <= y < h,
    ;
    assert(y * w >= 0) by (nonlinear_arith)
        requires
            y >= 0,
            w > 0,
    ;
}

impl ImageBuf {
    /// The number of columns.
    pub closed spec fn spec_width(&self) -> usize {
        self.width
    }

    /// The number of rows.
    pub closed spec fn spec_height(&self) -> usize {
        self.height
    }

    /// Well-formedness: the pixel store holds exactly `width * height`
    /// entries. Constructors establish it and every method preserves it.
    pub open spec fn wf(&self) -> bool {
        self@.len() == self.spec_width() * self.spec_height()
    }

    /// The row-major position of the pixel `(x, y)`.
    pub open spec fn spec_idx(&self, x: int, y: int) -> int {
        y * self.spec_width() + x
    }

    /// Builds an image buffer over the given row-major pixel store.
    pub fn new(width: usize, height: usize, pixels: Vec<Rgb>) -> (img: ImageBuf)
        requires
            pixels@.len() == width * height,
        ensures
            img.wf(),
            img.spec_width() == width,
            img.spec_height() == height,
            img@ == pixels@,
    {
        ImageBuf { width, height, pixels }
    }

    /// The number of columns.
    pub fn width(&self) -> (w: usize)
        ensures
            w == self.spec_width(),
    {
        self.width
    }

    /// The number of rows.
    pub fn height(&self) -> (h: usize)
        ensures
            h == self.spec_height(),
    {
        self.height
    }

    /// The pixel at row-major position `i`.
    pub fn get_at(&self, i: usize) -> (c: Rgb)
        requires
            i < self@.len(),
        ensures
            c == self@[i as int],
    {
        self.pixels[i]
    }

    /// Replaces the pixel at row-major position `i`.
    pub fn set_at(&mut self, i: usize, c: Rgb)
        requires
            old(self).wf(),
            i < old(self)@.len(),
        ensures
            final(self).wf(),
            final(self).spec_width() == old(self).spec_width(),
            final(self).spec_height() == old(self).spec_height(),
            final(self)@ == old(self)@.update(i as int, c),
    {
        self.pixels.set(i, c);
    }

    /// The number of pixels: `width * height`.
    pub fn pixel_count(&self) -> (n: usize)
        ensures
            n == self@.len(),
    {
        self.pixels.len()
    }

    /// The pixel at `(x, y)`.
    pub fn get_pixel(&self, x: usize, y: usize) -> (c: Rgb)
        requires
            self.wf(),
            x < self.spec_width(),
            y < self.spec_height(),
        ensures
            c == self@[self.spec_idx(x as int, y as int)],
    {
        let n = self.pixels.len();
        proof {
            lemma_row_major_index(
                self.spec_width() as int,
                self.spec_height() as int,
                x as int,
                y as int,
            );
        }
        self.pixels[y * self.width + x]
    }

    /// Replaces the pixel at `(x, y)`.
    pub fn set_pixel(&mut self, x: usize, y: usize, c: Rgb)
        requires
            old(self).wf(),
            x < old(self).spec_width(),
            y < old(self).spec_height(),
        ensures
            final(self).wf(),
            final(self).spec_width() == old(self).spec_width(),
            final(self).spec_height() == old(self).spec_height(),
            final(self)@ == old(self)@.update(old(self).spec_idx(x as int, y as int), c),
    {
        let n = self.pixels.len();
        proof {
            lemma_row_major_index(
                self.spec_width() as int,
                self.spec_height() as int,
                x as int,
                y as int,
            );
        }
        self.pixels.set(y * self.width + x, c);
    }

    /// A copy of this buffer: same dimensions, same pixels.
    pub fn duplicate(&self) -> (img: ImageBuf)
        requires
            self.wf(),
        ensures
            img.wf(),
            img.spec_width() == self.spec_width(),
            img.spec_height() == self.spec_height(),
            img@ == self@,
    {
        let n = self.pixels.len();
        let mut pixels: Vec<Rgb> = Vec::new();
        let mut i: usize = 0;
        while i < n
            invariant
                n == self@.len(),
                0 <= i <= n,
                pixels@ == self@.take(i as int),
            decreases n - i,
        {
            pixels.push(self.pixels[i]);
            proof {
                assert(pixels@ =~= self@.take(i + 1 as int));
            }
            i += 1;
        }
        proof {
            assert(self@.take(n as int) =~= self@);
        }
        ImageBuf { width: self.width, height: self.height, pixels }
    }

    /// The pixels, row-major.
    pub fn pixels(&self) -> (ps: &[Rgb])
        ensures
            ps@ == self@,
    {
        self.pixels.as_slice()
    }
}

} // verus!
