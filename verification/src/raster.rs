//! Plaintext rasters and the row-major, channel-interleaved layout that both
//! the plaintext and the encrypted images share.

use vstd::prelude::*;

verus! {

/// Number of colour channels per pixel.
pub const CHANNELS: usize = 3;

/// Row-major index of the pixel at column `x`, row `y` of an image `width`
/// pixels wide.
pub open spec fn cell(width: int, x: int, y: int) -> int {
    y * width + x
}

/// Index of channel `c` of the pixel at column `x`, row `y`, in a row-major,
/// channel-interleaved buffer of an image `width` pixels wide.
pub open spec fn offset(width: int, x: int, y: int, c: int) -> int {
    (y * width + x) * 3 + c
}

/// Two pixels of a grid with the same index are the same pixel.
pub proof fn lemma_cell_injective(width: int, x1: int, y1: int, x2: int, y2: int)
    requires
        0 <= x1 < width,
        0 <= x2 < width,
        0 <= y1,
        0 <= y2,
        cell(width, x1, y1) == cell(width, x2, y2),
    ensures
        x1 == x2 && y1 == y2,
{
    lemma_offset_injective(width, x1, y1, 0, x2, y2, 0);
}

/// An offset inside a `width` by `height` grid lies inside its buffer.
pub proof fn lemma_offset_in_bounds(width: int, height: int, x: int, y: int, c: int)
    requires
        0 <= x < width,
        0 <= y < height,
        0 <= c < 3,
    ensures
        0 <= offset(width, x, y, c) < width * height * 3,
        0 <= y * width + x < width * height,
{
    assert(y * width + x < width * height) by (nonlinear_arith)
        requires
            0 <= x < width,
            0 <= y < height,
    ;
    assert(0 <= y * width + x) by (nonlinear_arith)
        requires
            0 <= x < width,
            0 <= y < height,
    ;
    assert((y * width + x) * 3 + 3 <= width * height * 3) by (nonlinear_arith)
        requires
            y * width + x < width * height,
    ;
}

/// Offsets grow with the row-major order of (row, column, channel).
pub proof fn lemma_offset_order(width: int, x1: int, y1: int, c1: int, x2: int, y2: int, c2: int)
    requires
        0 <= x1 < width,
        0 <= c1 < 3,
        0 <= x2,
        0 <= c2,
        0 <= y1,
        y1 < y2 || (y1 == y2 && (x1 < x2 || (x1 == x2 && c1 < c2))),
    ensures
        offset(width, x1, y1, c1) < offset(width, x2, y2, c2),
{
    if y1 < y2 {
        assert((y1 * width + x1) * 3 + c1 < (y2 * width + x2) * 3 + c2) by (nonlinear_arith)
            requires
                0 <= x1 < width,
                0 <= c1 < 3,
                0 <= x2,
                0 <= c2,
                0 <= y1 < y2,
        ;
    }
}

/// Two positions of a grid with the same offset are the same position.
pub proof fn lemma_offset_injective(width: int, x1: int, y1: int, c1: int, x2: int, y2: int, c2: int)
    requires
        0 <= x1 < width,
        0 <= x2 < width,
        0 <= c1 < 3,
        0 <= c2 < 3,
        0 <= y1,
        0 <= y2,
        offset(width, x1, y1, c1) == offset(width, x2, y2, c2),
    ensures
        x1 == x2 && y1 == y2 && c1 == c2,
{
    if y1 < y2 || (y1 == y2 && (x1 < x2 || (x1 == x2 && c1 < c2))) {
        lemma_offset_order(width, x1, y1, c1, x2, y2, c2);
    } else if y2 < y1 || (y2 == y1 && (x2 < x1 || (x2 == x1 && c2 < c1))) {
        lemma_offset_order(width, x2, y2, c2, x1, y1, c1);
    }
}

/// Every index of a grid's buffer is the offset of one position of the grid.
pub proof fn lemma_offset_decompose(width: int, height: int, k: int)
    requires
        0 < width,
        0 <= k < width * height * 3,
    ensures
        0 <= (k / 3) % width < width,
        0 <= (k / 3) / width < height,
        0 <= k % 3 < 3,
        offset(width, (k / 3) % width, (k / 3) / width, k % 3) == k,
{
    let p = k / 3;
    assert(0 <= p < width * height) by (nonlinear_arith)
        requires
            0 <= k < width * height * 3,
            p == k / 3,
    ;
    vstd::arithmetic::div_mod::lemma_fundamental_div_mod(p, width);
    vstd::arithmetic::div_mod::lemma_mod_bound(p, width);
    assert(p == width * (p / width) + p % width);
    assert(0 <= p / width < height) by (nonlinear_arith)
        requires
            0 <= p < width * height,
            0 < width,
            p == width * (p / width) + p % width,
            0 <= p % width < width,
    ;
    assert((p / width) * width + p % width == p) by (nonlinear_arith)
        requires
            p == width * (p / width) + p % width,
    ;
}

/// A plaintext image: a row-major grid of pixels with three 8-bit channels.
pub struct PlainImage {
    pub width: u32,
    pub height: u32,
    pub pixels: Vec<u8>,
}

impl PlainImage {
    /// The buffer holds exactly three channels for every pixel of the grid.
    pub open spec fn wf(&self) -> bool {
        self.pixels.len() == self.width as int * self.height as int * 3
    }

    /// Channel `c` of the pixel at column `x`, row `y`.
    pub open spec fn channel(&self, x: int, y: int, c: int) -> u8 {
        self.pixels@[offset(self.width as int, x, y, c)]
    }

    /// Builds an image from its buffer, if the buffer has the length that the
    /// dimensions ask for.
    pub fn new(width: u32, height: u32, pixels: Vec<u8>) -> (r: Option<PlainImage>)
        ensures
            r.is_some() <==> pixels@.len() == width as int * height as int * 3,
            r.is_some() ==> r.unwrap().wf() && r.unwrap().width == width && r.unwrap().height
                == height && r.unwrap().pixels@ == pixels@,
    {
        assert(width as int * height as int <= 0xffff_ffff * 0xffff_ffff) by (nonlinear_arith)
            requires
                0 <= width <= 0xffff_ffff,
                0 <= height <= 0xffff_ffff,
        ;
        let cells: u64 = width as u64 * height as u64;
        if pixels.len() % 3 == 0 && (pixels.len() / 3) as u64 == cells {
            Some(PlainImage { width, height, pixels })
        } else {
            None
        }
    }

    /// Index in the buffer of the first channel of the pixel at (`x`, `y`).
    pub fn pixel_offset(&self, x: u32, y: u32) -> (r: usize)
        requires
            self.wf(),
            x < self.width,
            y < self.height,
        ensures
            r as int == offset(self.width as int, x as int, y as int, 0),
            r + 3 <= self.pixels@.len(),
    {
        proof {
            lemma_offset_in_bounds(self.width as int, self.height as int, x as int, y as int, 2);
            assert(0 <= y as int * self.width as int) by (nonlinear_arith)
                requires
                    0 <= y,
                    0 <= self.width,
            ;
        }
        let row: usize = y as usize * self.width as usize;
        (row + x as usize) * 3
    }

    /// The three channels of the pixel at (`x`, `y`).
    pub fn get_pixel(&self, x: u32, y: u32) -> (r: [u8; 3])
        requires
            self.wf(),
            x < self.width,
            y < self.height,
        ensures
            forall|c: int| 0 <= c < 3 ==> r[c] == #[trigger] self.channel(x as int, y as int, c),
    {
        let base = self.pixel_offset(x, y);
        [self.pixels[base], self.pixels[base + 1], self.pixels[base + 2]]
    }
}

} // verus!
