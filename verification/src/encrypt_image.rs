//! Blockwise encryption of a plaintext image and reassembly of the encrypted
//! blocks into one encrypted image.

use vstd::prelude::*;
use tfhe::shortint::ClientKey;
use crate::components::lemma_cell_place;
use crate::error::PipelineError;
use crate::channel::{
    ciphertext_of, clone_byte, decrypted, encrypt, encrypts_value, lemma_round_trip, EncryptedByte,
};
use crate::fhe::sound_key;
use crate::raster::{
    cell, offset, PlainImage, lemma_cell_injective, lemma_offset_decompose, lemma_offset_in_bounds,
    lemma_offset_injective, lemma_offset_order,
};
use crate::tiling::{
    clip_extent, clipped_extent, is_origin_grid, tile_count, tile_origins, lemma_covering_tile,
    lemma_tile_count, lemma_tile_index, lemma_tile_inside, lemma_tile_of, lemma_tile_place,
};
pub use crate::fhe::create_keys;

verus! {

/// An encrypted tile of an image. It records where it lies in the image, so
/// that tiles can be put together again in any order.
#[derive(Clone)]
pub struct EncryptedBlock {
    pub x: u32,
    pub y: u32,
    pub width: u32,
    pub height: u32,
    pub data: Vec<EncryptedByte>,
}

impl EncryptedBlock {
    /// The block holds three ciphertexts for each of its pixels.
    pub open spec fn wf(&self) -> bool {
        self.data.len() == self.width as int * self.height as int * 3
    }

    /// The pixel at column `px`, row `py` of the image lies in this block.
    pub open spec fn covers(&self, px: int, py: int) -> bool {
        self.x <= px < self.x + self.width && self.y <= py < self.y + self.height
    }

    /// The block lies inside an image of the given size.
    pub open spec fn inside(&self, width: int, height: int) -> bool {
        self.x + self.width <= width && self.y + self.height <= height
    }

    /// Every ciphertext of the block encrypts, under `key`, the channel of
    /// `img` that lies at its place.
    pub open spec fn encrypts(&self, key: ClientKey, img: &PlainImage) -> bool {
        &&& self.wf()
        &&& self.inside(img.width as int, img.height as int)
        &&& forall|i: int, j: int, c: int|
            0 <= i < self.width && 0 <= j < self.height && 0 <= c < 3 ==> encrypts_value(
                key,
                self.data@[#[trigger] offset(self.width as int, i, j, c)],
                img.channel(self.x + i, self.y + j, c) ,
            )
    }
}

/// An encrypted image: one ciphertext for each channel of each pixel, row by
/// row, the three channels of a pixel next to each other.
pub struct EncryptedImage {
    pub width: u32,
    pub height: u32,
    pub data: Vec<EncryptedByte>,
}

impl EncryptedImage {
    /// The image holds three ciphertexts for each of its pixels.
    pub open spec fn wf(&self) -> bool {
        self.data.len() == self.width as int * self.height as int * 3
    }

    /// Every ciphertext of the image is a ciphertext of `key`.
    pub open spec fn under(&self, key: ClientKey) -> bool {
        forall|k: int| 0 <= k < self.data@.len() ==> ciphertext_of(key, #[trigger] self.data@[k])
    }
}

/// `block` is the tile in column `tx`, row `ty` of the tiling of a `width` by
/// `height` image with tiles of size `tile`.
pub open spec fn is_tile(block: EncryptedBlock, tx: int, ty: int, width: int, height: int, tile: int) -> bool {
    &&& block.x == tx * tile
    &&& block.y == ty * tile
    &&& block.width == clipped_extent(tx * tile, tile, width)
    &&& block.height == clipped_extent(ty * tile, tile, height)
}

/// `blocks` are the tiles of a `width` by `height` image, row by row, each row
/// from left to right.
pub open spec fn is_tiling(blocks: Seq<EncryptedBlock>, width: int, height: int, tile: int) -> bool {
    let cols = tile_count(width, tile);
    let rows = tile_count(height, tile);
    &&& blocks.len() == cols * rows
    &&& forall|n: int|
        0 <= n < blocks.len() ==> is_tile(#[trigger] blocks[n], n % cols, n / cols, width, height, tile)
}

/// Some block holds the pixel at (`px`, `py`).
pub open spec fn covered(blocks: Seq<EncryptedBlock>, px: int, py: int) -> bool {
    exists|n: int| 0 <= n < blocks.len() && #[trigger] blocks[n].covers(px, py)
}

/// No block reaches outside a `width` by `height` image.
pub open spec fn all_inside(blocks: Seq<EncryptedBlock>, width: int, height: int) -> bool {
    forall|n: int| 0 <= n < blocks.len() ==> (#[trigger] blocks[n]).inside(width, height)
}

/// Every pixel of a `width` by `height` image lies in some block.
pub open spec fn all_covered(blocks: Seq<EncryptedBlock>, width: int, height: int) -> bool {
    forall|px: int, py: int|
        0 <= px < width && 0 <= py < height ==> #[trigger] covered(blocks, px, py)
}

/// Blocks `n` and `m` are two blocks that hold the same pixel (`px`, `py`).
pub open spec fn clash(blocks: Seq<EncryptedBlock>, n: int, m: int, px: int, py: int) -> bool {
    &&& 0 <= n < blocks.len()
    &&& 0 <= m < blocks.len()
    &&& n != m
    &&& blocks[n].covers(px, py)
    &&& blocks[m].covers(px, py)
}

/// Some pixel lies in two blocks.
pub open spec fn overlapping(blocks: Seq<EncryptedBlock>) -> bool {
    exists|n: int, m: int, px: int, py: int| #[trigger] clash(blocks, n, m, px, py)
}

/// The rectangles of `blocks` cover a `width` by `height` image exactly:
/// none reaches outside, every pixel lies in one, and none in two.
pub open spec fn partitions(blocks: Seq<EncryptedBlock>, width: int, height: int) -> bool {
    &&& all_inside(blocks, width, height)
    &&& all_covered(blocks, width, height)
    &&& !overlapping(blocks)
}

/// The tiling of an image partitions it: the tiles cover the image exactly,
/// with no pixel left out and none held twice.
pub proof fn lemma_tiling_partitions(blocks: Seq<EncryptedBlock>, width: int, height: int, tile: int)
    requires
        0 <= width,
        0 <= height,
        0 < tile,
        is_tiling(blocks, width, height, tile),
    ensures
        partitions(blocks, width, height),
{
    let cols = tile_count(width, tile);
    let rows = tile_count(height, tile);
    lemma_tile_count(width, tile);
    lemma_tile_count(height, tile);
    assert forall|n: int| 0 <= n < blocks.len() implies (#[trigger] blocks[n]).inside(width, height)
        && 0 <= n % cols < cols && 0 <= n / cols < rows && n == (n / cols) * cols + n % cols by {
        lemma_tile_place(n, cols, rows);
        let tx = n % cols;
        let ty = n / cols;
        assert(is_tile(blocks[n], tx, ty, width, height, tile));
        lemma_tile_inside(tx, cols, width, tile);
        lemma_tile_inside(ty, rows, height, tile);
    }
    assert forall|px: int, py: int| 0 <= px < width && 0 <= py < height implies #[trigger] covered(
        blocks,
        px,
        py,
    ) by {
        let tx = px / tile;
        let ty = py / tile;
        lemma_tile_of(px, width, tile);
        lemma_tile_of(py, height, tile);
        let n = ty * cols + tx;
        assert(0 <= n < cols * rows && n % cols == tx && n / cols == ty) by {
            lemma_tile_index(tx, ty, cols, rows);
        }
        assert(is_tile(blocks[n], tx, ty, width, height, tile));
        assert(blocks[n].covers(px, py));
    }
    assert forall|n: int, m: int, px: int, py: int|
        0 <= n < blocks.len() && 0 <= m < blocks.len() && blocks[n].covers(px, py) && blocks[m].covers(
            px,
            py,
        ) implies n == m by {
        lemma_tile_place(n, cols, rows);
        lemma_tile_place(m, cols, rows);
        assert(is_tile(blocks[n], n % cols, n / cols, width, height, tile));
        assert(is_tile(blocks[m], m % cols, m / cols, width, height, tile));
        lemma_covering_tile(px, n % cols, width, tile);
        lemma_covering_tile(px, m % cols, width, tile);
        lemma_covering_tile(py, n / cols, height, tile);
        lemma_covering_tile(py, m / cols, height, tile);
    }
    assert forall|n: int, m: int, px: int, py: int| !#[trigger] clash(blocks, n, m, px, py) by {
        if clash(blocks, n, m, px, py) {
            assert(n == m);
        }
    }
}

/// Encrypts the tile of `img` whose top left corner is (`x`, `y`): every
/// channel of every pixel, row by row.
pub fn encrypt_block(img: &PlainImage, x: u32, y: u32, block_size: u32, client_key: &ClientKey) -> (block:
    EncryptedBlock)
    requires
        img.wf(),
        sound_key(*client_key),
        x < img.width,
        y < img.height,
        block_size > 0,
    ensures
        block.x == x,
        block.y == y,
        block.width as int == clipped_extent(x as int, block_size as int, img.width as int),
        block.height as int == clipped_extent(y as int, block_size as int, img.height as int),
        block.encrypts(*client_key, img),
{
    let w = clip_extent(x, block_size, img.width);
    let h = clip_extent(y, block_size, img.height);
    let mut data: Vec<EncryptedByte> = Vec::new();
    let mut j: u32 = 0;
    while j < h
        invariant
            img.wf(),
            sound_key(*client_key),
            0 <= j <= h,
            x + w <= img.width,
            y + h <= img.height,
            data.len() == offset(w as int, 0, j as int, 0),
            forall|i2: int, j2: int, c2: int|
                0 <= i2 < w && 0 <= j2 < j && 0 <= c2 < 3 ==> encrypts_value(
                    *client_key,
                    data@[#[trigger] offset(w as int, i2, j2, c2)],
                    img.channel(x + i2, y + j2, c2),
                ),
        decreases h - j,
    {
        let mut i: u32 = 0;
        while i < w
            invariant
                img.wf(),
                sound_key(*client_key),
                0 <= i <= w,
                0 <= j < h,
                x + w <= img.width,
                y + h <= img.height,
                data.len() == offset(w as int, i as int, j as int, 0),
                forall|i2: int, j2: int, c2: int|
                    0 <= i2 < w && 0 <= j2 < j && 0 <= c2 < 3 ==> encrypts_value(
                        *client_key,
                        data@[#[trigger] offset(w as int, i2, j2, c2)],
                        img.channel(x + i2, y + j2, c2),
                    ),
                forall|i2: int, c2: int|
                    0 <= i2 < i && 0 <= c2 < 3 ==> encrypts_value(
                        *client_key,
                        data@[#[trigger] offset(w as int, i2, j as int, c2)],
                        img.channel(x + i2, y + j, c2),
                    ),
            decreases w - i,
        {
            let base = img.pixel_offset(x + i, y + j);
            let ghost before = data@;
            data.push(encrypt(client_key, img.pixels[base]));
            data.push(encrypt(client_key, img.pixels[base + 1]));
            data.push(encrypt(client_key, img.pixels[base + 2]));
            proof {
                let here = offset(w as int, i as int, j as int, 0);
                assert(data@.len() == here + 3);
                assert(offset(w as int, i + 1, j as int, 0) == here + 3) by (nonlinear_arith)
                    requires
                        here == (j * w + i) * 3 + 0,
                        offset(w as int, i + 1, j as int, 0) == (j * w + (i + 1)) * 3 + 0,
                ;
                assert forall|i2: int, j2: int, c2: int|
                    0 <= i2 < w && 0 <= j2 < j && 0 <= c2 < 3 implies encrypts_value(
                    *client_key,
                    data@[#[trigger] offset(w as int, i2, j2, c2)],
                    img.channel(x + i2, y + j2, c2),
                ) by {
                    lemma_offset_order(w as int, i2, j2, c2, i as int, j as int, 0);
                    lemma_offset_in_bounds(w as int, h as int, i2, j2, c2);
                    assert(data@[offset(w as int, i2, j2, c2)] == before[offset(w as int, i2, j2, c2)]);
                }
                assert forall|i2: int, c2: int| 0 <= i2 < i + 1 && 0 <= c2 < 3 implies encrypts_value(
                    *client_key,
                    data@[#[trigger] offset(w as int, i2, j as int, c2)],
                    img.channel(x + i2, y + j, c2),
                ) by {
                    if i2 < i {
                        lemma_offset_order(w as int, i2, j as int, c2, i as int, j as int, 0);
                        lemma_offset_in_bounds(w as int, h as int, i2, j as int, c2);
                        assert(data@[offset(w as int, i2, j as int, c2)] == before[offset(
                            w as int,
                            i2,
                            j as int,
                            c2,
                        )]);
                    } else {
                        assert(offset(w as int, i2, j as int, c2) == here + c2);
                        assert(img.channel(x + i2, y + j, c2) == img.pixels@[base + c2]);
                    }
                }
            }
            i += 1;
        }
        proof {
            assert(offset(w as int, w as int, j as int, 0) == offset(w as int, 0, j + 1, 0))
                by (nonlinear_arith);
        }
        j += 1;
    }
    proof {
        assert(offset(w as int, 0, h as int, 0) == w as int * h as int * 3) by (nonlinear_arith);
    }
    EncryptedBlock { x, y, width: w, height: h, data }
}

/// Encrypts `img` tile by tile. The tiling starts at the top left corner and
/// advances by `block_size` along both axes; the tiles at the right and bottom
/// edges are clipped to the image. A tile size of zero is refused before any
/// work is done.
pub fn encrypt_image(img: &PlainImage, block_size: u32, client_key: &ClientKey) -> (r: Result<
    Vec<EncryptedBlock>,
    PipelineError,
>)
    requires
        img.wf(),
        sound_key(*client_key),
    ensures
        block_size == 0 <==> r is Err,
        r is Err ==> r == Err::<Vec<EncryptedBlock>, PipelineError>(PipelineError::ZeroTileSize),
        r is Ok ==> is_tiling(r.unwrap()@, img.width as int, img.height as int, block_size as int),
        r is Ok ==> partitions(r.unwrap()@, img.width as int, img.height as int),
        r is Ok ==> forall|n: int|
            0 <= n < r.unwrap()@.len() ==> (#[trigger] r.unwrap()@[n]).encrypts(*client_key, img),
{
    if block_size == 0 {
        return Err(PipelineError::ZeroTileSize);
    }
    let ghost w = img.width as int;
    let ghost h = img.height as int;
    let ghost tile = block_size as int;
    let ghost cols = tile_count(w, tile);
    let ghost rows = tile_count(h, tile);
    let origins = tile_origins(img.width, img.height, block_size);
    let mut blocks: Vec<EncryptedBlock> = Vec::new();
    let mut n: usize = 0;
    while n < origins.len()
        invariant
            img.wf(),
            sound_key(*client_key),
            block_size > 0,
            w == img.width,
            h == img.height,
            tile == block_size,
            cols == tile_count(w, tile),
            rows == tile_count(h, tile),
            is_origin_grid(origins@, w, h, tile),
            0 <= n <= origins@.len(),
            blocks@.len() == n,
            forall|m: int| 0 <= m < n ==> is_tile(#[trigger] blocks@[m], m % cols, m / cols, w, h, tile),
            forall|m: int| 0 <= m < n ==> (#[trigger] blocks@[m]).encrypts(*client_key, img),
        decreases origins@.len() - n,
    {
        let (x, y) = origins[n];
        proof {
            lemma_tile_count(w, tile);
            lemma_tile_count(h, tile);
            lemma_tile_place(n as int, cols, rows);
            lemma_tile_inside(n as int % cols, cols, w, tile);
            lemma_tile_inside(n as int / cols, rows, h, tile);
        }
        let block = encrypt_block(img, x, y, block_size, client_key);
        blocks.push(block);
        n += 1;
    }
    proof {
        assert(is_tiling(blocks@, w, h, tile));
        lemma_tiling_partitions(blocks@, w, h, tile);
    }
    Ok(blocks)
}

/// Every block holds three ciphertexts for each of its pixels.
pub open spec fn all_wf(blocks: Seq<EncryptedBlock>) -> bool {
    forall|n: int| 0 <= n < blocks.len() ==> (#[trigger] blocks[n]).wf()
}

/// The buffer `data` of an image `width` pixels wide holds, at the place of
/// each pixel of `block`, the three ciphertexts that the block has for it.
pub open spec fn holds_block(data: Seq<EncryptedByte>, width: int, block: EncryptedBlock) -> bool {
    forall|i: int, j: int, c: int|
        0 <= i < block.width && 0 <= j < block.height && 0 <= c < 3 ==> data[offset(
            width,
            block.x + i,
            block.y + j,
            c,
        )] == block.data@[#[trigger] offset(block.width as int, i, j, c)]
}

/// Why `blocks` cannot be put together to a `width` by `height` image, if
/// they cannot: the first of these that holds. A block has the wrong number
/// of ciphertexts; a block reaches outside the image; two blocks hold the
/// same pixel; no block holds some pixel.
pub open spec fn assembly_fault(blocks: Seq<EncryptedBlock>, width: int, height: int) -> Option<
    PipelineError,
> {
    if !all_wf(blocks) {
        Some(PipelineError::MalformedBlock)
    } else if !all_inside(blocks, width, height) {
        Some(PipelineError::BlockOutOfBounds)
    } else if overlapping(blocks) {
        Some(PipelineError::OverlappingBlocks)
    } else if !all_covered(blocks, width, height) {
        Some(PipelineError::UncoveredPixel)
    } else {
        None
    }
}

/// The image `out` holds, at every place, a ciphertext of `key` for the
/// channel that `img` has at that place.
pub open spec fn encrypts_image(key: ClientKey, out: &EncryptedImage, img: &PlainImage) -> bool {
    &&& out.wf()
    &&& out.width == img.width
    &&& out.height == img.height
    &&& forall|k: int|
        0 <= k < out.data@.len() ==> encrypts_value(key, #[trigger] out.data@[k], img.pixels@[k])
}

/// The buffer of the image that `blocks` make up: at the place of channel `c`
/// of the pixel at (`px`, `py`) stands what a block that holds the pixel has
/// for it. Where the blocks partition the image there is one such block.
pub open spec fn assembled(blocks: Seq<EncryptedBlock>, width: int, height: int) -> Seq<EncryptedByte> {
    Seq::new(
        (width * height * 3) as nat,
        |k: int|
            {
                let px = (k / 3) % width;
                let py = (k / 3) / width;
                let n = choose|n: int| 0 <= n < blocks.len() && #[trigger] blocks[n].covers(px, py);
                blocks[n].data@[offset(blocks[n].width as int, px - blocks[n].x, py - blocks[n].y, k % 3)]
            },
    )
}

/// A buffer that holds every block of a covering set at its place is the
/// buffer that the blocks make up.
pub proof fn lemma_assembled(blocks: Seq<EncryptedBlock>, width: int, height: int, data: Seq<EncryptedByte>)
    requires
        0 <= width,
        0 <= height,
        data.len() == width * height * 3,
        all_covered(blocks, width, height),
        forall|n: int| 0 <= n < blocks.len() ==> holds_block(data, width, #[trigger] blocks[n]),
    ensures
        data == assembled(blocks, width, height),
{
    let made = assembled(blocks, width, height);
    assert(0 <= width * height * 3) by (nonlinear_arith)
        requires
            0 <= width,
            0 <= height,
    ;
    assert forall|k: int| 0 <= k < data.len() implies data[k] == made[k] by {
        assert(width > 0) by (nonlinear_arith)
            requires
                0 <= k < width * height * 3,
                0 <= width,
        ;
        lemma_offset_decompose(width, height, k);
        let px = (k / 3) % width;
        let py = (k / 3) / width;
        let c = k % 3;
        assert(covered(blocks, px, py));
        let n = choose|n: int| 0 <= n < blocks.len() && #[trigger] blocks[n].covers(px, py);
        let b = blocks[n];
        assert(holds_block(data, width, b));
        let src = offset(b.width as int, px - b.x, py - b.y, c);
        assert(data[offset(width, b.x + (px - b.x), b.y + (py - b.y), c)] == b.data@[src]);
    }
    assert(data =~= made);
}

/// One of the first `bound` blocks holds the pixel at (`px`, `py`).
pub open spec fn covered_by_first(blocks: Seq<EncryptedBlock>, bound: int, px: int, py: int) -> bool {
    exists|m: int| 0 <= m < bound && m < blocks.len() && #[trigger] blocks[m].covers(px, py)
}

/// The pixel at column `i`, row `j` of a block comes before the pixel at
/// column `bx`, row `by` when the block is walked row by row.
pub open spec fn walked(i: int, j: int, bx: int, by: int) -> bool {
    j < by || (j == by && i < bx)
}

/// Copies the ciphertexts of `block` to their places in `data`, and marks its
/// pixels in `written`. Gives up, and returns `false`, at the first pixel
/// that was marked before.
fn place_block(
    data: &mut Vec<EncryptedByte>,
    written: &mut Vec<bool>,
    block: &EncryptedBlock,
    width: u32,
    height: u32,
) -> (ok: bool)
    requires
        block.wf(),
        block.inside(width as int, height as int),
        old(data)@.len() == width as int * height as int * 3,
        old(written)@.len() == width as int * height as int,
        old(data).len() == old(data)@.len(),
    ensures
        final(data)@.len() == old(data)@.len(),
        final(written)@.len() == old(written)@.len(),
        ok <==> forall|px: int, py: int| #[trigger]
            block.covers(px, py) ==> !old(written)@[cell(width as int, px, py)],
        ok ==> forall|px: int, py: int|
            0 <= px < width && 0 <= py < height ==> (final(written)@[#[trigger] cell(
                width as int,
                px,
                py,
            )] <==> old(written)@[cell(width as int, px, py)] || block.covers(px, py)),
        ok ==> holds_block(final(data)@, width as int, *block),
        ok ==> forall|px: int, py: int, c: int|
            0 <= px < width && 0 <= py < height && 0 <= c < 3 && !block.covers(px, py)
                ==> final(data)@[#[trigger] offset(width as int, px, py, c)] == old(data)@[offset(
                width as int,
                px,
                py,
                c,
            )],
{
    let ghost w = width as int;
    let ghost h = height as int;
    let ghost bw = block.width as int;
    let ghost bh = block.height as int;
    let ghost x0 = block.x as int;
    let ghost y0 = block.y as int;
    let ghost data0 = data@;
    let ghost written0 = written@;
    let mut by: u32 = 0;
    while by < block.height
        invariant
            block.wf(),
            block.inside(w, h),
            w == width,
            h == height,
            bw == block.width,
            bh == block.height,
            x0 == block.x,
            y0 == block.y,
            data@.len() == w * h * 3,
            written@.len() == w * h,
            data0.len() == data@.len(),
            written0.len() == written@.len(),
            w * h * 3 <= usize::MAX,
            data0 == old(data)@,
            written0 == old(written)@,
            0 <= by <= bh,
            forall|px: int, py: int|
                0 <= px < w && 0 <= py < h ==> (written@[#[trigger] cell(w, px, py)] <==> written0[cell(
                    w,
                    px,
                    py,
                )] || (block.covers(px, py) && walked(px - x0, py - y0, 0, by as int))),
            forall|px: int, py: int| #[trigger]
                block.covers(px, py) && walked(px - x0, py - y0, 0, by as int) ==> !written0[cell(
                    w,
                    px,
                    py,
                )],
            forall|i: int, j: int, c: int|
                0 <= i < bw && 0 <= j < bh && 0 <= c < 3 && walked(i, j, 0, by as int) ==> data@[offset(
                    w,
                    x0 + i,
                    y0 + j,
                    c,
                )] == block.data@[#[trigger] offset(bw, i, j, c)],
            forall|px: int, py: int, c: int|
                0 <= px < w && 0 <= py < h && 0 <= c < 3 && !(block.covers(px, py) && walked(
                    px - x0,
                    py - y0,
                    0,
                    by as int,
                )) ==> data@[#[trigger] offset(w, px, py, c)] == data0[offset(w, px, py, c)],
        decreases bh - by,
    {
        let mut bx: u32 = 0;
        while bx < block.width
            invariant
                block.wf(),
                block.inside(w, h),
                w == width,
                h == height,
                bw == block.width,
                bh == block.height,
                x0 == block.x,
                y0 == block.y,
                data@.len() == w * h * 3,
                written@.len() == w * h,
                data0.len() == data@.len(),
                written0.len() == written@.len(),
                w * h * 3 <= usize::MAX,
                data0 == old(data)@,
                written0 == old(written)@,
                0 <= by < bh,
                0 <= bx <= bw,
                forall|px: int, py: int|
                    0 <= px < w && 0 <= py < h ==> (written@[#[trigger] cell(w, px, py)] <==> written0[cell(
                        w,
                        px,
                        py,
                    )] || (block.covers(px, py) && walked(px - x0, py - y0, bx as int, by as int))),
                forall|px: int, py: int| #[trigger]
                    block.covers(px, py) && walked(px - x0, py - y0, bx as int, by as int)
                        ==> !written0[cell(w, px, py)],
                forall|i: int, j: int, c: int|
                    0 <= i < bw && 0 <= j < bh && 0 <= c < 3 && walked(i, j, bx as int, by as int)
                        ==> data@[offset(w, x0 + i, y0 + j, c)] == block.data@[#[trigger] offset(
                        bw,
                        i,
                        j,
                        c,
                    )],
                forall|px: int, py: int, c: int|
                    0 <= px < w && 0 <= py < h && 0 <= c < 3 && !(block.covers(px, py) && walked(
                        px - x0,
                        py - y0,
                        bx as int,
                        by as int,
                    )) ==> data@[#[trigger] offset(w, px, py, c)] == data0[offset(w, px, py, c)],
            decreases bw - bx,
        {
            let px0: u32 = block.x + bx;
            let py0: u32 = block.y + by;
            proof {
                lemma_offset_in_bounds(w, h, px0 as int, py0 as int, 2);
                lemma_offset_in_bounds(bw, bh, bx as int, by as int, 2);
                assert(0 <= py0 as int * w) by (nonlinear_arith)
                    requires
                        0 <= py0,
                        0 <= w,
                ;
                assert(0 <= by as int * bw) by (nonlinear_arith)
                    requires
                        0 <= by,
                        0 <= bw,
                ;
            }
            let p: usize = py0 as usize * width as usize + px0 as usize;
            let dst: usize = p * 3;
            let src: usize = (by as usize * block.width as usize + bx as usize) * 3;
            assert(p as int == cell(w, px0 as int, py0 as int));
            assert(block.covers(px0 as int, py0 as int));
            if written[p] {
                return false;
            }
            let ghost written1 = written@;
            let ghost data1 = data@;
            written.set(p, true);
            data.set(dst, clone_byte(&block.data[src]));
            data.set(dst + 1, clone_byte(&block.data[src + 1]));
            data.set(dst + 2, clone_byte(&block.data[src + 2]));
            proof {
                assert forall|px: int, py: int| 0 <= px < w && 0 <= py < h implies (written@[#[trigger] cell(
                    w,
                    px,
                    py,
                )] <==> written0[cell(w, px, py)] || (block.covers(px, py) && walked(
                    px - x0,
                    py - y0,
                    bx + 1,
                    by as int,
                ))) by {
                    lemma_offset_in_bounds(w, h, px, py, 0);
                    if px != px0 || py != py0 {
                        if cell(w, px, py) == p {
                            lemma_cell_injective(w, px, py, px0 as int, py0 as int);
                        }
                        assert(written@[cell(w, px, py)] == written1[cell(w, px, py)]);
                    }
                }
                assert forall|i: int, j: int, c: int|
                    0 <= i < bw && 0 <= j < bh && 0 <= c < 3 && walked(
                        i,
                        j,
                        bx + 1,
                        by as int,
                    ) implies data@[offset(w, x0 + i, y0 + j, c)] == block.data@[#[trigger] offset(
                    bw,
                    i,
                    j,
                    c,
                )] by {
                    lemma_offset_in_bounds(w, h, x0 + i, y0 + j, c);
                    if i == bx && j == by {
                        assert(offset(w, x0 + i, y0 + j, c) == dst + c);
                        assert(offset(bw, i, j, c) == src + c);
                    } else {
                        let k = offset(w, x0 + i, y0 + j, c);
                        if dst <= k <= dst + 2 {
                            lemma_offset_injective(w, x0 + i, y0 + j, c, px0 as int, py0 as int, k - dst);
                        }
                        assert(data@[k] == data1[k]);
                    }
                }
                assert forall|px: int, py: int, c: int|
                    0 <= px < w && 0 <= py < h && 0 <= c < 3 && !(block.covers(px, py) && walked(
                        px - x0,
                        py - y0,
                        bx + 1,
                        by as int,
                    )) implies data@[#[trigger] offset(w, px, py, c)] == data0[offset(w, px, py, c)] by {
                    let k = offset(w, px, py, c);
                    lemma_offset_in_bounds(w, h, px, py, c);
                    if dst <= k <= dst + 2 {
                        lemma_offset_injective(w, px, py, c, px0 as int, py0 as int, k - dst);
                    }
                    assert(data@[k] == data1[k]);
                }
            }
            bx += 1;
        }
        by += 1;
    }
    proof {
        assert(holds_block(data@, w, *block));
    }
    true
}

/// Puts encrypted blocks together to one encrypted image of the given size.
/// The ciphertexts are copied as they are. The blocks have to cover the image
/// exactly; if they do not, the first fault of `assembly_fault` is returned.
pub fn merge_encrypted_blocks(blocks: &[EncryptedBlock], width: u32, height: u32, client_key: &ClientKey) -> (r:
    Result<EncryptedImage, PipelineError>)
    requires
        width as int * height as int * 3 <= usize::MAX,
        sound_key(*client_key),
    ensures
        match r {
            Ok(img) => {
                &&& assembly_fault(blocks@, width as int, height as int) is None
                &&& img.width == width
                &&& img.height == height
                &&& img.wf()
                &&& forall|n: int|
                    0 <= n < blocks@.len() ==> holds_block(img.data@, width as int, #[trigger] blocks@[n])
                &&& img.data@ == assembled(blocks@, width as int, height as int)
            },
            Err(e) => assembly_fault(blocks@, width as int, height as int) == Some(e),
        },
{
    let ghost w = width as int;
    let ghost h = height as int;
    let mut malformed = false;
    let mut outside = false;
    let mut n: usize = 0;
    while n < blocks.len()
        invariant
            0 <= n <= blocks@.len(),
            w == width,
            h == height,
            malformed <==> exists|m: int| 0 <= m < n && !(#[trigger] blocks@[m]).wf(),
            outside <==> exists|m: int| 0 <= m < n && !(#[trigger] blocks@[m]).inside(w, h),
        decreases blocks@.len() - n,
    {
        let block = &blocks[n];
        assert(block.width as int * block.height as int <= 0xffff_ffff * 0xffff_ffff) by (nonlinear_arith)
            requires
                0 <= block.width <= 0xffff_ffff,
                0 <= block.height <= 0xffff_ffff,
        ;
        let cells: u64 = block.width as u64 * block.height as u64;
        if !(block.data.len() % 3 == 0 && (block.data.len() / 3) as u64 == cells) {
            malformed = true;
        }
        if block.x as u64 + block.width as u64 > width as u64 || block.y as u64 + block.height as u64
            > height as u64 {
            outside = true;
        }
        n += 1;
    }
    if malformed {
        return Err(PipelineError::MalformedBlock);
    }
    if outside {
        return Err(PipelineError::BlockOutOfBounds);
    }
    assert(all_wf(blocks@));
    assert(all_inside(blocks@, w, h));
    proof {
        assert(0 <= w * h <= w * h * 3) by (nonlinear_arith)
            requires
                0 <= w,
                0 <= h,
        ;
    }
    let cells: usize = width as usize * height as usize;
    let total: usize = cells * 3;
    let zero = encrypt(client_key, 0);
    let mut data: Vec<EncryptedByte> = Vec::new();
    let mut k: usize = 0;
    while k < total
        invariant
            0 <= k <= total,
            data@.len() == k,
        decreases total - k,
    {
        data.push(clone_byte(&zero));
        k += 1;
    }
    let mut written: Vec<bool> = vec![false; cells];
    proof {
        assert forall|px: int, py: int| 0 <= px < w && 0 <= py < h implies (written@[#[trigger] cell(
            w,
            px,
            py,
        )] <==> covered_by_first(blocks@, 0, px, py)) by {
            lemma_offset_in_bounds(w, h, px, py, 0);
        }
    }
    let mut n: usize = 0;
    while n < blocks.len()
        invariant
            0 <= n <= blocks@.len(),
            w == width,
            h == height,
            all_wf(blocks@),
            all_inside(blocks@, w, h),
            cells == w * h,
            data@.len() == w * h * 3,
            written@.len() == w * h,
            forall|px: int, py: int|
                0 <= px < w && 0 <= py < h ==> (written@[#[trigger] cell(w, px, py)] <==> covered_by_first(
                    blocks@,
                    n as int,
                    px,
                    py,
                )),
            forall|n1: int, n2: int, px: int, py: int| #[trigger]
                clash(blocks@, n1, n2, px, py) ==> n1 >= n || n2 >= n,
            forall|m: int| 0 <= m < n ==> holds_block(data@, w, #[trigger] blocks@[m]),
        decreases blocks@.len() - n,
    {
        let ghost data1 = data@;
        let ghost written1 = written@;
        let block = &blocks[n];
        assert(block.wf() && block.inside(w, h)) by {
            assert(blocks@[n as int].wf());
            assert(blocks@[n as int].inside(w, h));
        }
        let ok = place_block(&mut data, &mut written, block, width, height);
        if !ok {
            proof {
                let (px, py) = choose|px: int, py: int| #[trigger]
                    block.covers(px, py) && written1[cell(w, px, py)];
                assert(covered_by_first(blocks@, n as int, px, py));
                let m = choose|m: int|
                    0 <= m < n && m < blocks@.len() && #[trigger] blocks@[m].covers(px, py);
                assert(clash(blocks@, m, n as int, px, py));
            }
            return Err(PipelineError::OverlappingBlocks);
        }
        proof {
            assert forall|px: int, py: int| 0 <= px < w && 0 <= py < h implies (written@[#[trigger] cell(
                w,
                px,
                py,
            )] <==> covered_by_first(blocks@, n + 1, px, py)) by {
                if covered_by_first(blocks@, n as int, px, py) {
                    let m = choose|m: int|
                        0 <= m < n && m < blocks@.len() && #[trigger] blocks@[m].covers(px, py);
                    assert(0 <= m < n + 1 && blocks@[m].covers(px, py));
                }
                if block.covers(px, py) {
                    assert(blocks@[n as int].covers(px, py));
                }
                if covered_by_first(blocks@, n + 1, px, py) {
                    let m = choose|m: int|
                        0 <= m < n + 1 && m < blocks@.len() && #[trigger] blocks@[m].covers(px, py);
                    if m < n {
                        assert(covered_by_first(blocks@, n as int, px, py));
                    }
                }
            }
            assert forall|n1: int, n2: int, px: int, py: int| #[trigger]
                clash(blocks@, n1, n2, px, py) implies n1 >= n + 1 || n2 >= n + 1 by {
                if n1 < n + 1 && n2 < n + 1 {
                    let m = if n1 == n {
                        n2
                    } else {
                        n1
                    };
                    assert(blocks@[m].covers(px, py));
                    assert(blocks@[m].inside(w, h));
                    assert(covered_by_first(blocks@, n as int, px, py));
                    assert(written1[cell(w, px, py)]);
                    assert(block.covers(px, py));
                }
            }
            assert forall|m: int| 0 <= m < n + 1 implies holds_block(data@, w, #[trigger] blocks@[m]) by {
                if m < n {
                    let other = blocks@[m];
                    assert(holds_block(data1, w, other));
                    assert(other.inside(w, h));
                    assert forall|i: int, j: int, c: int|
                        0 <= i < other.width && 0 <= j < other.height && 0 <= c < 3 implies data@[offset(
                        w,
                        other.x + i,
                        other.y + j,
                        c,
                    )] == other.data@[#[trigger] offset(other.width as int, i, j, c)] by {
                        let px = other.x + i;
                        let py = other.y + j;
                        assert(other.covers(px, py));
                        if block.covers(px, py) {
                            assert(clash(blocks@, m, n as int, px, py));
                        }
                        assert(data@[offset(w, px, py, c)] == data1[offset(w, px, py, c)]);
                    }
                }
            }
        }
        n += 1;
    }
    proof {
        assert forall|n1: int, n2: int, px: int, py: int| !#[trigger] clash(blocks@, n1, n2, px, py) by {
        }
        assert(!overlapping(blocks@));
    }
    let mut p: usize = 0;
    while p < cells
        invariant
            0 <= p <= cells,
            w == width,
            h == height,
            cells == w * h,
            written@.len() == w * h,
            n == blocks@.len(),
            all_wf(blocks@),
            all_inside(blocks@, w, h),
            !overlapping(blocks@),
            forall|px: int, py: int|
                0 <= px < w && 0 <= py < h ==> (written@[#[trigger] cell(w, px, py)] <==> covered_by_first(
                    blocks@,
                    n as int,
                    px,
                    py,
                )),
            forall|q: int| 0 <= q < p ==> #[trigger] written@[q],
        decreases cells - p,
    {
        if !written[p] {
            proof {
                assert(w > 0) by (nonlinear_arith)
                    requires
                        0 <= p < w * h,
                        0 <= w,
                ;
                lemma_cell_place(w, h, p as int);
                let px = p as int % w;
                let py = p as int / w;
                assert(cell(w, px, py) == p);
                assert(!covered_by_first(blocks@, n as int, px, py));
                if covered(blocks@, px, py) {
                    let m = choose|m: int| 0 <= m < blocks@.len() && #[trigger] blocks@[m].covers(px, py);
                    assert(0 <= m < n && blocks@[m].covers(px, py));
                }
                assert(!covered(blocks@, px, py));
            }
            return Err(PipelineError::UncoveredPixel);
        }
        p += 1;
    }
    proof {
        assert forall|px: int, py: int| 0 <= px < w && 0 <= py < h implies #[trigger] covered(
            blocks@,
            px,
            py,
        ) by {
            lemma_offset_in_bounds(w, h, px, py, 0);
            assert(written@[cell(w, px, py)]);
            assert(covered_by_first(blocks@, n as int, px, py));
            let m = choose|m: int|
                0 <= m < n && m < blocks@.len() && #[trigger] blocks@[m].covers(px, py);
            assert(blocks@[m].covers(px, py));
        }
    }
    proof {
        lemma_assembled(blocks@, w, h, data@);
    }
    Ok(EncryptedImage { width, height, data })
}

/// The tiles of an image can always be put together again.
pub proof fn lemma_tiling_never_faults(key: ClientKey, img: &PlainImage, tile: int, blocks: Seq<EncryptedBlock>)
    requires
        img.wf(),
        0 < tile,
        is_tiling(blocks, img.width as int, img.height as int, tile),
        forall|n: int| 0 <= n < blocks.len() ==> (#[trigger] blocks[n]).encrypts(key, img),
    ensures
        assembly_fault(blocks, img.width as int, img.height as int) is None,
{
    lemma_tiling_partitions(blocks, img.width as int, img.height as int, tile);
    assert forall|n: int| 0 <= n < blocks.len() implies (#[trigger] blocks[n]).wf() by {
        assert(blocks[n].encrypts(key, img));
    }
}

/// An image put together from encrypted blocks of a plaintext image that
/// cover it holds, at every place, an encryption of the channel that the
/// plaintext image has there: decrypted, it is the plaintext image. The tiles
/// that `encrypt_image` makes are such blocks.
pub proof fn lemma_assembly_fidelity(key: ClientKey, img: &PlainImage, blocks: Seq<EncryptedBlock>, out: &EncryptedImage)
    requires
        img.wf(),
        all_covered(blocks, img.width as int, img.height as int),
        forall|n: int| 0 <= n < blocks.len() ==> (#[trigger] blocks[n]).encrypts(key, img),
        out.wf(),
        out.width == img.width,
        out.height == img.height,
        forall|n: int|
            0 <= n < blocks.len() ==> holds_block(out.data@, img.width as int, #[trigger] blocks[n]),
    ensures
        encrypts_image(key, out, img),
        out.under(key),
        forall|k: int| 0 <= k < out.data@.len() ==> decrypted(key, #[trigger] out.data@[k]) == img.pixels@[k],
{
    let w = img.width as int;
    let h = img.height as int;
    assert forall|k: int| 0 <= k < out.data@.len() implies encrypts_value(
        key,
        #[trigger] out.data@[k],
        img.pixels@[k],
    ) by {
        assert(w > 0) by (nonlinear_arith)
            requires
                0 <= k < w * h * 3,
                0 <= w,
        ;
        lemma_offset_decompose(w, h, k);
        let px = (k / 3) % w;
        let py = (k / 3) / w;
        let c = k % 3;
        assert(covered(blocks, px, py));
        let n = choose|n: int| 0 <= n < blocks.len() && #[trigger] blocks[n].covers(px, py);
        let b = blocks[n];
        assert(b.encrypts(key, img));
        assert(holds_block(out.data@, w, b));
        let i = px - b.x;
        let j = py - b.y;
        let src = offset(b.width as int, i, j, c);
        assert(out.data@[offset(w, b.x + i, b.y + j, c)] == b.data@[src]);
        assert(encrypts_value(key, b.data@[src], img.channel(b.x + i, b.y + j, c)));
    }
    assert forall|k: int| 0 <= k < out.data@.len() implies decrypted(key, #[trigger] out.data@[k])
        == img.pixels@[k] by {
        lemma_round_trip(key, out.data@[k], img.pixels@[k]);
    }
}

} // verus!
