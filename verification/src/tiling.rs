//! The tiling of an image: square tiles of one size, laid from the top left
//! corner, the last of each row and column clipped to the image.

use vstd::prelude::*;

verus! {

/// Extent of a tile that starts at `origin` on an axis of length `extent`:
/// the nominal tile size, clipped at the end of the axis.
pub open spec fn clipped_extent(origin: int, tile: int, extent: int) -> int {
    if origin + tile <= extent { tile } else { extent - origin }
}

/// Number of tiles of size `tile` needed along an axis of length `extent`.
pub open spec fn tile_count(extent: int, tile: int) -> int {
    (extent + tile - 1) / tile
}

/// `origins` are the top left corners of the tiles of a `width` by `height`
/// image, row by row, each row from left to right.
pub open spec fn is_origin_grid(origins: Seq<(u32, u32)>, width: int, height: int, tile: int) -> bool {
    let cols = tile_count(width, tile);
    let rows = tile_count(height, tile);
    &&& origins.len() == cols * rows
    &&& forall|n: int|
        0 <= n < origins.len() ==> (#[trigger] origins[n]).0 == (n % cols) * tile && origins[n].1 == (n
            / cols) * tile
}

/// Extent of the tile that starts at `origin`.
pub(crate) fn clip_extent(origin: u32, tile: u32, extent: u32) -> (r: u32)
    requires
        origin < extent,
    ensures
        r as int == clipped_extent(origin as int, tile as int, extent as int),
{
    if tile <= extent - origin {
        tile
    } else {
        extent - origin
    }
}

/// The top left corners of the tiles of a `width` by `height` image: the
/// tiling starts at (0, 0) and advances by `block_size` along both axes.
pub fn tile_origins(width: u32, height: u32, block_size: u32) -> (origins: Vec<(u32, u32)>)
    requires
        block_size > 0,
    ensures
        is_origin_grid(origins@, width as int, height as int, block_size as int),
{
    let ghost w = width as int;
    let ghost h = height as int;
    let ghost tile = block_size as int;
    let ghost cols = tile_count(w, tile);
    let ghost rows = tile_count(h, tile);
    proof {
        lemma_tile_count(w, tile);
        lemma_tile_count(h, tile);
    }
    let mut origins: Vec<(u32, u32)> = Vec::new();
    let mut y: u32 = 0;
    let ghost mut ty: int = 0;
    while y < height && width > 0
        invariant
            block_size > 0,
            w == width,
            h == height,
            tile == block_size,
            cols == tile_count(w, tile),
            rows == tile_count(h, tile),
            0 <= ty <= rows,
            y < h ==> y == ty * tile,
            y >= h ==> y == h && ty == rows,
            origins@.len() == ty * cols,
            forall|n: int|
                0 <= n < origins@.len() ==> (#[trigger] origins@[n]).0 == (n % cols) * tile
                    && origins@[n].1 == (n / cols) * tile,
        decreases h - y,
    {
        proof {
            lemma_next_tile(ty, rows, h, tile);
        }
        let mut x: u32 = 0;
        let ghost mut tx: int = 0;
        while x < width
            invariant
                block_size > 0,
                w == width,
                h == height,
                tile == block_size,
                cols == tile_count(w, tile),
                rows == tile_count(h, tile),
                0 <= ty < rows,
                y < h,
                y == ty * tile,
                0 <= tx <= cols,
                x < w ==> x == tx * tile,
                x >= w ==> x == w && tx == cols,
                origins@.len() == ty * cols + tx,
                forall|n: int|
                    0 <= n < origins@.len() ==> (#[trigger] origins@[n]).0 == (n % cols) * tile
                        && origins@[n].1 == (n / cols) * tile,
            decreases w - x,
        {
            proof {
                lemma_next_tile(tx, cols, w, tile);
                lemma_tile_index(tx, ty, cols, rows);
            }
            origins.push((x, y));
            x = x + clip_extent(x, block_size, width);
            proof {
                tx = tx + 1;
            }
        }
        y = y + clip_extent(y, block_size, height);
        proof {
            assert(ty * cols + cols == (ty + 1) * cols) by (nonlinear_arith);
            ty = ty + 1;
        }
    }
    proof {
        if width == 0 {
            assert(cols * rows == 0 && ty * cols == 0) by (nonlinear_arith)
                requires
                    cols == 0,
            ;
        } else {
            assert(ty * cols == cols * rows) by (nonlinear_arith)
                requires
                    ty == rows,
            ;
        }
    }
    origins
}

/// `tile_count` is the least number of tiles that reach the end of the axis.
pub proof fn lemma_tile_count(extent: int, tile: int)
    requires
        0 <= extent,
        0 < tile,
    ensures
        0 <= tile_count(extent, tile),
        extent <= tile_count(extent, tile) * tile,
        (tile_count(extent, tile) - 1) * tile < extent || extent == 0,
        extent == 0 ==> tile_count(extent, tile) == 0,
{
    let q = tile_count(extent, tile);
    let a = extent + tile - 1;
    vstd::arithmetic::div_mod::lemma_fundamental_div_mod(a, tile);
    vstd::arithmetic::div_mod::lemma_mod_bound(a, tile);
    assert(a == tile * q + a % tile);
    assert(0 <= q) by (nonlinear_arith)
        requires
            a == tile * q + a % tile,
            0 <= a % tile < tile,
            0 <= a,
            0 < tile,
    ;
    assert(extent <= q * tile && ((q - 1) * tile < extent)) by (nonlinear_arith)
        requires
            a == tile * q + a % tile,
            0 <= a % tile < tile,
            a == extent + tile - 1,
    ;
    if extent == 0 {
        assert(q == 0) by (nonlinear_arith)
            requires
                a == tile * q + a % tile,
                0 <= a % tile < tile,
                a == tile - 1,
        ;
    }
}

/// Stepping from tile `t` to the next one: either the next tile starts
/// inside the axis, or tile `t` was the last.
pub proof fn lemma_next_tile(t: int, count: int, extent: int, tile: int)
    requires
        0 <= t,
        0 < tile,
        0 <= extent,
        count == tile_count(extent, tile),
        t * tile < extent,
    ensures
        t < count,
        t * tile + clipped_extent(t * tile, tile, extent) < extent ==> t * tile + clipped_extent(
            t * tile,
            tile,
            extent,
        ) == (t + 1) * tile,
        t * tile + clipped_extent(t * tile, tile, extent) >= extent ==> t * tile + clipped_extent(
            t * tile,
            tile,
            extent,
        ) == extent && t + 1 == count,
{
    lemma_tile_count(extent, tile);
    assert(t < count) by (nonlinear_arith)
        requires
            t * tile < extent,
            extent <= count * tile,
            0 < tile,
    ;
    assert((t + 1) * tile == t * tile + tile) by (nonlinear_arith);
    if t * tile + tile >= extent {
        assert(t + 1 >= count) by (nonlinear_arith)
            requires
                (count - 1) * tile < extent,
                (t + 1) * tile >= extent,
                0 < tile,
        ;
    }
}

/// Column and row of the `n`-th tile of a grid of `cols` by `rows` tiles.
pub proof fn lemma_tile_place(n: int, cols: int, rows: int)
    requires
        0 <= n < cols * rows,
        0 <= cols,
        0 <= rows,
    ensures
        0 <= n % cols < cols,
        0 <= n / cols < rows,
        n == (n / cols) * cols + n % cols,
{
    assert(cols > 0) by (nonlinear_arith)
        requires
            0 <= n < cols * rows,
            0 <= cols,
    ;
    vstd::arithmetic::div_mod::lemma_fundamental_div_mod(n, cols);
    vstd::arithmetic::div_mod::lemma_mod_bound(n, cols);
    assert(0 <= n / cols < rows && n == (n / cols) * cols + n % cols) by (nonlinear_arith)
        requires
            n == cols * (n / cols) + n % cols,
            0 <= n % cols < cols,
            0 <= n < cols * rows,
    ;
}

/// The tile in column `tx`, row `ty` is the tile of index `ty * cols + tx`.
pub proof fn lemma_tile_index(tx: int, ty: int, cols: int, rows: int)
    requires
        0 <= tx < cols,
        0 <= ty < rows,
    ensures
        0 <= ty * cols + tx < cols * rows,
        (ty * cols + tx) % cols == tx,
        (ty * cols + tx) / cols == ty,
{
    assert(0 <= ty * cols + tx < cols * rows) by (nonlinear_arith)
        requires
            0 <= tx < cols,
            0 <= ty < rows,
    ;
    vstd::arithmetic::div_mod::lemma_fundamental_div_mod_converse(ty * cols + tx, cols, ty, tx);
}

/// A tile that starts before the end of the axis ends inside it.
pub proof fn lemma_tile_inside(t: int, count: int, extent: int, tile: int)
    requires
        0 <= t < count,
        count == tile_count(extent, tile),
        0 <= extent,
        0 < tile,
    ensures
        0 <= t * tile < extent,
        t * tile + clipped_extent(t * tile, tile, extent) <= extent,
        0 < clipped_extent(t * tile, tile, extent) <= tile,
{
    lemma_tile_count(extent, tile);
    assert(0 <= t * tile <= (count - 1) * tile) by (nonlinear_arith)
        requires
            0 <= t < count,
            0 < tile,
    ;
}

/// The pixel at `p` lies in the tile of index `p / tile`.
pub proof fn lemma_tile_of(p: int, extent: int, tile: int)
    requires
        0 <= p < extent,
        0 < tile,
    ensures
        0 <= p / tile < tile_count(extent, tile),
        (p / tile) * tile <= p < (p / tile) * tile + clipped_extent((p / tile) * tile, tile, extent),
{
    let t = p / tile;
    let count = tile_count(extent, tile);
    lemma_tile_count(extent, tile);
    vstd::arithmetic::div_mod::lemma_fundamental_div_mod(p, tile);
    vstd::arithmetic::div_mod::lemma_mod_bound(p, tile);
    assert(0 <= t && t * tile <= p < t * tile + tile) by (nonlinear_arith)
        requires
            p == tile * t + p % tile,
            0 <= p % tile < tile,
            0 <= p,
            0 < tile,
    ;
    assert(t < count) by (nonlinear_arith)
        requires
            t * tile <= p,
            p < extent,
            extent <= count * tile,
            0 < tile,
    ;
}

/// A tile that holds the pixel at `p` is the tile of index `p / tile`.
pub proof fn lemma_covering_tile(p: int, t: int, extent: int, tile: int)
    requires
        0 <= t,
        0 < tile,
        t * tile <= p < t * tile + clipped_extent(t * tile, tile, extent),
    ensures
        t == p / tile,
{
    assert(clipped_extent(t * tile, tile, extent) <= tile);
    vstd::arithmetic::div_mod::lemma_fundamental_div_mod_converse(p, tile, t, p - t * tile);
}

} // verus!
