//! The whole count, from a plaintext image and a reference region to the two
//! numbers: objects of the reference colour, and shapes of the reference
//! signature.

use vstd::prelude::*;
use tfhe::shortint::{ClientKey, ServerKey};
use crate::components::component_count;
use crate::count_rgb::{comparable, count_rgb_objects, match_mask};
use crate::count_shape::{count_same_shape_fhe, rect_inside, shape_matches};
use crate::encrypt_image::{
    assembly_fault, encrypt_image, encrypts_image, lemma_assembly_fidelity, lemma_tiling_never_faults,
    merge_encrypted_blocks, EncryptedBlock, EncryptedImage,
};
use crate::error::PipelineError;
use crate::channel::{encrypt, encrypts_value, EncryptedByte};
use crate::fhe::{evaluates_for, sound_key};
use crate::raster::{lemma_offset_in_bounds, PlainImage};

verus! {

/// Column and row of the pixel in the middle of the region (`x`, `y`, `w`, `h`).
pub open spec fn region_centre(rect: (u32, u32, u32, u32)) -> (int, int) {
    (rect.0 + rect.2 / 2, rect.1 + rect.3 / 2)
}

/// The region lies inside an image of the given size, and so does the pixel
/// in its middle.
pub open spec fn region_usable(rect: (u32, u32, u32, u32), width: int, height: int) -> bool {
    &&& rect_inside(rect, width, height)
    &&& region_centre(rect).0 < width
    &&& region_centre(rect).1 < height
}

/// The colour of the pixel in the middle of the region `rect`: the reference
/// colour of the count.
pub fn reference_pixel(img: &PlainImage, rect: (u32, u32, u32, u32)) -> (r: Result<[u8; 3], PipelineError>)
    requires
        img.wf(),
    ensures
        match r {
            Ok(colour) => {
                &&& region_usable(rect, img.width as int, img.height as int)
                &&& forall|c: int|
                    0 <= c < 3 ==> #[trigger] colour[c] == img.channel(
                        region_centre(rect).0,
                        region_centre(rect).1,
                        c,
                    )
            },
            Err(e) => e == PipelineError::RegionOutOfBounds && !region_usable(
                rect,
                img.width as int,
                img.height as int,
            ),
        },
{
    let (x, y, w, h) = rect;
    if x as u64 + w as u64 > img.width as u64 || y as u64 + h as u64 > img.height as u64 {
        return Err(PipelineError::RegionOutOfBounds);
    }
    let cx = x + w / 2;
    let cy = y + h / 2;
    if cx >= img.width || cy >= img.height {
        return Err(PipelineError::RegionOutOfBounds);
    }
    Ok(img.get_pixel(cx, cy))
}

/// Encrypts the three channels of a colour.
pub fn encrypt_reference(colour: &[u8; 3], client_key: &ClientKey) -> (reference: [EncryptedByte; 3])
    requires
        sound_key(*client_key),
    ensures
        forall|c: int| 0 <= c < 3 ==> encrypts_value(*client_key, #[trigger] reference[c], colour[c]),
{
    let r = encrypt(client_key, colour[0]);
    let g = encrypt(client_key, colour[1]);
    let b = encrypt(client_key, colour[2]);
    [r, g, b]
}

/// Why the objects of `img` cannot be counted against the region `rect`, if
/// they cannot.
pub open spec fn region_fault(img: &PlainImage, rect: (u32, u32, u32, u32)) -> Option<PipelineError> {
    if !region_usable(rect, img.width as int, img.height as int) {
        Some(PipelineError::RegionOutOfBounds)
    } else if img.width as int * img.height as int > i32::MAX {
        Some(PipelineError::ImageTooLarge)
    } else {
        None
    }
}

/// Why the objects of `img` cannot be counted against the region `rect` with
/// tiles of size `block_size`, if they cannot.
pub open spec fn pipeline_fault(img: &PlainImage, rect: (u32, u32, u32, u32), block_size: u32) -> Option<
    PipelineError,
> {
    if block_size == 0 {
        Some(PipelineError::ZeroTileSize)
    } else {
        region_fault(img, rect)
    }
}

/// Looks for what stands in the way of a count, before anything is
/// encrypted.
pub fn check_request(img: &PlainImage, rect: (u32, u32, u32, u32), block_size: u32) -> (r: Option<PipelineError>)
    requires
        img.wf(),
    ensures
        r == pipeline_fault(img, rect, block_size),
{
    if block_size == 0 {
        return Some(PipelineError::ZeroTileSize);
    }
    if let Err(e) = reference_pixel(img, rect) {
        return Some(e);
    }
    assert(img.width as int * img.height as int <= 0xffff_ffff * 0xffff_ffff) by (nonlinear_arith)
        requires
            0 <= img.width <= 0xffff_ffff,
            0 <= img.height <= 0xffff_ffff,
    ;
    if img.width as u64 * img.height as u64 > 0x7fff_ffff {
        return Some(PipelineError::ImageTooLarge);
    }
    None
}

/// Pixel `p` of `img` has the colour of the pixel in the middle of `rect`.
pub open spec fn has_reference_colour(img: &PlainImage, rect: (u32, u32, u32, u32), p: int) -> bool {
    forall|c: int|
        0 <= c < 3 ==> #[trigger] img.pixels@[3 * p + c] == img.channel(
            region_centre(rect).0,
            region_centre(rect).1,
            c,
        )
}

/// The mask of the pixels of `img` that have the reference colour.
pub open spec fn colour_mask(img: &PlainImage, rect: (u32, u32, u32, u32)) -> Seq<bool> {
    Seq::new(
        (img.width as int * img.height as int) as nat,
        |p: int| has_reference_colour(img, rect, p),
    )
}

/// Why the objects of `img` cannot be counted from `blocks` against the
/// region `rect`, if they cannot: a fault of the region, or else a fault of
/// the blocks.
pub open spec fn blocks_fault(img: &PlainImage, blocks: Seq<EncryptedBlock>, rect: (u32, u32, u32, u32)) -> Option<
    PipelineError,
> {
    if region_fault(img, rect) is Some {
        region_fault(img, rect)
    } else {
        assembly_fault(blocks, img.width as int, img.height as int)
    }
}

/// Counts, from encrypted blocks of `img`, the objects that have the colour
/// in the middle of `rect`, and the shapes that have the contour signature
/// of `rect`. The blocks are put together, the reference colour is encrypted,
/// and both counts are taken with the evaluation key; the secret key
/// decrypts the mask and the sum.
pub fn count_in_blocks(
    img: &PlainImage,
    blocks: &[EncryptedBlock],
    rect: (u32, u32, u32, u32),
    client_key: &ClientKey,
    server_key: &ServerKey,
) -> (r: Result<(u32, u32), PipelineError>)
    requires
        img.wf(),
        sound_key(*client_key),
        evaluates_for(*server_key, *client_key),
        forall|n: int| 0 <= n < blocks@.len() ==> (#[trigger] blocks@[n]).encrypts(*client_key, img),
    ensures
        match r {
            Ok(counts) => {
                &&& blocks_fault(img, blocks@, rect) is None
                &&& counts.0 as nat == component_count(
                    img.width as int,
                    colour_mask(img, rect),
                )
                &&& counts.1 as nat == shape_matches(img, rect)
            },
            Err(e) => blocks_fault(img, blocks@, rect) == Some(e),
        },
{
    let ghost key = *client_key;
    let ghost w = img.width as int;
    let ghost h = img.height as int;
    if let Some(fault) = check_request(img, rect, 1) {
        return Err(fault);
    }
    let colour = match reference_pixel(img, rect) {
        Ok(colour) => colour,
        Err(e) => {
            return Err(e);
        },
    };
    let enc_img = match merge_encrypted_blocks(blocks, img.width, img.height, client_key) {
        Ok(enc_img) => enc_img,
        Err(e) => {
            return Err(e);
        },
    };
    let reference = encrypt_reference(&colour, client_key);
    proof {
        lemma_assembly_fidelity(key, img, blocks@, &enc_img);
        assert(encrypts_value(key, reference@[0], colour@[0]));
        assert(encrypts_value(key, reference@[1], colour@[1]));
        assert(encrypts_value(key, reference@[2], colour@[2]));
        assert(comparable(*server_key, key, &enc_img, reference@));
        lemma_mask_of_plain_image(key, img, &enc_img, reference@, rect);
    }
    let rgb_count = count_rgb_objects(&enc_img, reference, client_key, server_key);
    let shape_count = match count_same_shape_fhe(img, rect, client_key, server_key) {
        Ok(count) => count,
        Err(e) => {
            return Err(e);
        },
    };
    Ok((rgb_count, shape_count))
}

/// Counts the objects of `img` that have the colour in the middle of `rect`,
/// and the shapes that have the contour signature of `rect`. The image is
/// encrypted in tiles of size `block_size` first; a tile size of zero, a
/// region that is not inside the image, and an image too large for the
/// contour tracer are refused before anything is encrypted.
pub fn count_objects(
    img: &PlainImage,
    rect: (u32, u32, u32, u32),
    block_size: u32,
    client_key: &ClientKey,
    server_key: &ServerKey,
) -> (r: Result<(u32, u32), PipelineError>)
    requires
        img.wf(),
        sound_key(*client_key),
        evaluates_for(*server_key, *client_key),
    ensures
        match r {
            Ok(counts) => {
                &&& pipeline_fault(img, rect, block_size) is None
                &&& counts.0 as nat == component_count(
                    img.width as int,
                    colour_mask(img, rect),
                )
                &&& counts.1 as nat == shape_matches(img, rect)
            },
            Err(e) => pipeline_fault(img, rect, block_size) == Some(e),
        },
{
    if let Some(fault) = check_request(img, rect, block_size) {
        return Err(fault);
    }
    let blocks = match encrypt_image(img, block_size, client_key) {
        Ok(blocks) => blocks,
        Err(e) => {
            return Err(e);
        },
    };
    proof {
        lemma_tiling_never_faults(*client_key, img, block_size as int, blocks@);
    }
    count_in_blocks(img, blocks.as_slice(), rect, client_key, server_key)
}

/// An image of one colour, with at least one pixel, counts as one object,
/// whatever its size and the reference region in it.
pub proof fn lemma_uniform_image_counts_one(img: &PlainImage, rect: (u32, u32, u32, u32), colour: Seq<u8>)
    requires
        img.wf(),
        0 < img.width,
        0 < img.height,
        region_usable(rect, img.width as int, img.height as int),
        colour.len() == 3,
        forall|p: int, c: int|
            0 <= p < img.width as int * img.height as int && 0 <= c < 3 ==> #[trigger] img.pixels@[3 * p
                + c] == colour[c],
    ensures
        component_count(img.width as int, colour_mask(img, rect)) == 1,
{
    let w = img.width as int;
    let h = img.height as int;
    let mask = colour_mask(img, rect);
    let (cx, cy) = region_centre(rect);
    assert(0 < w * h) by (nonlinear_arith)
        requires
            0 < w,
            0 < h,
    ;
    lemma_offset_in_bounds(w, h, cx, cy, 0);
    let centre = cy * w + cx;
    assert forall|p: int| 0 <= p < mask.len() implies #[trigger] mask[p] by {
        assert forall|c: int| 0 <= c < 3 implies #[trigger] img.pixels@[3 * p + c] == img.channel(
            cx,
            cy,
            c,
        ) by {
            assert(img.pixels@[3 * p + c] == colour[c]);
            assert(img.channel(cx, cy, c) == img.pixels@[3 * centre + c]);
            assert(img.pixels@[3 * centre + c] == colour[c]);
        }
    }
    crate::components::lemma_full_mask_is_one_component(w, h, mask);
}

/// The mask that comes out of comparing an encrypted image with the
/// encrypted colour of one of its pixels is the mask of the plaintext pixels
/// that have that colour.
pub proof fn lemma_mask_of_plain_image(
    key: ClientKey,
    img: &PlainImage,
    enc_img: &EncryptedImage,
    reference: Seq<EncryptedByte>,
    rect: (u32, u32, u32, u32),
)
    requires
        img.wf(),
        encrypts_image(key, enc_img, img),
        reference.len() == 3,
        forall|c: int|
            0 <= c < 3 ==> encrypts_value(
                key,
                #[trigger] reference[c],
                img.channel(region_centre(rect).0, region_centre(rect).1, c),
            ),
    ensures
        match_mask(key, enc_img.data@, reference, img.width as int * img.height as int) == colour_mask(
            img,
            rect,
        ),
{
    let cells = img.width as int * img.height as int;
    let (cx, cy) = region_centre(rect);
    let left = match_mask(key, enc_img.data@, reference, cells);
    let right = colour_mask(img, rect);
    assert(0 <= cells) by (nonlinear_arith)
        requires
            cells == img.width as int * img.height as int,
            0 <= img.width,
            0 <= img.height,
    ;
    assert forall|p: int| 0 <= p < cells implies left[p] == right[p] by {
        assert(encrypts_value(key, enc_img.data@[3 * p + 0], img.pixels@[3 * p + 0]));
        assert(encrypts_value(key, enc_img.data@[3 * p + 1], img.pixels@[3 * p + 1]));
        assert(encrypts_value(key, enc_img.data@[3 * p + 2], img.pixels@[3 * p + 2]));
        assert(encrypts_value(key, reference[0], img.channel(cx, cy, 0)));
        assert(encrypts_value(key, reference[1], img.channel(cx, cy, 1)));
        assert(encrypts_value(key, reference[2], img.channel(cx, cy, 2)));
        if has_reference_colour(img, rect, p) {
            assert(img.pixels@[3 * p + 0] == img.channel(cx, cy, 0));
            assert(img.pixels@[3 * p + 1] == img.channel(cx, cy, 1));
            assert(img.pixels@[3 * p + 2] == img.channel(cx, cy, 2));
        }
    }
    assert(left =~= right);
}

} // verus!
