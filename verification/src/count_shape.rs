//! Counting the shapes of an image whose contour has as many points as the
//! largest contour of a reference region.

use vstd::prelude::*;
use tfhe::shortint::{ClientKey, ServerKey};
use crate::error::PipelineError;
use vstd::arithmetic::power2::lemma2_to64;
use crate::fhe::{evaluates_for, sound_key};
use crate::number::{add_flag, are_bits, bits_value, decrypt_number, encrypt_number, equal_numbers};
use crate::raster::{cell, lemma_offset_in_bounds, PlainImage};
use crate::vision::{contour_lengths, find_contour_lengths, luma_of, to_luma};

verus! {

/// The rectangle (`x`, `y`, `w`, `h`) lies inside an image of the given size.
pub open spec fn rect_inside(rect: (u32, u32, u32, u32), width: int, height: int) -> bool {
    rect.0 + rect.2 <= width && rect.1 + rect.3 <= height
}

/// The part of a one-channel image `width` pixels wide that lies in the
/// rectangle (`x`, `y`, `w`, `h`), row by row.
pub open spec fn cropped(width: int, pixels: Seq<u8>, rect: (u32, u32, u32, u32)) -> Seq<u8> {
    Seq::new(
        (rect.2 as int * rect.3 as int) as nat,
        |k: int| pixels[cell(width, rect.0 + k % (rect.2 as int), rect.1 + k / (rect.2 as int))],
    )
}

/// The largest of `lengths`, and 0 if there is none.
pub open spec fn max_length(lengths: Seq<usize>) -> usize
    decreases lengths.len(),
{
    if lengths.len() == 0 {
        0
    } else if lengths.last() > max_length(lengths.drop_last()) {
        lengths.last()
    } else {
        max_length(lengths.drop_last())
    }
}

/// How many of `lengths` are equal to `signature`.
pub open spec fn count_equal(lengths: Seq<usize>, signature: usize) -> nat
    decreases lengths.len(),
{
    if lengths.len() == 0 {
        0
    } else {
        count_equal(lengths.drop_last(), signature) + if lengths.last() == signature {
            1nat
        } else {
            0nat
        }
    }
}

/// The signature of the region `rect` of a grey image: the number of points
/// of its largest contour.
pub open spec fn region_signature(width: u32, gray: Seq<u8>, rect: (u32, u32, u32, u32)) -> usize {
    max_length(contour_lengths(rect.2, rect.3, cropped(width as int, gray, rect)))
}

/// No length is larger than the largest, and the largest is one of them.
pub proof fn lemma_max_length_is_largest(lengths: Seq<usize>)
    ensures
        forall|i: int| 0 <= i < lengths.len() ==> #[trigger] lengths[i] <= max_length(lengths),
        lengths.len() > 0 ==> lengths.contains(max_length(lengths)),
    decreases lengths.len(),
{
    if lengths.len() > 0 {
        let front = lengths.drop_last();
        lemma_max_length_is_largest(front);
        assert forall|i: int| 0 <= i < lengths.len() implies #[trigger] lengths[i] <= max_length(
            lengths,
        ) by {
            if i < front.len() {
                assert(front[i] == lengths[i]);
            }
        }
        if lengths.last() > max_length(front) || front.len() == 0 {
            assert(lengths[lengths.len() - 1] == max_length(lengths));
        } else {
            let i = choose|i: int| 0 <= i < front.len() && front[i] == max_length(front);
            assert(lengths[i] == max_length(lengths));
        }
    }
}

/// The count of the lengths equal to `signature` is how often `signature`
/// occurs among them.
pub proof fn lemma_count_equal_is_multiplicity(lengths: Seq<usize>, signature: usize)
    ensures
        count_equal(lengths, signature) == lengths.to_multiset().count(signature),
    decreases lengths.len(),
{
    if lengths.len() == 0 {
        lengths.to_multiset_ensures();
        assert(lengths.to_multiset().len() == 0);
    } else {
        let front = lengths.drop_last();
        lemma_count_equal_is_multiplicity(front, signature);
        assert(lengths =~= front.push(lengths.last()));
        vstd::seq_lib::to_multiset_build(front, lengths.last());
    }
}

/// A region whose contours are those of the whole image matches at least one
/// shape: the one that gave it its signature.
pub proof fn lemma_reference_matches_itself(lengths: Seq<usize>)
    requires
        lengths.len() > 0,
    ensures
        count_equal(lengths, max_length(lengths)) >= 1,
{
    lemma_max_length_is_largest(lengths);
    lemma_count_equal_is_multiplicity(lengths, max_length(lengths));
    lengths.to_multiset_ensures();
}

/// Signature and count depend on the lengths of the contours alone, not on
/// the order in which the contours were found: where a shape is moved and
/// the contours keep their lengths, both stay as they were.
pub proof fn lemma_order_of_contours_is_immaterial(first: Seq<usize>, second: Seq<usize>, signature: usize)
    requires
        first.to_multiset() == second.to_multiset(),
    ensures
        max_length(first) == max_length(second),
        count_equal(first, signature) == count_equal(second, signature),
{
    lemma_count_equal_is_multiplicity(first, signature);
    lemma_count_equal_is_multiplicity(second, signature);
    lemma_max_length_is_largest(first);
    lemma_max_length_is_largest(second);
    first.to_multiset_ensures();
    second.to_multiset_ensures();
    if first.len() > 0 {
        let a = max_length(first);
        let b = max_length(second);
        assert(second.len() == first.len()) by {
            assert(first.len() == first.to_multiset().len());
            assert(second.len() == second.to_multiset().len());
        }
        assert(second.contains(a)) by {
            assert(first.contains(a));
            assert(first.to_multiset().count(a) > 0);
            assert(second.to_multiset().count(a) > 0);
        }
        assert(first.contains(b)) by {
            assert(second.contains(b));
            assert(second.to_multiset().count(b) > 0);
            assert(first.to_multiset().count(b) > 0);
        }
        let i = choose|i: int| 0 <= i < second.len() && second[i] == a;
        let j = choose|j: int| 0 <= j < first.len() && first[j] == b;
        assert(second[i] <= b);
        assert(first[j] <= a);
    }
}

/// Copies the rectangle `rect` out of a one-channel image.
pub fn crop(width: u32, height: u32, pixels: &Vec<u8>, rect: (u32, u32, u32, u32)) -> (part: Vec<u8>)
    requires
        pixels.len() == width as int * height as int,
        rect_inside(rect, width as int, height as int),
    ensures
        part@ == cropped(width as int, pixels@, rect),
{
    let (x, y, w, h) = rect;
    let ghost wi = w as int;
    let mut part: Vec<u8> = Vec::new();
    let mut j: u32 = 0;
    while j < h
        invariant
            pixels.len() == width as int * height as int,
            x + w <= width,
            y + h <= height,
            wi == w,
            0 <= j <= h,
            part@.len() == j * wi,
            forall|k: int|
                0 <= k < part@.len() ==> #[trigger] part@[k] == pixels@[cell(
                    width as int,
                    x + k % wi,
                    y + k / wi,
                )],
        decreases h - j,
    {
        let mut i: u32 = 0;
        while i < w
            invariant
                pixels.len() == width as int * height as int,
                x + w <= width,
                y + h <= height,
                wi == w,
                0 <= j < h,
                0 <= i <= w,
                part@.len() == j * wi + i,
                forall|k: int|
                    0 <= k < part@.len() ==> #[trigger] part@[k] == pixels@[cell(
                        width as int,
                        x + k % wi,
                        y + k / wi,
                    )],
            decreases w - i,
        {
            proof {
                lemma_offset_in_bounds(width as int, height as int, x + i, y + j, 0);
                assert(0 <= (y + j) * (width as int)) by (nonlinear_arith)
                    requires
                        0 <= y + j,
                        0 <= width,
                ;
                vstd::arithmetic::div_mod::lemma_fundamental_div_mod_converse(
                    j * wi + i,
                    wi,
                    j as int,
                    i as int,
                );
            }
            let src: usize = (y + j) as usize * width as usize + (x + i) as usize;
            part.push(pixels[src]);
            i += 1;
        }
        proof {
            assert(j * wi + wi == (j + 1) * wi) by (nonlinear_arith);
        }
        j += 1;
    }
    proof {
        assert(h as int * wi == wi * h as int) by (nonlinear_arith);
        assert(part@ =~= cropped(width as int, pixels@, rect));
    }
    part
}

/// The largest of `lengths`, and 0 if there is none.
pub fn longest(lengths: &Vec<usize>) -> (r: usize)
    ensures
        r == max_length(lengths@),
{
    let mut best: usize = 0;
    let mut n: usize = 0;
    while n < lengths.len()
        invariant
            0 <= n <= lengths@.len(),
            best == max_length(lengths@.take(n as int)),
        decreases lengths@.len() - n,
    {
        proof {
            assert(lengths@.take(n + 1).drop_last() =~= lengths@.take(n as int));
        }
        if lengths[n] > best {
            best = lengths[n];
        }
        n += 1;
    }
    proof {
        assert(lengths@.take(n as int) =~= lengths@);
    }
    best
}

/// How many of `lengths` are equal to `signature`. No tolerance is applied.
pub fn count_matching(lengths: &Vec<usize>, signature: usize) -> (r: usize)
    ensures
        r == count_equal(lengths@, signature),
        r <= lengths@.len(),
{
    let mut count: usize = 0;
    let mut n: usize = 0;
    while n < lengths.len()
        invariant
            0 <= n <= lengths@.len(),
            count <= n,
            count == count_equal(lengths@.take(n as int), signature),
        decreases lengths@.len() - n,
    {
        proof {
            assert(lengths@.take(n + 1).drop_last() =~= lengths@.take(n as int));
        }
        if lengths[n] == signature {
            count += 1;
        }
        n += 1;
    }
    proof {
        assert(lengths@.take(n as int) =~= lengths@);
    }
    count
}

/// The signature of the region `rect` of a grey image: the number of points
/// of the largest contour that lies in it, and 0 if it holds no contour.
pub fn detect_shape(width: u32, height: u32, gray: &Vec<u8>, rect: (u32, u32, u32, u32)) -> (signature:
    usize)
    requires
        gray.len() == width as int * height as int,
        width as int * height as int <= i32::MAX,
        rect_inside(rect, width as int, height as int),
    ensures
        signature == region_signature(width, gray@, rect),
{
    let part = crop(width, height, gray, rect);
    proof {
        assert(rect.2 as int * rect.3 as int <= width as int * height as int) by (nonlinear_arith)
            requires
                0 <= rect.2 <= width,
                0 <= rect.3 <= height,
        ;
    }
    let lengths = find_contour_lengths(rect.2, rect.3, &part);
    longest(&lengths)
}

/// Why the shapes of an image of the given size cannot be counted against
/// the region `rect`, if they cannot.
pub open spec fn shape_fault(width: u32, height: u32, rect: (u32, u32, u32, u32)) -> Option<PipelineError> {
    if !rect_inside(rect, width as int, height as int) {
        Some(PipelineError::RegionOutOfBounds)
    } else if width as int * height as int > i32::MAX {
        Some(PipelineError::ImageTooLarge)
    } else {
        None
    }
}

/// The number of contours of `img` that have as many points as the largest
/// contour of its region `rect`.
pub open spec fn shape_matches(img: &PlainImage, rect: (u32, u32, u32, u32)) -> nat {
    let gray = luma_of(img.width, img.height, img.pixels@);
    count_equal(contour_lengths(img.width, img.height, gray), region_signature(img.width, gray, rect))
}

fn check_region(width: u32, height: u32, rect: (u32, u32, u32, u32)) -> (r: Option<PipelineError>)
    ensures
        r == shape_fault(width, height, rect),
{
    if rect.0 as u64 + rect.2 as u64 > width as u64 || rect.1 as u64 + rect.3 as u64 > height as u64 {
        return Some(PipelineError::RegionOutOfBounds);
    }
    assert(width as int * height as int <= 0xffff_ffff * 0xffff_ffff) by (nonlinear_arith)
        requires
            0 <= width <= 0xffff_ffff,
            0 <= height <= 0xffff_ffff,
    ;
    if width as u64 * height as u64 > 0x7fff_ffff {
        return Some(PipelineError::ImageTooLarge);
    }
    None
}

/// Counts the shapes of `img` that have the contour signature of the region
/// `rect`: the image is turned to grey, the signature of the region is taken,
/// and the contours of the whole image with exactly that many points are
/// counted.
pub fn count_same_shape(img: &PlainImage, rect: (u32, u32, u32, u32)) -> (r: Result<u32, PipelineError>)
    requires
        img.wf(),
    ensures
        match r {
            Ok(count) => shape_fault(img.width, img.height, rect) is None && count as nat
                == shape_matches(img, rect),
            Err(e) => shape_fault(img.width, img.height, rect) == Some(e),
        },
{
    if let Some(fault) = check_region(img.width, img.height, rect) {
        return Err(fault);
    }
    let gray = to_luma(img.width, img.height, &img.pixels);
    let signature = detect_shape(img.width, img.height, &gray, rect);
    let lengths = find_contour_lengths(img.width, img.height, &gray);
    let count = count_matching(&lengths, signature);
    Ok(count as u32)
}

/// Compares each of `lengths` with `signature` under encryption and counts
/// the equal ones under encryption; only the count is decrypted. Lengths
/// and signature are encrypted in 64 bits, the count in 32.
pub fn count_matching_fhe(lengths: &Vec<usize>, signature: usize, client_key: &ClientKey, server_key: &ServerKey) -> (r:
    u32)
    requires
        sound_key(*client_key),
        evaluates_for(*server_key, *client_key),
        lengths@.len() <= u32::MAX,
    ensures
        r == count_equal(lengths@, signature),
{
    let ghost key = *client_key;
    proof {
        lemma2_to64();
        vstd::arithmetic::power2::lemma2_to64_rest();
    }
    let ref_ct = encrypt_number(client_key, signature as u64, 64);
    let mut count_ct = encrypt_number(client_key, 0, 32);
    let mut n: usize = 0;
    while n < lengths.len()
        invariant
            0 <= n <= lengths@.len(),
            lengths@.len() <= u32::MAX,
            key == *client_key,
            sound_key(key),
            evaluates_for(*server_key, key),
            ref_ct@.len() == 64,
            are_bits(key, ref_ct@),
            bits_value(key, ref_ct@) == signature,
            count_ct@.len() == 32,
            are_bits(key, count_ct@),
            bits_value(key, count_ct@) == count_equal(lengths@.take(n as int), signature),
            count_equal(lengths@.take(n as int), signature) <= n,
        decreases lengths@.len() - n,
    {
        proof {
            lemma2_to64();
            vstd::arithmetic::power2::lemma2_to64_rest();
            assert(lengths@.take(n + 1).drop_last() =~= lengths@.take(n as int));
            assert(lengths@.take(n + 1).last() == lengths@[n as int]);
        }
        let len_ct = encrypt_number(client_key, lengths[n] as u64, 64);
        let eq = equal_numbers(server_key, &len_ct, &ref_ct, Ghost(key));
        let sum = add_flag(server_key, &count_ct, &eq, Ghost(key));
        count_ct = sum;
        n += 1;
    }
    proof {
        assert(lengths@.take(n as int) =~= lengths@);
    }
    let count = decrypt_number(client_key, &count_ct);
    count as u32
}

/// Counts the shapes of `img` that have the contour signature of the region
/// `rect`, comparing and counting under encryption: the number of points of
/// every contour and the signature are encrypted, compared with the
/// evaluation key, the results added up with it, and the sum decrypted once.
pub fn count_same_shape_fhe(
    img: &PlainImage,
    rect: (u32, u32, u32, u32),
    client_key: &ClientKey,
    server_key: &ServerKey,
) -> (r: Result<u32, PipelineError>)
    requires
        img.wf(),
        sound_key(*client_key),
        evaluates_for(*server_key, *client_key),
    ensures
        match r {
            Ok(count) => shape_fault(img.width, img.height, rect) is None && count as nat
                == shape_matches(img, rect),
            Err(e) => shape_fault(img.width, img.height, rect) == Some(e),
        },
{
    if let Some(fault) = check_region(img.width, img.height, rect) {
        return Err(fault);
    }
    let gray = to_luma(img.width, img.height, &img.pixels);
    let signature = detect_shape(img.width, img.height, &gray, rect);
    let lengths = find_contour_lengths(img.width, img.height, &gray);
    Ok(count_matching_fhe(&lengths, signature, client_key, server_key))
}

} // verus!
