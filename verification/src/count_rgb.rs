//! Counting the objects of an encrypted image that have a reference colour.

use vstd::prelude::*;
use tfhe::shortint::{Ciphertext, ClientKey, ServerKey};
use crate::channel::{byte_operands, both, is_flag, EncryptedByte};
use crate::components::{
    adjacent, closed_marking, component_count, connected, is_open, roots_below, scan_state, unmarked,
    lemma_adjacent_below, lemma_adjacent_left, lemma_adjacent_right, lemma_cell_place,
    lemma_closed_set_holds_region, lemma_connected_refl, lemma_connected_step,
    lemma_full_mask_is_one_component, lemma_neighbour_cases, lemma_root_iff_unmarked,
    lemma_roots_bounded, lemma_roots_next, lemma_scan_closed, lemma_scan_fill, lemma_scan_skip,
    lemma_unmarked_update,
};
use crate::encrypt_image::{
    assembled, assembly_fault, encrypts_image, merge_encrypted_blocks, EncryptedBlock, EncryptedImage,
};
use crate::error::PipelineError;
use crate::fhe::{evaluates_for, operands, sound_key};
use crate::raster::PlainImage;

verus! {

/// Cell `d` waits on the work list.
pub open spec fn on_stack(stack: Seq<usize>, d: int) -> bool {
    exists|k: int| 0 <= k < stack.len() && #[trigger] stack[k] as int == d
}

/// Puts `cell` on the work list if it is `true` and not visited yet.
fn push_open(map: &[bool], visited: &Vec<bool>, stack: &mut Vec<usize>, cell: usize)
    requires
        cell < map@.len(),
        visited@.len() == map@.len(),
    ensures
        forall|d: int| #[trigger] on_stack(old(stack)@, d) ==> on_stack(final(stack)@, d),
        forall|d: int| #[trigger]
            on_stack(final(stack)@, d) ==> on_stack(old(stack)@, d) || (d == cell && map@[cell as int]
                && !visited@[cell as int]),
        map@[cell as int] && !visited@[cell as int] ==> on_stack(final(stack)@, cell as int),
{
    if map[cell] && !visited[cell] {
        let ghost before = stack@;
        stack.push(cell);
        proof {
            assert forall|d: int| #[trigger] on_stack(before, d) implies on_stack(stack@, d) by {
                let k = choose|k: int| 0 <= k < before.len() && #[trigger] before[k] as int == d;
                assert(stack@[k] as int == d);
            }
            assert(stack@[stack@.len() - 1] as int == cell);
            assert forall|d: int| #[trigger] on_stack(stack@, d) implies on_stack(before, d) || d
                == cell by {
                let k = choose|k: int| 0 <= k < stack@.len() && #[trigger] stack@[k] as int == d;
                if k < before.len() {
                    assert(before[k] as int == d);
                }
            }
        }
    }
}

/// Marks every cell of the region of `seed` as visited, working off a list
/// of cells that are still to be looked at.
fn flood_fill(width: u32, height: u32, map: &[bool], visited: &mut Vec<bool>, seed: usize)
    requires
        map@.len() == width as int * height as int,
        seed < map@.len(),
        map@[seed as int],
        !old(visited)@[seed as int],
        closed_marking(width as int, map@, old(visited)@),
    ensures
        final(visited)@.len() == map@.len(),
        forall|c: int|
            0 <= c < map@.len() ==> (#[trigger] final(visited)@[c] <==> old(visited)@[c] || connected(
                width as int,
                map@,
                seed as int,
                c,
            )),
{
    let ghost w = width as int;
    let ghost h = height as int;
    let ghost mask = map@;
    let ghost before = visited@;
    let wd = width as usize;
    let hd = height as usize;
    let n = map.len();
    let mut stack: Vec<usize> = Vec::new();
    stack.push(seed);
    proof {
        lemma_connected_refl(w, mask, seed as int);
        assert(stack@[0] as int == seed);
        assert(w > 0) by (nonlinear_arith)
            requires
                0 <= seed < w * h,
                0 <= w,
        ;
    }
    while stack.len() > 0
        invariant
            map@ == mask,
            w == width,
            h == height,
            wd == width,
            hd == height,
            w > 0,
            n == mask.len(),
            mask.len() == w * h,
            visited@.len() == mask.len(),
            seed < mask.len(),
            forall|c: int| 0 <= c < mask.len() && before[c] ==> #[trigger] visited@[c],
            forall|c: int|
                0 <= c < mask.len() && #[trigger] visited@[c] && !before[c] ==> connected(
                    w,
                    mask,
                    seed as int,
                    c,
                ),
            forall|d: int| #[trigger]
                on_stack(stack@, d) ==> 0 <= d < mask.len() && connected(w, mask, seed as int, d),
            forall|c: int, d: int|
                0 <= c < mask.len() && visited@[c] && #[trigger] adjacent(w, c, d) && is_open(mask, d)
                    ==> visited@[d] || on_stack(stack@, d),
            visited@[seed as int] || on_stack(stack@, seed as int),
        decreases unmarked(visited@), stack.len(),
    {
        let ghost full = stack@;
        let ghost marks = visited@;
        let cur = stack.pop().unwrap();
        let ghost s0 = stack@;
        proof {
            assert(full[full.len() - 1] as int == cur);
            assert(on_stack(full, cur as int));
            assert forall|d: int| #[trigger] on_stack(s0, d) implies on_stack(full, d) by {
                let k = choose|k: int| 0 <= k < s0.len() && #[trigger] s0[k] as int == d;
                assert(full[k] as int == d);
            }
            assert forall|d: int| #[trigger] on_stack(full, d) implies on_stack(s0, d) || d == cur by {
                let k = choose|k: int| 0 <= k < full.len() && #[trigger] full[k] as int == d;
                if k < s0.len() {
                    assert(s0[k] as int == d);
                }
            }
        }
        if !visited[cur] {
            visited[cur] = true;
            proof {
                lemma_unmarked_update(marks, cur as int);
                lemma_cell_place(w, h, cur as int);
            }
            let cx = cur % wd;
            let cy = cur / wd;
            if cx + 1 < wd {
                proof {
                    lemma_adjacent_right(w, cur as int);
                    let ci = cur as int;
                    assert(ci + 1 < w * h) by (nonlinear_arith)
                        requires
                            ci == (ci / w) * w + ci % w,
                            ci % w + 1 < w,
                            ci / w < h,
                    ;
                }
                push_open(map, visited, &mut stack, cur + 1);
            }
            let ghost s1 = stack@;
            if cx > 0 {
                proof {
                    lemma_adjacent_left(w, cur as int);
                }
                push_open(map, visited, &mut stack, cur - 1);
            }
            let ghost s2 = stack@;
            if cy + 1 < hd {
                proof {
                    lemma_adjacent_below(w, cur as int);
                    let ci = cur as int;
                    assert(ci + w < w * h) by (nonlinear_arith)
                        requires
                            ci == (ci / w) * w + ci % w,
                            ci % w < w,
                            ci / w + 1 < h,
                    ;
                }
                push_open(map, visited, &mut stack, cur + wd);
            }
            let ghost s3 = stack@;
            if cy > 0 {
                proof {
                    let ci = cur as int;
                    assert(ci - w >= 0) by (nonlinear_arith)
                        requires
                            ci == (ci / w) * w + ci % w,
                            0 <= ci % w,
                            ci / w > 0,
                            w > 0,
                    ;
                    lemma_adjacent_below(w, cur - w);
                }
                push_open(map, visited, &mut stack, cur - wd);
            }
            proof {
                assert forall|d: int| #[trigger] on_stack(stack@, d) implies 0 <= d < mask.len()
                    && connected(w, mask, seed as int, d) by {
                    if !on_stack(s0, d) {
                        assert(adjacent(w, cur as int, d));
                        lemma_connected_step(w, mask, seed as int, cur as int, d);
                    }
                }
                assert forall|c: int, d: int|
                    0 <= c < mask.len() && visited@[c] && #[trigger] adjacent(w, c, d) && is_open(
                        mask,
                        d,
                    ) implies visited@[d] || on_stack(stack@, d) by {
                    if c == cur {
                        lemma_neighbour_cases(w, h, cur as int, d);
                    } else {
                        assert(marks[c]);
                        if !marks[d] {
                            assert(on_stack(full, d));
                        }
                    }
                }
            }
        } else {
            proof {
                assert forall|c: int, d: int|
                    0 <= c < mask.len() && visited@[c] && #[trigger] adjacent(w, c, d) && is_open(
                        mask,
                        d,
                    ) implies visited@[d] || on_stack(stack@, d) by {
                    if !visited@[d] {
                        assert(on_stack(full, d));
                    }
                }
            }
        }
    }
    proof {
        assert(closed_marking(w, mask, visited@));
        assert forall|c: int| 0 <= c < mask.len() implies (#[trigger] visited@[c] <==> before[c]
            || connected(w, mask, seed as int, c)) by {
            if connected(w, mask, seed as int, c) {
                lemma_closed_set_holds_region(w, mask, visited@, seed as int, c);
            }
        }
    }
}

/// Counts the maximal four-connected regions of `true` cells of a mask.
/// The cells are scanned row by row; each `true` cell that no earlier region
/// holds starts a new region, which is then marked as a whole.
pub fn ccl(width: u32, height: u32, map: &[bool]) -> (count: u32)
    requires
        map@.len() == width as int * height as int,
        width as int * height as int <= u32::MAX,
    ensures
        count as nat == component_count(width as int, map@),
{
    let ghost w = width as int;
    let ghost h = height as int;
    let ghost mask = map@;
    let wd = width as usize;
    let mut visited: Vec<bool> = vec![false; map.len()];
    let mut count: u32 = 0;
    proof {
        assert(scan_state(w, mask, visited@, 0));
        lemma_roots_bounded(w, mask, 0);
    }
    let mut y: u32 = 0;
    while y < height
        invariant
            map@ == mask,
            w == width,
            h == height,
            wd == width,
            mask.len() == w * h,
            w * h <= u32::MAX,
            0 <= y <= height,
            scan_state(w, mask, visited@, y * w),
            count == roots_below(w, mask, y * w).len(),
        decreases height - y,
    {
        let mut x: u32 = 0;
        while x < width
            invariant
                map@ == mask,
                w == width,
                h == height,
                wd == width,
                mask.len() == w * h,
                w * h <= u32::MAX,
                0 <= y < height,
                0 <= x <= width,
                scan_state(w, mask, visited@, y * w + x),
                count == roots_below(w, mask, y * w + x).len(),
            decreases width - x,
        {
            proof {
                assert(0 <= y * w && y * w + x < w * h) by (nonlinear_arith)
                    requires
                        0 <= y < h,
                        0 <= x < w,
                ;
            }
            let idx = y as usize * wd + x as usize;
            proof {
                lemma_root_iff_unmarked(w, mask, visited@, idx as int);
                lemma_roots_next(w, mask, idx as int);
                lemma_roots_bounded(w, mask, idx as int);
            }
            if map[idx] && !visited[idx] {
                count += 1;
                let ghost marks = visited@;
                proof {
                    lemma_scan_closed(w, mask, marks, idx as int);
                }
                flood_fill(width, height, map, &mut visited, idx);
                proof {
                    lemma_scan_fill(w, mask, marks, visited@, idx as int);
                }
            } else {
                proof {
                    lemma_scan_skip(w, mask, visited@, idx as int);
                }
            }
            x += 1;
        }
        proof {
            assert(y * w + w == (y + 1) * w) by (nonlinear_arith);
        }
        y += 1;
    }
    proof {
        assert(h * w == w * h) by (nonlinear_arith);
    }
    count
}

/// The three channels of a reference colour were encrypted under `key`.
pub open spec fn reference_under(key: ClientKey, reference: Seq<EncryptedByte>) -> bool {
    &&& reference.len() == 3
    &&& crate::channel::ciphertext_of(key, reference[0])
    &&& crate::channel::ciphertext_of(key, reference[1])
    &&& crate::channel::ciphertext_of(key, reference[2])
}

/// Pixel `p` of the encrypted buffer `data` has the reference colour: each
/// of its three channels decrypts to what the reference's channel decrypts to.
pub open spec fn pixel_matches(key: ClientKey, data: Seq<EncryptedByte>, reference: Seq<EncryptedByte>, p: int) -> bool {
    &&& crate::channel::decrypted(key, data[3 * p]) == crate::channel::decrypted(key, reference[0])
    &&& crate::channel::decrypted(key, data[3 * p + 1]) == crate::channel::decrypted(key, reference[1])
    &&& crate::channel::decrypted(key, data[3 * p + 2]) == crate::channel::decrypted(key, reference[2])
}

/// The mask of the pixels that have the reference colour, for the first
/// `cells` pixels of `data`.
pub open spec fn match_mask(key: ClientKey, data: Seq<EncryptedByte>, reference: Seq<EncryptedByte>, cells: int) -> Seq<
    bool,
> {
    Seq::new(cells as nat, |p: int| pixel_matches(key, data, reference, p))
}

/// `server` can compare the image with the reference colour: it is the
/// evaluation key of the sound key `key`, under which both were encrypted.
pub open spec fn comparable(server: ServerKey, key: ClientKey, img: &EncryptedImage, reference: Seq<EncryptedByte>) -> bool {
    sound_key(key) && evaluates_for(server, key) && img.under(key) && reference_under(key, reference)
}

/// `enc_mask` holds, for each of the first `cells` pixels of `data`, an
/// encryption of 1 if the pixel has the reference colour and of 0 if not.
pub open spec fn is_encrypted_mask(
    key: ClientKey,
    enc_mask: Seq<Ciphertext>,
    data: Seq<EncryptedByte>,
    reference: Seq<EncryptedByte>,
    cells: int,
) -> bool {
    &&& enc_mask.len() == cells
    &&& forall|p: int|
        0 <= p < cells ==> is_flag(key, #[trigger] enc_mask[p], pixel_matches(key, data, reference, p))
}

/// Compares every pixel of the image with the reference colour under
/// encryption: channel by channel, the three results joined by two ANDs.
/// Only the evaluation key is used.
pub fn match_pixels(enc_img: &EncryptedImage, ref_rgb: &[EncryptedByte; 3], server_key: &ServerKey) -> (enc_mask:
    Vec<Ciphertext>)
    requires
        enc_img.wf(),
        exists|key: ClientKey| comparable(*server_key, key, enc_img, ref_rgb@),
    ensures
        enc_mask@.len() == enc_img.width as int * enc_img.height as int,
        forall|key: ClientKey| #[trigger]
            comparable(*server_key, key, enc_img, ref_rgb@) ==> is_encrypted_mask(
                key,
                enc_mask@,
                enc_img.data@,
                ref_rgb@,
                enc_img.width as int * enc_img.height as int,
            ),
{
    let ghost cells = enc_img.width as int * enc_img.height as int;
    let ghost data = enc_img.data@;
    let ghost reference = ref_rgb@;
    let ghost witness = choose|key: ClientKey| comparable(*server_key, key, enc_img, ref_rgb@);
    let count = enc_img.data.len() / 3;
    let mut enc_mask: Vec<Ciphertext> = Vec::new();
    let mut p: usize = 0;
    while p < count
        invariant
            0 <= p <= count,
            count == cells,
            data == enc_img.data@,
            enc_img.data.len() == cells * 3,
            reference == ref_rgb@,
            comparable(*server_key, witness, enc_img, reference),
            enc_mask@.len() == p,
            forall|key: ClientKey| #[trigger]
                comparable(*server_key, key, enc_img, reference) ==> is_encrypted_mask(
                    key,
                    enc_mask@,
                    data,
                    reference,
                    p as int,
                ),
        decreases count - p,
    {
        let ghost before = enc_mask@;
        let pr = &enc_img.data[3 * p];
        let pg = &enc_img.data[3 * p + 1];
        let pb = &enc_img.data[3 * p + 2];
        proof {
            assert(byte_operands(*server_key, witness, *pr, ref_rgb@[0]));
            assert(byte_operands(*server_key, witness, *pg, ref_rgb@[1]));
            assert(byte_operands(*server_key, witness, *pb, ref_rgb@[2]));
        }
        let r = crate::channel::equal(server_key, pr, &ref_rgb[0]);
        let g = crate::channel::equal(server_key, pg, &ref_rgb[1]);
        let b = crate::channel::equal(server_key, pb, &ref_rgb[2]);
        proof {
            assert(operands(*server_key, witness, r, g));
        }
        let rg = both(server_key, &r, &g);
        proof {
            assert(operands(*server_key, witness, rg, b));
        }
        let rgb = both(server_key, &rg, &b);
        enc_mask.push(rgb);
        proof {
            assert forall|key: ClientKey| #[trigger]
                comparable(*server_key, key, enc_img, reference) implies is_encrypted_mask(
                key,
                enc_mask@,
                data,
                reference,
                p + 1,
            ) by {
                assert(is_encrypted_mask(key, before, data, reference, p as int));
                assert(byte_operands(*server_key, key, *pr, ref_rgb@[0]));
                assert(byte_operands(*server_key, key, *pg, ref_rgb@[1]));
                assert(byte_operands(*server_key, key, *pb, ref_rgb@[2]));
                let sr = crate::channel::decrypted(key, *pr) == crate::channel::decrypted(key, ref_rgb@[0]);
                let sg = crate::channel::decrypted(key, *pg) == crate::channel::decrypted(key, ref_rgb@[1]);
                let sb = crate::channel::decrypted(key, *pb) == crate::channel::decrypted(key, ref_rgb@[2]);
                assert(is_flag(key, r, sr) && is_flag(key, g, sg) && is_flag(key, b, sb));
                assert(operands(*server_key, key, r, g));
                assert(is_flag(key, rg, sr && sg));
                assert(operands(*server_key, key, rg, b));
                assert(is_flag(key, rgb, (sr && sg) && sb));
                assert forall|q: int| 0 <= q < p + 1 implies is_flag(
                    key,
                    #[trigger] enc_mask@[q],
                    pixel_matches(key, data, reference, q),
                ) by {
                    if q < p {
                        assert(enc_mask@[q] == before[q]);
                    }
                }
            }
        }
        p += 1;
    }
    enc_mask
}

/// Decrypts an encrypted mask: an entry is `true` where the ciphertext
/// decrypts to anything but zero. This is the one place of the homomorphic
/// pipeline that uses the secret key.
pub fn decode_mask(enc_mask: &Vec<Ciphertext>, client_key: &ClientKey) -> (mask: Vec<bool>)
    requires
        sound_key(*client_key),
        forall|p: int|
            0 <= p < enc_mask@.len() ==> crate::fhe::ciphertext_of(*client_key, #[trigger] enc_mask@[p]),
    ensures
        mask@.len() == enc_mask@.len(),
        forall|p: int|
            0 <= p < mask@.len() ==> #[trigger] mask@[p] == (crate::fhe::decrypted(
                *client_key,
                enc_mask@[p],
            ) != 0),
{
    let mut mask: Vec<bool> = Vec::new();
    let mut p: usize = 0;
    while p < enc_mask.len()
        invariant
            0 <= p <= enc_mask@.len(),
            sound_key(*client_key),
            mask@.len() == p,
            forall|q: int|
                0 <= q < enc_mask@.len() ==> crate::fhe::ciphertext_of(*client_key, #[trigger] enc_mask@[q]),
            forall|q: int|
                0 <= q < p ==> #[trigger] mask@[q] == (crate::fhe::decrypted(*client_key, enc_mask@[q])
                    != 0),
        decreases enc_mask@.len() - p,
    {
        let value = crate::fhe::decrypt(client_key, &enc_mask[p]);
        mask.push(value != 0);
        p += 1;
    }
    mask
}

/// Decrypts every pixel of the image and the reference colour, and compares
/// them in the clear.
pub fn match_pixels_decrypted(enc_img: &EncryptedImage, ref_rgb: &[EncryptedByte; 3], client_key: &ClientKey) -> (mask:
    Vec<bool>)
    requires
        enc_img.wf(),
        sound_key(*client_key),
        enc_img.under(*client_key),
        reference_under(*client_key, ref_rgb@),
    ensures
        mask@ == match_mask(
            *client_key,
            enc_img.data@,
            ref_rgb@,
            enc_img.width as int * enc_img.height as int,
        ),
{
    let ghost cells = enc_img.width as int * enc_img.height as int;
    let ref_r = crate::channel::decrypt(client_key, &ref_rgb[0]);
    let ref_g = crate::channel::decrypt(client_key, &ref_rgb[1]);
    let ref_b = crate::channel::decrypt(client_key, &ref_rgb[2]);
    let count = enc_img.data.len() / 3;
    let mut mask: Vec<bool> = Vec::new();
    let mut p: usize = 0;
    while p < count
        invariant
            0 <= p <= count,
            count == cells,
            sound_key(*client_key),
            enc_img.data.len() == cells * 3,
            enc_img.under(*client_key),
            ref_r == crate::channel::decrypted(*client_key, ref_rgb@[0]),
            ref_g == crate::channel::decrypted(*client_key, ref_rgb@[1]),
            ref_b == crate::channel::decrypted(*client_key, ref_rgb@[2]),
            mask@.len() == p,
            forall|q: int|
                0 <= q < p ==> #[trigger] mask@[q] == pixel_matches(*client_key, enc_img.data@, ref_rgb@, q),
        decreases count - p,
    {
        let rv = crate::channel::decrypt(client_key, &enc_img.data[3 * p]);
        let gv = crate::channel::decrypt(client_key, &enc_img.data[3 * p + 1]);
        let bv = crate::channel::decrypt(client_key, &enc_img.data[3 * p + 2]);
        mask.push(rv == ref_r && gv == ref_g && bv == ref_b);
        p += 1;
    }
    assert(mask@ =~= match_mask(*client_key, enc_img.data@, ref_rgb@, cells));
    mask
}

/// Counts the objects of the encrypted image that have the reference colour:
/// the colour is compared under encryption, the resulting mask is decrypted,
/// and the four-connected regions of matching pixels are counted.
pub fn count_rgb_objects(
    enc_img: &EncryptedImage,
    ref_rgb: [EncryptedByte; 3],
    client_key: &ClientKey,
    server_key: &ServerKey,
) -> (count: u32)
    requires
        enc_img.wf(),
        enc_img.width as int * enc_img.height as int <= u32::MAX,
        comparable(*server_key, *client_key, enc_img, ref_rgb@),
    ensures
        count as nat == component_count(
            enc_img.width as int,
            match_mask(
                *client_key,
                enc_img.data@,
                ref_rgb@,
                enc_img.width as int * enc_img.height as int,
            ),
        ),
{
    let enc_mask = match_pixels(enc_img, &ref_rgb, server_key);
    let mask = decode_mask(&enc_mask, client_key);
    proof {
        lemma_matchers_agree(
            *client_key,
            enc_mask@,
            mask@,
            enc_img.data@,
            ref_rgb@,
            enc_img.width as int * enc_img.height as int,
        );
    }
    ccl(enc_img.width, enc_img.height, mask.as_slice())
}

/// Counts the objects of the encrypted image that have the reference colour,
/// comparing decrypted values.
pub fn count_rgb_objects_decrypted(enc_img: &EncryptedImage, ref_rgb: [EncryptedByte; 3], client_key: &ClientKey) -> (count:
    u32)
    requires
        enc_img.wf(),
        enc_img.width as int * enc_img.height as int <= u32::MAX,
        sound_key(*client_key),
        enc_img.under(*client_key),
        reference_under(*client_key, ref_rgb@),
    ensures
        count as nat == component_count(
            enc_img.width as int,
            match_mask(
                *client_key,
                enc_img.data@,
                ref_rgb@,
                enc_img.width as int * enc_img.height as int,
            ),
        ),
{
    let mask = match_pixels_decrypted(enc_img, &ref_rgb, client_key);
    ccl(enc_img.width, enc_img.height, mask.as_slice())
}

/// Comparing under encryption and decrypting the result gives the mask that
/// decrypting first and comparing in the clear gives, and so the same number
/// of objects.
pub proof fn lemma_matchers_agree(
    key: ClientKey,
    enc_mask: Seq<Ciphertext>,
    mask: Seq<bool>,
    data: Seq<EncryptedByte>,
    reference: Seq<EncryptedByte>,
    cells: int,
)
    requires
        0 <= cells,
        is_encrypted_mask(key, enc_mask, data, reference, cells),
        mask.len() == enc_mask.len(),
        forall|p: int|
            0 <= p < mask.len() ==> #[trigger] mask[p] == (crate::fhe::decrypted(key, enc_mask[p]) != 0),
    ensures
        mask == match_mask(key, data, reference, cells),
        forall|width: int|
            component_count(width, mask) == #[trigger] component_count(
                width,
                match_mask(key, data, reference, cells),
            ),
{
    assert forall|p: int| 0 <= p < cells implies mask[p] == match_mask(key, data, reference, cells)[p] by {
        assert(is_flag(key, enc_mask[p], pixel_matches(key, data, reference, p)));
    }
    assert(mask =~= match_mask(key, data, reference, cells));
}

/// Every ciphertext of every block was encrypted under `key`.
pub open spec fn blocks_under(key: ClientKey, blocks: Seq<EncryptedBlock>) -> bool {
    forall|n: int, k: int|
        0 <= n < blocks.len() && 0 <= k < blocks[n].data@.len() ==> crate::channel::ciphertext_of(
            key,
            #[trigger] blocks[n].data@[k],
        )
}

/// Blocks that were encrypted under `key` make up an image that was.
pub proof fn lemma_assembled_under(key: ClientKey, blocks: Seq<EncryptedBlock>, img: &EncryptedImage)
    requires
        blocks_under(key, blocks),
        assembly_fault(blocks, img.width as int, img.height as int) is None,
        img.wf(),
        forall|n: int|
            0 <= n < blocks.len() ==> crate::encrypt_image::holds_block(
                img.data@,
                img.width as int,
                #[trigger] blocks[n],
            ),
    ensures
        img.under(key),
{
    let w = img.width as int;
    let h = img.height as int;
    assert forall|k: int| 0 <= k < img.data@.len() implies crate::channel::ciphertext_of(
        key,
        #[trigger] img.data@[k],
    ) by {
        assert(w > 0) by (nonlinear_arith)
            requires
                0 <= k < w * h * 3,
                0 <= w,
        ;
        crate::raster::lemma_offset_decompose(w, h, k);
        let px = (k / 3) % w;
        let py = (k / 3) / w;
        let c = k % 3;
        assert(crate::encrypt_image::covered(blocks, px, py));
        let n = choose|n: int| 0 <= n < blocks.len() && #[trigger] blocks[n].covers(px, py);
        let b = blocks[n];
        assert(b.wf() && b.inside(w, h));
        assert(crate::encrypt_image::holds_block(img.data@, w, b));
        let src = crate::raster::offset(b.width as int, px - b.x, py - b.y, c);
        crate::raster::lemma_offset_in_bounds(b.width as int, b.height as int, px - b.x, py - b.y, c);
        assert(img.data@[crate::raster::offset(w, b.x + (px - b.x), b.y + (py - b.y), c)] == b.data@[src]);
        assert(crate::channel::ciphertext_of(key, blocks[n].data@[src]));
    }
}

/// Counts the objects of the reference colour in the image that the
/// encrypted blocks make up, comparing decrypted values: the blocks are put
/// together, every pixel and the reference are decrypted and compared in the
/// clear, and the regions of matching pixels are counted. The evaluation key
/// is not used. The count is the one that `count_rgb_objects` gives for the
/// blocks put together by `merge_encrypted_blocks`.
pub fn count_rgb(
    blocks: &[EncryptedBlock],
    width: u32,
    height: u32,
    ref_rgb: [EncryptedByte; 3],
    client_key: &ClientKey,
    _server_key: &ServerKey,
) -> (r: Result<u32, PipelineError>)
    requires
        width as int * height as int <= u32::MAX,
        width as int * height as int * 3 <= usize::MAX,
        sound_key(*client_key),
        blocks_under(*client_key, blocks@),
        reference_under(*client_key, ref_rgb@),
    ensures
        match r {
            Ok(count) => {
                &&& assembly_fault(blocks@, width as int, height as int) is None
                &&& count as nat == component_count(
                    width as int,
                    match_mask(
                        *client_key,
                        assembled(blocks@, width as int, height as int),
                        ref_rgb@,
                        width as int * height as int,
                    ),
                )
            },
            Err(e) => assembly_fault(blocks@, width as int, height as int) == Some(e),
        },
{
    let enc_img = match merge_encrypted_blocks(blocks, width, height, client_key) {
        Ok(enc_img) => enc_img,
        Err(e) => {
            return Err(e);
        },
    };
    proof {
        lemma_assembled_under(*client_key, blocks@, &enc_img);
    }
    Ok(count_rgb_objects_decrypted(&enc_img, ref_rgb, client_key))
}

/// In an image of one colour, with at least one pixel, the pixels of that
/// colour are one object: with a reference that encrypts the image's colour,
/// the mask is `true` everywhere and has one region, whatever the size of the
/// image and of the tiles it was encrypted in.
pub proof fn lemma_uniform_image_is_one_object(
    key: ClientKey,
    img: &PlainImage,
    enc_img: &EncryptedImage,
    reference: Seq<EncryptedByte>,
    colour: Seq<u8>,
)
    requires
        img.wf(),
        0 < img.width,
        0 < img.height,
        colour.len() == 3,
        forall|p: int, c: int|
            0 <= p < img.width as int * img.height as int && 0 <= c < 3 ==> #[trigger] img.pixels@[3 * p
                + c] == colour[c],
        encrypts_image(key, enc_img, img),
        reference.len() == 3,
        forall|c: int|
            0 <= c < 3 ==> crate::channel::encrypts_value(key, #[trigger] reference[c], colour[c]),
    ensures
        component_count(
            img.width as int,
            match_mask(key, enc_img.data@, reference, img.width as int * img.height as int),
        ) == 1,
{
    let w = img.width as int;
    let h = img.height as int;
    let mask = match_mask(key, enc_img.data@, reference, w * h);
    assert(0 < w * h) by (nonlinear_arith)
        requires
            0 < w,
            0 < h,
    ;
    assert forall|p: int| 0 <= p < mask.len() implies #[trigger] mask[p] by {
        assert(crate::channel::encrypts_value(key, reference[0], colour[0]));
        assert(crate::channel::encrypts_value(key, reference[1], colour[1]));
        assert(crate::channel::encrypts_value(key, reference[2], colour[2]));
        assert(img.pixels@[3 * p + 0] == colour[0]);
        assert(img.pixels@[3 * p + 1] == colour[1]);
        assert(img.pixels@[3 * p + 2] == colour[2]);
        assert(crate::channel::encrypts_value(key, enc_img.data@[3 * p], img.pixels@[3 * p]));
        assert(crate::channel::encrypts_value(key, enc_img.data@[3 * p + 1], img.pixels@[3 * p + 1]));
        assert(crate::channel::encrypts_value(key, enc_img.data@[3 * p + 2], img.pixels@[3 * p + 2]));
        assert(pixel_matches(key, enc_img.data@, reference, p));
    }
    lemma_full_mask_is_one_component(w, h, mask);
}

} // verus!
