use private_count::channel::decrypt;
use private_count::encrypt_image::{encrypt_block, encrypt_image, EncryptedBlock};
use private_count::error::PipelineError;
use private_count::raster::PlainImage;
use private_count::tiling::tile_origins;
use tfhe::shortint::parameters::{
    CarryModulus, CiphertextModulus, ClassicPBSParameters, DecompositionBaseLog,
    DecompositionLevelCount, DynamicDistribution, EncryptionKeyChoice, GlweDimension, LweDimension,
    MaxNoiseLevel, MessageModulus, ModulusSwitchType, PolynomialSize, StandardDev,
};
use tfhe::shortint::{gen_keys, ClientKey, ServerKey};

/// A key pair over a small lattice with next to no noise: of no use for
/// secrecy, but sound, so that its ciphertexts behave as those of any other
/// key pair. Message and carry space are equal, the modulus is native.
fn small_keys(modulus: u64) -> (ClientKey, ServerKey) {
    let params = ClassicPBSParameters {
        lwe_dimension: LweDimension(4),
        glwe_dimension: GlweDimension(1),
        polynomial_size: PolynomialSize(if modulus > 2 { 1024 } else { 256 }),
        lwe_noise_distribution: DynamicDistribution::new_gaussian_from_std_dev(StandardDev(1e-15)),
        glwe_noise_distribution: DynamicDistribution::new_gaussian_from_std_dev(StandardDev(1e-17)),
        pbs_base_log: DecompositionBaseLog(if modulus > 2 { 15 } else { 23 }),
        pbs_level: DecompositionLevelCount(if modulus > 2 { 2 } else { 1 }),
        ks_base_log: DecompositionBaseLog(5),
        ks_level: DecompositionLevelCount(4),
        message_modulus: MessageModulus(modulus),
        carry_modulus: CarryModulus(modulus),
        max_noise_level: MaxNoiseLevel::new(5),
        log2_p_fail: -40.0,
        ciphertext_modulus: CiphertextModulus::new_native(),
        encryption_key_choice: EncryptionKeyChoice::Big,
        modulus_switch_noise_reduction_params: ModulusSwitchType::Standard,
    };
    gen_keys(params)
}

fn image(width: u32, height: u32, colour: impl Fn(u32, u32) -> [u8; 3]) -> PlainImage {
    let mut pixels = Vec::new();
    for y in 0..height {
        for x in 0..width {
            pixels.extend_from_slice(&colour(x, y));
        }
    }
    PlainImage::new(width, height, pixels).unwrap()
}

fn numbered(width: u32, height: u32) -> PlainImage {
    image(width, height, |x, y| {
        let n = (y * width + x) as u8;
        [n, n.wrapping_mul(7).wrapping_add(1), n.wrapping_mul(13).wrapping_add(2)]
    })
}

fn rectangles(blocks: &[EncryptedBlock]) -> Vec<(u32, u32, u32, u32)> {
    blocks.iter().map(|b| (b.x, b.y, b.width, b.height)).collect()
}

#[test]
fn origins_advance_by_the_tile_size() {
    assert_eq!(tile_origins(5, 3, 2), vec![(0, 0), (2, 0), (4, 0), (0, 2), (2, 2), (4, 2)]);
    assert_eq!(tile_origins(4, 4, 2), vec![(0, 0), (2, 0), (0, 2), (2, 2)]);
    assert_eq!(tile_origins(3, 3, 10), vec![(0, 0)]);
    assert_eq!(tile_origins(3, 2, 1).len(), 6);
}

#[test]
fn an_empty_image_has_no_tiles() {
    assert_eq!(tile_origins(0, 0, 3), vec![]);
    assert_eq!(tile_origins(0, 7, 3), vec![]);
    assert_eq!(tile_origins(7, 0, 3), vec![]);
}

#[test]
fn origins_near_the_largest_extent() {
    let max = u32::MAX;
    assert_eq!(tile_origins(max, 1, max), vec![(0, 0)]);
    assert_eq!(tile_origins(max, 1, max - 1), vec![(0, 0), (max - 1, 0)]);
    assert_eq!(tile_origins(1, max, 1 << 31), vec![(0, 0), (0, 1 << 31)]);
}

#[test]
fn zero_tile_size_is_refused() {
    let (client_key, _) = small_keys(2);
    let img = numbered(3, 2);
    assert_eq!(encrypt_image(&img, 0, &client_key).err(), Some(PipelineError::ZeroTileSize));
    let empty = PlainImage::new(0, 0, vec![]).unwrap();
    assert_eq!(encrypt_image(&empty, 0, &client_key).err(), Some(PipelineError::ZeroTileSize));
}

#[test]
fn edge_tiles_are_clipped() {
    let (client_key, _) = small_keys(2);
    let img = numbered(5, 3);
    let blocks = encrypt_image(&img, 2, &client_key).unwrap();
    assert_eq!(
        rectangles(&blocks),
        vec![(0, 0, 2, 2), (2, 0, 2, 2), (4, 0, 1, 2), (0, 2, 2, 1), (2, 2, 2, 1), (4, 2, 1, 1)]
    );
    for block in &blocks {
        assert_eq!(block.data.len() as u32, block.width * block.height * 3);
    }
}

#[test]
fn a_tile_larger_than_the_image_is_the_image() {
    let (client_key, _) = small_keys(2);
    let img = numbered(3, 2);
    let blocks = encrypt_image(&img, 100, &client_key).unwrap();
    assert_eq!(rectangles(&blocks), vec![(0, 0, 3, 2)]);
    let blocks = encrypt_image(&img, u32::MAX, &client_key).unwrap();
    assert_eq!(rectangles(&blocks), vec![(0, 0, 3, 2)]);
}

#[test]
fn an_empty_image_encrypts_to_no_block() {
    let (client_key, _) = small_keys(2);
    let empty = PlainImage::new(0, 4, vec![]).unwrap();
    assert_eq!(encrypt_image(&empty, 2, &client_key).unwrap().len(), 0);
}

#[test]
fn tiles_cover_every_pixel_once() {
    let (client_key, _) = small_keys(2);
    for (width, height, tile) in [(1u32, 1u32, 1u32), (5, 3, 2), (4, 4, 2), (7, 2, 3), (3, 5, 4), (6, 1, 6)] {
        let img = numbered(width, height);
        let blocks = encrypt_image(&img, tile, &client_key).unwrap();
        let mut hits = vec![0u32; (width * height) as usize];
        for b in &blocks {
            assert!(b.x + b.width <= width && b.y + b.height <= height);
            assert!(b.width > 0 && b.height > 0);
            assert_eq!(b.x % tile, 0);
            assert_eq!(b.y % tile, 0);
            for j in 0..b.height {
                for i in 0..b.width {
                    hits[((b.y + j) * width + b.x + i) as usize] += 1;
                }
            }
        }
        assert!(hits.iter().all(|&n| n == 1));
    }
}

#[test]
fn a_block_holds_its_pixels_row_by_row() {
    let (client_key, _) = small_keys(2);
    let img = numbered(5, 3);
    let block = encrypt_block(&img, 2, 1, 2, &client_key);
    assert_eq!((block.x, block.y, block.width, block.height), (2, 1, 2, 2));
    let plain: Vec<u8> = block.data.iter().map(|b| decrypt(&client_key, b)).collect();
    let mut expected = Vec::new();
    for (x, y) in [(2u32, 1u32), (3, 1), (2, 2), (3, 2)] {
        for c in img.get_pixel(x, y) {
            expected.push(c);
        }
    }
    assert_eq!(plain, expected);
}

#[test]
fn a_block_at_the_edge_is_clipped() {
    let (client_key, _) = small_keys(2);
    let img = numbered(5, 3);
    let block = encrypt_block(&img, 4, 2, 2, &client_key);
    assert_eq!((block.x, block.y, block.width, block.height), (4, 2, 1, 1));
    let plain: Vec<u8> = block.data.iter().map(|b| decrypt(&client_key, b)).collect();
    let expected: Vec<u8> = img.get_pixel(4, 2).to_vec();
    assert_eq!(plain, expected);
}
