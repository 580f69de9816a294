use private_count::channel::{decrypt, encrypt, EncryptedByte};
use private_count::encrypt_image::{encrypt_image, merge_encrypted_blocks, EncryptedBlock};
use private_count::error::PipelineError;
use private_count::raster::PlainImage;
use tfhe::shortint::parameters::{
    CarryModulus, CiphertextModulus, ClassicPBSParameters, DecompositionBaseLog,
    DecompositionLevelCount, DynamicDistribution, EncryptionKeyChoice, GlweDimension, LweDimension,
    MaxNoiseLevel, MessageModulus, ModulusSwitchType, PolynomialSize, StandardDev,
};
use tfhe::shortint::{gen_keys, ClientKey, ServerKey};

/// A key pair over a small lattice with next to no noise: of no use for
/// secrecy, but sound, so that its ciphertexts behave as those of any other
/// key pair. Message and carry space are equal, the modulus is native.
fn small_keys(modulus: u64) -> (ClientKey, ServerKey) {
    let params = ClassicPBSParameters {
        lwe_dimension: LweDimension(4),
        glwe_dimension: GlweDimension(1),
        polynomial_size: PolynomialSize(if modulus > 2 { 1024 } else { 256 }),
        lwe_noise_distribution: DynamicDistribution::new_gaussian_from_std_dev(StandardDev(1e-15)),
        glwe_noise_distribution: DynamicDistribution::new_gaussian_from_std_dev(StandardDev(1e-17)),
        pbs_base_log: DecompositionBaseLog(if modulus > 2 { 15 } else { 23 }),
        pbs_level: DecompositionLevelCount(if modulus > 2 { 2 } else { 1 }),
        ks_base_log: DecompositionBaseLog(5),
        ks_level: DecompositionLevelCount(4),
        message_modulus: MessageModulus(modulus),
        carry_modulus: CarryModulus(modulus),
        max_noise_level: MaxNoiseLevel::new(5),
        log2_p_fail: -40.0,
        ciphertext_modulus: CiphertextModulus::new_native(),
        encryption_key_choice: EncryptionKeyChoice::Big,
        modulus_switch_noise_reduction_params: ModulusSwitchType::Standard,
    };
    gen_keys(params)
}

fn image(width: u32, height: u32, colour: impl Fn(u32, u32) -> [u8; 3]) -> PlainImage {
    let mut pixels = Vec::new();
    for y in 0..height {
        for x in 0..width {
            pixels.extend_from_slice(&colour(x, y));
        }
    }
    PlainImage::new(width, height, pixels).unwrap()
}

fn numbered(width: u32, height: u32) -> PlainImage {
    image(width, height, |x, y| {
        let n = (y * width + x) as u8;
        [n, n.wrapping_mul(7).wrapping_add(1), n.wrapping_mul(13).wrapping_add(2)]
    })
}

fn decrypt_all(data: &[EncryptedByte], key: &ClientKey) -> Vec<u8> {
    data.iter().map(|b| decrypt(key, b)).collect()
}

fn same(a: &EncryptedByte, b: &EncryptedByte) -> bool {
    a.bit0 == b.bit0
        && a.bit1 == b.bit1
        && a.bit2 == b.bit2
        && a.bit3 == b.bit3
        && a.bit4 == b.bit4
        && a.bit5 == b.bit5
        && a.bit6 == b.bit6
        && a.bit7 == b.bit7
}

fn block(key: &ClientKey, x: u32, y: u32, width: u32, height: u32, value: u8) -> EncryptedBlock {
    let data = (0..width * height * 3).map(|_| encrypt(key, value)).collect();
    EncryptedBlock { x, y, width, height, data }
}

#[test]
fn merged_tiles_decrypt_to_the_image() {
    let (client_key, _) = small_keys(2);
    for (width, height, tile) in [(5u32, 3u32, 2u32), (4, 4, 2), (1, 1, 1), (3, 4, 5), (6, 2, 4)] {
        let img = image(width, height, |x, y| [(x % 4) as u8, (y % 4) as u8, ((x + y) % 4) as u8]);
        let blocks = encrypt_image(&img, tile, &client_key).unwrap();
        let merged = merge_encrypted_blocks(&blocks, width, height, &client_key).unwrap();
        assert_eq!((merged.width, merged.height), (width, height));
        assert_eq!(decrypt_all(&merged.data, &client_key), img.pixels);
    }
}

#[test]
fn merged_tiles_decrypt_to_the_image_for_all_channel_values() {
    let (client_key, _) = small_keys(2);
    let img = numbered(5, 4);
    let blocks = encrypt_image(&img, 3, &client_key).unwrap();
    let merged = merge_encrypted_blocks(&blocks, 5, 4, &client_key).unwrap();
    assert_eq!(decrypt_all(&merged.data, &client_key), img.pixels);
}

#[test]
fn the_order_of_the_blocks_does_not_matter() {
    let (client_key, _) = small_keys(2);
    let img = numbered(5, 3);
    let mut blocks = encrypt_image(&img, 2, &client_key).unwrap();
    blocks.reverse();
    blocks.swap(1, 4);
    let merged = merge_encrypted_blocks(&blocks, 5, 3, &client_key).unwrap();
    assert_eq!(decrypt_all(&merged.data, &client_key), img.pixels);
}

#[test]
fn ciphertexts_are_copied_as_they_are() {
    let (client_key, _) = small_keys(2);
    let img = numbered(3, 2);
    let blocks = encrypt_image(&img, 2, &client_key).unwrap();
    let merged = merge_encrypted_blocks(&blocks, 3, 2, &client_key).unwrap();
    for b in &blocks {
        for j in 0..b.height {
            for i in 0..b.width {
                for c in 0..3 {
                    let src = ((j * b.width + i) * 3 + c) as usize;
                    let dst = (((b.y + j) * 3 + b.x + i) * 3 + c) as usize;
                    assert!(same(&merged.data[dst], &b.data[src]));
                }
            }
        }
    }
}

#[test]
fn a_three_by_two_image_comes_back_value_by_value() {
    let (client_key, _) = small_keys(2);
    let img = PlainImage::new(3, 2, (1..=18).collect()).unwrap();
    let blocks = encrypt_image(&img, 2, &client_key).unwrap();
    let merged = merge_encrypted_blocks(&blocks, 3, 2, &client_key).unwrap();
    assert_eq!((merged.width, merged.height, merged.data.len()), (3, 2, 18));
    assert_eq!(decrypt_all(&merged.data, &client_key), (1..=18).collect::<Vec<u8>>());
}

#[test]
fn no_blocks_make_the_empty_image() {
    let (client_key, _) = small_keys(2);
    let merged = merge_encrypted_blocks(&[], 0, 0, &client_key).unwrap();
    assert_eq!((merged.width, merged.height, merged.data.len()), (0, 0, 0));
    let merged = merge_encrypted_blocks(&[], 0, 5, &client_key).unwrap();
    assert_eq!((merged.width, merged.height, merged.data.len()), (0, 5, 0));
}

#[test]
fn a_missing_block_is_a_gap() {
    let (client_key, _) = small_keys(2);
    let img = numbered(4, 4);
    let mut blocks = encrypt_image(&img, 2, &client_key).unwrap();
    blocks.remove(2);
    assert_eq!(
        merge_encrypted_blocks(&blocks, 4, 4, &client_key).err(),
        Some(PipelineError::UncoveredPixel)
    );
    assert_eq!(merge_encrypted_blocks(&[], 1, 1, &client_key).err(), Some(PipelineError::UncoveredPixel));
}

#[test]
fn a_block_given_twice_overlaps() {
    let (client_key, _) = small_keys(2);
    let img = numbered(4, 4);
    let mut blocks = encrypt_image(&img, 2, &client_key).unwrap();
    blocks.push(blocks[1].clone());
    assert_eq!(
        merge_encrypted_blocks(&blocks, 4, 4, &client_key).err(),
        Some(PipelineError::OverlappingBlocks)
    );
}

#[test]
fn blocks_that_share_one_pixel_overlap() {
    let (client_key, _) = small_keys(2);
    let blocks = vec![block(&client_key, 0, 0, 2, 2, 1), block(&client_key, 1, 1, 2, 2, 2)];
    assert_eq!(
        merge_encrypted_blocks(&blocks, 3, 3, &client_key).err(),
        Some(PipelineError::OverlappingBlocks)
    );
}

#[test]
fn a_block_outside_the_image_is_refused() {
    let (client_key, _) = small_keys(2);
    let blocks = vec![block(&client_key, 0, 0, 2, 2, 1), block(&client_key, 2, 0, 2, 2, 2)];
    assert_eq!(
        merge_encrypted_blocks(&blocks, 3, 2, &client_key).err(),
        Some(PipelineError::BlockOutOfBounds)
    );
    let blocks = vec![block(&client_key, u32::MAX, 0, 1, 1, 1)];
    assert_eq!(
        merge_encrypted_blocks(&blocks, 1, 1, &client_key).err(),
        Some(PipelineError::BlockOutOfBounds)
    );
}

#[test]
fn a_block_of_the_wrong_length_is_refused() {
    let (client_key, _) = small_keys(2);
    let mut short = block(&client_key, 0, 0, 2, 2, 1);
    short.data.pop();
    assert_eq!(merge_encrypted_blocks(&[short], 2, 2, &client_key).err(), Some(PipelineError::MalformedBlock));
    let mut long = block(&client_key, 0, 0, 1, 1, 1);
    long.data.push(encrypt(&client_key, 0));
    assert_eq!(merge_encrypted_blocks(&[long], 1, 1, &client_key).err(), Some(PipelineError::MalformedBlock));
}

#[test]
fn the_first_kind_of_fault_is_reported() {
    let (client_key, _) = small_keys(2);
    let mut short = block(&client_key, 0, 0, 1, 1, 1);
    short.data.pop();
    let outside = block(&client_key, 5, 5, 1, 1, 1);
    let twice = block(&client_key, 0, 0, 1, 1, 1);
    assert_eq!(
        merge_encrypted_blocks(&[outside.clone(), twice.clone(), twice.clone(), short], 2, 2, &client_key).err(),
        Some(PipelineError::MalformedBlock)
    );
    assert_eq!(
        merge_encrypted_blocks(&[twice.clone(), twice.clone(), outside], 2, 2, &client_key).err(),
        Some(PipelineError::BlockOutOfBounds)
    );
    assert_eq!(
        merge_encrypted_blocks(&[twice.clone(), twice], 2, 2, &client_key).err(),
        Some(PipelineError::OverlappingBlocks)
    );
}

#[test]
fn an_empty_block_holds_no_pixel() {
    let (client_key, _) = small_keys(2);
    let img = numbered(2, 2);
    let mut blocks = encrypt_image(&img, 2, &client_key).unwrap();
    blocks.push(EncryptedBlock { x: 1, y: 1, width: 0, height: 1, data: Vec::new() });
    let merged = merge_encrypted_blocks(&blocks, 2, 2, &client_key).unwrap();
    assert_eq!(decrypt_all(&merged.data, &client_key), img.pixels);
}
