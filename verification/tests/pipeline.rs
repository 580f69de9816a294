use private_count::encrypt_image::{encrypt_block, EncryptedBlock};
use private_count::error::PipelineError;
use private_count::pipeline::{
    check_request, count_in_blocks, count_objects, encrypt_reference, reference_pixel,
};
use private_count::raster::PlainImage;
use private_count::tiling::tile_origins;
use tfhe::shortint::parameters::{
    CarryModulus, CiphertextModulus, ClassicPBSParameters, DecompositionBaseLog,
    DecompositionLevelCount, DynamicDistribution, EncryptionKeyChoice, GlweDimension, LweDimension,
    MaxNoiseLevel, MessageModulus, ModulusSwitchType, PolynomialSize, StandardDev,
};
use tfhe::shortint::{gen_keys, ClientKey, ServerKey};

/// A key pair over a small lattice with next to no noise: of no use for
/// secrecy, but sound, so that its ciphertexts behave as those of any other
/// key pair. Message and carry space are equal, the modulus is native.
fn small_keys(modulus: u64) -> (ClientKey, ServerKey) {
    let params = ClassicPBSParameters {
        lwe_dimension: LweDimension(4),
        glwe_dimension: GlweDimension(1),
        polynomial_size: PolynomialSize(if modulus > 2 { 1024 } else { 256 }),
        lwe_noise_distribution: DynamicDistribution::new_gaussian_from_std_dev(StandardDev(1e-15)),
        glwe_noise_distribution: DynamicDistribution::new_gaussian_from_std_dev(StandardDev(1e-17)),
        pbs_base_log: DecompositionBaseLog(if modulus > 2 { 15 } else { 23 }),
        pbs_level: DecompositionLevelCount(if modulus > 2 { 2 } else { 1 }),
        ks_base_log: DecompositionBaseLog(5),
        ks_level: DecompositionLevelCount(4),
        message_modulus: MessageModulus(modulus),
        carry_modulus: CarryModulus(modulus),
        max_noise_level: MaxNoiseLevel::new(5),
        log2_p_fail: -40.0,
        ciphertext_modulus: CiphertextModulus::new_native(),
        encryption_key_choice: EncryptionKeyChoice::Big,
        modulus_switch_noise_reduction_params: ModulusSwitchType::Standard,
    };
    gen_keys(params)
}

fn image(width: u32, height: u32, colour: impl Fn(u32, u32) -> [u8; 3]) -> PlainImage {
    let mut pixels = Vec::new();
    for y in 0..height {
        for x in 0..width {
            pixels.extend_from_slice(&colour(x, y));
        }
    }
    PlainImage::new(width, height, pixels).unwrap()
}

const RED: [u8; 3] = [200, 16, 1];
const BLACK: [u8; 3] = [0, 0, 0];

/// A black image with red squares: each square is (left, top, side).
fn squares(width: u32, height: u32, list: &[(u32, u32, u32)]) -> PlainImage {
    image(width, height, |x, y| {
        if list.iter().any(|&(l, t, s)| l <= x && x < l + s && t <= y && y < t + s) {
            RED
        } else {
            BLACK
        }
    })
}

#[test]
fn the_reference_is_the_pixel_in_the_middle() {
    let img = image(5, 4, |x, y| [x as u8, y as u8, (10 * y + x) as u8]);
    assert_eq!(reference_pixel(&img, (0, 0, 5, 4)), Ok([2, 2, 22]));
    assert_eq!(reference_pixel(&img, (1, 1, 3, 2)), Ok([2, 2, 22]));
    assert_eq!(reference_pixel(&img, (4, 3, 1, 1)), Ok([4, 3, 34]));
    assert_eq!(reference_pixel(&img, (3, 0, 0, 0)), Ok([3, 0, 3]));
}

#[test]
fn a_region_without_a_middle_in_the_image_is_refused() {
    let img = image(5, 4, |x, y| [x as u8, y as u8, 0]);
    assert_eq!(reference_pixel(&img, (3, 0, 3, 1)), Err(PipelineError::RegionOutOfBounds));
    assert_eq!(reference_pixel(&img, (0, 2, 1, 3)), Err(PipelineError::RegionOutOfBounds));
    assert_eq!(reference_pixel(&img, (5, 4, 0, 0)), Err(PipelineError::RegionOutOfBounds));
    assert_eq!(reference_pixel(&img, (5, 0, 0, 1)), Err(PipelineError::RegionOutOfBounds));
    assert_eq!(reference_pixel(&img, (u32::MAX, u32::MAX, u32::MAX, u32::MAX)), Err(PipelineError::RegionOutOfBounds));
}

#[test]
fn a_reference_encrypts_the_three_channels() {
    let (client_key, _) = small_keys(2);
    let reference = encrypt_reference(&[1, 2, 255], &client_key);
    let plain: Vec<u8> = reference.iter().map(|b| private_count::channel::decrypt(&client_key, b)).collect();
    assert_eq!(plain, vec![1, 2, 255]);
}

#[test]
fn objects_and_shapes_are_counted() {
    let (client_key, server_key) = small_keys(2);
    let img = squares(8, 7, &[(1, 1, 2), (5, 1, 2), (2, 4, 1)]);
    assert_eq!(count_objects(&img, (0, 0, 4, 4), 3, &client_key, &server_key), Ok((3, 2)));
}

#[test]
fn faults_are_found_before_anything_is_encrypted() {
    let (client_key, server_key) = small_keys(2);
    let img = squares(4, 4, &[(1, 1, 2)]);
    assert_eq!(count_objects(&img, (0, 0, 4, 4), 0, &client_key, &server_key), Err(PipelineError::ZeroTileSize));
    assert_eq!(count_objects(&img, (2, 2, 3, 3), 0, &client_key, &server_key), Err(PipelineError::ZeroTileSize));
    assert_eq!(
        count_objects(&img, (2, 2, 3, 3), 2, &client_key, &server_key),
        Err(PipelineError::RegionOutOfBounds)
    );
}

#[test]
fn blocks_that_do_not_cover_the_image_are_refused() {
    let (client_key, server_key) = small_keys(2);
    let img = squares(4, 4, &[(1, 1, 2)]);
    let tiles: Vec<EncryptedBlock> = tile_origins(4, 4, 2)
        .into_iter()
        .map(|(x, y)| encrypt_block(&img, x, y, 2, &client_key))
        .collect();
    let mut missing = tiles.clone();
    missing.pop();
    assert_eq!(
        count_in_blocks(&img, &missing, (0, 0, 4, 4), &client_key, &server_key),
        Err(PipelineError::UncoveredPixel)
    );
    let mut twice = tiles.clone();
    twice.push(tiles[0].clone());
    assert_eq!(
        count_in_blocks(&img, &twice, (0, 0, 4, 4), &client_key, &server_key),
        Err(PipelineError::OverlappingBlocks)
    );
    assert_eq!(
        count_in_blocks(&img, &missing, (0, 0, 4, 5), &client_key, &server_key),
        Err(PipelineError::RegionOutOfBounds)
    );
}

#[test]
fn a_request_is_checked_in_a_fixed_order() {
    let img = squares(4, 4, &[(1, 1, 2)]);
    assert_eq!(check_request(&img, (0, 0, 4, 4), 2), None);
    assert_eq!(check_request(&img, (3, 3, 1, 1), u32::MAX), None);
    assert_eq!(check_request(&img, (0, 0, 4, 4), 0), Some(PipelineError::ZeroTileSize));
    assert_eq!(check_request(&img, (0, 0, 5, 4), 0), Some(PipelineError::ZeroTileSize));
    assert_eq!(check_request(&img, (0, 0, 5, 4), 1), Some(PipelineError::RegionOutOfBounds));
    assert_eq!(check_request(&img, (4, 0, 0, 4), 1), Some(PipelineError::RegionOutOfBounds));
    let empty = PlainImage::new(0, 0, vec![]).unwrap();
    assert_eq!(check_request(&empty, (0, 0, 0, 0), 1), Some(PipelineError::RegionOutOfBounds));
}

#[test]
fn a_uniform_image_counts_as_one_object() {
    let (client_key, server_key) = small_keys(2);
    for (width, height) in [(1u32, 1u32), (3, 3), (4, 2)] {
        let img = image(width, height, |_, _| [7, 7, 7]);
        let counts = count_objects(&img, (0, 0, width, height), 2, &client_key, &server_key).unwrap();
        assert_eq!(counts.0, 1);
    }
}

#[test]
fn blocks_encrypted_one_by_one_count_the_same() {
    let (client_key, server_key) = small_keys(2);
    let img = squares(8, 7, &[(1, 1, 2), (5, 1, 2), (2, 4, 1)]);
    let mut blocks: Vec<EncryptedBlock> = tile_origins(8, 7, 3)
        .into_iter()
        .map(|(x, y)| encrypt_block(&img, x, y, 3, &client_key))
        .collect();
    assert_eq!(count_in_blocks(&img, &blocks, (0, 0, 4, 4), &client_key, &server_key), Ok((3, 2)));
    blocks.truncate(0);
    let empty = PlainImage::new(0, 0, vec![]).unwrap();
    assert_eq!(
        count_in_blocks(&empty, &blocks, (0, 0, 0, 0), &client_key, &server_key),
        Err(PipelineError::RegionOutOfBounds)
    );
}
