use private_count::channel::{decrypt, encrypt, equal};
use private_count::count_shape::count_matching_fhe;
use private_count::encrypt_image::{create_keys, encrypt_image};
use private_count::raster::PlainImage;
use tfhe::shortint::parameters::{
    CarryModulus, CiphertextModulus, ClassicPBSParameters, DecompositionBaseLog,
    DecompositionLevelCount, DynamicDistribution, EncryptionKeyChoice, GlweDimension, LweDimension,
    MaxNoiseLevel, MessageModulus, ModulusSwitchType, PolynomialSize, StandardDev,
};
use tfhe::shortint::{gen_keys, ClientKey, ServerKey};

/// A key pair over a small lattice with next to no noise: of no use for
/// secrecy, but sound, so that its ciphertexts behave as those of any other
/// key pair. Message and carry space are equal, the modulus is native.
fn small_keys(modulus: u64) -> (ClientKey, ServerKey) {
    let params = ClassicPBSParameters {
        lwe_dimension: LweDimension(4),
        glwe_dimension: GlweDimension(1),
        polynomial_size: PolynomialSize(if modulus > 2 { 1024 } else { 256 }),
        lwe_noise_distribution: DynamicDistribution::new_gaussian_from_std_dev(StandardDev(1e-15)),
        glwe_noise_distribution: DynamicDistribution::new_gaussian_from_std_dev(StandardDev(1e-17)),
        pbs_base_log: DecompositionBaseLog(if modulus > 2 { 15 } else { 23 }),
        pbs_level: DecompositionLevelCount(if modulus > 2 { 2 } else { 1 }),
        ks_base_log: DecompositionBaseLog(5),
        ks_level: DecompositionLevelCount(4),
        message_modulus: MessageModulus(modulus),
        carry_modulus: CarryModulus(modulus),
        max_noise_level: MaxNoiseLevel::new(5),
        log2_p_fail: -40.0,
        ciphertext_modulus: CiphertextModulus::new_native(),
        encryption_key_choice: EncryptionKeyChoice::Big,
        modulus_switch_noise_reduction_params: ModulusSwitchType::Standard,
    };
    gen_keys(params)
}

#[test]
fn generated_keys_carry_every_channel_value() {
    let (client_key, _) = create_keys();
    for value in 0..=255u8 {
        assert_eq!(decrypt(&client_key, &encrypt(&client_key, value)), value);
    }
    let img = PlainImage::new(1, 1, vec![0, 2, 255]).unwrap();
    let blocks = encrypt_image(&img, 4, &client_key).unwrap();
    assert_eq!(blocks.len(), 1);
    let plain: Vec<u8> = blocks[0].data.iter().map(|b| decrypt(&client_key, b)).collect();
    assert_eq!(plain, vec![0, 2, 255]);
}

#[test]
fn generated_keys_belong_together() {
    let (client_key, server_key) = create_keys();
    let one = client_key.encrypt(1);
    let other = client_key.encrypt(1);
    assert_eq!(client_key.decrypt(&private_count::channel::both(&server_key, &one, &other)), 1);
}

#[test]
fn round_trip_over_all_values() {
    for modulus in [2u64, 4, 16] {
        let (client_key, _) = small_keys(modulus);
        for value in 0..=255u8 {
            assert_eq!(decrypt(&client_key, &encrypt(&client_key, value)), value);
        }
    }
}

#[test]
fn a_value_is_encrypted_bit_by_bit() {
    let (client_key, _) = small_keys(2);
    let value = encrypt(&client_key, 0b1010_0110);
    let bits = [
        &value.bit0, &value.bit1, &value.bit2, &value.bit3, &value.bit4, &value.bit5, &value.bit6,
        &value.bit7,
    ];
    let plain: Vec<u64> = bits.iter().map(|ct| client_key.decrypt(ct)).collect();
    assert_eq!(plain, vec![0, 1, 1, 0, 0, 1, 0, 1]);
}

#[test]
fn values_are_equal_where_all_bits_are() {
    let (client_key, server_key) = small_keys(2);
    for (a, b) in [(0u8, 0u8), (255, 255), (17, 16), (128, 0), (0, 128), (200, 200), (1, 3), (85, 170), (254, 255)] {
        let flag = equal(&server_key, &encrypt(&client_key, a), &encrypt(&client_key, b));
        assert_eq!(client_key.decrypt(&flag), u64::from(a == b));
    }
}

#[test]
fn lengths_are_counted_with_any_message_space() {
    let (client_key, server_key) = small_keys(4);
    assert_eq!(count_matching_fhe(&vec![9], 9, &client_key, &server_key), 1);
}
