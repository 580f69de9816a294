use private_count::number::{decrypt_number, encrypt_number};
use tfhe::shortint::parameters::{
    CarryModulus, CiphertextModulus, ClassicPBSParameters, DecompositionBaseLog,
    DecompositionLevelCount, DynamicDistribution, EncryptionKeyChoice, GlweDimension, LweDimension,
    MaxNoiseLevel, MessageModulus, ModulusSwitchType, PolynomialSize, StandardDev,
};
use tfhe::shortint::{gen_keys, ClientKey, ServerKey};

fn small_keys() -> (ClientKey, ServerKey) {
    let params = ClassicPBSParameters {
        lwe_dimension: LweDimension(4),
        glwe_dimension: GlweDimension(1),
        polynomial_size: PolynomialSize(256),
        lwe_noise_distribution: DynamicDistribution::new_gaussian_from_std_dev(StandardDev(1e-15)),
        glwe_noise_distribution: DynamicDistribution::new_gaussian_from_std_dev(StandardDev(1e-17)),
        pbs_base_log: DecompositionBaseLog(23),
        pbs_level: DecompositionLevelCount(1),
        ks_base_log: DecompositionBaseLog(5),
        ks_level: DecompositionLevelCount(4),
        message_modulus: MessageModulus(2),
        carry_modulus: CarryModulus(2),
        max_noise_level: MaxNoiseLevel::new(5),
        log2_p_fail: -40.0,
        ciphertext_modulus: CiphertextModulus::new_native(),
        encryption_key_choice: EncryptionKeyChoice::Big,
        modulus_switch_noise_reduction_params: ModulusSwitchType::Standard,
    };
    gen_keys(params)
}

#[test]
fn a_number_is_encrypted_with_its_least_bit_first() {
    let (client_key, _) = small_keys();
    let bits = encrypt_number(&client_key, 0b1101, 6);
    let plain: Vec<u64> = bits.iter().map(|ct| client_key.decrypt(ct)).collect();
    assert_eq!(plain, vec![1, 0, 1, 1, 0, 0]);
    assert_eq!(encrypt_number(&client_key, 0, 0).len(), 0);
    assert_eq!(encrypt_number(&client_key, u64::MAX, 64).len(), 64);
}

#[test]
fn numbers_come_back_as_they_were() {
    let (client_key, _) = small_keys();
    for value in [0u64, 1, 2, 255, 256, 65_535, 123_456_789, u64::from(u32::MAX)] {
        assert_eq!(decrypt_number(&client_key, &encrypt_number(&client_key, value, 32)), value);
    }
    assert_eq!(decrypt_number(&client_key, &encrypt_number(&client_key, 5, 3)), 5);
    assert_eq!(decrypt_number(&client_key, &Vec::new()), 0);
}
