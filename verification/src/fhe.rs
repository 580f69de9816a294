//! The homomorphic encryption capability, as far as this library relies on it.
//!
//! Keys and ciphertexts are opaque values of the `tfhe` crate (its `shortint`
//! scheme). Nothing in this module is proved: each
//! function makes one call into `tfhe` and states what the documentation of
//! that call promises, over five uninterpreted names. The promises are those
//! that `tfhe` makes for sound keys (see `sound_key`), and they hold up to the
//! failure probability that a parameter set is chosen for.

use vstd::prelude::*;
use tfhe::shortint::{Ciphertext, ClientKey, ServerKey};

verus! {

/// `tfhe::shortint::ClientKey`: the secret key, which encrypts and decrypts.
#[verifier::external_type_specification]
#[verifier::external_body]
#[verifier::reject_recursive_types(AP)]
pub struct ExGenericClientKey<AP>(tfhe::shortint::client_key::GenericClientKey<AP>);

/// The type argument of `tfhe::shortint::ClientKey`.
#[verifier::external_type_specification]
#[verifier::external_body]
pub struct ExAtomicPatternClientKey(tfhe::shortint::client_key::atomic_pattern::AtomicPatternClientKey);

/// `tfhe::shortint::ServerKey`: the evaluation key, which computes on
/// ciphertexts and cannot decrypt.
#[verifier::external_type_specification]
#[verifier::external_body]
#[verifier::reject_recursive_types(AP)]
pub struct ExGenericServerKey<AP>(tfhe::shortint::server_key::GenericServerKey<AP>);

/// The type argument of `tfhe::shortint::ServerKey`.
#[verifier::external_type_specification]
#[verifier::external_body]
pub struct ExAtomicPatternServerKey(tfhe::shortint::atomic_pattern::AtomicPatternServerKey);

/// `tfhe::shortint::Ciphertext`: one encrypted small integer.
#[verifier::external_type_specification]
#[verifier::external_body]
pub struct ExCiphertext(tfhe::shortint::Ciphertext);

/// The message that `ClientKey::decrypt` returns for `ct` under `key`.
pub uninterp spec fn decrypted(key: ClientKey, ct: Ciphertext) -> u64;

/// The number of messages that one ciphertext of `key` can hold: what
/// `key.parameters().message_modulus()` holds. The messages are the integers
/// below it. The library relies on no more than two.
pub uninterp spec fn message_modulus(key: ClientKey) -> u64;

/// `ct` is a ciphertext of `key`: it came out of `ClientKey::encrypt` under
/// `key`, or out of one of the operations below, made with the evaluation key
/// of `key` on ciphertexts of `key`. These are the ciphertexts of which the
/// `tfhe` documentation speaks.
pub uninterp spec fn ciphertext_of(key: ClientKey, ct: Ciphertext) -> bool;

/// `key` is a key of which the `tfhe` documentation speaks: `tfhe` generated
/// it from a parameter set with a message space of at least two values, a
/// carry space at least as large as the message space, a ciphertext modulus
/// that is native or a power of two, and noise small enough for decryption
/// and for every operation to give what is documented. The sets that `tfhe`
/// offers are such sets. A key of a set that lacks one of these is not
/// sound, and no function of this library takes it.
pub uninterp spec fn sound_key(key: ClientKey) -> bool;

/// `server` is the evaluation key of `key`: `tfhe::shortint::gen_keys` made
/// the two together, and `key` is sound.
pub uninterp spec fn evaluates_for(server: ServerKey, key: ClientKey) -> bool;

/// Generates a secret key and its evaluation key with
/// `tfhe::shortint::gen_keys`, for the parameter set with one bit of message
/// and one bit of carry, one of the sets that `tfhe` offers. The key is
/// sound and the two keys belong together. One ciphertext of these keys holds
/// one bit; the library encrypts a value in as many ciphertexts as it has
/// bits.
#[verifier::external_body]
pub fn create_keys() -> (keys: (ClientKey, ServerKey))
    ensures
        sound_key(keys.0),
        evaluates_for(keys.1, keys.0),
{
    tfhe::shortint::gen_keys(
        tfhe::shortint::parameters::v1_8::V1_8_PARAM_MESSAGE_1_CARRY_1_KS_PBS_GAUSSIAN_2M128,
    )
}

/// Calls `ClientKey::encrypt` with a sound key. What comes back is a
/// ciphertext of `key` that decrypts to the message, reduced to the message
/// space. That space has at least two values, so 0 and 1 come back as they
/// are.
#[verifier::external_body]
pub(crate) fn encrypt(key: &ClientKey, message: u64) -> (ct: Ciphertext)
    requires
        sound_key(*key),
    ensures
        ciphertext_of(*key, ct),
        decrypted(*key, ct) < message_modulus(*key),
        decrypted(*key, ct) == message % message_modulus(*key),
        message <= 1 ==> decrypted(*key, ct) == message,
{
    key.encrypt(message)
}

/// Calls `ClientKey::decrypt` with a sound key on a ciphertext of that key.
#[verifier::external_body]
pub(crate) fn decrypt(key: &ClientKey, ct: &Ciphertext) -> (message: u64)
    requires
        sound_key(*key),
        ciphertext_of(*key, *ct),
    ensures
        message == decrypted(*key, *ct),
{
    key.decrypt(ct)
}

/// `server` can work on `a` and `b`: it is the evaluation key of the sound
/// key `key`, and both are ciphertexts of `key`.
pub open spec fn operands(server: ServerKey, key: ClientKey, a: Ciphertext, b: Ciphertext) -> bool {
    sound_key(key) && evaluates_for(server, key) && ciphertext_of(key, a) && ciphertext_of(key, b)
}

/// Calls `ServerKey::equal`. Under the key that the operands belong to, the
/// result is a ciphertext that decrypts to 1 if the operands decrypt to the
/// same message, and to 0 if not.
#[verifier::external_body]
pub(crate) fn equal(server: &ServerKey, a: &Ciphertext, b: &Ciphertext) -> (r: Ciphertext)
    requires
        exists|key: ClientKey| operands(*server, key, *a, *b),
    ensures
        forall|key: ClientKey| #[trigger]
            operands(*server, key, *a, *b) ==> ciphertext_of(key, r) && decrypted(key, r) == (if decrypted(
                key,
                *a,
            ) == decrypted(key, *b) {
                1u64
            } else {
                0u64
            }),
{
    server.equal(a, b)
}

/// Calls `ServerKey::bitand`. Under the key that the operands belong to, the
/// result is a ciphertext that decrypts to the bitwise AND of what the
/// operands decrypt to.
#[verifier::external_body]
pub(crate) fn bitand(server: &ServerKey, a: &Ciphertext, b: &Ciphertext) -> (r: Ciphertext)
    requires
        exists|key: ClientKey| operands(*server, key, *a, *b),
    ensures
        forall|key: ClientKey| #[trigger]
            operands(*server, key, *a, *b) ==> ciphertext_of(key, r) && decrypted(key, r) == (decrypted(
                key,
                *a,
            ) & decrypted(key, *b)),
{
    server.bitand(a, b)
}

/// Calls `ServerKey::not_equal`. Under the key that the operands belong to,
/// the result is a ciphertext that decrypts to 1 if the operands decrypt to
/// different messages, and to 0 if not.
#[verifier::external_body]
pub(crate) fn not_equal(server: &ServerKey, a: &Ciphertext, b: &Ciphertext) -> (r: Ciphertext)
    requires
        exists|key: ClientKey| operands(*server, key, *a, *b),
    ensures
        forall|key: ClientKey| #[trigger]
            operands(*server, key, *a, *b) ==> ciphertext_of(key, r) && decrypted(key, r) == (if decrypted(
                key,
                *a,
            ) != decrypted(key, *b) {
                1u64
            } else {
                0u64
            }),
{
    server.not_equal(a, b)
}

/// Calls `Clone::clone` of `Ciphertext`, which copies every part of it.
#[verifier::external_body]
pub(crate) fn clone_ciphertext(ct: &Ciphertext) -> (r: Ciphertext)
    ensures
        r == *ct,
{
    ct.clone()
}

} // verus!
