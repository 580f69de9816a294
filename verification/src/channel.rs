//! Encrypted values of 0 to 255: what a colour channel holds.
//!
//! One ciphertext of the scheme holds a message of a few bits only, so a
//! value is encrypted bit by bit: eight ciphertexts, each of 0 or 1. Two
//! values are equal where all their bits are, which the evaluation key finds
//! out with eight comparisons and seven ANDs.

use vstd::prelude::*;
use tfhe::shortint::{Ciphertext, ClientKey, ServerKey};
use crate::fhe::{bitand, clone_ciphertext, evaluates_for, operands, sound_key};

verus! {

/// An encrypted value of 0 to 255: its eight bits, `bit0` the least.
pub struct EncryptedByte {
    pub bit0: Ciphertext,
    pub bit1: Ciphertext,
    pub bit2: Ciphertext,
    pub bit3: Ciphertext,
    pub bit4: Ciphertext,
    pub bit5: Ciphertext,
    pub bit6: Ciphertext,
    pub bit7: Ciphertext,
}

/// `ct` is a ciphertext of `key` that decrypts to 0 or 1.
pub open spec fn is_bit(key: ClientKey, ct: Ciphertext) -> bool {
    crate::fhe::ciphertext_of(key, ct) && crate::fhe::decrypted(key, ct) <= 1
}

/// All eight bits of `value` are ciphertexts of `key` that decrypt to 0 or 1.
pub open spec fn ciphertext_of(key: ClientKey, value: EncryptedByte) -> bool {
    &&& is_bit(key, value.bit0)
    &&& is_bit(key, value.bit1)
    &&& is_bit(key, value.bit2)
    &&& is_bit(key, value.bit3)
    &&& is_bit(key, value.bit4)
    &&& is_bit(key, value.bit5)
    &&& is_bit(key, value.bit6)
    &&& is_bit(key, value.bit7)
}

/// The number that the decrypted bits of `value` spell.
pub open spec fn decrypted(key: ClientKey, value: EncryptedByte) -> int {
    crate::fhe::decrypted(key, value.bit0) + 2 * crate::fhe::decrypted(key, value.bit1) + 4
        * crate::fhe::decrypted(key, value.bit2) + 8 * crate::fhe::decrypted(key, value.bit3) + 16
        * crate::fhe::decrypted(key, value.bit4) + 32 * crate::fhe::decrypted(key, value.bit5) + 64
        * crate::fhe::decrypted(key, value.bit6) + 128 * crate::fhe::decrypted(key, value.bit7)
}

/// `value` is an encryption under `key` of `plain`.
pub open spec fn encrypts_value(key: ClientKey, value: EncryptedByte, plain: u8) -> bool {
    ciphertext_of(key, value) && decrypted(key, value) == plain
}

/// `server` can compare `a` and `b`: it is the evaluation key of the sound
/// key `key`, under which both were encrypted.
pub open spec fn byte_operands(server: ServerKey, key: ClientKey, a: EncryptedByte, b: EncryptedByte) -> bool {
    sound_key(key) && evaluates_for(server, key) && ciphertext_of(key, a) && ciphertext_of(key, b)
}

/// Encrypting a value and decrypting the result gives the value back, for
/// every value of 0 to 255 and every sound key.
pub proof fn lemma_round_trip(key: ClientKey, value: EncryptedByte, plain: u8)
    requires
        encrypts_value(key, value, plain),
    ensures
        decrypted(key, value) == plain,
        0 <= decrypted(key, value) <= 255,
{
}

/// A value of 0 to 255 is the sum of its eight bits, each times its weight.
proof fn lemma_bits_spell_the_value(p: int)
    requires
        0 <= p <= 255,
    ensures
        p == (p / 1) % 2 + 2 * ((p / 2) % 2) + 4 * ((p / 4) % 2) + 8 * ((p / 8) % 2) + 16 * ((p / 16) % 2)
            + 32 * ((p / 32) % 2) + 64 * ((p / 64) % 2) + 128 * ((p / 128) % 2),
{
    let q1 = p / 2;
    let q2 = q1 / 2;
    let q3 = q2 / 2;
    let q4 = q3 / 2;
    let q5 = q4 / 2;
    let q6 = q5 / 2;
    let q7 = q6 / 2;
    assert(p / 1 == p);
    assert(p / 4 == q2);
    assert(p / 8 == q3);
    assert(p / 16 == q4);
    assert(p / 32 == q5);
    assert(p / 64 == q6);
    assert(p / 128 == q7);
    assert(q7 <= 1);
    assert(p == 2 * q1 + p % 2);
    assert(q1 == 2 * q2 + q1 % 2);
    assert(q2 == 2 * q3 + q2 % 2);
    assert(q3 == 2 * q4 + q3 % 2);
    assert(q4 == 2 * q5 + q4 % 2);
    assert(q5 == 2 * q6 + q5 % 2);
    assert(q6 == 2 * q7 + q6 % 2);
    assert(q7 == q7 % 2);
}

/// Encrypts one bit of `plain`: the bit of weight `weight`.
fn encrypt_bit(key: &ClientKey, plain: u8, weight: u8) -> (ct: Ciphertext)
    requires
        sound_key(*key),
        weight > 0,
    ensures
        is_bit(*key, ct),
        crate::fhe::decrypted(*key, ct) == (plain / weight) % 2,
{
    let bit = (plain / weight) % 2;
    crate::fhe::encrypt(key, bit as u64)
}

/// Encrypts a value of 0 to 255 bit by bit.
pub fn encrypt(key: &ClientKey, plain: u8) -> (value: EncryptedByte)
    requires
        sound_key(*key),
    ensures
        encrypts_value(*key, value, plain),
{
    let value = EncryptedByte {
        bit0: encrypt_bit(key, plain, 1),
        bit1: encrypt_bit(key, plain, 2),
        bit2: encrypt_bit(key, plain, 4),
        bit3: encrypt_bit(key, plain, 8),
        bit4: encrypt_bit(key, plain, 16),
        bit5: encrypt_bit(key, plain, 32),
        bit6: encrypt_bit(key, plain, 64),
        bit7: encrypt_bit(key, plain, 128),
    };
    proof {
        lemma_bits_spell_the_value(plain as int);
    }
    value
}

/// Decrypts a value bit by bit.
pub fn decrypt(key: &ClientKey, value: &EncryptedByte) -> (plain: u8)
    requires
        sound_key(*key),
        ciphertext_of(*key, *value),
    ensures
        plain == decrypted(*key, *value),
{
    let b0 = crate::fhe::decrypt(key, &value.bit0);
    let b1 = crate::fhe::decrypt(key, &value.bit1);
    let b2 = crate::fhe::decrypt(key, &value.bit2);
    let b3 = crate::fhe::decrypt(key, &value.bit3);
    let b4 = crate::fhe::decrypt(key, &value.bit4);
    let b5 = crate::fhe::decrypt(key, &value.bit5);
    let b6 = crate::fhe::decrypt(key, &value.bit6);
    let b7 = crate::fhe::decrypt(key, &value.bit7);
    let sum: u64 = b0 + 2 * b1 + 4 * b2 + 8 * b3 + 16 * b4 + 32 * b5 + 64 * b6 + 128 * b7;
    sum as u8
}

/// Copies a value, ciphertext by ciphertext.
pub fn clone_byte(value: &EncryptedByte) -> (copy: EncryptedByte)
    ensures
        copy == *value,
{
    EncryptedByte {
        bit0: clone_ciphertext(&value.bit0),
        bit1: clone_ciphertext(&value.bit1),
        bit2: clone_ciphertext(&value.bit2),
        bit3: clone_ciphertext(&value.bit3),
        bit4: clone_ciphertext(&value.bit4),
        bit5: clone_ciphertext(&value.bit5),
        bit6: clone_ciphertext(&value.bit6),
        bit7: clone_ciphertext(&value.bit7),
    }
}

impl Clone for EncryptedByte {
    fn clone(&self) -> (copy: Self)
        ensures
            copy == *self,
    {
        clone_byte(self)
    }
}

/// `flag` is a ciphertext of `key` that decrypts to 1 if `holds`, and to 0
/// if not.
pub open spec fn is_flag(key: ClientKey, flag: Ciphertext, holds: bool) -> bool {
    crate::fhe::ciphertext_of(key, flag) && crate::fhe::decrypted(key, flag) == (if holds {
        1u64
    } else {
        0u64
    })
}

/// Joins two encrypted flags by AND.
pub fn both(server: &ServerKey, a: &Ciphertext, b: &Ciphertext) -> (flag: Ciphertext)
    requires
        exists|key: ClientKey| operands(*server, key, *a, *b),
    ensures
        forall|key: ClientKey, x: bool, y: bool|
            operands(*server, key, *a, *b) && #[trigger] is_flag(key, *a, x) && #[trigger] is_flag(
                key,
                *b,
                y,
            ) ==> is_flag(key, flag, x && y),
        forall|key: ClientKey| #[trigger]
            operands(*server, key, *a, *b) ==> crate::fhe::ciphertext_of(key, flag),
{
    let flag = bitand(server, a, b);
    proof {
        assert(0u64 & 0u64 == 0u64 && 0u64 & 1u64 == 0u64 && 1u64 & 0u64 == 0u64 && 1u64 & 1u64
            == 1u64) by (bit_vector);
    }
    flag
}

/// Compares one bit of two values under encryption.
fn same_bit(server: &ServerKey, a: &Ciphertext, b: &Ciphertext) -> (flag: Ciphertext)
    requires
        exists|key: ClientKey| operands(*server, key, *a, *b),
    ensures
        forall|key: ClientKey| #[trigger]
            operands(*server, key, *a, *b) ==> is_flag(
                key,
                flag,
                crate::fhe::decrypted(key, *a) == crate::fhe::decrypted(key, *b),
            ),
{
    crate::fhe::equal(server, a, b)
}

/// Compares two values under encryption: the result is an encrypted flag, 1
/// where the two decrypt to the same number.
pub fn equal(server: &ServerKey, a: &EncryptedByte, b: &EncryptedByte) -> (flag: Ciphertext)
    requires
        exists|key: ClientKey| byte_operands(*server, key, *a, *b),
    ensures
        forall|key: ClientKey| #[trigger]
            byte_operands(*server, key, *a, *b) ==> is_flag(
                key,
                flag,
                decrypted(key, *a) == decrypted(key, *b),
            ),
{
    let ghost witness = choose|key: ClientKey| byte_operands(*server, key, *a, *b);
    proof {
        assert(operands(*server, witness, a.bit0, b.bit0));
        assert(operands(*server, witness, a.bit1, b.bit1));
        assert(operands(*server, witness, a.bit2, b.bit2));
        assert(operands(*server, witness, a.bit3, b.bit3));
        assert(operands(*server, witness, a.bit4, b.bit4));
        assert(operands(*server, witness, a.bit5, b.bit5));
        assert(operands(*server, witness, a.bit6, b.bit6));
        assert(operands(*server, witness, a.bit7, b.bit7));
    }
    let e0 = same_bit(server, &a.bit0, &b.bit0);
    let e1 = same_bit(server, &a.bit1, &b.bit1);
    let e2 = same_bit(server, &a.bit2, &b.bit2);
    let e3 = same_bit(server, &a.bit3, &b.bit3);
    let e4 = same_bit(server, &a.bit4, &b.bit4);
    let e5 = same_bit(server, &a.bit5, &b.bit5);
    let e6 = same_bit(server, &a.bit6, &b.bit6);
    let e7 = same_bit(server, &a.bit7, &b.bit7);
    proof {
        assert(operands(*server, witness, e0, e1));
    }
    let f1 = both(server, &e0, &e1);
    proof {
        assert(operands(*server, witness, f1, e2));
    }
    let f2 = both(server, &f1, &e2);
    proof {
        assert(operands(*server, witness, f2, e3));
    }
    let f3 = both(server, &f2, &e3);
    proof {
        assert(operands(*server, witness, f3, e4));
    }
    let f4 = both(server, &f3, &e4);
    proof {
        assert(operands(*server, witness, f4, e5));
    }
    let f5 = both(server, &f4, &e5);
    proof {
        assert(operands(*server, witness, f5, e6));
    }
    let f6 = both(server, &f5, &e6);
    proof {
        assert(operands(*server, witness, f6, e7));
    }
    let f7 = both(server, &f6, &e7);
    proof {
        assert forall|key: ClientKey| #[trigger] byte_operands(*server, key, *a, *b) implies is_flag(
            key,
            f7,
            decrypted(key, *a) == decrypted(key, *b),
        ) by {
            let d = |ct: Ciphertext| crate::fhe::decrypted(key, ct);
            assert(operands(*server, key, a.bit0, b.bit0));
            assert(operands(*server, key, a.bit1, b.bit1));
            assert(operands(*server, key, a.bit2, b.bit2));
            assert(operands(*server, key, a.bit3, b.bit3));
            assert(operands(*server, key, a.bit4, b.bit4));
            assert(operands(*server, key, a.bit5, b.bit5));
            assert(operands(*server, key, a.bit6, b.bit6));
            assert(operands(*server, key, a.bit7, b.bit7));
            let s0 = d(a.bit0) == d(b.bit0);
            let s1 = d(a.bit1) == d(b.bit1);
            let s2 = d(a.bit2) == d(b.bit2);
            let s3 = d(a.bit3) == d(b.bit3);
            let s4 = d(a.bit4) == d(b.bit4);
            let s5 = d(a.bit5) == d(b.bit5);
            let s6 = d(a.bit6) == d(b.bit6);
            let s7 = d(a.bit7) == d(b.bit7);
            assert(is_flag(key, e0, s0) && is_flag(key, e1, s1) && is_flag(key, e2, s2) && is_flag(
                key,
                e3,
                s3,
            ));
            assert(is_flag(key, e4, s4) && is_flag(key, e5, s5) && is_flag(key, e6, s6) && is_flag(
                key,
                e7,
                s7,
            ));
            assert(operands(*server, key, e0, e1));
            assert(is_flag(key, f1, s0 && s1));
            assert(operands(*server, key, f1, e2));
            assert(is_flag(key, f2, (s0 && s1) && s2));
            assert(operands(*server, key, f2, e3));
            assert(is_flag(key, f3, ((s0 && s1) && s2) && s3));
            assert(operands(*server, key, f3, e4));
            assert(is_flag(key, f4, (((s0 && s1) && s2) && s3) && s4));
            assert(operands(*server, key, f4, e5));
            assert(is_flag(key, f5, ((((s0 && s1) && s2) && s3) && s4) && s5));
            assert(operands(*server, key, f5, e6));
            assert(is_flag(key, f6, (((((s0 && s1) && s2) && s3) && s4) && s5) && s6));
            assert(operands(*server, key, f6, e7));
            assert(is_flag(key, f7, ((((((s0 && s1) && s2) && s3) && s4) && s5) && s6) && s7));
            assert((decrypted(key, *a) == decrypted(key, *b)) == (s0 && s1 && s2 && s3 && s4 && s5
                && s6 && s7));
        }
    }
    f7
}

} // verus!
