//! Encrypted numbers of any width, bit by bit, for comparing and counting
//! under encryption: equality of two numbers, and a counter that an
//! encrypted flag is added to.

use vstd::prelude::*;
use vstd::arithmetic::power2::{lemma2_to64, lemma_pow2_pos, lemma_pow2_unfold, pow2};
use tfhe::shortint::{Ciphertext, ClientKey, ServerKey};
use crate::channel::{both, is_bit, is_flag};
use crate::fhe::{clone_ciphertext, decrypted, evaluates_for, not_equal, operands, sound_key};

verus! {

/// Every ciphertext of `bits` is a ciphertext of `key` that decrypts to 0 or 1.
pub open spec fn are_bits(key: ClientKey, bits: Seq<Ciphertext>) -> bool {
    forall|i: int| 0 <= i < bits.len() ==> is_bit(key, #[trigger] bits[i])
}

/// The number that the decrypted bits spell, the least bit first.
pub open spec fn bits_value(key: ClientKey, bits: Seq<Ciphertext>) -> int
    decreases bits.len(),
{
    if bits.len() == 0 {
        0
    } else {
        bits_value(key, bits.drop_last()) + pow2((bits.len() - 1) as nat) * decrypted(key, bits.last())
    }
}

/// The first `n` bits of `a` and of `b` decrypt to the same.
pub open spec fn same_bits(key: ClientKey, a: Seq<Ciphertext>, b: Seq<Ciphertext>, n: int) -> bool {
    forall|j: int| 0 <= j < n ==> decrypted(key, #[trigger] a[j]) == decrypted(key, b[j])
}

/// A number of `n` bits is less than two to the `n`.
pub proof fn lemma_bits_value_bound(key: ClientKey, bits: Seq<Ciphertext>)
    requires
        are_bits(key, bits),
    ensures
        0 <= bits_value(key, bits) < pow2(bits.len()),
    decreases bits.len(),
{
    if bits.len() == 0 {
        lemma_pow2_pos(0);
    } else {
        let front = bits.drop_last();
        assert forall|i: int| 0 <= i < front.len() implies is_bit(key, #[trigger] front[i]) by {
            assert(front[i] == bits[i]);
        }
        lemma_bits_value_bound(key, front);
        assert(is_bit(key, bits[bits.len() - 1]));
        lemma_pow2_unfold(bits.len());
        let p = pow2((bits.len() - 1) as nat) as int;
        let d = decrypted(key, bits.last()) as int;
        assert(0 <= p * d <= p) by (nonlinear_arith)
            requires
                0 <= d <= 1,
                0 <= p,
        ;
    }
}

/// Two numbers of as many bits are equal exactly where all their bits are.
pub proof fn lemma_equal_bit_by_bit(key: ClientKey, a: Seq<Ciphertext>, b: Seq<Ciphertext>)
    requires
        are_bits(key, a),
        are_bits(key, b),
        a.len() == b.len(),
    ensures
        bits_value(key, a) == bits_value(key, b) <==> same_bits(key, a, b, a.len() as int),
    decreases a.len(),
{
    if a.len() > 0 {
        let n = a.len() as int;
        let fa = a.drop_last();
        let fb = b.drop_last();
        assert forall|i: int| 0 <= i < fa.len() implies is_bit(key, #[trigger] fa[i]) && is_bit(
            key,
            fb[i],
        ) by {
            assert(fa[i] == a[i] && fb[i] == b[i]);
        }
        lemma_equal_bit_by_bit(key, fa, fb);
        lemma_bits_value_bound(key, fa);
        lemma_bits_value_bound(key, fb);
        assert(is_bit(key, a[n - 1]) && is_bit(key, b[n - 1]));
        let p = pow2((n - 1) as nat) as int;
        let da = decrypted(key, a.last()) as int;
        let db = decrypted(key, b.last()) as int;
        assert(p * 0 == 0 && p * 1 == p);
        assert(da == 0 || da == 1);
        assert(db == 0 || db == 1);
        if same_bits(key, a, b, n) {
            assert forall|j: int| 0 <= j < n - 1 implies decrypted(key, #[trigger] fa[j]) == decrypted(
                key,
                fb[j],
            ) by {
                assert(decrypted(key, a[j]) == decrypted(key, b[j]));
            }
            assert(decrypted(key, a[n - 1]) == decrypted(key, b[n - 1]));
        }
        if bits_value(key, a) == bits_value(key, b) {
            assert(da == db);
            assert(same_bits(key, fa, fb, n - 1));
            assert forall|j: int| 0 <= j < n implies decrypted(key, #[trigger] a[j]) == decrypted(
                key,
                b[j],
            ) by {
                if j < n - 1 {
                    assert(decrypted(key, fa[j]) == decrypted(key, fb[j]));
                }
            }
        }
    }
}

/// Encrypts the number `plain` in `width` bits, the least bit first.
pub fn encrypt_number(key: &ClientKey, plain: u64, width: usize) -> (bits: Vec<Ciphertext>)
    requires
        sound_key(*key),
        plain < pow2(width as nat),
    ensures
        bits@.len() == width,
        are_bits(*key, bits@),
        bits_value(*key, bits@) == plain,
{
    let mut bits: Vec<Ciphertext> = Vec::new();
    let mut rest = plain;
    let mut i: usize = 0;
    proof {
        lemma_pow2_pos(0);
        lemma2_to64();
    }
    while i < width
        invariant
            sound_key(*key),
            0 <= i <= width,
            bits@.len() == i,
            are_bits(*key, bits@),
            plain == bits_value(*key, bits@) + pow2(i as nat) * rest,
        decreases width - i,
    {
        let ghost before = bits@;
        let bit = rest % 2;
        let ct = crate::fhe::encrypt(key, bit);
        bits.push(ct);
        proof {
            assert(bits@.drop_last() =~= before);
            assert(bits@.last() == ct);
            lemma_pow2_unfold((i + 1) as nat);
            let p = pow2(i as nat) as int;
            let r = rest as int;
            assert(p * r == p * (bit as int) + (2 * p) * (r / 2)) by (nonlinear_arith)
                requires
                    r == 2 * (r / 2) + bit,
            ;
        }
        rest = rest / 2;
        i += 1;
    }
    proof {
        lemma_bits_value_bound(*key, bits@);
        let p = pow2(width as nat) as int;
        let r = rest as int;
        assert(r == 0) by (nonlinear_arith)
            requires
                0 <= r,
                0 < p,
                p * r < p,
        ;
        assert(p * r == 0) by (nonlinear_arith)
            requires
                r == 0,
        ;
    }
    bits
}

/// Decrypts a number of at most 32 bits.
pub fn decrypt_number(key: &ClientKey, bits: &Vec<Ciphertext>) -> (plain: u64)
    requires
        sound_key(*key),
        are_bits(*key, bits@),
        bits@.len() <= 32,
    ensures
        plain == bits_value(*key, bits@),
{
    let mut sum: u64 = 0;
    let mut weight: u64 = 1;
    let mut i: usize = 0;
    proof {
        lemma2_to64();
    }
    while i < bits.len()
        invariant
            sound_key(*key),
            are_bits(*key, bits@),
            bits@.len() <= 32,
            0 <= i <= bits@.len(),
            weight == pow2(i as nat),
            sum == bits_value(*key, bits@.take(i as int)),
            sum < weight,
        decreases bits@.len() - i,
    {
        let bit = crate::fhe::decrypt(key, &bits[i]);
        proof {
            lemma2_to64();
            lemma_pow2_unfold((i + 1) as nat);
            vstd::arithmetic::power2::lemma_pow2_strictly_increases(i as nat, 32);
            assert(bits@.take(i + 1).drop_last() =~= bits@.take(i as int));
            assert(bits@.take(i + 1).last() == bits@[i as int]);
            assert(is_bit(*key, bits@[i as int]));
            assert(0 <= weight * bit <= weight) by (nonlinear_arith)
                requires
                    0 <= bit <= 1,
                    0 <= weight,
            ;
        }
        sum = sum + weight * bit;
        weight = weight * 2;
        i += 1;
    }
    proof {
        assert(bits@.take(i as int) =~= bits@);
    }
    sum
}

/// Compares two numbers of as many bits under encryption: the result is an
/// encrypted flag, 1 where the two decrypt to the same number.
pub(crate) fn equal_numbers(server: &ServerKey, a: &Vec<Ciphertext>, b: &Vec<Ciphertext>, Ghost(key): Ghost<ClientKey>) -> (flag:
    Ciphertext)
    requires
        sound_key(key),
        evaluates_for(*server, key),
        are_bits(key, a@),
        are_bits(key, b@),
        a@.len() == b@.len(),
        a@.len() >= 1,
    ensures
        is_flag(key, flag, bits_value(key, a@) == bits_value(key, b@)),
{
    proof {
        assert(is_bit(key, a@[0]) && is_bit(key, b@[0]));
        assert(operands(*server, key, a@[0], b@[0]));
    }
    let mut acc = crate::fhe::equal(server, &a[0], &b[0]);
    let mut i: usize = 1;
    while i < a.len()
        invariant
            sound_key(key),
            evaluates_for(*server, key),
            are_bits(key, a@),
            are_bits(key, b@),
            a@.len() == b@.len(),
            1 <= i <= a@.len(),
            is_flag(key, acc, same_bits(key, a@, b@, i as int)),
        decreases a@.len() - i,
    {
        proof {
            assert(is_bit(key, a@[i as int]) && is_bit(key, b@[i as int]));
            assert(operands(*server, key, a@[i as int], b@[i as int]));
        }
        let e = crate::fhe::equal(server, &a[i], &b[i]);
        proof {
            assert(operands(*server, key, acc, e));
            assert(is_flag(key, e, decrypted(key, a@[i as int]) == decrypted(key, b@[i as int])));
        }
        let next = both(server, &acc, &e);
        proof {
            let so_far = same_bits(key, a@, b@, i as int);
            let here = decrypted(key, a@[i as int]) == decrypted(key, b@[i as int]);
            assert(is_flag(key, next, so_far && here));
            assert((so_far && here) == same_bits(key, a@, b@, i + 1));
        }
        acc = next;
        i += 1;
    }
    proof {
        lemma_equal_bit_by_bit(key, a@, b@);
    }
    acc
}

/// Adds an encrypted flag to an encrypted counter, bit by bit with a carry.
/// The counter must have room for the sum.
pub(crate) fn add_flag(server: &ServerKey, counter: &Vec<Ciphertext>, flag: &Ciphertext, Ghost(key): Ghost<ClientKey>) -> (sum:
    Vec<Ciphertext>)
    requires
        sound_key(key),
        evaluates_for(*server, key),
        are_bits(key, counter@),
        is_bit(key, *flag),
        bits_value(key, counter@) + decrypted(key, *flag) < pow2(counter@.len()),
    ensures
        sum@.len() == counter@.len(),
        are_bits(key, sum@),
        bits_value(key, sum@) == bits_value(key, counter@) + decrypted(key, *flag),
{
    let mut sum: Vec<Ciphertext> = Vec::new();
    let mut carry = clone_ciphertext(flag);
    let mut i: usize = 0;
    proof {
        lemma_pow2_pos(0);
        lemma2_to64();
        assert(counter@.take(0) =~= Seq::<Ciphertext>::empty());
    }
    while i < counter.len()
        invariant
            sound_key(key),
            evaluates_for(*server, key),
            are_bits(key, counter@),
            0 <= i <= counter@.len(),
            sum@.len() == i,
            are_bits(key, sum@),
            is_bit(key, carry),
            bits_value(key, sum@) + pow2(i as nat) * decrypted(key, carry) == bits_value(
                key,
                counter@.take(i as int),
            ) + decrypted(key, *flag),
        decreases counter@.len() - i,
    {
        let ghost before = sum@;
        let ghost c = decrypted(key, counter@[i as int]) as int;
        let ghost k = decrypted(key, carry) as int;
        proof {
            assert(is_bit(key, counter@[i as int]));
            assert(operands(*server, key, counter@[i as int], carry));
            assert(is_flag(key, counter@[i as int], c == 1));
            assert(is_flag(key, carry, k == 1));
        }
        let digit = not_equal(server, &counter[i], &carry);
        let next = both(server, &counter[i], &carry);
        sum.push(digit);
        proof {
            let s = decrypted(key, digit) as int;
            let n = decrypted(key, next) as int;
            assert(is_flag(key, next, c == 1 && k == 1));
            assert(s + 2 * n == c + k);
            assert(sum@.drop_last() =~= before);
            assert(sum@.last() == digit);
            assert(counter@.take(i + 1).drop_last() =~= counter@.take(i as int));
            assert(counter@.take(i + 1).last() == counter@[i as int]);
            lemma_pow2_unfold((i + 1) as nat);
            let p = pow2(i as nat) as int;
            assert(p * s + (2 * p) * n == p * c + p * k) by (nonlinear_arith)
                requires
                    s + 2 * n == c + k,
            ;
        }
        carry = next;
        i += 1;
    }
    proof {
        assert(counter@.take(i as int) =~= counter@);
        lemma_bits_value_bound(key, sum@);
        let p = pow2(counter@.len()) as int;
        let k = decrypted(key, carry) as int;
        lemma_pow2_pos(counter@.len());
        assert(k == 0) by (nonlinear_arith)
            requires
                0 <= k <= 1,
                0 < p,
                p * k < p,
        ;
        assert(p * k == 0) by (nonlinear_arith)
            requires
                k == 0,
        ;
    }
    sum
}

} // verus!
