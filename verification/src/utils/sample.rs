//! Vectors of random field elements: binary, ternary and centered binomial.
//!
//! The random words come from the generator; what is made of a word is
//! stated exactly, by the functions that take the word as an argument.

use crate::field::{canonical, fval, Field, FieldCore};
use crate::primitive::{Bits, Word};
use crate::random::{next_six_bytes, next_u32};
use vstd::arithmetic::power2::{lemma2_to64, lemma_pow2_pos, lemma_pow2_unfold, pow2};
use vstd::prelude::*;

verus! {

/// The element that a pair of bits stands for in the ternary distribution:
/// `0`, `0`, `1` and `-1` for the pairs `0`, `1`, `2` and `3`.
pub open spec fn ternary_value(pair: nat, p: nat) -> nat {
    if pair == 2 {
        1
    } else if pair == 3 {
        (p - 1) as nat
    } else {
        0
    }
}

/// The number of ones among the bits of `x`.
pub open spec fn popcount(x: nat) -> nat
    decreases x,
{
    if x == 0 {
        0
    } else {
        (x % 2) + popcount(x / 2)
    }
}

/// The centered binomial value of six bytes, as a number modulo `p`: the
/// ones of the first three bytes less the ones of the last three, where the
/// third and the sixth byte count with their low five bits only.
pub open spec fn cbd_value(bytes: [u8; 6], p: nat) -> nat {
    let a = popcount(bytes[0] as nat) + popcount(bytes[1] as nat) + popcount(
        (bytes[2] as nat) % 32,
    );
    let b = popcount(bytes[3] as nat) + popcount(bytes[4] as nat) + popcount(
        (bytes[5] as nat) % 32,
    );
    if a >= b {
        (a - b) as nat
    } else {
        (p - (b - a)) as nat
    }
}

/// A byte has at most eight ones, and at most five if it is below 32.
pub proof fn lemma_popcount_bound(x: nat, bits: nat)
    requires
        x < pow2(bits),
    ensures
        popcount(x) <= bits,
    decreases bits,
{
    if x == 0 {
    } else {
        lemma2_to64();
        if bits == 0 {
        } else {
            lemma_pow2_unfold(bits);
            lemma_popcount_bound(x / 2, (bits - 1) as nat);
        }
    }
}

/// The number of ones among the bits of a byte.
pub fn count_ones(x: u8) -> (n: u32)
    ensures
        n == popcount(x as nat),
        n <= 8,
{
    let mut v: u8 = x;
    let mut n: u32 = 0;
    proof {
        lemma2_to64();
        lemma_popcount_bound(x as nat, 8);
    }
    while v > 0
        invariant
            n + popcount(v as nat) == popcount(x as nat),
            popcount(x as nat) <= 8,
        decreases v,
    {
        n = n + (v % 2) as u32;
        v = v / 2;
    }
    n
}

/// The first `count` binary elements of a random word: the element `k` is the bit `k`.
pub fn binary_from_word<F: FieldCore>(word: u32, count: usize) -> (v: Vec<F>)
    requires
        count <= 32,
    ensures
        v@.len() == count,
        forall|k: int| 0 <= k < count ==> fval(#[trigger] v@[k]) == (word as nat / pow2(k as nat)) % 2,
{
    let mut v: Vec<F> = Vec::new();
    let mut r: u32 = word;
    let mut k: usize = 0;
    proof {
        lemma2_to64();
    }
    while k < count
        invariant
            k <= count <= 32,
            v@.len() == k,
            r == word as nat / pow2(k as nat),
            forall|j: int|
                0 <= j < k ==> fval(#[trigger] v@[j]) == (word as nat / pow2(j as nat)) % 2,
        decreases count - k,
    {
        proof {
            lemma_pow2_unfold((k + 1) as nat);
            lemma_pow2_pos(k as nat);
            vstd::arithmetic::div_mod::lemma_div_denominator(
                word as int,
                pow2(k as nat) as int,
                2,
            );
            assert(pow2(k as nat) * 2 == 2 * pow2(k as nat));
        }
        if r % 2 == 1 {
            v.push(F::one());
        } else {
            v.push(F::zero());
        }
        r = r / 2;
        k = k + 1;
    }
    v
}

/// The first `count` ternary elements of a random word: the element `k`
/// stands for the pair of bits `k`.
pub fn ternary_from_word<F: FieldCore>(word: u32, count: usize) -> (v: Vec<F>)
    requires
        count <= 16,
    ensures
        v@.len() == count,
        forall|k: int|
            0 <= k < count ==> fval(#[trigger] v@[k]) == ternary_value(
                (word as nat / pow2((2 * k) as nat)) % 4,
                F::spec_modulus(),
            ),
{
    let mut v: Vec<F> = Vec::new();
    let mut r: u32 = word;
    let mut k: usize = 0;
    proof {
        lemma2_to64();
        assert((2 * 0) as nat == 0);
    }
    while k < count
        invariant
            k <= count <= 16,
            v@.len() == k,
            r == word as nat / pow2((2 * k) as nat),
            forall|j: int|
                0 <= j < k ==> fval(#[trigger] v@[j]) == ternary_value(
                    (word as nat / pow2((2 * j) as nat)) % 4,
                    F::spec_modulus(),
                ),
        decreases count - k,
    {
        proof {
            lemma_pow2_unfold((2 * k + 2) as nat);
            lemma_pow2_unfold((2 * k + 1) as nat);
            lemma_pow2_pos((2 * k) as nat);
            vstd::arithmetic::div_mod::lemma_div_denominator(
                word as int,
                pow2((2 * k) as nat) as int,
                4,
            );
            assert(pow2((2 * k) as nat) * 4 == 4 * pow2((2 * k) as nat));
            assert((2 * (k + 1)) as nat == (2 * k + 2) as nat);
        }
        let pair = r % 4;
        if pair == 2 {
            v.push(F::one());
        } else if pair == 3 {
            v.push(F::neg_one());
        } else {
            v.push(F::zero());
        }
        r = r / 4;
        k = k + 1;
    }
    v
}

/// The centered binomial element of six random bytes.
pub fn cbd_from_bytes<F: FieldCore>(bytes: [u8; 6]) -> (r: F)
    requires
        F::spec_modulus() > 21,
    ensures
        fval(r) == cbd_value(bytes, F::spec_modulus()),
        canonical(r),
{
    proof {
        lemma2_to64();
        F::lemma_modulus();
        F::Value::lemma_radix();
        lemma_popcount_bound((bytes[2] as nat) % 32, 5);
        lemma_popcount_bound((bytes[5] as nat) % 32, 5);
    }
    let a: u32 = count_ones(bytes[0]) + count_ones(bytes[1]) + count_ones(bytes[2] % 32);
    let b: u32 = count_ones(bytes[3]) + count_ones(bytes[4]) + count_ones(bytes[5] % 32);
    if a >= b {
        F::new(F::Value::from_u64((a - b) as u64))
    } else {
        F::new(F::modulus_value().minus(F::Value::from_u64((b - a) as u64)))
    }
}

/// Appends the elements of `tail` to `v`.
fn append<F: FieldCore>(v: &mut Vec<F>, tail: &Vec<F>)
    ensures
        final(v)@ == old(v)@ + tail@,
{
    let n = tail.len();
    let ghost before = v@;
    let mut i: usize = 0;
    while i < n
        invariant
            i <= n,
            n == tail@.len(),
            v@ == before + tail@.take(i as int),
        decreases n - i,
    {
        v.push(tail[i]);
        proof {
            assert(tail@.take(i + 1) =~= tail@.take(i as int).push(tail@[i as int]));
            assert(v@ =~= before + tail@.take(i + 1));
        }
        i = i + 1;
    }
    proof {
        assert(tail@.take(n as int) =~= tail@);
    }
}

/// A vector of `length` binary elements: each is `0` or `1`. A random word
/// gives 32 elements.
pub fn sample_binary_field_vec<F: FieldCore>(length: usize, rng: &mut rand_chacha::ChaCha12Rng) -> (v:
    Vec<F>)
    ensures
        v@.len() == length,
        forall|i: int| 0 <= i < length ==> fval(#[trigger] v@[i]) <= 1,
{
    let mut v: Vec<F> = Vec::new();
    while v.len() < length
        invariant
            v@.len() <= length,
            forall|i: int| 0 <= i < v@.len() ==> fval(#[trigger] v@[i]) <= 1,
        decreases length - v@.len(),
    {
        let left = length - v.len();
        let count = if left < 32 {
            left
        } else {
            32
        };
        let word = next_u32(rng);
        let chunk = binary_from_word::<F>(word, count);
        let ghost before = v@;
        append(&mut v, &chunk);
        proof {
            assert forall|i: int| 0 <= i < v@.len() implies fval(#[trigger] v@[i]) <= 1 by {
                if i >= before.len() {
                    assert(v@[i] == chunk@[i - before.len()]);
                } else {
                    assert(v@[i] == before[i]);
                }
            }
        }
    }
    v
}

/// A vector of `length` ternary elements: each is `0`, `1` or `-1`, with
/// the probabilities one half, one quarter and one quarter. A random word
/// gives 16 elements.
pub fn sample_ternary_field_vec<F: FieldCore>(length: usize, rng: &mut rand_chacha::ChaCha12Rng) -> (v:
    Vec<F>)
    ensures
        v@.len() == length,
        forall|i: int|
            0 <= i < length ==> fval(#[trigger] v@[i]) <= 1 || fval(v@[i]) == F::spec_modulus()
                - 1,
{
    let mut v: Vec<F> = Vec::new();
    while v.len() < length
        invariant
            v@.len() <= length,
            forall|i: int|
                0 <= i < v@.len() ==> fval(#[trigger] v@[i]) <= 1 || fval(v@[i])
                    == F::spec_modulus() - 1,
        decreases length - v@.len(),
    {
        let left = length - v.len();
        let count = if left < 16 {
            left
        } else {
            16
        };
        let word = next_u32(rng);
        let chunk = ternary_from_word::<F>(word, count);
        let ghost before = v@;
        append(&mut v, &chunk);
        proof {
            F::lemma_modulus();
            assert forall|i: int| 0 <= i < v@.len() implies fval(#[trigger] v@[i]) <= 1 || fval(
                v@[i],
            ) == F::spec_modulus() - 1 by {
                if i >= before.len() {
                    assert(v@[i] == chunk@[i - before.len()]);
                } else {
                    assert(v@[i] == before[i]);
                }
            }
        }
    }
    v
}

/// The largest size of a centered binomial value.
pub open spec fn cbd_bound() -> nat {
    21
}

/// Whether an element is within `bound` of zero: at most `bound`, or at
/// least `p - bound`.
pub open spec fn is_small<F: FieldCore>(x: F, bound: nat) -> bool {
    fval(x) <= bound || (F::spec_modulus() - bound <= fval(x) < F::spec_modulus())
}

/// A vector of `length` elements of the centered binomial distribution:
/// each is within 21 of zero.
pub fn sample_cbd_field_vec<F: FieldCore>(length: usize, rng: &mut rand_chacha::ChaCha12Rng) -> (v:
    Vec<F>)
    requires
        F::spec_modulus() > 21,
    ensures
        v@.len() == length,
        forall|i: int| 0 <= i < length ==> is_small(#[trigger] v@[i], cbd_bound()),
{
    let mut v: Vec<F> = Vec::new();
    let mut i: usize = 0;
    while i < length
        invariant
            i <= length,
            v@.len() == i,
            F::spec_modulus() > 21,
            forall|j: int| 0 <= j < i ==> is_small(#[trigger] v@[j], cbd_bound()),
        decreases length - i,
    {
        let bytes = next_six_bytes(rng);
        proof {
            lemma2_to64();
            lemma_popcount_bound(bytes[0] as nat, 8);
            lemma_popcount_bound(bytes[1] as nat, 8);
            lemma_popcount_bound((bytes[2] as nat) % 32, 5);
            lemma_popcount_bound(bytes[3] as nat, 8);
            lemma_popcount_bound(bytes[4] as nat, 8);
            lemma_popcount_bound((bytes[5] as nat) % 32, 5);
        }
        v.push(cbd_from_bytes::<F>(bytes));
        i = i + 1;
    }
    v
}

/// The element that a signed number stands for: the number itself
/// where it is not negative, and the modulus plus the number where it is.
pub fn from_signed<F: FieldCore>(r: i64) -> (x: F)
    requires
        -(F::spec_modulus() as int) < r < F::spec_modulus(),
    ensures
        canonical(x),
        fval(x) == (if r >= 0 {
            r as int
        } else {
            F::spec_modulus() + r
        }),
{
    proof {
        F::lemma_modulus();
        crate::primitive::lemma_radix_range::<F::Value>();
    }
    let modulus: u64 = F::modulus_value().to_u64();
    let word: u64 = if r >= 0 {
        r as u64
    } else {
        modulus - ((-r) as u64)
    };
    F::new(F::Value::from_u64(word))
}

} // verus!
