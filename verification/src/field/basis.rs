//! The basis of a digit decomposition: a power of two `2^bits`.

use crate::field::{Field, FieldCore};
use crate::modulus::barrett::bit_length;
use crate::primitive::{Bits, Word};
use crate::utils::prime::two_adicity;
use vstd::arithmetic::div_mod::{
    lemma_div_denominator, lemma_fundamental_div_mod, lemma_mod_breakdown, lemma_small_mod,
};
use vstd::arithmetic::power2::{
    lemma2_to64, lemma_pow2_adds, lemma_pow2_pos, lemma_pow2_strictly_increases,
    lemma_pow2_unfold, pow2,
};
use vstd::prelude::*;

verus! {

/// The digit of weight `2^(bits·i)` of `v`, written in base `2^bits`.
pub open spec fn digit(v: nat, bits: nat, i: nat) -> nat {
    (v / pow2(bits * i)) % pow2(bits)
}

/// The number that the first `n` digits of `v` in base `2^bits` stand for:
/// the sum of `digit_i · (2^bits)^i` over `i < n`.
pub open spec fn digits_sum(v: nat, bits: nat, n: nat) -> nat
    decreases n,
{
    if n == 0 {
        0
    } else {
        digits_sum(v, bits, (n - 1) as nat) + digit(v, bits, (n - 1) as nat) * pow2(
            bits * ((n - 1) as nat),
        )
    }
}

/// The number of digits in base `2^bits` that a number of `len` bits takes: `⌈len / bits⌉`.
pub open spec fn digits_needed(len: nat, bits: nat) -> nat {
    ((len + bits - 1) / (bits as int)) as nat
}

/// The first `n` digits of `v` stand for `v mod (2^bits)^n`.
pub proof fn lemma_digits_sum(v: nat, bits: nat, n: nat)
    ensures
        digits_sum(v, bits, n) == v % pow2(bits * n),
    decreases n,
{
    if n == 0 {
        lemma2_to64();
        assert(bits * 0 == 0);
    } else {
        let k = (n - 1) as nat;
        lemma_digits_sum(v, bits, k);
        lemma_pow2_pos(bits * k);
        lemma_pow2_pos(bits);
        assert(bits * n == bits * k + bits) by (nonlinear_arith)
            requires
                n == k + 1,
        ;
        lemma_pow2_adds(bits * k, bits);
        lemma_mod_breakdown(v as int, pow2(bits * k) as int, pow2(bits) as int);
        assert(digit(v, bits, k) * pow2(bits * k) == pow2(bits * k) * ((v / pow2(bits * k))
            % pow2(bits))) by (nonlinear_arith);
    }
}

/// Every number is below two to the number of its bits.
pub proof fn lemma_bit_length_bound(x: nat)
    ensures
        x < pow2(bit_length(x)),
    decreases x,
{
    if x == 0 {
        lemma2_to64();
    } else {
        lemma_bit_length_bound(x / 2);
        lemma_pow2_unfold(bit_length(x));
    }
}

/// **Round trip of the digit decomposition.** For every `v` below a modulus
/// `p` and every width `bits >= 1`, the `⌈bit_length(p) / bits⌉` digits of
/// `v` in base `2^bits` add up to `v` again: `Σ digit_i · (2^bits)^i = v`.
pub proof fn lemma_decompose_round_trip(v: nat, p: nat, bits: nat)
    requires
        v < p,
        bits >= 1,
    ensures
        digits_sum(v, bits, digits_needed(bit_length(p), bits)) == v,
{
    let len = bit_length(p);
    let n = digits_needed(len, bits);
    lemma_digits_sum(v, bits, n);
    lemma_bit_length_bound(p);
    lemma_fundamental_div_mod((len + bits - 1) as int, bits as int);
    assert(bits * n >= len) by (nonlinear_arith)
        requires
            len + bits - 1 == bits * n + (len + bits - 1) % (bits as int),
            0 <= (len + bits - 1) % (bits as int) < bits,
    ;
    if bits * n > len {
        lemma_pow2_strictly_increases(len, bits * n);
    }
    lemma_small_mod(v, pow2(bits * n));
}

/// **Round trip of the digit decomposition of a polynomial.** The digit
/// polynomials of a polynomial with coefficients below `p`, each times its
/// power of the basis, add up to the polynomial again, coefficient by
/// coefficient.
pub proof fn lemma_decompose_round_trip_all(s: Seq<nat>, p: nat, bits: nat)
    requires
        bits >= 1,
        forall|i: int| 0 <= i < s.len() ==> #[trigger] s[i] < p,
    ensures
        forall|i: int|
            0 <= i < s.len() ==> digits_sum(
                #[trigger] s[i],
                bits,
                digits_needed(bit_length(p), bits),
            ) == s[i],
{
    assert forall|i: int| 0 <= i < s.len() implies digits_sum(
        #[trigger] s[i],
        bits,
        digits_needed(bit_length(p), bits),
    ) == s[i] by {
        lemma_decompose_round_trip(s[i], p, bits);
    }
}

/// `2^k` has exactly `k` factors two.
pub proof fn lemma_two_adicity_pow2(k: nat)
    ensures
        two_adicity(pow2(k)) == k,
    decreases k,
{
    lemma_pow2_pos(k);
    if k == 0 {
        lemma2_to64();
    } else {
        lemma_pow2_unfold(k);
        lemma_two_adicity_pow2((k - 1) as nat);
        assert((2 * pow2((k - 1) as nat)) / 2 == pow2((k - 1) as nat));
    }
}

/// The next digit: dividing by `2^(bits·(i+1))` is dividing by `2^(bits·i)` and then by `2^bits`.
pub proof fn lemma_digit_step(v: nat, bits: nat, i: nat)
    ensures
        v / pow2(bits * (i + 1)) == (v / pow2(bits * i)) / pow2(bits),
        digit(v, bits, i) == (v / pow2(bits * i)) % pow2(bits),
{
    lemma_pow2_pos(bits * i);
    lemma_pow2_pos(bits);
    assert(bits * (i + 1) == bits * i + bits) by (nonlinear_arith);
    lemma_pow2_adds(bits * i, bits);
    lemma_div_denominator(v as int, pow2(bits * i) as int, pow2(bits) as int);
}

/// Once a quotient by a power of `2^bits` is zero, the later ones are zero.
pub proof fn lemma_quotient_stays_zero(v: nat, bits: nat, i: nat, j: nat)
    requires
        i <= j,
        v / pow2(bits * i) == 0,
    ensures
        v / pow2(bits * j) == 0,
{
    lemma_pow2_pos(bits * i);
    lemma_pow2_pos(bits * j);
    lemma_fundamental_div_mod(v as int, pow2(bits * i) as int);
    assert(bits * i <= bits * j) by (nonlinear_arith)
        requires
            i <= j,
    ;
    if bits * i < bits * j {
        lemma_pow2_strictly_increases(bits * i, bits * j);
    }
    vstd::arithmetic::div_mod::lemma_basic_div(v as int, pow2(bits * j) as int);
}

/// A basis `2^bits` for the digit decomposition of the elements of `F`.
pub struct Basis<F: FieldCore> {
    /// The basis `2^bits`.
    basis: F::Value,
    /// The number of digits of an element.
    decompose_len: usize,
    /// The low `bits` bits set.
    mask: F::Value,
    /// The width of a digit.
    bits: u32,
}

impl<F: FieldCore> Clone for Basis<F> {
    fn clone(&self) -> (r: Self)
        ensures
            r == *self,
    {
        Basis { basis: self.basis, decompose_len: self.decompose_len, mask: self.mask, bits: self.bits }
    }
}

impl<F: FieldCore> Copy for Basis<F> {

}

impl<F: FieldCore> Basis<F> {
    /// The width of a digit.
    pub closed spec fn spec_bits(self) -> u32 {
        self.bits
    }

    /// The low `bits` bits set.
    pub closed spec fn spec_mask(self) -> F::Value {
        self.mask
    }

    /// The basis.
    pub closed spec fn spec_basis(self) -> F::Value {
        self.basis
    }

    /// The number of digits of an element.
    pub closed spec fn spec_decompose_len(self) -> usize {
        self.decompose_len
    }

    /// The basis is `2^bits` with `1 <= bits` below the width of a word, the
    /// mask is the basis less one, and the number of digits is what the
    /// modulus takes.
    pub open spec fn wf(self) -> bool {
        &&& 1 <= self.spec_bits() < F::Value::spec_n_bits()
        &&& self.spec_basis().val() == pow2(self.spec_bits() as nat)
        &&& self.spec_mask().val() + 1 == pow2(self.spec_bits() as nat)
        &&& self.spec_decompose_len() == digits_needed(
            bit_length(F::spec_modulus()),
            self.spec_bits() as nat,
        )
    }

    /// The basis `2^bits`.
    pub fn new(bits: u32) -> (basis: Self)
        requires
            1 <= bits < F::Value::spec_n_bits(),
        ensures
            basis.wf(),
            basis.spec_bits() == bits,
    {
        let mask = F::mask(bits);
        proof {
            F::Value::lemma_radix();
            lemma_pow2_strictly_increases(bits as nat, F::Value::spec_n_bits());
            lemma_two_adicity_pow2(bits as nat);
            lemma_pow2_pos(bits as nat);
        }
        let basis = mask.plus(F::Value::one());
        let decompose_len = F::decompose_len(basis);
        Basis { basis, decompose_len, mask, bits }
    }

    /// Returns the number of digits of an element.
    pub fn decompose_len(&self) -> (len: usize)
        ensures
            len == self.spec_decompose_len(),
    {
        self.decompose_len
    }

    /// Returns the mask: the low `bits` bits set.
    pub fn mask(&self) -> (mask: F::Value)
        ensures
            mask == self.spec_mask(),
    {
        self.mask
    }

    /// Returns the width of a digit.
    pub fn bits(&self) -> (bits: u32)
        ensures
            bits == self.spec_bits(),
    {
        self.bits
    }

    /// Returns the basis.
    pub fn basis(&self) -> (basis: F::Value)
        ensures
            basis == self.spec_basis(),
    {
        self.basis
    }
}

} // verus!
