//! The plaintext field and the plaintexts of the scheme.

use crate::field::{canonical, fval, FieldCore, PrimeField};
use crate::polynomial::Polynomial;
use crate::utils::gcd::{coprime, divides, lemma_coprime_cancels};
use crate::modulus::BarrettModulus;
use crate::reduce::ModulusConfig;
use crate::utils::prime::Prime;
use vstd::arithmetic::power2::{lemma2_to64, lemma2_to64_rest};
use vstd::prelude::*;
use vstd::std_specs::ops::{AddSpec, MulSpec, NegSpec, SubSpec};

verus! {

/// The field of integers modulo `61`.
#[derive(Clone, Copy, Debug, PartialEq, Eq, PartialOrd, Ord, Hash, Structural)]
pub struct PlainField(u16);

impl FieldCore for PlainField {
    type Value = u16;

    open spec fn spec_modulus() -> nat {
        61
    }

    closed spec fn spec_get(self) -> u16 {
        self.0
    }

    closed spec fn spec_new(v: nat) -> Self {
        PlainField(v as u16)
    }

    proof fn lemma_modulus() {
        lemma2_to64();
        lemma2_to64_rest();
    }

    proof fn lemma_get_injective(self, other: Self) {
    }

    proof fn lemma_spec_new(v: nat) {
        lemma2_to64();
        lemma2_to64_rest();
    }

    fn new(value: u16) -> (r: Self) {
        PlainField(value)
    }

    fn get(self) -> (value: u16) {
        self.0
    }

    fn modulus_value() -> (p: u16) {
        61
    }

    fn barrett() -> (m: BarrettModulus<u16>) {
        proof {
            lemma2_to64();
            lemma2_to64_rest();
            assert(23635 + 1074 * 0x1_0000 == (0x1_0000 * 0x1_0000) / 61) by (nonlinear_arith);
        }
        BarrettModulus::from_parts(61, [23635, 1074])
    }
}

impl PlainField {
    /// The largest element, `p - 1`.
    pub fn max() -> (r: Self)
        ensures
            fval(r) == 61 - 1,
    {
        PlainField(61 - 1)
    }

    /// `-1`, which is `p - 1`.
    pub fn neg_one() -> (r: Self)
        ensures
            fval(r) == 61 - 1,
    {
        PlainField(61 - 1)
    }
}

impl ModulusConfig for PlainField {
    type Modulus = BarrettModulus<u16>;

    closed spec fn spec_modulus() -> BarrettModulus<u16> {
        choose|m: BarrettModulus<u16>| m.wf() && m.m() == 61
    }

    fn modulus() -> (m: BarrettModulus<u16>) {
        let m = <PlainField as FieldCore>::barrett();
        proof {
            m.lemma_same(<PlainField as ModulusConfig>::spec_modulus());
        }
        m
    }
}

impl PrimeField for PlainField {
    fn is_prime_field() -> (r: bool) {
        <PlainField as FieldCore>::barrett().probably_prime(20)
    }
}

impl core::default::Default for PlainField {
    fn default() -> (r: Self)
        ensures
            fval(r) == 0,
    {
        PlainField(0)
    }
}

impl core::ops::Add for PlainField {
    type Output = PlainField;

    fn add(self, rhs: PlainField) -> (r: PlainField) {
        let r = crate::field::Field::add(self, rhs);
        proof {
            FieldCore::lemma_get_injective(r, PlainField::spec_new((fval(self) + fval(rhs)) % 61));
        }
        r
    }
}

impl vstd::std_specs::ops::AddSpecImpl for PlainField {
    open spec fn obeys_add_spec() -> bool {
        true
    }

    open spec fn add_req(self, rhs: PlainField) -> bool {
        canonical(self) && canonical(rhs)
    }

    open spec fn add_spec(self, rhs: PlainField) -> PlainField {
        PlainField::spec_new((fval(self) + fval(rhs)) % 61)
    }
}

impl core::ops::Sub for PlainField {
    type Output = PlainField;

    fn sub(self, rhs: PlainField) -> (r: PlainField) {
        let r = crate::field::Field::sub(self, rhs);
        proof {
            FieldCore::lemma_get_injective(r, PlainField::spec_new(((fval(self) - fval(rhs)) % 61) as nat));
        }
        r
    }
}

impl vstd::std_specs::ops::SubSpecImpl for PlainField {
    open spec fn obeys_sub_spec() -> bool {
        true
    }

    open spec fn sub_req(self, rhs: PlainField) -> bool {
        canonical(self) && canonical(rhs)
    }

    open spec fn sub_spec(self, rhs: PlainField) -> PlainField {
        PlainField::spec_new(((fval(self) - fval(rhs)) % 61) as nat)
    }
}

impl core::ops::Mul for PlainField {
    type Output = PlainField;

    fn mul(self, rhs: PlainField) -> (r: PlainField) {
        let r = crate::field::Field::mul(self, rhs);
        proof {
            FieldCore::lemma_get_injective(r, PlainField::spec_new((fval(self) * fval(rhs)) % 61));
        }
        r
    }
}

impl vstd::std_specs::ops::MulSpecImpl for PlainField {
    open spec fn obeys_mul_spec() -> bool {
        true
    }

    open spec fn mul_req(self, rhs: PlainField) -> bool {
        true
    }

    open spec fn mul_spec(self, rhs: PlainField) -> PlainField {
        PlainField::spec_new((fval(self) * fval(rhs)) % 61)
    }
}

impl core::ops::Neg for PlainField {
    type Output = PlainField;

    fn neg(self) -> (r: PlainField) {
        let r = crate::field::Field::neg(self);
        proof {
            FieldCore::lemma_get_injective(r, PlainField::spec_new(((-(fval(self) as int)) % 61) as nat));
        }
        r
    }
}

impl vstd::std_specs::ops::NegSpecImpl for PlainField {
    open spec fn obeys_neg_spec() -> bool {
        true
    }

    open spec fn neg_req(self) -> bool {
        canonical(self)
    }

    open spec fn neg_spec(self) -> PlainField {
        PlainField::spec_new(((-(fval(self) as int)) % 61) as nat)
    }
}

impl core::ops::Div for PlainField {
    type Output = PlainField;

    /// `self / rhs` for a non-zero `rhs`: the element whose product with
    /// `rhs` is `self`.
    fn div(self, rhs: PlainField) -> (r: PlainField)
        ensures
            canonical(r),
            (fval(r) * fval(rhs)) % 61 == fval(self) % 61,
    {
        proof {
            lemma_plain_coprime(fval(rhs) as int);
        }
        crate::field::Field::div(self, rhs)
    }
}

impl vstd::std_specs::ops::DivSpecImpl for PlainField {
    open spec fn obeys_div_spec() -> bool {
        false
    }

    open spec fn div_req(self, rhs: PlainField) -> bool {
        0 < fval(rhs) < 61
    }

    open spec fn div_spec(self, rhs: PlainField) -> PlainField {
        self
    }
}

/// A plaintext: a polynomial over the plaintext field.
#[derive(Clone, Debug, PartialEq)]
pub struct BFVPlaintext(pub Polynomial<PlainField>);

impl BFVPlaintext {
    /// The plaintext with the polynomial `poly`.
    pub fn new(poly: Polynomial<PlainField>) -> (r: Self)
        ensures
            r.0 == poly,
    {
        BFVPlaintext(poly)
    }
}

/// The plaintext modulus 61 is prime: its divisors are 1 and 61.
pub proof fn lemma_61_is_prime(e: int)
    requires
        divides(e, 61),
    ensures
        e == 1 || e == 61,
{
    vstd::arithmetic::div_mod::lemma_fundamental_div_mod(61, e);
    let f = 61int / e;
    assert(f >= 1 && e <= 61) by (nonlinear_arith)
        requires
            61 == e * f,
            e > 0,
    ;
    if 1 < e < 61 {
        let d = if e <= f {
            e
        } else {
            f
        };
        let other = if e <= f {
            f
        } else {
            e
        };
        assert(f >= 2) by (nonlinear_arith)
            requires
                61 == e * f,
                1 < e < 61,
        ;
        assert(d * d <= 61) by (nonlinear_arith)
            requires
                61 == d * other,
                2 <= d <= other,
        ;
        assert(d <= 7) by (nonlinear_arith)
            requires
                d * d <= 61,
                d >= 0,
        ;
        assert(61 == d * other) by (nonlinear_arith)
            requires
                61 == e * f,
                (d == e && other == f) || (d == f && other == e),
        ;
        if d == 2 {
            assert((2 * other) % 2 == 0);
            assert(61int % 2 != 0);
            assert(false);
        } else if d == 3 {
            assert((3 * other) % 3 == 0);
            assert(61int % 3 != 0);
            assert(false);
        } else if d == 4 {
            assert((4 * other) % 4 == 0);
            assert(61int % 4 != 0);
            assert(false);
        } else if d == 5 {
            assert((5 * other) % 5 == 0);
            assert(61int % 5 != 0);
            assert(false);
        } else if d == 6 {
            assert((6 * other) % 6 == 0);
            assert(61int % 6 != 0);
            assert(false);
        } else {
            assert((7 * other) % 7 == 0);
            assert(61int % 7 != 0);
            assert(false);
        }
    }
}

/// The plaintext modulus is prime.
pub proof fn lemma_plain_modulus_prime()
    ensures
        crate::utils::fermat::is_prime(61),
{
    assert forall|d: int| 1 < d < 61 implies #[trigger] (61int % d) != 0 by {
        if 61int % d == 0 {
            lemma_61_is_prime(d);
        }
    }
}

/// **The power 60 in the plaintext field.** The power 60 of every
/// element but zero is one.
pub proof fn lemma_plain_power_of_order(a: nat)
    requires
        0 < a < 61,
    ensures
        vstd::arithmetic::power::pow(a as int, 60) % 61 == 1,
{
    lemma_plain_modulus_prime();
    vstd::arithmetic::div_mod::lemma_small_mod(a, 61);
    crate::utils::fermat::lemma_fermat(a, 61);
}

/// Every non-zero element of the plaintext field is coprime to the modulus.
pub proof fn lemma_plain_coprime(a: int)
    requires
        0 < a < 61,
    ensures
        coprime(a, 61),
{
    vstd::arithmetic::div_mod::lemma_small_mod(0, 1);
    assert(a % 1 == 0 && 61int % 1 == 0);
    assert forall|e: int| divides(e, a) && divides(e, 61) implies #[trigger] divides(e, 1) by {
        lemma_61_is_prime(e);
        vstd::arithmetic::div_mod::lemma_fundamental_div_mod(a, e);
        let k = a / e;
        assert(e <= a) by (nonlinear_arith)
            requires
                a == e * k,
                a > 0,
                e > 0,
        ;
    }
}

/// The plaintext field has no zero divisors: a product of non-zero elements is not zero.
pub proof fn lemma_plain_product_nonzero(a: nat, b: nat)
    requires
        0 < a < 61,
        0 < b < 61,
    ensures
        (a * b) % 61 != 0,
{
    lemma_plain_coprime(a as int);
    if (a * b) % 61 == 0 {
        lemma_coprime_cancels(a, b, 61);
        vstd::arithmetic::div_mod::lemma_small_mod(b, 61);
    }
}

/// **Inverses in the plaintext field.** For every non-zero element `a`
/// the element `a.inv()` is canonical and `a · a.inv() = 1`.
pub proof fn lemma_plain_inverse(a: PlainField, inverse: PlainField)
    requires
        0 < fval(a) < 61,
        coprime(fval(a) as int, 61) ==> canonical(inverse) && (fval(a) * fval(inverse)) % 61 == 1,
    ensures
        canonical(inverse),
        (fval(a) * fval(inverse)) % 61 == 1,
{
    lemma_plain_coprime(fval(a) as int);
}

} // verus!
