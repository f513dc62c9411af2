//! The ciphertext field and the ciphertexts of the scheme.

use crate::bfv::serial::{
    lemma_frame, read_polynomial, read_word, word_at, write_polynomial, write_word,
};
use crate::field::{canonical, fval, FieldCore, PrimeField};
use crate::polynomial::Polynomial;
use crate::transformation::ntt_table::vals;
use crate::modulus::BarrettModulus;
use crate::reduce::ModulusConfig;
use crate::utils::prime::Prime;
use vstd::arithmetic::power2::{lemma2_to64, lemma2_to64_rest};
use vstd::prelude::*;
use vstd::std_specs::ops::{AddSpec, MulSpec, NegSpec, SubSpec};

verus! {

/// The ring dimension `N` of the scheme.
pub const DIMENSION_N: usize = 1024;

/// The field of integers modulo `132120577`.
#[derive(Clone, Copy, Debug, PartialEq, Eq, PartialOrd, Ord, Hash, Structural)]
pub struct CipherField(u32);

impl FieldCore for CipherField {
    type Value = u32;

    open spec fn spec_modulus() -> nat {
        132120577
    }

    closed spec fn spec_get(self) -> u32 {
        self.0
    }

    closed spec fn spec_new(v: nat) -> Self {
        CipherField(v as u32)
    }

    proof fn lemma_modulus() {
        lemma2_to64();
        lemma2_to64_rest();
    }

    proof fn lemma_get_injective(self, other: Self) {
    }

    proof fn lemma_spec_new(v: nat) {
        lemma2_to64();
        lemma2_to64_rest();
    }

    fn new(value: u32) -> (r: Self) {
        CipherField(value)
    }

    fn get(self) -> (value: u32) {
        self.0
    }

    fn modulus_value() -> (p: u32) {
        132120577
    }

    fn barrett() -> (m: BarrettModulus<u32>) {
        proof {
            lemma2_to64();
            lemma2_to64_rest();
            assert(2181569633 + 32 * 0x1_0000_0000 == (0x1_0000_0000 * 0x1_0000_0000) / 132120577) by (nonlinear_arith);
        }
        BarrettModulus::from_parts(132120577, [2181569633, 32])
    }
}

impl CipherField {
    /// The largest element, `p - 1`.
    pub fn max() -> (r: Self)
        ensures
            fval(r) == 132120577 - 1,
    {
        CipherField(132120577 - 1)
    }

    /// `-1`, which is `p - 1`.
    pub fn neg_one() -> (r: Self)
        ensures
            fval(r) == 132120577 - 1,
    {
        CipherField(132120577 - 1)
    }
}

impl ModulusConfig for CipherField {
    type Modulus = BarrettModulus<u32>;

    closed spec fn spec_modulus() -> BarrettModulus<u32> {
        choose|m: BarrettModulus<u32>| m.wf() && m.m() == 132120577
    }

    fn modulus() -> (m: BarrettModulus<u32>) {
        let m = <CipherField as FieldCore>::barrett();
        proof {
            m.lemma_same(<CipherField as ModulusConfig>::spec_modulus());
        }
        m
    }
}

impl PrimeField for CipherField {
    fn is_prime_field() -> (r: bool) {
        <CipherField as FieldCore>::barrett().probably_prime(20)
    }
}

impl core::default::Default for CipherField {
    fn default() -> (r: Self)
        ensures
            fval(r) == 0,
    {
        CipherField(0)
    }
}

impl core::ops::Add for CipherField {
    type Output = CipherField;

    fn add(self, rhs: CipherField) -> (r: CipherField) {
        let r = crate::field::Field::add(self, rhs);
        proof {
            FieldCore::lemma_get_injective(r, CipherField::spec_new((fval(self) + fval(rhs)) % 132120577));
        }
        r
    }
}

impl vstd::std_specs::ops::AddSpecImpl for CipherField {
    open spec fn obeys_add_spec() -> bool {
        true
    }

    open spec fn add_req(self, rhs: CipherField) -> bool {
        canonical(self) && canonical(rhs)
    }

    open spec fn add_spec(self, rhs: CipherField) -> CipherField {
        CipherField::spec_new((fval(self) + fval(rhs)) % 132120577)
    }
}

impl core::ops::Sub for CipherField {
    type Output = CipherField;

    fn sub(self, rhs: CipherField) -> (r: CipherField) {
        let r = crate::field::Field::sub(self, rhs);
        proof {
            FieldCore::lemma_get_injective(r, CipherField::spec_new(((fval(self) - fval(rhs)) % 132120577) as nat));
        }
        r
    }
}

impl vstd::std_specs::ops::SubSpecImpl for CipherField {
    open spec fn obeys_sub_spec() -> bool {
        true
    }

    open spec fn sub_req(self, rhs: CipherField) -> bool {
        canonical(self) && canonical(rhs)
    }

    open spec fn sub_spec(self, rhs: CipherField) -> CipherField {
        CipherField::spec_new(((fval(self) - fval(rhs)) % 132120577) as nat)
    }
}

impl core::ops::Mul for CipherField {
    type Output = CipherField;

    fn mul(self, rhs: CipherField) -> (r: CipherField) {
        let r = crate::field::Field::mul(self, rhs);
        proof {
            FieldCore::lemma_get_injective(r, CipherField::spec_new((fval(self) * fval(rhs)) % 132120577));
        }
        r
    }
}

impl vstd::std_specs::ops::MulSpecImpl for CipherField {
    open spec fn obeys_mul_spec() -> bool {
        true
    }

    open spec fn mul_req(self, rhs: CipherField) -> bool {
        true
    }

    open spec fn mul_spec(self, rhs: CipherField) -> CipherField {
        CipherField::spec_new((fval(self) * fval(rhs)) % 132120577)
    }
}

impl core::ops::Neg for CipherField {
    type Output = CipherField;

    fn neg(self) -> (r: CipherField) {
        let r = crate::field::Field::neg(self);
        proof {
            FieldCore::lemma_get_injective(r, CipherField::spec_new(((-(fval(self) as int)) % 132120577) as nat));
        }
        r
    }
}

impl vstd::std_specs::ops::NegSpecImpl for CipherField {
    open spec fn obeys_neg_spec() -> bool {
        true
    }

    open spec fn neg_req(self) -> bool {
        canonical(self)
    }

    open spec fn neg_spec(self) -> CipherField {
        CipherField::spec_new(((-(fval(self) as int)) % 132120577) as nat)
    }
}

impl core::ops::Div for CipherField {
    type Output = CipherField;

    /// `self / rhs` for a non-zero `rhs`: where `rhs` is coprime to the
    /// modulus, the element whose product with `rhs` is `self`.
    fn div(self, rhs: CipherField) -> (r: CipherField)
        ensures
            crate::utils::gcd::coprime(fval(rhs) as int, 132120577) ==> canonical(r) && (fval(r)
                * fval(rhs)) % 132120577 == fval(self) % 132120577,
    {
        crate::field::Field::div(self, rhs)
    }
}

impl vstd::std_specs::ops::DivSpecImpl for CipherField {
    open spec fn obeys_div_spec() -> bool {
        false
    }

    open spec fn div_req(self, rhs: CipherField) -> bool {
        0 < fval(rhs) < 132120577
    }

    open spec fn div_spec(self, rhs: CipherField) -> CipherField {
        self
    }
}

/// The number that four bytes stand for, most significant byte first.
pub open spec fn be_value(bytes: [u8; 4]) -> nat {
    (bytes[0] as nat) * 0x100_0000 + (bytes[1] as nat) * 0x1_0000 + (bytes[2] as nat) * 0x100
        + (bytes[3] as nat)
}

impl CipherField {
    /// The word of the element as four bytes, most significant first.
    pub fn to_bytes(&self) -> (bytes: [u8; 4])
        ensures
            be_value(bytes) == fval(*self),
    {
        let v: u32 = self.0;
        [
            (v / 0x100_0000) as u8,
            ((v / 0x1_0000) % 0x100) as u8,
            ((v / 0x100) % 0x100) as u8,
            (v % 0x100) as u8,
        ]
    }

    /// The element whose word is given by four bytes, most significant
    /// first. The word is taken as it is, reduced or not.
    pub fn from_bytes(v: [u8; 4]) -> (r: Self)
        ensures
            fval(r) == be_value(v),
    {
        CipherField(
            (v[0] as u32) * 0x100_0000 + (v[1] as u32) * 0x1_0000 + (v[2] as u32) * 0x100 + (
            v[3] as u32),
        )
    }
}

/// A ciphertext: a pair of polynomials over the ciphertext field.
#[derive(Clone, Debug, PartialEq)]
pub struct BFVCiphertext(pub [Polynomial<CipherField>; 2]);

impl BFVCiphertext {
    /// The ciphertext as bytes: the two lengths as words, then the
    /// coefficients of the first and of the second polynomial, every word
    /// as four bytes with the most significant first.
    pub fn to_vec(&self) -> (bytes: Vec<u8>)
        requires
            self.0[0]@.len() + self.0[1]@.len() < 0x4000_0000,
        ensures
            is_pair_frame(bytes@, vals(self.0[0]@), vals(self.0[1]@)),
    {
        let mut bytes: Vec<u8> = Vec::new();
        write_word(&mut bytes, self.0[0].coeff_count() as u32);
        write_word(&mut bytes, self.0[1].coeff_count() as u32);
        write_polynomial(&mut bytes, &self.0[0]);
        write_polynomial(&mut bytes, &self.0[1]);
        bytes
    }

    /// The ciphertext that bytes stand for, in the layout of `to_vec`.
    /// The bytes hold the two lengths and as many words as the lengths say;
    /// what follows them is passed over.
    pub fn from_vec(bytes: &Vec<u8>) -> (r: Self)
        requires
            bytes@.len() >= 8,
            4 * (2 + word_at(bytes@, 0) + word_at(bytes@, 1)) <= bytes@.len(),
        ensures
            is_pair_frame(
                bytes@.take((4 * (2 + word_at(bytes@, 0) + word_at(bytes@, 1))) as int),
                vals(r.0[0]@),
                vals(r.0[1]@),
            ),
    {
        let total = bytes.len();
        let len0 = read_word(bytes.as_slice(), 0) as usize;
        let len1 = read_word(bytes.as_slice(), 1) as usize;
        let c0 = read_polynomial(bytes.as_slice(), 2, len0);
        let c1 = read_polynomial(bytes.as_slice(), 2 + len0, len1);
        proof {
            lemma_frame(bytes@, vals(c0@), vals(c1@));
        }
        BFVCiphertext([c0, c1])
    }
}

/// The bytes are the frame of a pair of polynomials: the two lengths, and
/// the coefficients of the one and of the other, word by word.
pub open spec fn is_pair_frame(bytes: Seq<u8>, c0: Seq<int>, c1: Seq<int>) -> bool {
    &&& bytes.len() == 4 * (2 + c0.len() + c1.len())
    &&& word_at(bytes, 0) == c0.len()
    &&& word_at(bytes, 1) == c1.len()
    &&& forall|i: int| 0 <= i < c0.len() ==> word_at(bytes, 2 + i) == #[trigger] c0[i]
    &&& forall|i: int| 0 <= i < c1.len() ==> word_at(bytes, 2 + c0.len() + i) == #[trigger] c1[i]
}

} // verus!
