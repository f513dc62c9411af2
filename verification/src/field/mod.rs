//! Prime fields over machine words.
//!
//! A field type wraps one word and fixes a prime modulus `p` whose top two
//! bits are zero. An element is canonical when its word is below `p`; the
//! fast operations may leave a word in `[0, 2p)`, to be normalized before it
//! is compared.

use crate::modulus::barrett::{barrett_admits, bit_length, double_val};
use crate::modulus::BarrettModulus;
use crate::primitive::{low_bits, ones, radix, shift_right, Bits, Widening, Word, WrappingOps};
use crate::reduce::{
    AddReduce, DivReduce, InvReduce, LazyMulReduce, LazyReduce, MulReduce, NegReduce, PowReduce,
    Reduce, SubReduce,
};
use crate::utils::gcd::coprime;
use crate::field::basis::{
    digit, digits_needed, lemma_digit_step, lemma_quotient_stays_zero, lemma_two_adicity_pow2,
};
use crate::modulus::powof2::is_power_of_two;
use crate::primitive::div_ceil;
use crate::utils::prime::{split_odd_part, two_adicity, Prime};
use vstd::arithmetic::power2::lemma_pow2_pos;
use vstd::slice::SliceAdditionalExecFns;
use vstd::arithmetic::div_mod::lemma_small_mod;
use vstd::arithmetic::power::pow;
use vstd::arithmetic::power2::pow2;
use vstd::prelude::*;

pub mod basis;
pub mod laws;
pub mod ntt_fields;

pub use basis::Basis;

pub use ntt_fields::NTTField;

verus! {

/// The number that a field element stands for.
pub open spec fn fval<F: FieldCore>(x: F) -> nat {
    x.spec_get().val()
}

/// Whether an element is the canonical representative: below the modulus.
pub open spec fn canonical<F: FieldCore>(x: F) -> bool {
    x.spec_get().val() < F::spec_modulus()
}

/// A field of integers modulo a prime `p`, one word per element: the
/// representation, from which [`Field`] derives the arithmetic.
pub trait FieldCore: Sized + Copy {
    /// The word type of the elements.
    type Value: Widening + WrappingOps;

    /// The modulus `p`.
    spec fn spec_modulus() -> nat;

    /// The word of an element.
    spec fn spec_get(self) -> Self::Value;

    /// The modulus is at least 2 and its top two bits are zero.
    proof fn lemma_modulus()
        ensures
            2 <= Self::spec_modulus(),
            4 * Self::spec_modulus() < radix::<Self::Value>(),
    ;

    /// Two elements with the same word are the same element.
    proof fn lemma_get_injective(self, other: Self)
        requires
            self.spec_get() == other.spec_get(),
        ensures
            self == other,
    ;

    /// The element that stands for `v`.
    spec fn spec_new(v: nat) -> Self;

    /// The element that stands for `v` has a word of that value, for every `v` that is a word.
    proof fn lemma_spec_new(v: nat)
        requires
            v < radix::<Self::Value>(),
        ensures
            Self::spec_new(v).spec_get().val() == v,
    ;

    /// The element with the word `value`, taken as it is.
    fn new(value: Self::Value) -> (r: Self)
        ensures
            r.spec_get() == value,
    ;

    /// The word of the element.
    fn get(self) -> (value: Self::Value)
        ensures
            value == self.spec_get(),
    ;

    /// The modulus `p` as a word.
    fn modulus_value() -> (p: Self::Value)
        ensures
            p.val() == Self::spec_modulus(),
    ;

    /// The modulus with its Barrett ratio.
    fn barrett() -> (m: BarrettModulus<Self::Value>)
        ensures
            m.wf(),
            m.m() == Self::spec_modulus(),
    ;
}

/// The arithmetic of a prime field.
///
/// Every type with a [`FieldCore`] is a field: the operations are written
/// once, over the word operations of the element type.
pub trait Field: FieldCore {
    /// `0`.
    fn zero() -> (r: Self)
        ensures
            fval(r) == 0,
    ;

    /// `1`.
    fn one() -> (r: Self)
        ensures
            fval(r) == 1,
    ;

    /// `-1`, which is `p - 1`.
    fn neg_one() -> (r: Self)
        ensures
            fval(r) == Self::spec_modulus() - 1,
    ;

    /// The largest element, `p - 1`.
    fn max() -> (r: Self)
        ensures
            fval(r) == Self::spec_modulus() - 1,
    ;

    /// `2p` as a word.
    fn twice_modulus_inner() -> (r: Self::Value)
        ensures
            r.val() == 2 * Self::spec_modulus(),
    ;

    /// `⌊p / 8⌋`.
    fn q_div_8() -> (r: Self)
        ensures
            fval(r) == Self::spec_modulus() / 8,
    ;

    /// `-⌊p / 8⌋`, which is `p - ⌊p / 8⌋`.
    fn neg_q_div_8() -> (r: Self)
        ensures
            fval(r) == Self::spec_modulus() - Self::spec_modulus() / 8,
    ;

    /// The order of the field, `p`.
    fn order() -> (p: Self::Value)
        ensures
            p.val() == Self::spec_modulus(),
    ;

    /// Whether the element is `0`.
    fn is_zero(self) -> (r: bool)
        ensures
            r == (fval(self) == 0),
    ;

    /// Whether the element is `1`.
    fn is_one(self) -> (r: bool)
        ensures
            r == (fval(self) == 1),
    ;

    /// Whether two elements are the same.
    fn same(self, other: Self) -> (r: bool)
        ensures
            r == (fval(self) == fval(other)),
            r == (self == other),
    ;

    /// The element for `value`, reduced modulo `p`.
    fn checked_new(value: Self::Value) -> (r: Self)
        ensures
            fval(r) == value.val() % Self::spec_modulus(),
    ;

    /// Replaces the word of the element, taken as it is.
    fn set(&mut self, value: Self::Value)
        ensures
            final(self).spec_get() == value,
    ;

    /// Replaces the element by `value`, reduced modulo `p`.
    fn checked_set(&mut self, value: Self::Value)
        ensures
            fval(*final(self)) == value.val() % Self::spec_modulus(),
    ;

    /// Brings an element of `[0, 2p)` into `[0, p)`.
    fn normalize(self) -> (r: Self)
        requires
            fval(self) < 2 * Self::spec_modulus(),
        ensures
            fval(r) == fval(self) % Self::spec_modulus(),
    ;

    /// Brings an element of `[0, 2p)` into `[0, p)`, in place.
    fn normalize_assign(&mut self)
        requires
            fval(*old(self)) < 2 * Self::spec_modulus(),
        ensures
            fval(*final(self)) == fval(*old(self)) % Self::spec_modulus(),
    ;

    /// `self + rhs`.
    fn add(self, rhs: Self) -> (r: Self)
        requires
            (fval(self) < Self::spec_modulus()),
            (fval(rhs) < Self::spec_modulus()),
        ensures
            fval(r) == (fval(self) + fval(rhs)) % Self::spec_modulus(),
    ;

    /// `self - rhs`.
    fn sub(self, rhs: Self) -> (r: Self)
        requires
            (fval(self) < Self::spec_modulus()),
            (fval(rhs) < Self::spec_modulus()),
        ensures
            fval(r) == (fval(self) - fval(rhs)) % (Self::spec_modulus() as int),
    ;

    /// `-self`.
    fn neg(self) -> (r: Self)
        requires
            (fval(self) < Self::spec_modulus()),
        ensures
            fval(r) == (-(fval(self) as int)) % (Self::spec_modulus() as int),
    ;

    /// `self * rhs`.
    fn mul(self, rhs: Self) -> (r: Self)
        ensures
            fval(r) == (fval(self) * fval(rhs)) % Self::spec_modulus(),
    ;

    /// `self * scalar`, for a word `scalar`.
    fn mul_scalar(self, scalar: Self::Value) -> (r: Self)
        ensures
            fval(r) == (fval(self) * scalar.val()) % Self::spec_modulus(),
    ;

    /// `self^exp`.
    fn pow(self, exp: Self::Value) -> (r: Self)
        requires
            (fval(self) < Self::spec_modulus()),
        ensures
            fval(r) == pow(fval(self) as int, exp.val()) % (Self::spec_modulus() as int),
    ;

    /// The inverse of a non-zero element: where the element is coprime to
    /// the modulus, as every non-zero element of a prime field is, the
    /// result is canonical and its product with `self` is `1`.
    fn inv(self) -> (r: Self)
        requires
            0 < fval(self) < Self::spec_modulus(),
        ensures
            coprime(fval(self) as int, Self::spec_modulus() as int) ==> (fval(r) < Self::spec_modulus()) && (fval(self)
                * fval(r)) % Self::spec_modulus() == 1,
    ;

    /// `self / rhs` for a non-zero `rhs`: where `rhs` is coprime to the
    /// modulus, the result is canonical and its product with `rhs` is `self`.
    fn div(self, rhs: Self) -> (r: Self)
        requires
            0 < fval(rhs) < Self::spec_modulus(),
        ensures
            coprime(fval(rhs) as int, Self::spec_modulus() as int) ==> (fval(r) < Self::spec_modulus()) && (fval(r)
                * fval(rhs)) % Self::spec_modulus() == fval(self) % Self::spec_modulus(),
    ;

    /// `self + a * b`.
    fn add_mul(self, a: Self, b: Self) -> (r: Self)
        ensures
            fval(r) == (fval(self) + fval(a) * fval(b)) % Self::spec_modulus(),
    ;

    /// `self = self + a * b`.
    fn add_mul_assign(&mut self, a: Self, b: Self)
        ensures
            fval(*final(self)) == (fval(*old(self)) + fval(a) * fval(b)) % Self::spec_modulus(),
    ;

    /// `self * rhs` up to one extra modulus: congruent to the product and below `2p`.
    fn mul_fast(self, rhs: Self) -> (r: Self)
        ensures
            fval(r) < 2 * Self::spec_modulus(),
            fval(r) % Self::spec_modulus() == (fval(self) * fval(rhs)) % Self::spec_modulus(),
    ;

    /// `self = self * rhs` up to one extra modulus.
    fn mul_assign_fast(&mut self, rhs: Self)
        ensures
            fval(*final(self)) < 2 * Self::spec_modulus(),
            fval(*final(self)) % Self::spec_modulus() == (fval(*old(self)) * fval(rhs))
                % Self::spec_modulus(),
    ;

    /// `self + a * b` up to one extra modulus: congruent to the sum and below `2p`.
    fn add_mul_fast(self, a: Self, b: Self) -> (r: Self)
        ensures
            fval(r) < 2 * Self::spec_modulus(),
            fval(r) % Self::spec_modulus() == (fval(self) + fval(a) * fval(b))
                % Self::spec_modulus(),
    ;

    /// `self = self + a * b` up to one extra modulus.
    fn add_mul_assign_fast(&mut self, a: Self, b: Self)
        ensures
            fval(*final(self)) < 2 * Self::spec_modulus(),
            fval(*final(self)) % Self::spec_modulus() == (fval(*old(self)) + fval(a) * fval(b))
                % Self::spec_modulus(),
    ;

    /// The element as a `usize`.
    fn cast_into_usize(self) -> (r: usize)
        requires
            fval(self) <= usize::MAX,
        ensures
            r == fval(self),
    ;

    /// The element with the word `value`.
    fn cast_from_usize(value: usize) -> (r: Self)
        requires
            value < radix::<Self::Value>(),
        ensures
            fval(r) == value,
    ;

    /// The word with the low `bits` bits set.
    fn mask(bits: u32) -> (r: Self::Value)
        requires
            0 < bits <= Self::Value::spec_n_bits(),
        ensures
            r.val() == pow2(bits as nat) - 1,
    ;
    /// The number of digits that an element takes in the basis `basis`, a power of two.
    fn decompose_len(basis: Self::Value) -> (len: usize)
        requires
            is_power_of_two(basis.val()),
        ensures
            len == digits_needed(bit_length(Self::spec_modulus()), two_adicity(basis.val())),
    ;

    /// The digits of the element in the basis, least significant first.
    fn decompose(self, basis: Basis<Self>) -> (digits: Vec<Self>)
        requires
            basis.wf(),
        ensures
            digits@.len() == basis.spec_decompose_len(),
            forall|i: int|
                0 <= i < digits@.len() ==> fval(#[trigger] digits@[i]) == digit(
                    fval(self),
                    basis.spec_bits() as nat,
                    i as nat,
                ),
    ;

    /// Writes the digits of the element to `destination`, least significant
    /// first, as far as `destination` reaches and the element has digits
    /// left; the rest of `destination` stays as it is.
    fn decompose_at(self, basis: Basis<Self>, destination: &mut [Self])
        requires
            basis.wf(),
        ensures
            final(destination)@.len() == old(destination)@.len(),
            forall|i: int|
                0 <= i < old(destination)@.len() ==> #[trigger] final(destination)@[i] == (if fval(
                    self,
                ) / pow2((basis.spec_bits() as nat) * (i as nat)) == 0 {
                    old(destination)@[i]
                } else {
                    Self::spec_new(
                        digit(fval(self), basis.spec_bits() as nat, i as nat),
                    )
                }),
    ;

    /// Takes the lowest digit off the element: returns `self mod 2^bits` and
    /// leaves `⌊self / 2^bits⌋`.
    fn decompose_lsb_bits(&mut self, mask: Self::Value, bits: u32) -> (low: Self)
        requires
            bits < Self::Value::spec_n_bits(),
            mask.val() + 1 == pow2(bits as nat),
        ensures
            fval(low) == fval(*old(self)) % pow2(bits as nat),
            fval(*final(self)) == fval(*old(self)) / pow2(bits as nat),
    ;

    /// Takes the lowest digit off the element into `destination`.
    fn decompose_lsb_bits_at(&mut self, destination: &mut Self, mask: Self::Value, bits: u32)
        requires
            bits < Self::Value::spec_n_bits(),
            mask.val() + 1 == pow2(bits as nat),
        ensures
            fval(*final(destination)) == fval(*old(self)) % pow2(bits as nat),
            fval(*final(self)) == fval(*old(self)) / pow2(bits as nat),
    ;
}

impl<F: FieldCore> Field for F {
    fn zero() -> (r: Self)
    {
        Self::new(Self::Value::zero())
    }

    fn one() -> (r: Self)
    {
        Self::new(Self::Value::one())
    }

    fn neg_one() -> (r: Self)
    {
        proof {
            Self::lemma_modulus();
        }
        Self::new(Self::modulus_value().minus(Self::Value::one()))
    }

    fn max() -> (r: Self)
    {
        Self::neg_one()
    }

    fn twice_modulus_inner() -> (r: Self::Value)
    {
        proof {
            Self::lemma_modulus();
        }
        Self::modulus_value().plus(Self::modulus_value())
    }

    fn q_div_8() -> (r: Self)
    {
        proof {
            Self::lemma_modulus();
            vstd::arithmetic::power2::lemma2_to64();
            Self::Value::lemma_radix();
        }
        Self::new(shift_right(Self::modulus_value(), 3))
    }

    fn neg_q_div_8() -> (r: Self)
    {
        proof {
            Self::lemma_modulus();
            vstd::arithmetic::power2::lemma2_to64();
            Self::Value::lemma_radix();
        }
        Self::new(Self::modulus_value().minus(shift_right(Self::modulus_value(), 3)))
    }

    fn order() -> (p: Self::Value)
    {
        Self::modulus_value()
    }

    fn is_zero(self) -> (r: bool)
    {
        self.get().is_zero()
    }

    fn is_one(self) -> (r: bool)
    {
        self.get().same(Self::Value::one())
    }

    fn same(self, other: Self) -> (r: bool)
    {
        proof {
            if self.spec_get() == other.spec_get() {
                self.lemma_get_injective(other);
            }
        }
        self.get().same(other.get())
    }

    fn checked_new(value: Self::Value) -> (r: Self)
    {
        if value.below(Self::modulus_value()) {
            proof {
                lemma_small_mod(value.val(), Self::spec_modulus());
            }
            Self::new(value)
        } else {
            Self::new(value.reduce(Self::barrett()))
        }
    }

    fn set(&mut self, value: Self::Value)
    {
        *self = Self::new(value);
    }

    fn checked_set(&mut self, value: Self::Value)
    {
        *self = Self::checked_new(value);
    }

    fn normalize(self) -> (r: Self)
    {
        proof {
            crate::lemmas::lemma_normalize(
                self.spec_get().val() as int,
                self.spec_get().val() as int,
                Self::spec_modulus() as int,
            );
        }
        let p = Self::modulus_value();
        if self.get().at_least(p) {
            Self::new(self.get().minus(p))
        } else {
            self
        }
    }

    fn normalize_assign(&mut self)
    {
        *self = (*self).normalize();
    }

    fn add(self, rhs: Self) -> (r: Self)
    {
        Self::new(AddReduce::<Self::Value>::add_reduce(self.get(), rhs.get(), Self::modulus_value()))
    }

    fn sub(self, rhs: Self) -> (r: Self)
    {
        Self::new(SubReduce::<Self::Value>::sub_reduce(self.get(), rhs.get(), Self::modulus_value()))
    }

    fn neg(self) -> (r: Self)
    {
        Self::new(NegReduce::<Self::Value>::neg_reduce(self.get(), Self::modulus_value()))
    }

    fn mul(self, rhs: Self) -> (r: Self)
    {
        Self::new(
            MulReduce::<BarrettModulus<Self::Value>>::mul_reduce(
                self.get(),
                rhs.get(),
                Self::barrett(),
            ),
        )
    }

    fn mul_scalar(self, scalar: Self::Value) -> (r: Self)
    {
        Self::new(
            MulReduce::<BarrettModulus<Self::Value>>::mul_reduce(
                self.get(),
                scalar,
                Self::barrett(),
            ),
        )
    }

    fn pow(self, exp: Self::Value) -> (r: Self)
    {
        Self::new(
            PowReduce::<BarrettModulus<Self::Value>, Self::Value>::pow_reduce(
                self.get(),
                exp,
                Self::barrett(),
            ),
        )
    }

    fn inv(self) -> (r: Self)
    {
        Self::new(
            InvReduce::<BarrettModulus<Self::Value>>::inv_reduce(self.get(), Self::barrett()),
        )
    }

    fn div(self, rhs: Self) -> (r: Self)
    {
        Self::new(
            DivReduce::<BarrettModulus<Self::Value>>::div_reduce(
                self.get(),
                rhs.get(),
                Self::barrett(),
            ),
        )
    }

    fn add_mul(self, a: Self, b: Self) -> (r: Self)
    {
        let wide = a.get().carry_mul(b.get(), self.get());
        Self::new(wide.reduce(Self::barrett()))
    }

    fn add_mul_assign(&mut self, a: Self, b: Self)
    {
        *self = (*self).add_mul(a, b);
    }

    fn mul_fast(self, rhs: Self) -> (r: Self)
    {
        Self::new(
            LazyMulReduce::<BarrettModulus<Self::Value>>::lazy_mul_reduce(
                self.get(),
                rhs.get(),
                Self::barrett(),
            ),
        )
    }

    fn mul_assign_fast(&mut self, rhs: Self)
    {
        *self = (*self).mul_fast(rhs);
    }

    fn add_mul_fast(self, a: Self, b: Self) -> (r: Self)
    {
        let wide = a.get().carry_mul(b.get(), self.get());
        Self::new(wide.lazy_reduce(Self::barrett()))
    }

    fn add_mul_assign_fast(&mut self, a: Self, b: Self)
    {
        *self = (*self).add_mul_fast(a, b);
    }

    fn cast_into_usize(self) -> (r: usize)
    {
        self.get().to_u64() as usize
    }

    fn cast_from_usize(value: usize) -> (r: Self)
    {
        Self::new(Self::Value::from_u64(value as u64))
    }

    fn mask(bits: u32) -> (r: Self::Value)
    {
        ones::<Self::Value>(bits)
    }
    fn decompose_len(basis: Self::Value) -> (len: usize)
    {
        proof {
            basis.lemma_word();
            Self::lemma_modulus();
            let k = choose|k: nat| 1 <= k && basis.val() == #[trigger] pow2(k);
            lemma_two_adicity_pow2(k);
            lemma_pow2_pos(k);
        }
        let (log, _) = split_odd_part(basis.to_u64());
        let count = Self::barrett().bit_count();
        div_ceil(count, log) as usize
    }

    fn decompose(self, basis: Basis<Self>) -> (digits: Vec<Self>)
    {
        let len = basis.decompose_len();
        let mask = basis.mask();
        let bits = basis.bits();
        let mut temp = self;
        let mut digits: Vec<Self> = Vec::new();
        let mut i: usize = 0;
        proof {
            vstd::arithmetic::power2::lemma2_to64();
            assert((bits as nat) * 0 == 0);
        }
        while i < len
            invariant
                basis.wf(),
                len == basis.spec_decompose_len(),
                mask == basis.spec_mask(),
                bits == basis.spec_bits(),
                i <= len,
                digits@.len() == i,
                fval(temp) == fval(self) / pow2((bits as nat) * (i as nat)),
                forall|j: int|
                    0 <= j < i ==> fval(#[trigger] digits@[j]) == digit(
                        fval(self),
                        bits as nat,
                        j as nat,
                    ),
            decreases len - i,
        {
            proof {
                lemma_digit_step(fval(self), bits as nat, i as nat);
            }
            let low = temp.decompose_lsb_bits(mask, bits);
            digits.push(low);
            i = i + 1;
        }
        digits
    }

    fn decompose_at(self, basis: Basis<Self>, destination: &mut [Self])
    {
        let mask = basis.mask();
        let bits = basis.bits();
        let mut temp = self;
        let n = destination.len();
        let mut i: usize = 0;
        proof {
            vstd::arithmetic::power2::lemma2_to64();
            assert((bits as nat) * 0 == 0);
        }
        while i < n
            invariant
                basis.wf(),
                mask == basis.spec_mask(),
                bits == basis.spec_bits(),
                i <= n,
                n == destination@.len(),
                n == old(destination)@.len(),
                fval(temp) == fval(self) / pow2((bits as nat) * (i as nat)),
                forall|j: int|
                    0 <= j < i ==> #[trigger] destination@[j] == Self::spec_new(
                        digit(fval(self), bits as nat, j as nat),
                    ) && fval(self) / pow2((bits as nat) * (j as nat)) != 0,
                forall|j: int| i <= j < n ==> #[trigger] destination@[j] == old(destination)@[j],
            decreases n - i,
        {
            if temp.is_zero() {
                proof {
                    assert forall|j: int| i <= j < n implies #[trigger] destination@[j] == (if fval(
                        self,
                    ) / pow2((bits as nat) * (j as nat)) == 0 {
                        old(destination)@[j]
                    } else {
                        Self::spec_new(digit(fval(self), bits as nat, j as nat))
                    }) by {
                        lemma_quotient_stays_zero(fval(self), bits as nat, i as nat, j as nat);
                    }
                }
                return ;
            }
            proof {
                lemma_digit_step(fval(self), bits as nat, i as nat);
            }
            let low = temp.decompose_lsb_bits(mask, bits);
            proof {
                let d = digit(fval(self), bits as nat, i as nat);
                low.spec_get().lemma_word();
                Self::lemma_spec_new(d);
                low.spec_get().lemma_val_injective(Self::spec_new(d).spec_get());
                low.lemma_get_injective(Self::spec_new(d));
            }
            destination[i] = low;
            i = i + 1;
        }
    }

    fn decompose_lsb_bits(&mut self, mask: Self::Value, bits: u32) -> (low: Self)
    {
        let value = self.get();
        let low = Self::new(low_bits(value, mask));
        *self = Self::new(shift_right(value, bits));
        low
    }

    fn decompose_lsb_bits_at(&mut self, destination: &mut Self, mask: Self::Value, bits: u32)
    {
        let value = self.get();
        *destination = Self::new(low_bits(value, mask));
        *self = Self::new(shift_right(value, bits));
    }
}

/// A field whose modulus is prime.
pub trait PrimeField: Field {
    /// Tests the modulus for primality, with 20 rounds of Miller–Rabin.
    /// The answer is `false` only where a small prime divides the modulus
    /// or a base shows that it is composite.
    fn is_prime_field() -> (r: bool)
        ensures
            Self::spec_modulus() < 64 ==> r == crate::utils::prime::is_prime_below_64(
                Self::spec_modulus(),
            ),
            64 <= Self::spec_modulus() && crate::utils::prime::has_small_factor(
                Self::spec_modulus(),
            ) ==> !r,
            64 <= Self::spec_modulus() && r ==> crate::utils::prime::strong_probable_prime(
                Self::spec_modulus(),
                2,
            ),
            64 <= Self::spec_modulus() && !r ==> crate::utils::prime::has_small_factor(
                Self::spec_modulus(),
            ) || crate::utils::prime::has_witness(Self::spec_modulus()),
    ;
}

} // verus!
