//! The source of randomness, and the samplers over it.
//!
//! Random numbers come from a ChaCha stream cipher seeded by the operating
//! system. Nothing is known of a drawn number but its range, so every
//! function that draws one states what holds whatever was drawn.

use crate::field::{canonical, fval, Field, FieldCore, NTTField};
use crate::primitive::{Bits, Word};
use vstd::prelude::*;

verus! {

#[verifier::external_type_specification]
#[verifier::external_body]
pub struct ExChaCha12Rng(rand_chacha::ChaCha12Rng);

/// A generator seeded from the operating system.
///
/// Calls `SeedableRng::from_entropy` of `rand_core` for `ChaCha12Rng`. Nothing
/// is claimed of the generator. The call panics if the operating system has
/// no entropy to give.
#[verifier::external_body]
pub(crate) fn csrng_from_entropy() -> (rng: rand_chacha::ChaCha12Rng) {
    <rand_chacha::ChaCha12Rng as rand::SeedableRng>::from_entropy()
}

/// The next 32 random bits.
///
/// Calls `RngCore::next_u32`. Nothing is claimed of the result.
#[verifier::external_body]
pub(crate) fn next_u32(rng: &mut rand_chacha::ChaCha12Rng) -> (word: u32) {
    rand::RngCore::next_u32(rng)
}

/// Six random bytes.
///
/// Calls `RngCore::fill_bytes` on a buffer of six bytes. Nothing is claimed of
/// the bytes.
#[verifier::external_body]
pub(crate) fn next_six_bytes(rng: &mut rand_chacha::ChaCha12Rng) -> (bytes: [u8; 6]) {
    let mut bytes = [0u8; 6];
    rand::RngCore::fill_bytes(rng, &mut bytes);
    bytes
}

/// A number drawn uniformly from `[low, high]`.
///
/// Calls `Uniform::new_inclusive(low, high)` of `rand` and samples it once.
/// The contract claims the range that the documentation of `Uniform` gives,
/// and leaves out `low > high`, on which `new_inclusive` panics.
#[verifier::external_body]
pub(crate) fn uniform_inclusive(rng: &mut rand_chacha::ChaCha12Rng, low: u64, high: u64) -> (drawn: u64)
    requires
        low <= high,
    ensures
        low <= drawn <= high,
{
    rand::distributions::Distribution::sample(
        &rand::distributions::Uniform::new_inclusive(low, high),
        rng,
    )
}

/// The sampler of binary elements: `0` and `1`, each with probability one half.
#[derive(Clone, Copy, Debug)]
pub struct FieldBinarySampler;

/// The sampler of ternary elements: `0` with probability one half, `1` and
/// `-1` with probability one quarter each.
#[derive(Clone, Copy, Debug)]
pub struct FieldTernarySampler;

impl FieldBinarySampler {
    /// One binary element, from the lowest bit of a random word.
    pub fn sample<F: FieldCore>(&self, rng: &mut rand_chacha::ChaCha12Rng) -> (r: F)
        ensures
            fval(r) <= 1,
    {
        let word = next_u32(rng);
        if word % 2 == 1 {
            F::one()
        } else {
            F::zero()
        }
    }
}

impl FieldTernarySampler {
    /// One ternary element, from the lowest two bits of a random word.
    pub fn sample<F: FieldCore>(&self, rng: &mut rand_chacha::ChaCha12Rng) -> (r: F)
        ensures
            fval(r) <= 1 || fval(r) == F::spec_modulus() - 1,
    {
        let word = next_u32(rng);
        let pair = word % 4;
        if pair == 2 {
            F::one()
        } else if pair == 3 {
            F::neg_one()
        } else {
            F::zero()
        }
    }
}

/// Random elements of a field.
pub trait Random: FieldCore {
    /// An element drawn uniformly from the field.
    fn random(rng: &mut rand_chacha::ChaCha12Rng) -> (r: Self)
        ensures
            canonical(r),
    ;

    /// The sampler of binary elements.
    fn binary_sampler() -> FieldBinarySampler;

    /// The sampler of ternary elements.
    fn ternary_sampler() -> FieldTernarySampler;
}

impl<F: FieldCore> Random for F {
    fn random(rng: &mut rand_chacha::ChaCha12Rng) -> (r: Self) {
        proof {
            Self::lemma_modulus();
        }
        let p = Self::modulus_value().to_u64();
        let drawn = uniform_inclusive(rng, 0, p - 1);
        Self::new(Self::Value::from_u64(drawn))
    }

    fn binary_sampler() -> FieldBinarySampler {
        FieldBinarySampler
    }

    fn ternary_sampler() -> FieldTernarySampler {
        FieldTernarySampler
    }
}

/// A field with the transform and with random elements.
pub trait RandomNTTField: NTTField + Random {

}

impl<F: NTTField + Random> RandomNTTField for F {

}

} // verus!
