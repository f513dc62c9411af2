//! The context of the scheme: the ring dimension, the generator of random
//! numbers, and the tables of the transform.

use crate::bfv::ciphertext::{CipherField, DIMENSION_N};
use crate::error::AlgebraError;
use crate::field::{FieldCore, NTTField};
use crate::random::csrng_from_entropy;
use crate::transformation::NTTTable;
use vstd::arithmetic::power2::lemma2_to64;
use vstd::prelude::*;

verus! {

/// `log2` of the ring dimension.
pub const DIMENSION_LOG_N: u32 = 10;

/// The context of the scheme.
pub struct BFVContext {
    /// The ring dimension `N`.
    rlwe_dimension: usize,
    /// The generator of random numbers.
    csrng: rand_chacha::ChaCha12Rng,
    /// The tables of the transform of length `N` over the ciphertext field.
    table: NTTTable<CipherField>,
}

impl BFVContext {
    /// The tables of the transform.
    pub closed spec fn spec_table(self) -> NTTTable<CipherField> {
        self.table
    }

    /// The ring dimension.
    pub closed spec fn spec_rlwe_dimension(self) -> usize {
        self.rlwe_dimension
    }

    /// The generator of random numbers.
    pub closed spec fn spec_csrng(self) -> rand_chacha::ChaCha12Rng {
        self.csrng
    }

    /// The ring dimension is `N = 1024`, and the tables are well formed for it.
    pub open spec fn wf(self) -> bool {
        &&& self.spec_rlwe_dimension() == DIMENSION_N
        &&& self.spec_table().wf()
        &&& self.spec_table().spec_log_n() == DIMENSION_LOG_N
        &&& self.spec_table().n() == DIMENSION_N
    }

    /// A context with a generator seeded by the operating system and with
    /// fresh tables. Fails where no primitive root was found for the tables.
    pub fn new() -> (r: Result<Self, AlgebraError>)
        ensures
            match r {
                Ok(ctx) => ctx.wf(),
                Err(e) => e == (AlgebraError::NoPrimitiveRoot {
                    degree: 2048,
                    modulus: 132120577,
                }),
            },
    {
        proof {
            lemma2_to64();
        }
        let csrng = csrng_from_entropy();
        match CipherField::generate_ntt_table(DIMENSION_LOG_N) {
            Ok(table) => Ok(BFVContext { rlwe_dimension: DIMENSION_N, csrng, table }),
            Err(e) => Err(e),
        }
    }

    /// Returns the ring dimension.
    pub fn rlwe_dimension(&self) -> (n: usize)
        ensures
            n == self.spec_rlwe_dimension(),
    {
        self.rlwe_dimension
    }

    /// Returns the tables of the transform.
    pub fn table(&self) -> (table: &NTTTable<CipherField>)
        ensures
            *table == self.spec_table(),
    {
        &self.table
    }

    /// Returns the generator of random numbers of the context: what is
    /// drawn from it is drawn from the context, and nothing else of the
    /// context changes.
    pub fn csrng_mut(&mut self) -> (rng: &mut rand_chacha::ChaCha12Rng)
        ensures
            *rng == old(self).spec_csrng(),
            final(self).spec_csrng() == *final(rng),
            final(self).spec_table() == old(self).spec_table(),
            final(self).spec_rlwe_dimension() == old(self).spec_rlwe_dimension(),
    {
        &mut self.csrng
    }
}

} // verus!
