//! A cache of the tables of the transform, one for every length: a table
//! is made when it is first asked for, and kept.

use crate::error::AlgebraError;
use crate::field::{FieldCore, NTTField, PrimeField};
use crate::primitive::{radix, Bits, Word};
use crate::transformation::ntt_table::NTTTable;
use vstd::arithmetic::power2::pow2;
use vstd::prelude::*;

verus! {

/// The tables of the transform over `F` that were made so far, by `log_n`.
pub struct NTTTableCache<F: FieldCore> {
    /// The table for `log_n`, at the place `log_n`.
    tables: Vec<Option<NTTTable<F>>>,
}

impl<F: PrimeField> NTTTableCache<F> {
    /// The tables, by `log_n`.
    pub closed spec fn spec_tables(self) -> Seq<Option<NTTTable<F>>> {
        self.tables@
    }

    /// There is a place for every `log_n` up to 30, and a table that is
    /// there is well formed and of the length of its place.
    pub open spec fn wf(self) -> bool {
        &&& self.spec_tables().len() == 31
        &&& forall|i: int|
            0 <= i < 31 ==> (#[trigger] self.spec_tables()[i] matches Some(table) ==> table.wf()
                && table.spec_log_n() == i)
    }

    /// An empty cache.
    pub fn new() -> (cache: Self)
        ensures
            cache.wf(),
            forall|i: int| 0 <= i < 31 ==> cache.spec_tables()[i] is None,
    {
        let mut tables: Vec<Option<NTTTable<F>>> = Vec::new();
        let mut i: usize = 0;
        while i < 31
            invariant
                i <= 31,
                tables@.len() == i,
                forall|j: int| 0 <= j < i ==> tables@[j] is None,
            decreases 31 - i,
        {
            tables.push(None);
            i = i + 1;
        }
        NTTTableCache { tables }
    }

    /// Whether the table for `log_n` has been made.
    pub fn contains(&self, log_n: u32) -> (r: bool)
        requires
            self.wf(),
        ensures
            r == (log_n <= 30 && self.spec_tables()[log_n as int] is Some),
    {
        log_n <= 30 && self.tables[log_n as usize].is_some()
    }

    /// Makes the tables for the lengths `log_n_slice` that are not there
    /// yet. The tables that are there stay as they are, and where all of
    /// them are there nothing can fail. On an error the tables that were
    /// made before it are kept.
    pub fn init_ntt_table(&mut self, log_n_slice: &[u32]) -> (r: Result<(), AlgebraError>)
        requires
            old(self).wf(),
            forall|k: int|
                0 <= k < log_n_slice@.len() ==> 1 <= #[trigger] log_n_slice@[k] <= 30 && 2 * pow2(
                    log_n_slice@[k] as nat,
                ) < radix::<F::Value>(),
        ensures
            final(self).wf(),
            forall|i: int|
                0 <= i < 31 && old(self).spec_tables()[i] is Some ==> final(self).spec_tables()[i]
                    == old(self).spec_tables()[i],
            r is Ok ==> forall|k: int|
                0 <= k < log_n_slice@.len() ==> final(self).spec_tables()[
                #[trigger] log_n_slice@[k] as int] is Some,
            (forall|k: int|
                0 <= k < log_n_slice@.len() ==> old(self).spec_tables()[
                #[trigger] log_n_slice@[k] as int] is Some) ==> r is Ok,
            r is Err ==> exists|k: int|
                0 <= k < log_n_slice@.len() && r == Err::<(), AlgebraError>(
                    AlgebraError::NoPrimitiveRoot {
                        degree: (2 * pow2(#[trigger] log_n_slice@[k] as nat)) as u64,
                        modulus: F::spec_modulus() as u64,
                    },
                ),
    {
        let n = log_n_slice.len();
        let mut k: usize = 0;
        while k < n
            invariant
                k <= n,
                n == log_n_slice@.len(),
                self.wf(),
                forall|j: int|
                    0 <= j < log_n_slice@.len() ==> 1 <= #[trigger] log_n_slice@[j] <= 30 && 2
                        * pow2(log_n_slice@[j] as nat) < radix::<F::Value>(),
                forall|i: int|
                    0 <= i < 31 && old(self).spec_tables()[i] is Some ==> self.spec_tables()[i]
                        == old(self).spec_tables()[i],
                forall|j: int|
                    0 <= j < k ==> self.spec_tables()[#[trigger] log_n_slice@[j] as int] is Some,
            decreases n - k,
        {
            let log_n = log_n_slice[k];
            if self.tables[log_n as usize].is_none() {
                match F::generate_ntt_table(log_n) {
                    Ok(table) => {
                        self.tables.set(log_n as usize, Some(table));
                    },
                    Err(e) => {
                        return Err(e);
                    },
                }
            }
            k = k + 1;
        }
        Ok(())
    }

    /// The table for `log_n`: the one that is there, or a fresh one, which
    /// is kept. A table that is there is always handed out.
    pub fn get_ntt_table(&mut self, log_n: u32) -> (r: Result<&NTTTable<F>, AlgebraError>)
        requires
            old(self).wf(),
            1 <= log_n <= 30,
            2 * pow2(log_n as nat) < radix::<F::Value>(),
        ensures
            final(self).wf(),
            forall|i: int|
                0 <= i < 31 && old(self).spec_tables()[i] is Some ==> final(self).spec_tables()[i]
                    == old(self).spec_tables()[i],
            match r {
                Ok(table) => table.wf() && table.spec_log_n() == log_n
                    && final(self).spec_tables()[log_n as int] == Some(*table),
                Err(e) => e == (AlgebraError::NoPrimitiveRoot {
                    degree: (2 * pow2(log_n as nat)) as u64,
                    modulus: F::spec_modulus() as u64,
                }),
            },
            old(self).spec_tables()[log_n as int] is Some ==> r is Ok,
    {
        if self.tables[log_n as usize].is_none() {
            match F::generate_ntt_table(log_n) {
                Ok(table) => {
                    self.tables.set(log_n as usize, Some(table));
                },
                Err(e) => {
                    return Err(e);
                },
            }
        }
        match &self.tables[log_n as usize] {
            Some(table) => Ok(table),
            None => Err(AlgebraError::NTTTableError),
        }
    }
}

} // verus!
