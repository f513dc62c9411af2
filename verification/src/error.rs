//! The errors of the library.

use vstd::prelude::*;

verus! {

/// What can go wrong when a modulus, a table or a sampler is set up, or when
/// an inverse is asked for.
#[derive(Clone, Copy, Debug, PartialEq, Eq)]
pub enum AlgebraError {
    /// `value` has no inverse modulo `modulus`.
    NoReduceInverse {
        /// The value that was to be inverted.
        value: u64,
        /// The modulus.
        modulus: u64,
    },
    /// There is no primitive root of order `degree` modulo `modulus`, or none was found.
    NoPrimitiveRoot {
        /// The order asked for.
        degree: u64,
        /// The modulus.
        modulus: u64,
    },
    /// The modulus leaves too little headroom in its word.
    BitCountError,
    /// The transform table could not be made.
    NTTTableError,
    /// The parameters of a distribution are not valid.
    DistributionError,
}

} // verus!
