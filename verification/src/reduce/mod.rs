//! Modular arithmetic as traits over the kind of modulus.

use vstd::prelude::*;

pub mod lazy_ops;
pub mod ops;
pub mod primitive;

pub use lazy_ops::{LazyMulReduce, LazyMulReduceAssign, LazyReduce, LazyReduceAssign};
pub use ops::{
    AddReduce, AddReduceAssign, DivReduce, DivReduceAssign, InvReduce, InvReduceAssign, MulReduce,
    MulReduceAssign, NegReduce, NegReduceAssign, PowReduce, Reduce, ReduceAssign, SubReduce,
    SubReduceAssign, TryInvReduce,
};

verus! {

/// A type that carries its modulus.
pub trait ModulusConfig {
    /// The kind of modulus.
    type Modulus;

    /// The modulus of the type.
    spec fn spec_modulus() -> Self::Modulus;

    /// The modulus of the type.
    fn modulus() -> (m: Self::Modulus)
        ensures
            m == Self::spec_modulus(),
    ;
}

} // verus!
