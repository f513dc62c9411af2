//! The lazy forms of the reductions: the result is congruent to the exact
//! one and may exceed it by one modulus.

use vstd::prelude::*;

verus! {

/// Calculates `self (mod modulus)` up to one extra modulus.
pub trait LazyReduce<Modulus>: Sized {
    /// The type of the result.
    type Output;

    /// What `lazy_reduce` asks of its arguments.
    spec fn lazy_reduce_pre(self, modulus: Modulus) -> bool;

    /// What `lazy_reduce` promises of its result `out`.
    spec fn lazy_reduce_post(self, modulus: Modulus, out: Self::Output) -> bool;

    /// Calculates `self (mod modulus)` up to one extra modulus.
    fn lazy_reduce(self, modulus: Modulus) -> (out: Self::Output)
        requires
            self.lazy_reduce_pre(modulus),
        ensures
            self.lazy_reduce_post(modulus, out),
    ;
}

/// Replaces `self` by `self (mod modulus)` up to one extra modulus.
pub trait LazyReduceAssign<Modulus>: LazyReduce<Modulus, Output = Self> {
    /// Replaces `self` by `self (mod modulus)` up to one extra modulus.
    fn lazy_reduce_assign(&mut self, modulus: Modulus)
        requires
            old(self).lazy_reduce_pre(modulus),
        ensures
            old(self).lazy_reduce_post(modulus, *final(self)),
    ;
}

/// Calculates `self * rhs (mod modulus)` up to one extra modulus.
pub trait LazyMulReduce<Modulus, Rhs = Self>: Sized {
    /// The type of the result.
    type Output;

    /// What `lazy_mul_reduce` asks of its arguments.
    spec fn lazy_mul_reduce_pre(self, rhs: Rhs, modulus: Modulus) -> bool;

    /// What `lazy_mul_reduce` promises of its result `out`.
    spec fn lazy_mul_reduce_post(self, rhs: Rhs, modulus: Modulus, out: Self::Output) -> bool;

    /// Calculates `self * rhs (mod modulus)` up to one extra modulus.
    fn lazy_mul_reduce(self, rhs: Rhs, modulus: Modulus) -> (out: Self::Output)
        requires
            self.lazy_mul_reduce_pre(rhs, modulus),
        ensures
            self.lazy_mul_reduce_post(rhs, modulus, out),
    ;
}

/// Replaces `self` by `self * rhs (mod modulus)` up to one extra modulus.
pub trait LazyMulReduceAssign<Modulus, Rhs = Self>: LazyMulReduce<Modulus, Rhs, Output = Self> {
    /// Replaces `self` by `self * rhs (mod modulus)` up to one extra modulus.
    fn lazy_mul_reduce_assign(&mut self, rhs: Rhs, modulus: Modulus)
        requires
            old(self).lazy_mul_reduce_pre(rhs, modulus),
        ensures
            old(self).lazy_mul_reduce_post(rhs, modulus, *final(self)),
    ;
}

} // verus!
