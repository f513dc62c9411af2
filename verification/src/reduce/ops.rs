//! The traits of modular arithmetic.
//!
//! Each operation is a trait over the kind of modulus, so that one value type
//! can be reduced by a plain modulus, a Barrett modulus or a power of two.
//! A trait states its contract through two predicates, `*_pre` and `*_post`,
//! which every implementation defines in the open.

use crate::error::AlgebraError;
use vstd::prelude::*;

verus! {

/// Calculates `self (mod modulus)`.
pub trait Reduce<Modulus>: Sized {
    /// The type of the result.
    type Output;

    /// What `reduce` asks of its arguments.
    spec fn reduce_pre(self, modulus: Modulus) -> bool;

    /// What `reduce` promises of its result `out`.
    spec fn reduce_post(self, modulus: Modulus, out: Self::Output) -> bool;

    /// Calculates `self (mod modulus)`.
    fn reduce(self, modulus: Modulus) -> (out: Self::Output)
        requires
            self.reduce_pre(modulus),
        ensures
            self.reduce_post(modulus, out),
    ;
}

/// Replaces `self` by `self (mod modulus)`.
pub trait ReduceAssign<Modulus>: Reduce<Modulus, Output = Self> {
    /// Replaces `self` by `self (mod modulus)`.
    fn reduce_assign(&mut self, modulus: Modulus)
        requires
            old(self).reduce_pre(modulus),
        ensures
            old(self).reduce_post(modulus, *final(self)),
    ;
}

/// Calculates `self + rhs (mod modulus)`.
pub trait AddReduce<Modulus, Rhs = Self>: Sized {
    /// The type of the result.
    type Output;

    /// What `add_reduce` asks of its arguments.
    spec fn add_reduce_pre(self, rhs: Rhs, modulus: Modulus) -> bool;

    /// What `add_reduce` promises of its result `out`.
    spec fn add_reduce_post(self, rhs: Rhs, modulus: Modulus, out: Self::Output) -> bool;

    /// Calculates `self + rhs (mod modulus)`.
    fn add_reduce(self, rhs: Rhs, modulus: Modulus) -> (out: Self::Output)
        requires
            self.add_reduce_pre(rhs, modulus),
        ensures
            self.add_reduce_post(rhs, modulus, out),
    ;
}

/// Replaces `self` by `self + rhs (mod modulus)`.
pub trait AddReduceAssign<Modulus, Rhs = Self>: AddReduce<Modulus, Rhs, Output = Self> {
    /// Replaces `self` by `self + rhs (mod modulus)`.
    fn add_reduce_assign(&mut self, rhs: Rhs, modulus: Modulus)
        requires
            old(self).add_reduce_pre(rhs, modulus),
        ensures
            old(self).add_reduce_post(rhs, modulus, *final(self)),
    ;
}

/// Calculates `self - rhs (mod modulus)`.
pub trait SubReduce<Modulus, Rhs = Self>: Sized {
    /// The type of the result.
    type Output;

    /// What `sub_reduce` asks of its arguments.
    spec fn sub_reduce_pre(self, rhs: Rhs, modulus: Modulus) -> bool;

    /// What `sub_reduce` promises of its result `out`.
    spec fn sub_reduce_post(self, rhs: Rhs, modulus: Modulus, out: Self::Output) -> bool;

    /// Calculates `self - rhs (mod modulus)`.
    fn sub_reduce(self, rhs: Rhs, modulus: Modulus) -> (out: Self::Output)
        requires
            self.sub_reduce_pre(rhs, modulus),
        ensures
            self.sub_reduce_post(rhs, modulus, out),
    ;
}

/// Replaces `self` by `self - rhs (mod modulus)`.
pub trait SubReduceAssign<Modulus, Rhs = Self>: SubReduce<Modulus, Rhs, Output = Self> {
    /// Replaces `self` by `self - rhs (mod modulus)`.
    fn sub_reduce_assign(&mut self, rhs: Rhs, modulus: Modulus)
        requires
            old(self).sub_reduce_pre(rhs, modulus),
        ensures
            old(self).sub_reduce_post(rhs, modulus, *final(self)),
    ;
}

/// Calculates `-self (mod modulus)`.
pub trait NegReduce<Modulus>: Sized {
    /// The type of the result.
    type Output;

    /// What `neg_reduce` asks of its arguments.
    spec fn neg_reduce_pre(self, modulus: Modulus) -> bool;

    /// What `neg_reduce` promises of its result `out`.
    spec fn neg_reduce_post(self, modulus: Modulus, out: Self::Output) -> bool;

    /// Calculates `-self (mod modulus)`.
    fn neg_reduce(self, modulus: Modulus) -> (out: Self::Output)
        requires
            self.neg_reduce_pre(modulus),
        ensures
            self.neg_reduce_post(modulus, out),
    ;
}

/// Replaces `self` by `-self (mod modulus)`.
pub trait NegReduceAssign<Modulus>: NegReduce<Modulus, Output = Self> {
    /// Replaces `self` by `-self (mod modulus)`.
    fn neg_reduce_assign(&mut self, modulus: Modulus)
        requires
            old(self).neg_reduce_pre(modulus),
        ensures
            old(self).neg_reduce_post(modulus, *final(self)),
    ;
}

/// Calculates `self * rhs (mod modulus)`.
pub trait MulReduce<Modulus, Rhs = Self>: Sized {
    /// The type of the result.
    type Output;

    /// What `mul_reduce` asks of its arguments.
    spec fn mul_reduce_pre(self, rhs: Rhs, modulus: Modulus) -> bool;

    /// What `mul_reduce` promises of its result `out`.
    spec fn mul_reduce_post(self, rhs: Rhs, modulus: Modulus, out: Self::Output) -> bool;

    /// Calculates `self * rhs (mod modulus)`.
    fn mul_reduce(self, rhs: Rhs, modulus: Modulus) -> (out: Self::Output)
        requires
            self.mul_reduce_pre(rhs, modulus),
        ensures
            self.mul_reduce_post(rhs, modulus, out),
    ;
}

/// Replaces `self` by `self * rhs (mod modulus)`.
pub trait MulReduceAssign<Modulus, Rhs = Self>: MulReduce<Modulus, Rhs, Output = Self> {
    /// Replaces `self` by `self * rhs (mod modulus)`.
    fn mul_reduce_assign(&mut self, rhs: Rhs, modulus: Modulus)
        requires
            old(self).mul_reduce_pre(rhs, modulus),
        ensures
            old(self).mul_reduce_post(rhs, modulus, *final(self)),
    ;
}

/// Calculates `self^exp (mod modulus)`.
pub trait PowReduce<Modulus, Exponent>: Sized {
    /// What `pow_reduce` asks of its arguments.
    spec fn pow_reduce_pre(self, exp: Exponent, modulus: Modulus) -> bool;

    /// What `pow_reduce` promises of its result `out`.
    spec fn pow_reduce_post(self, exp: Exponent, modulus: Modulus, out: Self) -> bool;

    /// Calculates `self^exp (mod modulus)`.
    fn pow_reduce(self, exp: Exponent, modulus: Modulus) -> (out: Self)
        requires
            self.pow_reduce_pre(exp, modulus),
        ensures
            self.pow_reduce_post(exp, modulus, out),
    ;
}

/// Calculates the inverse of `self (mod modulus)`, where it is known to exist.
pub trait InvReduce<Modulus = Self>: Sized {
    /// What `inv_reduce` asks of its arguments.
    spec fn inv_reduce_pre(self, modulus: Modulus) -> bool;

    /// What `inv_reduce` promises of its result `out`.
    spec fn inv_reduce_post(self, modulus: Modulus, out: Self) -> bool;

    /// Calculates the multiplicative inverse of `self (mod modulus)`.
    fn inv_reduce(self, modulus: Modulus) -> (out: Self)
        requires
            self.inv_reduce_pre(modulus),
        ensures
            self.inv_reduce_post(modulus, out),
    ;
}

/// Replaces `self` by its inverse `(mod modulus)`.
pub trait InvReduceAssign<Modulus = Self>: InvReduce<Modulus> {
    /// Replaces `self` by its inverse `(mod modulus)`.
    fn inv_reduce_assign(&mut self, modulus: Modulus)
        requires
            old(self).inv_reduce_pre(modulus),
        ensures
            old(self).inv_reduce_post(modulus, *final(self)),
    ;
}

/// Calculates the inverse of `self (mod modulus)`, or says that there is none.
pub trait TryInvReduce<Modulus = Self>: Sized {
    /// What `try_inv_reduce` asks of its arguments.
    spec fn try_inv_reduce_pre(self, modulus: Modulus) -> bool;

    /// What `try_inv_reduce` promises of its result `out`.
    spec fn try_inv_reduce_post(self, modulus: Modulus, out: Result<Self, AlgebraError>) -> bool;

    /// Calculates the multiplicative inverse of `self (mod modulus)` if it exists.
    fn try_inv_reduce(self, modulus: Modulus) -> (out: Result<Self, AlgebraError>)
        requires
            self.try_inv_reduce_pre(modulus),
        ensures
            self.try_inv_reduce_post(modulus, out),
    ;
}

/// Calculates `self / rhs (mod modulus)`.
pub trait DivReduce<Modulus, Rhs = Self>: Sized {
    /// The type of the result.
    type Output;

    /// What `div_reduce` asks of its arguments.
    spec fn div_reduce_pre(self, rhs: Rhs, modulus: Modulus) -> bool;

    /// What `div_reduce` promises of its result `out`.
    spec fn div_reduce_post(self, rhs: Rhs, modulus: Modulus, out: Self::Output) -> bool;

    /// Calculates `self / rhs (mod modulus)`.
    fn div_reduce(self, rhs: Rhs, modulus: Modulus) -> (out: Self::Output)
        requires
            self.div_reduce_pre(rhs, modulus),
        ensures
            self.div_reduce_post(rhs, modulus, out),
    ;
}

/// Replaces `self` by `self / rhs (mod modulus)`.
pub trait DivReduceAssign<Modulus, Rhs = Self>: DivReduce<Modulus, Rhs, Output = Self> {
    /// Replaces `self` by `self / rhs (mod modulus)`.
    fn div_reduce_assign(&mut self, rhs: Rhs, modulus: Modulus)
        requires
            old(self).div_reduce_pre(rhs, modulus),
        ensures
            old(self).div_reduce_post(rhs, modulus, *final(self)),
    ;
}

} // verus!
