//! Shoup factors: multiplication by a fixed number modulo a fixed modulus.
//!
//! For a factor `w < p` the quotient `w' = ⌊w·β/p⌋` is computed once. Then
//! `w·x (mod p)` costs two multiplications: with `q = ⌊w'·x/β⌋`, the
//! difference `w·x - q·p` is congruent to `w·x` and below `2p`.

use crate::lemmas::{lemma_mod_unique, lemma_normalize, lemma_sub_multiple, lemma_wrapped_remainder};
use crate::primitive::{radix, Bits, Widening, Word, WrappingOps};
use crate::reduce::{MulReduce, MulReduceAssign};
use vstd::arithmetic::div_mod::{lemma_fundamental_div_mod, lemma_mod_bound, lemma_mod_twice};
use vstd::prelude::*;

verus! {

/// A number with the quotient that makes multiplying by it fast.
#[derive(Clone, Copy, Debug)]
pub struct ShoupFactor<T: Copy> {
    /// The factor `w`.
    value: T,
    /// The quotient `⌊w·β/p⌋`.
    quotient: T,
}

/// The Shoup estimate: with `wq = ⌊w·b/p⌋` and `q = ⌊wq·x/b⌋`, the remainder
/// `w·x - q·p` lies in `[0, 2p)`, for `w < p` and `x < b`.
pub proof fn lemma_shoup_estimate(w: int, x: int, p: int, b: int)
    requires
        0 <= w < p,
        0 <= x < b,
    ensures
        0 <= w * x - ((((w * b) / p) * x) / b) * p < 2 * p,
{
    let wq = (w * b) / p;
    let q = (wq * x) / b;
    assert(w * b >= 0) by (nonlinear_arith)
        requires
            w >= 0,
            b > 0,
    ;
    lemma_fundamental_div_mod(w * b, p);
    lemma_mod_bound(w * b, p);
    let rho = (w * b) % p;
    assert(wq >= 0) by (nonlinear_arith)
        requires
            w * b == p * wq + rho,
            rho < p,
            w * b >= 0,
            p > 0,
    ;
    assert(wq * x >= 0) by (nonlinear_arith)
        requires
            wq >= 0,
            x >= 0,
    ;
    lemma_fundamental_div_mod(wq * x, b);
    lemma_mod_bound(wq * x, b);
    let sigma = (wq * x) % b;
    // (w·x - q·p)·b = x·rho + p·sigma
    assert((w * x - q * p) * b == x * rho + p * sigma) by (nonlinear_arith)
        requires
            w * b == p * wq + rho,
            wq * x == b * q + sigma,
    ;
    assert(x * rho + p * sigma >= 0) by (nonlinear_arith)
        requires
            x >= 0,
            rho >= 0,
            p > 0,
            sigma >= 0,
    ;
    assert(x * rho + p * sigma < (2 * p) * b) by (nonlinear_arith)
        requires
            0 <= x < b,
            0 <= rho < p,
            0 <= sigma < b,
            p > 0,
    ;
    assert(0 <= w * x - q * p < 2 * p) by (nonlinear_arith)
        requires
            0 <= (w * x - q * p) * b < (2 * p) * b,
            b > 0,
    ;
}

impl<T: Word> ShoupFactor<T> {
    /// The factor.
    pub closed spec fn spec_value(self) -> T {
        self.value
    }

    /// The quotient.
    pub closed spec fn spec_quotient(self) -> T {
        self.quotient
    }

    /// The factor is below `p`, and the quotient is `⌊w·β/p⌋`.
    pub open spec fn wf(self, p: nat) -> bool {
        &&& self.spec_value().val() < p
        &&& self.spec_quotient().val() == (self.spec_value().val() * radix::<T>()) / p
    }

    /// Returns the factor.
    pub fn value(self) -> (v: T)
        ensures
            v == self.spec_value(),
    {
        self.value
    }

    /// Returns the quotient.
    pub fn quotient(self) -> (q: T)
        ensures
            q == self.spec_quotient(),
    {
        self.quotient
    }
}

impl<T: Widening + WrappingOps> ShoupFactor<T> {
    /// The factor `value` for the modulus `modulus`.
    pub fn new(value: T, modulus: T) -> (factor: Self)
        requires
            value.val() < modulus.val(),
        ensures
            factor.wf(modulus.val()),
            factor.spec_value() == value,
    {
        let (quotient, _) = T::div_wide(value, T::zero(), modulus);
        ShoupFactor { value, quotient }
    }

    /// Computes the quotient anew, for another modulus.
    pub fn set_modulus(&mut self, modulus: T)
        requires
            old(self).spec_value().val() < modulus.val(),
        ensures
            final(self).wf(modulus.val()),
            final(self).spec_value() == old(self).spec_value(),
    {
        let (quotient, _) = T::div_wide(self.value, T::zero(), modulus);
        self.quotient = quotient;
    }

    /// Replaces the factor and the modulus.
    pub fn set(&mut self, value: T, modulus: T)
        requires
            value.val() < modulus.val(),
        ensures
            final(self).wf(modulus.val()),
            final(self).spec_value() == value,
    {
        self.value = value;
        self.set_modulus(modulus);
    }

    /// Calculates `rhs * self.value (mod modulus)` up to one extra modulus:
    /// the result is congruent to the product and below `2·modulus`.
    pub fn mul_reduce_lazy(self, rhs: T, modulus: T) -> (out: T)
        requires
            self.wf(modulus.val()),
            2 * modulus.val() <= radix::<T>(),
        ensures
            out.val() < 2 * modulus.val(),
            out.val() % modulus.val() == (self.spec_value().val() * rhs.val()) % modulus.val(),
    {
        let (lw, hw) = self.quotient.widen_mul(rhs);
        let low = self.value.wrapping_mul(rhs);
        let out = low.wrapping_sub(hw.wrapping_mul(modulus));
        proof {
            let b = radix::<T>() as int;
            let p = modulus.val() as int;
            let w = self.value.val() as int;
            let x = rhs.val() as int;
            let wq = self.quotient.val() as int;
            rhs.lemma_word();
            lw.lemma_word();
            hw.lemma_word();
            assert(wq * x >= 0) by (nonlinear_arith)
                requires
                    wq >= 0,
                    x >= 0,
            ;
            lemma_mod_unique(wq * x, lw.val() as int, hw.val() as int, b);
            lemma_shoup_estimate(w, x, p, b);
            lemma_mod_twice(w * x, b);
            lemma_wrapped_remainder(low.val() as int, w * x, hw.val() as int, hw.val() as int, p, b);
            lemma_sub_multiple(w * x, hw.val() as int, p);
        }
        out
    }
}

impl<T: Widening + WrappingOps> MulReduce<T, ShoupFactor<T>> for T {
    type Output = T;

    open spec fn mul_reduce_pre(self, rhs: ShoupFactor<T>, modulus: T) -> bool {
        rhs.wf(modulus.val()) && 2 * modulus.val() <= radix::<T>()
    }

    open spec fn mul_reduce_post(self, rhs: ShoupFactor<T>, modulus: T, out: T) -> bool {
        out.val() == (self.val() * rhs.spec_value().val()) % modulus.val()
    }

    fn mul_reduce(self, rhs: ShoupFactor<T>, modulus: T) -> (out: T) {
        let tmp = rhs.mul_reduce_lazy(self, modulus);
        proof {
            assert(self.val() * rhs.spec_value().val() == rhs.spec_value().val() * self.val())
                by (nonlinear_arith);
            lemma_normalize(
                tmp.val() as int,
                (self.val() * rhs.spec_value().val()) as int,
                modulus.val() as int,
            );
        }
        if tmp.at_least(modulus) {
            tmp.minus(modulus)
        } else {
            tmp
        }
    }
}

impl<T: Widening + WrappingOps> MulReduceAssign<T, ShoupFactor<T>> for T {
    fn mul_reduce_assign(&mut self, rhs: ShoupFactor<T>, modulus: T) {
        *self = MulReduce::<T, ShoupFactor<T>>::mul_reduce(*self, rhs, modulus);
    }
}

impl<T: Widening + WrappingOps> MulReduce<T, T> for ShoupFactor<T> {
    type Output = T;

    open spec fn mul_reduce_pre(self, rhs: T, modulus: T) -> bool {
        self.wf(modulus.val()) && 2 * modulus.val() <= radix::<T>()
    }

    open spec fn mul_reduce_post(self, rhs: T, modulus: T, out: T) -> bool {
        out.val() == (self.spec_value().val() * rhs.val()) % modulus.val()
    }

    fn mul_reduce(self, rhs: T, modulus: T) -> (out: T) {
        let tmp = self.mul_reduce_lazy(rhs, modulus);
        proof {
            lemma_normalize(
                tmp.val() as int,
                (self.spec_value().val() * rhs.val()) as int,
                modulus.val() as int,
            );
        }
        if tmp.at_least(modulus) {
            tmp.minus(modulus)
        } else {
            tmp
        }
    }
}

} // verus!
