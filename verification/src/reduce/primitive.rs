//! Modular addition, subtraction and negation by a plain modulus: a word `m`
//! with operands already below `m`.

use crate::error::AlgebraError;
use crate::lemmas::lemma_mod_unique;
use crate::primitive::{radix, Bits, Widening, Word, WrappingOps};
use crate::reduce::{
    AddReduce, AddReduceAssign, InvReduce, InvReduceAssign, NegReduce, NegReduceAssign,
    SubReduce, SubReduceAssign, TryInvReduce,
};
use crate::utils::gcd::{coprime, extended_gcd_u64, is_gcd, lemma_gcd_unique};
use vstd::arithmetic::div_mod::lemma_small_mod;
use vstd::prelude::*;

verus! {

impl<T: Widening + WrappingOps> AddReduce<T> for T {
    type Output = T;

    open spec fn add_reduce_pre(self, rhs: T, modulus: T) -> bool {
        self.val() < modulus.val() && rhs.val() < modulus.val()
    }

    open spec fn add_reduce_post(self, rhs: T, modulus: T, out: T) -> bool {
        out.val() == (self.val() + rhs.val()) % modulus.val()
    }

    fn add_reduce(self, rhs: T, modulus: T) -> (out: T) {
        let (s, carry) = self.carry_add(rhs, false);
        proof {
            let m = modulus.val() as int;
            let sum = (self.val() + rhs.val()) as int;
            let b = radix::<T>() as int;
            s.lemma_word();
            modulus.lemma_word();
            if carry || s.val() >= modulus.val() {
                lemma_mod_unique(sum, sum - m, 1, m);
                if carry {
                    lemma_mod_unique(s.val() - m, sum - m, -1, b);
                } else {
                    lemma_small_mod((s.val() - m) as nat, b as nat);
                }
            } else {
                lemma_small_mod(sum as nat, m as nat);
            }
        }
        if carry || s.at_least(modulus) {
            s.wrapping_sub(modulus)
        } else {
            s
        }
    }
}

impl<T: Widening + WrappingOps> AddReduceAssign<T> for T {
    fn add_reduce_assign(&mut self, rhs: T, modulus: T) {
        *self = AddReduce::<T>::add_reduce(*self, rhs, modulus);
    }
}

impl<T: Widening + WrappingOps> SubReduce<T> for T {
    type Output = T;

    open spec fn sub_reduce_pre(self, rhs: T, modulus: T) -> bool {
        self.val() < modulus.val() && rhs.val() < modulus.val()
    }

    open spec fn sub_reduce_post(self, rhs: T, modulus: T, out: T) -> bool {
        out.val() == (self.val() - rhs.val()) % (modulus.val() as int)
    }

    fn sub_reduce(self, rhs: T, modulus: T) -> (out: T) {
        proof {
            let m = modulus.val() as int;
            let diff = self.val() - rhs.val();
            modulus.lemma_word();
            if diff >= 0 {
                lemma_small_mod(diff as nat, m as nat);
            } else {
                lemma_mod_unique(diff, diff + m, -1, m);
            }
        }
        if self.at_least(rhs) {
            self.minus(rhs)
        } else {
            modulus.minus(rhs).plus(self)
        }
    }
}

impl<T: Widening + WrappingOps> SubReduceAssign<T> for T {
    fn sub_reduce_assign(&mut self, rhs: T, modulus: T) {
        *self = SubReduce::<T>::sub_reduce(*self, rhs, modulus);
    }
}

impl<T: Widening + WrappingOps> NegReduce<T> for T {
    type Output = T;

    open spec fn neg_reduce_pre(self, modulus: T) -> bool {
        self.val() < modulus.val()
    }

    open spec fn neg_reduce_post(self, modulus: T, out: T) -> bool {
        out.val() == (-(self.val() as int)) % (modulus.val() as int)
    }

    fn neg_reduce(self, modulus: T) -> (out: T) {
        proof {
            let m = modulus.val() as int;
            let x = self.val() as int;
            if x == 0 {
                lemma_small_mod(0, m as nat);
            } else {
                lemma_mod_unique(-x, m - x, -1, m);
            }
        }
        if self.is_zero() {
            self
        } else {
            modulus.minus(self)
        }
    }
}

impl<T: Widening + WrappingOps> NegReduceAssign<T> for T {
    fn neg_reduce_assign(&mut self, modulus: T) {
        *self = NegReduce::<T>::neg_reduce(*self, modulus);
    }
}

/// The inverse of `value` modulo `modulus` from the extended binary
/// algorithm, and whether the two are coprime. Where they are not, the
/// first component is `0`.
pub fn inverse_u64(value: u64, modulus: u64) -> (r: (u64, bool))
    requires
        0 < value < modulus,
        modulus <= i64::MAX,
    ensures
        r.1 == coprime(value as int, modulus as int),
        r.1 ==> 0 < r.0 < modulus && (value * r.0) % (modulus as int) == 1,
        !r.1 ==> r.0 == 0,
{
    let (c, d, g) = extended_gcd_u64(modulus, value);
    proof {
        if coprime(value as int, modulus as int) {
            assert(is_gcd(1, modulus as int, value as int));
            lemma_gcd_unique(g as int, 1, modulus as int, value as int);
        }
        if g == 1 {
            assert(is_gcd(1, value as int, modulus as int));
        }
    }
    if g != 1 {
        return (0, false);
    }
    let inv: u64 = if d > 0 {
        d as u64
    } else {
        (d + (modulus as i64)) as u64
    };
    proof {
        let m = modulus as int;
        let v = value as int;
        let k = if d > 0 { 0int } else { 1int };
        assert(v * inv == 1 + (k * v - c) * m) by (nonlinear_arith)
            requires
                c * m + d * v == 1,
                inv == d + k * m,
        ;
        lemma_mod_unique(v * inv, 1, k * v - c, m);
        if inv == 0 {
            assert(v * inv == 0);
            lemma_small_mod(0, m as nat);
        }
        if inv == m {
            lemma_mod_unique(v * inv, 0, v, m);
        }
    }
    (inv, true)
}

impl<T: Widening + WrappingOps> InvReduce<T> for T {
    open spec fn inv_reduce_pre(self, modulus: T) -> bool {
        0 < self.val() < modulus.val() && 2 * modulus.val() < radix::<T>()
    }

    open spec fn inv_reduce_post(self, modulus: T, out: T) -> bool {
        coprime(self.val() as int, modulus.val() as int) ==> out.val() < modulus.val() && (
        self.val() * out.val()) % modulus.val() == 1
    }

    fn inv_reduce(self, modulus: T) -> (out: T) {
        proof {
            modulus.lemma_word();
        }
        let (inv, _) = inverse_u64(self.to_u64(), modulus.to_u64());
        T::from_u64(inv)
    }
}

impl<T: Widening + WrappingOps> InvReduceAssign<T> for T {
    fn inv_reduce_assign(&mut self, modulus: T) {
        *self = InvReduce::<T>::inv_reduce(*self, modulus);
    }
}

impl<T: Widening + WrappingOps> TryInvReduce<T> for T {
    open spec fn try_inv_reduce_pre(self, modulus: T) -> bool {
        0 < self.val() < modulus.val() && 2 * modulus.val() < radix::<T>()
    }

    open spec fn try_inv_reduce_post(self, modulus: T, out: Result<T, AlgebraError>) -> bool {
        match out {
            Ok(inv) => {
                &&& coprime(self.val() as int, modulus.val() as int)
                &&& inv.val() < modulus.val()
                &&& (self.val() * inv.val()) % modulus.val() == 1
            },
            Err(e) => {
                &&& !coprime(self.val() as int, modulus.val() as int)
                &&& e == (AlgebraError::NoReduceInverse {
                    value: self.val() as u64,
                    modulus: modulus.val() as u64,
                })
            },
        }
    }

    fn try_inv_reduce(self, modulus: T) -> (out: Result<T, AlgebraError>) {
        proof {
            modulus.lemma_word();
        }
        let (inv, ok) = inverse_u64(self.to_u64(), modulus.to_u64());
        if ok {
            Ok(T::from_u64(inv))
        } else {
            Err(AlgebraError::NoReduceInverse { value: self.to_u64(), modulus: modulus.to_u64() })
        }
    }
}

} // verus!
