//! Modular arithmetic by a Barrett modulus.

use crate::lemmas::{
    lemma_congruence_mul, lemma_congruence_pow, lemma_pow_of_square, lemma_pow_round, lemma_pow_succ,
};
use crate::modulus::barrett::BarrettModulus;
use crate::primitive::{Bits, Widening, Word, WrappingOps};
use crate::reduce::{
    AddReduce, AddReduceAssign, DivReduce, DivReduceAssign, InvReduce, InvReduceAssign,
    LazyMulReduce, LazyMulReduceAssign, LazyReduce, MulReduce, MulReduceAssign, NegReduce,
    NegReduceAssign, PowReduce, Reduce, SubReduce, SubReduceAssign,
};
use crate::utils::gcd::coprime;
use vstd::arithmetic::div_mod::{lemma_mod_twice, lemma_small_mod};
use vstd::arithmetic::power::{lemma_pow0, lemma_pow1, pow};
use vstd::prelude::*;

verus! {

impl<T: Widening + WrappingOps> AddReduce<BarrettModulus<T>> for T {
    type Output = T;

    open spec fn add_reduce_pre(self, rhs: T, modulus: BarrettModulus<T>) -> bool {
        self.val() < modulus.m() && rhs.val() < modulus.m()
    }

    open spec fn add_reduce_post(self, rhs: T, modulus: BarrettModulus<T>, out: T) -> bool {
        out.val() == (self.val() + rhs.val()) % modulus.m()
    }

    fn add_reduce(self, rhs: T, modulus: BarrettModulus<T>) -> (out: T) {
        AddReduce::<T>::add_reduce(self, rhs, modulus.value())
    }
}

impl<T: Widening + WrappingOps> AddReduceAssign<BarrettModulus<T>> for T {
    fn add_reduce_assign(&mut self, rhs: T, modulus: BarrettModulus<T>) {
        *self = AddReduce::<T>::add_reduce(*self, rhs, modulus.value());
    }
}

impl<T: Widening + WrappingOps> SubReduce<BarrettModulus<T>> for T {
    type Output = T;

    open spec fn sub_reduce_pre(self, rhs: T, modulus: BarrettModulus<T>) -> bool {
        self.val() < modulus.m() && rhs.val() < modulus.m()
    }

    open spec fn sub_reduce_post(self, rhs: T, modulus: BarrettModulus<T>, out: T) -> bool {
        out.val() == (self.val() - rhs.val()) % (modulus.m() as int)
    }

    fn sub_reduce(self, rhs: T, modulus: BarrettModulus<T>) -> (out: T) {
        SubReduce::<T>::sub_reduce(self, rhs, modulus.value())
    }
}

impl<T: Widening + WrappingOps> SubReduceAssign<BarrettModulus<T>> for T {
    fn sub_reduce_assign(&mut self, rhs: T, modulus: BarrettModulus<T>) {
        *self = SubReduce::<T>::sub_reduce(*self, rhs, modulus.value());
    }
}

impl<T: Widening + WrappingOps> NegReduce<BarrettModulus<T>> for T {
    type Output = T;

    open spec fn neg_reduce_pre(self, modulus: BarrettModulus<T>) -> bool {
        self.val() < modulus.m()
    }

    open spec fn neg_reduce_post(self, modulus: BarrettModulus<T>, out: T) -> bool {
        out.val() == (-(self.val() as int)) % (modulus.m() as int)
    }

    fn neg_reduce(self, modulus: BarrettModulus<T>) -> (out: T) {
        NegReduce::<T>::neg_reduce(self, modulus.value())
    }
}

impl<T: Widening + WrappingOps> NegReduceAssign<BarrettModulus<T>> for T {
    fn neg_reduce_assign(&mut self, modulus: BarrettModulus<T>) {
        *self = NegReduce::<T>::neg_reduce(*self, modulus.value());
    }
}

impl<T: Widening + WrappingOps> MulReduce<BarrettModulus<T>> for T {
    type Output = T;

    open spec fn mul_reduce_pre(self, rhs: T, modulus: BarrettModulus<T>) -> bool {
        modulus.wf()
    }

    open spec fn mul_reduce_post(self, rhs: T, modulus: BarrettModulus<T>, out: T) -> bool {
        out.val() == (self.val() * rhs.val()) % modulus.m()
    }

    fn mul_reduce(self, rhs: T, modulus: BarrettModulus<T>) -> (out: T) {
        self.widen_mul(rhs).reduce(modulus)
    }
}

impl<T: Widening + WrappingOps> MulReduceAssign<BarrettModulus<T>> for T {
    fn mul_reduce_assign(&mut self, rhs: T, modulus: BarrettModulus<T>) {
        *self = self.widen_mul(rhs).reduce(modulus);
    }
}

impl<T: Widening + WrappingOps> LazyMulReduce<BarrettModulus<T>> for T {
    type Output = T;

    open spec fn lazy_mul_reduce_pre(self, rhs: T, modulus: BarrettModulus<T>) -> bool {
        modulus.wf()
    }

    open spec fn lazy_mul_reduce_post(self, rhs: T, modulus: BarrettModulus<T>, out: T) -> bool {
        &&& out.val() < 2 * modulus.m()
        &&& out.val() % modulus.m() == (self.val() * rhs.val()) % modulus.m()
    }

    fn lazy_mul_reduce(self, rhs: T, modulus: BarrettModulus<T>) -> (out: T) {
        self.widen_mul(rhs).lazy_reduce(modulus)
    }
}

impl<T: Widening + WrappingOps> LazyMulReduceAssign<BarrettModulus<T>> for T {
    fn lazy_mul_reduce_assign(&mut self, rhs: T, modulus: BarrettModulus<T>) {
        *self = self.widen_mul(rhs).lazy_reduce(modulus);
    }
}

impl<T: Widening + WrappingOps, E: Word> PowReduce<BarrettModulus<T>, E> for T {
    open spec fn pow_reduce_pre(self, exp: E, modulus: BarrettModulus<T>) -> bool {
        modulus.wf() && self.val() < modulus.m()
    }

    open spec fn pow_reduce_post(self, exp: E, modulus: BarrettModulus<T>, out: T) -> bool {
        out.val() == pow(self.val() as int, exp.val()) % (modulus.m() as int)
    }

    fn pow_reduce(self, exp: E, modulus: BarrettModulus<T>) -> (out: T) {
        let ghost m = modulus.m() as int;
        let ghost target = pow(self.val() as int, exp.val());
        let mut e: u64 = exp.to_u64();
        if e == 0 {
            proof {
                lemma_pow0(self.val() as int);
                lemma_small_mod(1, m as nat);
            }
            return T::one();
        }
        let mut power: T = self;
        // squarings for the trailing zero bits of the exponent
        while e % 2 == 0
            invariant
                modulus.wf(),
                m == modulus.m(),
                e > 0,
                power.val() < m,
                pow(power.val() as int, e as nat) % m == target % m,
            decreases e,
        {
            let ghost old_power = power.val() as int;
            power = power.mul_reduce(power, modulus);
            proof {
                lemma_mod_twice(old_power * old_power, m);
                lemma_congruence_pow(power.val() as int, old_power * old_power, (e / 2) as nat, m);
                lemma_pow_of_square(old_power, (e / 2) as nat);
                assert(2 * (e / 2) == e);
            }
            e = e / 2;
        }
        if e == 1 {
            proof {
                lemma_pow1(power.val() as int);
                lemma_small_mod(power.val(), m as nat);
            }
            return power;
        }
        let mut intermediate: T = power;
        proof {
            lemma_pow_succ(power.val() as int, (e - 1) as nat);
            assert(2 * (e / 2) == e - 1);
        }
        while e > 1
            invariant
                modulus.wf(),
                m == modulus.m(),
                power.val() < m,
                intermediate.val() < m,
                (intermediate.val() * pow(power.val() as int, (2 * (e / 2)) as nat)) % m == target % m,
            decreases e,
        {
            let ghost old_power = power.val() as int;
            let ghost old_inter = intermediate.val() as int;
            let ghost old_e = e as nat;
            e = e / 2;
            power = power.mul_reduce(power, modulus);
            if e % 2 == 1 {
                intermediate = intermediate.mul_reduce(power, modulus);
            }
            proof {
                lemma_mod_twice(old_power * old_power, m);
                lemma_mod_twice(old_inter * power.val(), m);
                lemma_pow_round(
                    old_inter,
                    intermediate.val() as int,
                    old_power,
                    power.val() as int,
                    old_e,
                    m,
                );
            }
        }
        proof {
            lemma_pow0(power.val() as int);
            assert(e / 2 == 0);
            lemma_small_mod(intermediate.val(), m as nat);
        }
        intermediate
    }
}

impl<T: Widening + WrappingOps> InvReduce<BarrettModulus<T>> for T {
    open spec fn inv_reduce_pre(self, modulus: BarrettModulus<T>) -> bool {
        modulus.wf() && 0 < self.val() < modulus.m()
    }

    open spec fn inv_reduce_post(self, modulus: BarrettModulus<T>, out: T) -> bool {
        coprime(self.val() as int, modulus.m() as int) ==> out.val() < modulus.m() && (self.val()
            * out.val()) % modulus.m() == 1
    }

    fn inv_reduce(self, modulus: BarrettModulus<T>) -> (out: T) {
        InvReduce::<T>::inv_reduce(self, modulus.value())
    }
}

impl<T: Widening + WrappingOps> InvReduceAssign<BarrettModulus<T>> for T {
    fn inv_reduce_assign(&mut self, modulus: BarrettModulus<T>) {
        *self = InvReduce::<T>::inv_reduce(*self, modulus.value());
    }
}

impl<T: Widening + WrappingOps> DivReduce<BarrettModulus<T>> for T {
    type Output = T;

    open spec fn div_reduce_pre(self, rhs: T, modulus: BarrettModulus<T>) -> bool {
        modulus.wf() && 0 < rhs.val() < modulus.m()
    }

    open spec fn div_reduce_post(self, rhs: T, modulus: BarrettModulus<T>, out: T) -> bool {
        coprime(rhs.val() as int, modulus.m() as int) ==> out.val() < modulus.m() && (out.val()
            * rhs.val()) % modulus.m() == self.val() % modulus.m()
    }

    fn div_reduce(self, rhs: T, modulus: BarrettModulus<T>) -> (out: T) {
        let inv = InvReduce::<BarrettModulus<T>>::inv_reduce(rhs, modulus);
        let out = MulReduce::<BarrettModulus<T>>::mul_reduce(self, inv, modulus);
        proof {
            let m = modulus.m() as int;
            let x = self.val() as int;
            let r = rhs.val() as int;
            let i = inv.val() as int;
            if coprime(r, m) {
                vstd::arithmetic::div_mod::lemma_mod_bound(x * i, m);
                // out·r ≡ (x·i)·r = x·(r·i) ≡ x·1
                lemma_mod_twice(x * i, m);
                lemma_congruence_mul(out.val() as int, x * i, r, r, m);
                assert((x * i) * r == x * (r * i)) by (nonlinear_arith);
                lemma_small_mod(1, m as nat);
                lemma_congruence_mul(x, x, r * i, 1, m);
                assert(x * 1 == x);
            }
        }
        out
    }
}

impl<T: Widening + WrappingOps> DivReduceAssign<BarrettModulus<T>> for T {
    fn div_reduce_assign(&mut self, rhs: T, modulus: BarrettModulus<T>) {
        *self = DivReduce::<BarrettModulus<T>>::div_reduce(*self, rhs, modulus);
    }
}

} // verus!
