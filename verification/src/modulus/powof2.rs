//! Reduction by a power of two: a mask.

use crate::lemmas::{
    lemma_congruence_pow, lemma_pow_of_square, lemma_pow_round, lemma_pow_succ,
};
use crate::primitive::{low_bits, radix, Bits, Widening, Word, WrappingOps};
use crate::reduce::{
    AddReduce, AddReduceAssign, MulReduce, MulReduceAssign, NegReduce, NegReduceAssign,
    PowReduce, Reduce, ReduceAssign, SubReduce, SubReduceAssign,
};
use vstd::arithmetic::div_mod::{lemma_mod_mod, lemma_mod_twice, lemma_small_mod};
use vstd::arithmetic::power::{lemma_pow0, lemma_pow1, pow};
use vstd::arithmetic::power2::{
    lemma2_to64, lemma_pow2_adds, lemma_pow2_pos, lemma_pow2_strictly_increases, pow2,
};
use vstd::prelude::*;

verus! {

/// A modulus that is a power of two, kept as its mask.
#[derive(Clone, Copy, Debug)]
pub struct PowOf2Modulus<T: Copy> {
    /// The modulus less one.
    mask: T,
}

/// Whether `n` is a power of two above 1.
pub open spec fn is_power_of_two(n: nat) -> bool {
    exists|k: nat| 1 <= k && n == #[trigger] pow2(k)
}

impl<T: Word> PowOf2Modulus<T> {
    /// The mask: the modulus less one.
    pub closed spec fn spec_mask(self) -> T {
        self.mask
    }

    /// The modulus as a number.
    pub open spec fn m(self) -> nat {
        self.spec_mask().val() + 1
    }

    /// The modulus is a power of two above 1, and a word.
    pub open spec fn wf(self) -> bool {
        is_power_of_two(self.m()) && self.m() < radix::<T>()
    }

    /// Returns the mask, which is the modulus less one.
    pub fn mask(&self) -> (mask: T)
        ensures
            mask == self.spec_mask(),
    {
        self.mask
    }

    /// Creates the modulus `value`, a power of two above 1.
    pub fn new(value: T) -> (modulus: Self)
        requires
            is_power_of_two(value.val()),
        ensures
            modulus.wf(),
            modulus.m() == value.val(),
    {
        proof {
            value.lemma_word();
            let k = choose|k: nat| 1 <= k && value.val() == #[trigger] pow2(k);
            lemma_pow2_pos(k);
        }
        PowOf2Modulus { mask: value.minus(T::one()) }
    }

    /// Returns the modulus.
    pub fn value(self) -> (value: T)
        requires
            self.wf(),
        ensures
            value.val() == self.m(),
    {
        self.mask.plus(T::one())
    }

    /// `x & mask`, which is `x (mod modulus)`.
    fn masked(self, x: T) -> (out: T)
        requires
            self.wf(),
        ensures
            out.val() == x.val() % self.m(),
    {
        proof {
            let k = choose|k: nat| 1 <= k && self.m() == #[trigger] pow2(k);
            assert(self.mask.val() + 1 == pow2(k));
        }
        low_bits(x, self.mask)
    }

    /// The radix is a multiple of the modulus, so that reducing by the radix
    /// first changes nothing.
    pub proof fn lemma_radix_multiple(self, x: int)
        requires
            self.wf(),
        ensures
            (x % (radix::<T>() as int)) % (self.m() as int) == x % (self.m() as int),
    {
        let k = choose|k: nat| 1 <= k && self.m() == #[trigger] pow2(k);
        let n = T::spec_n_bits();
        if k >= n {
            if k > n {
                lemma_pow2_strictly_increases(n, k);
            }
        }
        lemma_pow2_adds(k, (n - k) as nat);
        lemma_pow2_pos(k);
        lemma_pow2_pos((n - k) as nat);
        lemma_mod_mod(x, pow2(k) as int, pow2((n - k) as nat) as int);
    }
}

impl<T: Widening + WrappingOps> Reduce<PowOf2Modulus<T>> for T {
    type Output = T;

    open spec fn reduce_pre(self, modulus: PowOf2Modulus<T>) -> bool {
        modulus.wf()
    }

    open spec fn reduce_post(self, modulus: PowOf2Modulus<T>, out: T) -> bool {
        out.val() == self.val() % modulus.m()
    }

    fn reduce(self, modulus: PowOf2Modulus<T>) -> (out: T) {
        modulus.masked(self)
    }
}

impl<T: Widening + WrappingOps> ReduceAssign<PowOf2Modulus<T>> for T {
    fn reduce_assign(&mut self, modulus: PowOf2Modulus<T>) {
        *self = modulus.masked(*self);
    }
}

impl<T: Widening + WrappingOps> AddReduce<PowOf2Modulus<T>> for T {
    type Output = T;

    open spec fn add_reduce_pre(self, rhs: T, modulus: PowOf2Modulus<T>) -> bool {
        modulus.wf()
    }

    open spec fn add_reduce_post(self, rhs: T, modulus: PowOf2Modulus<T>, out: T) -> bool {
        out.val() == (self.val() + rhs.val()) % modulus.m()
    }

    fn add_reduce(self, rhs: T, modulus: PowOf2Modulus<T>) -> (out: T) {
        proof {
            modulus.lemma_radix_multiple((self.val() + rhs.val()) as int);
        }
        modulus.masked(self.wrapping_add(rhs))
    }
}

impl<T: Widening + WrappingOps> AddReduceAssign<PowOf2Modulus<T>> for T {
    fn add_reduce_assign(&mut self, rhs: T, modulus: PowOf2Modulus<T>) {
        *self = AddReduce::<PowOf2Modulus<T>>::add_reduce(*self, rhs, modulus);
    }
}

impl<T: Widening + WrappingOps> SubReduce<PowOf2Modulus<T>> for T {
    type Output = T;

    open spec fn sub_reduce_pre(self, rhs: T, modulus: PowOf2Modulus<T>) -> bool {
        modulus.wf()
    }

    open spec fn sub_reduce_post(self, rhs: T, modulus: PowOf2Modulus<T>, out: T) -> bool {
        out.val() == (self.val() - rhs.val()) % (modulus.m() as int)
    }

    fn sub_reduce(self, rhs: T, modulus: PowOf2Modulus<T>) -> (out: T) {
        proof {
            modulus.lemma_radix_multiple(self.val() - rhs.val());
        }
        modulus.masked(self.wrapping_sub(rhs))
    }
}

impl<T: Widening + WrappingOps> SubReduceAssign<PowOf2Modulus<T>> for T {
    fn sub_reduce_assign(&mut self, rhs: T, modulus: PowOf2Modulus<T>) {
        *self = SubReduce::<PowOf2Modulus<T>>::sub_reduce(*self, rhs, modulus);
    }
}

impl<T: Widening + WrappingOps> NegReduce<PowOf2Modulus<T>> for T {
    type Output = T;

    open spec fn neg_reduce_pre(self, modulus: PowOf2Modulus<T>) -> bool {
        modulus.wf()
    }

    open spec fn neg_reduce_post(self, modulus: PowOf2Modulus<T>, out: T) -> bool {
        out.val() == (-(self.val() as int)) % (modulus.m() as int)
    }

    fn neg_reduce(self, modulus: PowOf2Modulus<T>) -> (out: T) {
        proof {
            modulus.lemma_radix_multiple(-(self.val() as int));
        }
        modulus.masked(self.wrapping_neg())
    }
}

impl<T: Widening + WrappingOps> NegReduceAssign<PowOf2Modulus<T>> for T {
    fn neg_reduce_assign(&mut self, modulus: PowOf2Modulus<T>) {
        *self = NegReduce::<PowOf2Modulus<T>>::neg_reduce(*self, modulus);
    }
}

impl<T: Widening + WrappingOps> MulReduce<PowOf2Modulus<T>> for T {
    type Output = T;

    open spec fn mul_reduce_pre(self, rhs: T, modulus: PowOf2Modulus<T>) -> bool {
        modulus.wf()
    }

    open spec fn mul_reduce_post(self, rhs: T, modulus: PowOf2Modulus<T>, out: T) -> bool {
        out.val() == (self.val() * rhs.val()) % modulus.m()
    }

    fn mul_reduce(self, rhs: T, modulus: PowOf2Modulus<T>) -> (out: T) {
        proof {
            modulus.lemma_radix_multiple((self.val() * rhs.val()) as int);
        }
        modulus.masked(self.wrapping_mul(rhs))
    }
}

impl<T: Widening + WrappingOps> MulReduceAssign<PowOf2Modulus<T>> for T {
    fn mul_reduce_assign(&mut self, rhs: T, modulus: PowOf2Modulus<T>) {
        *self = MulReduce::<PowOf2Modulus<T>>::mul_reduce(*self, rhs, modulus);
    }
}

impl<T: Widening + WrappingOps, E: Word> PowReduce<PowOf2Modulus<T>, E> for T {
    open spec fn pow_reduce_pre(self, exp: E, modulus: PowOf2Modulus<T>) -> bool {
        modulus.wf() && self.val() < modulus.m()
    }

    open spec fn pow_reduce_post(self, exp: E, modulus: PowOf2Modulus<T>, out: T) -> bool {
        out.val() == pow(self.val() as int, exp.val()) % (modulus.m() as int)
    }

    fn pow_reduce(self, exp: E, modulus: PowOf2Modulus<T>) -> (out: T) {
        let ghost m = modulus.m() as int;
        let ghost target = pow(self.val() as int, exp.val());
        let mut e: u64 = exp.to_u64();
        proof {
            let k = choose|k: nat| 1 <= k && modulus.m() == #[trigger] pow2(k);
            lemma_pow2_strictly_increases(0, k);
            lemma2_to64();
        }
        if e == 0 {
            proof {
                lemma_pow0(self.val() as int);
                lemma_small_mod(1, m as nat);
            }
            return T::one();
        }
        let mut power: T = self;
        // squarings for the trailing zero bits of the exponent
        while e % 2 == 0
            invariant
                modulus.wf(),
                m == modulus.m(),
                m > 1,
                e > 0,
                power.val() < m,
                pow(power.val() as int, e as nat) % m == target % m,
            decreases e,
        {
            let ghost old_power = power.val() as int;
            power = MulReduce::<PowOf2Modulus<T>>::mul_reduce(power, power, modulus);
            proof {
                lemma_mod_twice(old_power * old_power, m);
                lemma_congruence_pow(power.val() as int, old_power * old_power, (e / 2) as nat, m);
                lemma_pow_of_square(old_power, (e / 2) as nat);
                assert(2 * (e / 2) == e);
            }
            e = e / 2;
        }
        if e == 1 {
            proof {
                lemma_pow1(power.val() as int);
                lemma_small_mod(power.val(), m as nat);
            }
            return power;
        }
        let mut intermediate: T = power;
        proof {
            lemma_pow_succ(power.val() as int, (e - 1) as nat);
            assert(2 * (e / 2) == e - 1);
        }
        while e > 1
            invariant
                modulus.wf(),
                m == modulus.m(),
                m > 1,
                power.val() < m,
                intermediate.val() < m,
                (intermediate.val() * pow(power.val() as int, (2 * (e / 2)) as nat)) % m == target
                    % m,
            decreases e,
        {
            let ghost old_power = power.val() as int;
            let ghost old_inter = intermediate.val() as int;
            let ghost old_e = e as nat;
            e = e / 2;
            power = MulReduce::<PowOf2Modulus<T>>::mul_reduce(power, power, modulus);
            if e % 2 == 1 {
                intermediate = MulReduce::<PowOf2Modulus<T>>::mul_reduce(
                    intermediate,
                    power,
                    modulus,
                );
            }
            proof {
                lemma_mod_twice(old_power * old_power, m);
                lemma_mod_twice(old_inter * power.val(), m);
                lemma_pow_round(
                    old_inter,
                    intermediate.val() as int,
                    old_power,
                    power.val() as int,
                    old_e,
                    m,
                );
            }
        }
        proof {
            lemma_pow0(power.val() as int);
            assert(e / 2 == 0);
            lemma_small_mod(intermediate.val(), m as nat);
        }
        intermediate
    }
}

} // verus!
