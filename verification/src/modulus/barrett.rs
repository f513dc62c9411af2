//! Barrett reduction.
//!
//! For a modulus `m` the ratio `µ = ⌊β²/m⌋` is computed once. A number
//! `x < β²` is then reduced without division: with `q = ⌊x·µ/β²⌋`, the
//! difference `x - q·m` is congruent to `x` and below `2m`.

use crate::lemmas::{
    lemma_barrett_quotient, lemma_congruence_mul_add, lemma_congruent_difference,
    lemma_mod_unique, lemma_normalize, lemma_sub_multiple, lemma_two_step_quotient,
    lemma_wrapped_remainder,
};
use crate::primitive::{lemma_radix_range, radix, Bits, Widening, Word, WrappingOps};
use crate::reduce::{LazyReduce, LazyReduceAssign, Reduce, ReduceAssign};
use vstd::arithmetic::div_mod::{
    lemma_fundamental_div_mod, lemma_fundamental_div_mod_converse, lemma_mod_bound,
    lemma_mod_multiples_vanish, lemma_mod_twice, lemma_small_mod,
};
use vstd::prelude::*;

verus! {

/// A modulus with the ratio that Barrett reduction needs.
#[derive(Clone, Copy)]
pub struct BarrettModulus<T: Copy> {
    /// The modulus.
    value: T,
    /// The two words of `⌊β²/value⌋`, low word first.
    ratio: [T; 2],
}

impl<T: Word> BarrettModulus<T> {
    /// The modulus.
    pub closed spec fn spec_value(self) -> T {
        self.value
    }

    /// The two words of the ratio, low word first.
    pub closed spec fn spec_ratio(self) -> [T; 2] {
        self.ratio
    }

    /// The modulus as a number.
    pub open spec fn m(self) -> nat {
        self.spec_value().val()
    }

    /// The ratio as a number.
    pub open spec fn mu(self) -> nat {
        self.spec_ratio()[0].val() + self.spec_ratio()[1].val() * radix::<T>()
    }

    /// The modulus is at least 2, its top two bits are zero, and the ratio is `⌊β²/m⌋`.
    pub open spec fn wf(self) -> bool {
        &&& 2 <= self.m()
        &&& 4 * self.m() < radix::<T>()
        &&& self.mu() == (radix::<T>() * radix::<T>()) / self.m()
    }

    /// There is one well-formed modulus for each value.
    pub proof fn lemma_same(self, other: Self)
        requires
            self.wf(),
            other.wf(),
            self.m() == other.m(),
        ensures
            self == other,
    {
        let b = radix::<T>() as int;
        self.value.lemma_val_injective(other.value);
        self.ratio[0].lemma_word();
        other.ratio[0].lemma_word();
        lemma_mod_unique(self.mu() as int, self.ratio[0].val() as int, self.ratio[1].val() as int, b);
        lemma_mod_unique(
            other.mu() as int,
            other.ratio[0].val() as int,
            other.ratio[1].val() as int,
            b,
        );
        self.ratio[0].lemma_val_injective(other.ratio[0]);
        self.ratio[1].lemma_val_injective(other.ratio[1]);
        assert(self.ratio =~= other.ratio);
    }

    /// Returns the modulus.
    pub fn value(&self) -> (v: T)
        ensures
            v == self.spec_value(),
    {
        self.value
    }

    /// Returns the ratio.
    pub fn ratio(&self) -> (r: [T; 2])
        ensures
            r == self.spec_ratio(),
    {
        self.ratio
    }
}

/// Whether `value` can be a Barrett modulus: at least 2, top two bits zero.
pub open spec fn barrett_admits<T: Word>(value: T) -> bool {
    2 <= value.val() && 4 * value.val() < radix::<T>()
}

impl<T: Widening> BarrettModulus<T> {
    /// Creates the modulus `value`, with its ratio.
    pub fn new(value: T) -> (modulus: Self)
        requires
            barrett_admits(value),
        ensures
            modulus.wf(),
            modulus.spec_value() == value,
    {
        let (q1, rem1) = T::div_wide(T::one(), T::zero(), value);
        let (q0, rem0) = T::div_wide(rem1, T::zero(), value);
        proof {
            let b = radix::<T>() as int;
            let m = value.val() as int;
            lemma_fundamental_div_mod(b, m);
            lemma_mod_bound(b, m);
            lemma_fundamental_div_mod(rem1.val() * b, m);
            lemma_mod_bound(rem1.val() * b, m);
            assert(1 * b + 0 == b);
            assert(rem1.val() * radix::<T>() + 0 == rem1.val() * b);
            assert(b * b == (q1.val() * b + q0.val()) * m + rem0.val()) by (nonlinear_arith)
                requires
                    b == m * (q1.val() as int) + rem1.val(),
                    rem1.val() * b == m * (q0.val() as int) + rem0.val(),
            ;
            lemma_fundamental_div_mod_converse(
                b * b,
                m,
                q1.val() * b + q0.val(),
                rem0.val() as int,
            );
        }
        BarrettModulus { value, ratio: [q0, q1] }
    }

    /// The modulus `value` with its ratio given: for a modulus that is known beforehand.
    pub fn from_parts(value: T, ratio: [T; 2]) -> (modulus: Self)
        requires
            barrett_admits(value),
            ratio[0].val() + ratio[1].val() * radix::<T>() == (radix::<T>() * radix::<T>())
                / value.val(),
        ensures
            modulus.wf(),
            modulus.spec_value() == value,
            modulus.spec_ratio() == ratio,
    {
        BarrettModulus { value, ratio }
    }

    /// The number of bits of the modulus.
    pub fn bit_count(&self) -> (n: u32)
        ensures
            n as nat == bit_length(self.m()),
    {
        proof {
            self.value.lemma_word();
        }
        bit_length_u64(self.value.to_u64())
    }
}

/// The number of bits that it takes to write `x`: the least `n` with `x < 2^n`.
pub open spec fn bit_length(x: nat) -> nat
    decreases x,
{
    if x == 0 {
        0
    } else {
        1 + bit_length(x / 2)
    }
}

/// The number of bits that it takes to write `x`.
pub fn bit_length_u64(x: u64) -> (n: u32)
    ensures
        n as nat == bit_length(x as nat),
        n <= 64,
{
    let mut n: u32 = 0;
    let mut v: u64 = x;
    proof {
        vstd::arithmetic::power2::lemma2_to64();
    }
    while v > 0
        invariant
            n as nat + bit_length(v as nat) == bit_length(x as nat),
            n <= 64,
            (v as nat) * vstd::arithmetic::power2::pow2(n as nat) <= x,
        decreases v,
    {
        proof {
            vstd::arithmetic::power2::lemma_pow2_unfold((n + 1) as nat);
            vstd::arithmetic::power2::lemma2_to64_rest();
            let p = vstd::arithmetic::power2::pow2(n as nat);
            assert(((v / 2) as nat) * (2 * p) <= (v as nat) * p) by (nonlinear_arith)
                requires
                    p >= 0,
            ;
            if n == 64 {
                assert((v as nat) * p >= p) by (nonlinear_arith)
                    requires
                        v >= 1,
                        p >= 0,
                ;
            }
        }
        v = v / 2;
        n = n + 1;
    }
    n
}

impl<T: Widening + WrappingOps> LazyReduce<BarrettModulus<T>> for T {
    type Output = T;

    open spec fn lazy_reduce_pre(self, modulus: BarrettModulus<T>) -> bool {
        modulus.wf()
    }

    open spec fn lazy_reduce_post(self, modulus: BarrettModulus<T>, out: T) -> bool {
        &&& out.val() < 2 * modulus.m()
        &&& out.val() % modulus.m() == self.val() % modulus.m()
    }

    fn lazy_reduce(self, modulus: BarrettModulus<T>) -> (out: T) {
        let ratio = modulus.ratio();
        let (l0, t) = self.widen_mul(ratio[0]);
        let (l1, q) = self.carry_mul(ratio[1], t);
        let out = self.wrapping_sub(q.wrapping_mul(modulus.value()));
        proof {
            let b = radix::<T>() as int;
            let m = modulus.m() as int;
            let x = self.val() as int;
            let r0 = ratio[0].val() as int;
            let r1 = ratio[1].val() as int;
            self.lemma_word();
            q.lemma_word();
            lemma_radix_range::<T>();
            // q = ⌊x·µ / β²⌋
            l0.lemma_word();
            l1.lemma_word();
            let lo0 = l0.val() as int;
            assert(x * r0 >= 0) by (nonlinear_arith)
                requires
                    x >= 0,
                    r0 >= 0,
            ;
            assert(x * r1 >= 0) by (nonlinear_arith)
                requires
                    x >= 0,
                    r1 >= 0,
            ;
            lemma_mod_unique(x * r0, lo0, t.val() as int, b);
            let lo1 = l1.val() as int;
            lemma_mod_unique(x * r1 + t.val(), lo1, q.val() as int, b);
            lemma_two_step_quotient(x * r1, x * r0, b);
            assert((x * r1) * b + x * r0 == x * (r0 + r1 * b)) by (nonlinear_arith);
            assert(q.val() == (x * modulus.mu()) / (b * b));
            assert(x < b * b) by (nonlinear_arith)
                requires
                    0 <= x < b,
                    b >= 1,
            ;
            lemma_barrett_quotient(x, m, b * b);
            let qi = q.val() as int;
            assert(modulus.mu() as int == (b * b) / m);
            assert(qi == (x * ((b * b) / m)) / (b * b));
            assert((qi + 2) * m == qi * m + 2 * m) by (nonlinear_arith);
            lemma_wrapped_remainder(x, x, qi, qi, m, b);
            assert(out.val() == x - qi * m);
            lemma_sub_multiple(x, qi, m);
        }
        out
    }
}

impl<T: Widening + WrappingOps> Reduce<BarrettModulus<T>> for T {
    type Output = T;

    open spec fn reduce_pre(self, modulus: BarrettModulus<T>) -> bool {
        modulus.wf()
    }

    open spec fn reduce_post(self, modulus: BarrettModulus<T>, out: T) -> bool {
        out.val() == self.val() % modulus.m()
    }

    fn reduce(self, modulus: BarrettModulus<T>) -> (out: T) {
        let tmp = self.lazy_reduce(modulus);
        proof {
            lemma_normalize(tmp.val() as int, self.val() as int, modulus.m() as int);
        }
        if tmp.at_least(modulus.value()) {
            tmp.minus(modulus.value())
        } else {
            tmp
        }
    }
}

impl<T: Widening + WrappingOps> LazyReduceAssign<BarrettModulus<T>> for T {
    fn lazy_reduce_assign(&mut self, modulus: BarrettModulus<T>) {
        *self = (*self).lazy_reduce(modulus);
    }
}

impl<T: Widening + WrappingOps> ReduceAssign<BarrettModulus<T>> for T {
    fn reduce_assign(&mut self, modulus: BarrettModulus<T>) {
        *self = (*self).reduce(modulus);
    }
}

/// The number that the two words `(lo, hi)` stand for: `lo + β·hi`.
pub open spec fn double_val<T: Word>(lo: T, hi: T) -> nat {
    lo.val() + hi.val() * radix::<T>()
}

impl<T: Widening + WrappingOps> LazyReduce<BarrettModulus<T>> for (T, T) {
    type Output = T;

    open spec fn lazy_reduce_pre(self, modulus: BarrettModulus<T>) -> bool {
        modulus.wf()
    }

    open spec fn lazy_reduce_post(self, modulus: BarrettModulus<T>, out: T) -> bool {
        &&& out.val() < 2 * modulus.m()
        &&& out.val() % modulus.m() == double_val(self.0, self.1) % modulus.m()
    }

    fn lazy_reduce(self, modulus: BarrettModulus<T>) -> (out: T) {
        let ratio = modulus.ratio();
        let lo = self.0;
        let hi = self.1;
        // the four partial products of (lo, hi) and the ratio, carried upwards
        let (a_lo, a_hi) = ratio[0].widen_mul(lo);
        let (b_lo, b_hi) = ratio[1].carry_mul(lo, a_hi);
        let (c_lo, c_hi) = ratio[0].carry_mul(hi, b_lo);
        let d = ratio[1].wrapping_mul(hi);
        let s1 = d.wrapping_add(b_hi);
        let tmp = s1.wrapping_add(c_hi);
        let out = lo.wrapping_sub(tmp.wrapping_mul(modulus.value()));
        proof {
            let b = radix::<T>() as int;
            let m = modulus.m() as int;
            let x = double_val(lo, hi) as int;
            let r0 = ratio[0].val() as int;
            let r1 = ratio[1].val() as int;
            let l = lo.val() as int;
            let h = hi.val() as int;
            lo.lemma_word();
            hi.lemma_word();
            a_lo.lemma_word();
            c_lo.lemma_word();
            let q = r1 * h + b_hi.val() + c_hi.val();
            let rem = a_lo.val() + b * c_lo.val();
            let low_low = r0 * l;
            let high_low = r1 * l;
            let low_high = r0 * h;
            let high_high = r1 * h;
            assert(x * (r0 + r1 * b) == x * r0 + (x * r1) * b) by (nonlinear_arith);
            assert(x * r0 == low_low + b * low_high) by (nonlinear_arith)
                requires
                    x == l + h * b,
                    low_low == r0 * l,
                    low_high == r0 * h,
            ;
            assert(x * r1 == high_low + b * high_high) by (nonlinear_arith)
                requires
                    x == l + h * b,
                    high_low == r1 * l,
                    high_high == r1 * h,
            ;
            assert((high_low + b * high_high) * b == b * high_low + (b * b) * high_high) by (nonlinear_arith);
            assert(x * (r0 + r1 * b) == low_low + b * high_low + b * low_high + (b * b) * high_high);
            assert(low_low + b * high_low + b * low_high + (b * b) * high_high == rem + q * (b * b)) by (nonlinear_arith)
                requires
                    a_lo.val() + a_hi.val() * b == low_low,
                    b_lo.val() + b_hi.val() * b == high_low + a_hi.val(),
                    c_lo.val() + c_hi.val() * b == low_high + b_lo.val(),
                    q == high_high + b_hi.val() + c_hi.val(),
                    rem == a_lo.val() + b * c_lo.val(),
            ;
            assert(0 <= rem < b * b) by (nonlinear_arith)
                requires
                    rem == a_lo.val() + b * c_lo.val(),
                    0 <= a_lo.val() < b,
                    0 <= c_lo.val() < b,
            ;
            lemma_mod_unique(x * (r0 + r1 * b), rem, q, b * b);
            assert(x < b * b) by (nonlinear_arith)
                requires
                    x == l + h * b,
                    0 <= l < b,
                    0 <= h < b,
            ;
            lemma_barrett_quotient(x, m, b * b);
            assert(modulus.mu() as int == (b * b) / m);
            assert(q == (x * ((b * b) / m)) / (b * b));
            assert((q + 2) * m == q * m + 2 * m) by (nonlinear_arith);
            // tmp is q modulo β
            assert(r1 * h >= 0) by (nonlinear_arith)
                requires
                    r1 >= 0,
                    h >= 0,
            ;
            d.lemma_word();
            s1.lemma_word();
            tmp.lemma_word();
            lemma_small_mod(d.val(), b as nat);
            lemma_small_mod(s1.val(), b as nat);
            lemma_small_mod(tmp.val(), b as nat);
            assert(d.val() as int == (r1 * h) % b);
            lemma_mod_twice(r1 * h, b);
            let k1 = lemma_congruent_difference(d.val() as int, r1 * h, b);
            lemma_mod_twice((d.val() + b_hi.val()) as int, b);
            lemma_mod_twice((s1.val() + c_hi.val()) as int, b);
            let k2 = lemma_congruent_difference(s1.val() as int, (d.val() + b_hi.val()) as int, b);
            let k3 = lemma_congruent_difference(tmp.val() as int, (s1.val() + c_hi.val()) as int, b);
            assert(tmp.val() == q + (k1 + k2 + k3) * b) by (nonlinear_arith)
                requires
                    d.val() == r1 * h + k1 * b,
                    s1.val() == d.val() + b_hi.val() + k2 * b,
                    tmp.val() == s1.val() + c_hi.val() + k3 * b,
                    q == r1 * h + b_hi.val() + c_hi.val(),
            ;
            lemma_mod_multiples_vanish(k1 + k2 + k3, q, b);
            assert(b * (k1 + k2 + k3) + q == tmp.val()) by (nonlinear_arith)
                requires
                    tmp.val() == q + (k1 + k2 + k3) * b,
            ;
            lemma_mod_multiples_vanish(h, l, b);
            assert(b * h + l == x) by (nonlinear_arith)
                requires
                    x == l + h * b,
            ;
            lemma_wrapped_remainder(l, x, tmp.val() as int, q, m, b);
            lemma_sub_multiple(x, q, m);
        }
        out
    }
}

impl<T: Widening + WrappingOps> Reduce<BarrettModulus<T>> for (T, T) {
    type Output = T;

    open spec fn reduce_pre(self, modulus: BarrettModulus<T>) -> bool {
        modulus.wf()
    }

    open spec fn reduce_post(self, modulus: BarrettModulus<T>, out: T) -> bool {
        out.val() == double_val(self.0, self.1) % modulus.m()
    }

    fn reduce(self, modulus: BarrettModulus<T>) -> (out: T) {
        let r = self.lazy_reduce(modulus);
        proof {
            lemma_normalize(
                r.val() as int,
                double_val(self.0, self.1) as int,
                modulus.m() as int,
            );
        }
        if r.at_least(modulus.value()) {
            r.minus(modulus.value())
        } else {
            r
        }
    }
}

impl<T: Widening + WrappingOps> LazyReduce<BarrettModulus<T>> for [T; 2] {
    type Output = T;

    open spec fn lazy_reduce_pre(self, modulus: BarrettModulus<T>) -> bool {
        modulus.wf()
    }

    open spec fn lazy_reduce_post(self, modulus: BarrettModulus<T>, out: T) -> bool {
        &&& out.val() < 2 * modulus.m()
        &&& out.val() % modulus.m() == double_val(self[0], self[1]) % modulus.m()
    }

    fn lazy_reduce(self, modulus: BarrettModulus<T>) -> (out: T) {
        (self[0], self[1]).lazy_reduce(modulus)
    }
}

impl<T: Widening + WrappingOps> Reduce<BarrettModulus<T>> for [T; 2] {
    type Output = T;

    open spec fn reduce_pre(self, modulus: BarrettModulus<T>) -> bool {
        modulus.wf()
    }

    open spec fn reduce_post(self, modulus: BarrettModulus<T>, out: T) -> bool {
        out.val() == double_val(self[0], self[1]) % modulus.m()
    }

    fn reduce(self, modulus: BarrettModulus<T>) -> (out: T) {
        (self[0], self[1]).reduce(modulus)
    }
}

/// The number that a sequence of words stands for, least significant word first.
pub open spec fn limbs_val<T: Word>(s: Seq<T>) -> nat
    decreases s.len(),
{
    if s.len() == 0 {
        0
    } else {
        s[0].val() + radix::<T>() * limbs_val(s.skip(1))
    }
}

/// Taking one more word at the low end: `limbs(s[i..]) = s[i] + β·limbs(s[i+1..])`.
pub proof fn lemma_limbs_step<T: Word>(s: Seq<T>, i: int)
    requires
        0 <= i < s.len(),
    ensures
        limbs_val(s.skip(i)) == s[i].val() + radix::<T>() * limbs_val(s.skip(i + 1)),
{
    assert(s.skip(i).skip(1) =~= s.skip(i + 1));
}

impl<'a, T: Widening + WrappingOps> LazyReduce<BarrettModulus<T>> for &'a [T] {
    type Output = T;

    open spec fn lazy_reduce_pre(self, modulus: BarrettModulus<T>) -> bool {
        modulus.wf() && self@.len() > 0
    }

    open spec fn lazy_reduce_post(self, modulus: BarrettModulus<T>, out: T) -> bool {
        &&& out.val() < 2 * modulus.m()
        &&& out.val() % modulus.m() == limbs_val(self@) % modulus.m()
    }

    fn lazy_reduce(self, modulus: BarrettModulus<T>) -> (out: T) {
        let n = self.len();
        if n == 1 {
            let v = self[0];
            proof {
                lemma_limbs_step(self@, 0);
                assert(limbs_val(self@.skip(1)) == 0);
                assert(self@.skip(0) =~= self@);
                assert(radix::<T>() * 0 == 0);
            }
            return if v.below(modulus.value()) {
                v
            } else {
                v.lazy_reduce(modulus)
            };
        }
        let mut acc = self[n - 1];
        let mut i: usize = n - 1;
        proof {
            lemma_limbs_step(self@, n - 1);
            assert(limbs_val(self@.skip(n as int)) == 0);
            assert(radix::<T>() * 0 == 0);
        }
        while i > 0
            invariant
                modulus.wf(),
                n == self@.len(),
                0 <= i < n,
                acc.val() % modulus.m() == limbs_val(self@.skip(i as int)) % modulus.m(),
                i < n - 1 ==> acc.val() < 2 * modulus.m(),
            decreases i,
        {
            i = i - 1;
            let x = self[i];
            proof {
                lemma_limbs_step(self@, i as int);
                lemma_congruence_mul_add(
                    acc.val() as int,
                    limbs_val(self@.skip(i + 1)) as int,
                    radix::<T>() as int,
                    x.val() as int,
                    modulus.m() as int,
                );
                assert(acc.val() * radix::<T>() == radix::<T>() * acc.val()) by (nonlinear_arith);
            }
            acc = (x, acc).lazy_reduce(modulus);
        }
        proof {
            assert(self@.skip(0) =~= self@);
        }
        acc
    }
}

impl<'a, T: Widening + WrappingOps> Reduce<BarrettModulus<T>> for &'a [T] {
    type Output = T;

    open spec fn reduce_pre(self, modulus: BarrettModulus<T>) -> bool {
        modulus.wf() && self@.len() > 0
    }

    open spec fn reduce_post(self, modulus: BarrettModulus<T>, out: T) -> bool {
        out.val() == limbs_val(self@) % modulus.m()
    }

    fn reduce(self, modulus: BarrettModulus<T>) -> (out: T) {
        let n = self.len();
        if n == 1 {
            let v = self[0];
            proof {
                lemma_limbs_step(self@, 0);
                assert(limbs_val(self@.skip(1)) == 0);
                assert(self@.skip(0) =~= self@);
                assert(radix::<T>() * 0 == 0);
                if v.val() < modulus.m() {
                    lemma_small_mod(v.val(), modulus.m());
                }
            }
            return if v.below(modulus.value()) {
                v
            } else {
                v.reduce(modulus)
            };
        }
        let mut acc = self[n - 1];
        let mut i: usize = n - 1;
        proof {
            lemma_limbs_step(self@, n - 1);
            assert(limbs_val(self@.skip(n as int)) == 0);
            assert(radix::<T>() * 0 == 0);
        }
        while i > 0
            invariant
                modulus.wf(),
                n == self@.len(),
                0 <= i < n,
                acc.val() % modulus.m() == limbs_val(self@.skip(i as int)) % modulus.m(),
                i < n - 1 ==> acc.val() < modulus.m(),
            decreases i,
        {
            i = i - 1;
            let x = self[i];
            proof {
                lemma_limbs_step(self@, i as int);
                lemma_congruence_mul_add(
                    acc.val() as int,
                    limbs_val(self@.skip(i + 1)) as int,
                    radix::<T>() as int,
                    x.val() as int,
                    modulus.m() as int,
                );
                assert(acc.val() * radix::<T>() == radix::<T>() * acc.val()) by (nonlinear_arith);
                lemma_mod_twice(double_val(x, acc) as int, modulus.m() as int);
            }
            acc = (x, acc).reduce(modulus);
        }
        proof {
            assert(self@.skip(0) =~= self@);
            lemma_small_mod(acc.val(), modulus.m());
        }
        acc
    }
}

} // verus!
