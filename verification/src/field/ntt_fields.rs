//! Fields over which the number theoretic transform works: the search for
//! a primitive root of unity, and the tables made from it.

use crate::error::AlgebraError;
use crate::field::{canonical, fval, Field, FieldCore, PrimeField};
use crate::lemmas::{lemma_congruence_mul, lemma_congruence_pow, lemma_pow_product_mod};
use crate::modulus::ShoupFactor;
use crate::primitive::{radix, shift_right, Bits, Widening, Word, WrappingOps};
use crate::random::{csrng_from_entropy, uniform_inclusive};
use crate::reduce::MulReduce;
use crate::transformation::ntt_table::{
    all_factors_wf, lemma_pow2_at_most_30, ordinal_powers_of, pow2_usize, NTTTable,
};
use vstd::arithmetic::div_mod::{lemma_fundamental_div_mod, lemma_mod_bound, lemma_small_mod};
use vstd::arithmetic::power::{lemma_pow0, lemma_pow1, lemma_pow_distributes, pow};
use vstd::arithmetic::power2::{lemma2_to64, lemma_pow2_pos, pow2};
use vstd::prelude::*;

verus! {

/// Whether `w` is a primitive root of unity of the even order `degree`
/// modulo `p`: its power `degree / 2` is `-1`.
pub open spec fn is_primitive(w: int, degree: nat, p: int) -> bool {
    pow(w, degree / 2) % p == p - 1
}

/// What the search for a root promises: a canonical primitive root of the
/// order asked for, which divides `p - 1`; or the error that names the
/// order and the modulus.
pub open spec fn root_search_post<F: FieldCore>(degree: nat, r: Result<F, AlgebraError>) -> bool {
    match r {
        Ok(w) => {
            &&& canonical(w)
            &&& (F::spec_modulus() - 1) % (degree as int) == 0
            &&& is_primitive(fval(w) as int, degree, F::spec_modulus() as int)
        },
        Err(e) => e == (AlgebraError::NoPrimitiveRoot {
            degree: degree as u64,
            modulus: F::spec_modulus() as u64,
        }),
    }
}

/// The odd power `g^(2k+1)` modulo `p`.
pub open spec fn odd_power(g: int, k: nat, p: int) -> int {
    pow(g, 2 * k + 1) % p
}

/// `w` is the least of the odd powers of `g` modulo `p`: it is one of
/// them, and none of them is below it.
pub open spec fn is_least_odd_power(w: int, g: int, p: int) -> bool {
    &&& exists|k: nat| w == #[trigger] odd_power(g, k, p)
    &&& forall|k: nat| w <= #[trigger] odd_power(g, k, p)
}

/// `w` is the least of the odd powers of some primitive root of unity of
/// the order `degree` modulo `p`.
pub open spec fn is_least_root(w: int, degree: nat, p: int) -> bool {
    exists|g: int| is_primitive(g, degree, p) && #[trigger] is_least_odd_power(w, g, p)
}

/// The odd powers of `g` repeat: where `g^h = -1`, the odd power `k` is
/// the odd power `k mod h`.
pub proof fn lemma_odd_powers_repeat(g: int, k: nat, h: nat, p: int)
    requires
        p > 1,
        h >= 1,
        pow(g, h) % p == p - 1,
    ensures
        odd_power(g, k, p) == odd_power(g, k % h, p),
        k % h < h,
{
    crate::lemmas::lemma_pow_square_of_minus_one(g, h, p);
    crate::lemmas::lemma_pow_mod_order(g, 2 * k + 1, 2 * h, p);
    lemma_fundamental_div_mod(k as int, h as int);
    lemma_mod_bound(k as int, h as int);
    let q = (k / h) as int;
    let r = (k % h) as int;
    assert(2 * k + 1 == (2 * r + 1) + q * (2 * h)) by (nonlinear_arith)
        requires
            k == h * q + r,
    ;
    crate::lemmas::lemma_mod_unique((2 * k + 1) as int, 2 * r + 1, q, (2 * h) as int);
}

/// An odd power of a primitive root is a primitive root: if `c` and `g` are
/// primitive, so is `c·g²`.
pub proof fn lemma_next_odd_power(c: int, g: int, sq: int, next: int, degree: nat, p: int)
    requires
        p > 1,
        is_primitive(c, degree, p),
        is_primitive(g, degree, p),
        sq % p == (g * g) % p,
        next % p == (c * sq) % p,
    ensures
        is_primitive(next, degree, p),
{
    let h = degree / 2;
    lemma_congruence_pow(next, c * sq, h, p);
    lemma_pow_distributes(c, sq, h);
    lemma_congruence_pow(sq, g * g, h, p);
    lemma_pow_distributes(g, g, h);
    // (g·g)^h = g^h·g^h = (-1)·(-1) = 1
    lemma_small_mod(1, p as nat);
    lemma_small_mod((p - 1) as nat, p as nat);
    lemma_congruence_mul(pow(g, h), p - 1, pow(g, h), p - 1, p);
    assert((p - 1) * (p - 1) == 1 + (p - 2) * p) by (nonlinear_arith);
    crate::lemmas::lemma_mod_unique((p - 1) * (p - 1), 1, p - 2, p);
    lemma_congruence_mul(pow(c, h), p - 1, pow(sq, h), 1, p);
    assert((p - 1) * 1 == p - 1);
}

/// A prime field with the search for primitive roots of unity and the
/// tables of the transform.
pub trait NTTField: PrimeField {
    /// The element of a factor.
    fn from_root(root: ShoupFactor<Self::Value>) -> (r: Self)
        ensures
            r.spec_get() == root.spec_value(),
    ;

    /// The factor of a canonical element.
    fn to_root(self) -> (root: ShoupFactor<Self::Value>)
        requires
            canonical(self),
        ensures
            root.wf(Self::spec_modulus()),
            root.spec_value() == self.spec_get(),
    ;

    /// `self * root`.
    fn mul_root(self, root: ShoupFactor<Self::Value>) -> (r: Self)
        requires
            root.wf(Self::spec_modulus()),
        ensures
            fval(r) == (fval(self) * root.spec_value().val()) % Self::spec_modulus(),
    ;

    /// `self = self * root`.
    fn mul_root_assign(&mut self, root: ShoupFactor<Self::Value>)
        requires
            root.wf(Self::spec_modulus()),
        ensures
            fval(*final(self)) == (fval(*old(self)) * root.spec_value().val())
                % Self::spec_modulus(),
    ;

    /// Whether `root` is a primitive root of unity of order `degree`.
    fn is_primitive_root(root: Self, degree: Self::Value) -> (r: bool)
        requires
            canonical(root),
            degree.val() >= 2,
        ensures
            r == is_primitive(fval(root) as int, degree.val(), Self::spec_modulus() as int),
    ;

    /// Looks for a primitive root of unity of order `degree`, with at most
    /// 100 random candidates. Fails where `degree` does not divide `p - 1`,
    /// or where no candidate was a primitive root.
    fn try_primitive_root(degree: Self::Value) -> (r: Result<Self, AlgebraError>)
        requires
            degree.val() >= 2,
        ensures
            root_search_post::<Self>(degree.val(), r),
            (Self::spec_modulus() - 1) % (degree.val() as int) != 0 ==> r is Err,
    ;

    /// Looks for a primitive root of unity of order `degree`, and takes the
    /// least of its odd powers, which `least_odd_power` finds.
    fn try_minimal_primitive_root(degree: Self::Value) -> (r: Result<Self, AlgebraError>)
        requires
            degree.val() >= 2,
        ensures
            root_search_post::<Self>(degree.val(), r),
            (Self::spec_modulus() - 1) % (degree.val() as int) != 0 ==> r is Err,
            match r {
                Ok(w) => is_least_root(fval(w) as int, degree.val(), Self::spec_modulus() as int),
                Err(_) => true,
            },
    ;

    /// Makes the tables of the transform of length `2^log_n`.
    fn generate_ntt_table(log_n: u32) -> (r: Result<NTTTable<Self>, AlgebraError>)
        requires
            1 <= log_n <= 30,
            2 * pow2(log_n as nat) < radix::<Self::Value>(),
        ensures
            match r {
                Ok(table) => table.wf() && table.spec_log_n() == log_n,
                Err(e) => e == (AlgebraError::NoPrimitiveRoot {
                    degree: (2 * pow2(log_n as nat)) as u64,
                    modulus: Self::spec_modulus() as u64,
                }),
            },
            (Self::spec_modulus() - 1) % ((2 * pow2(log_n as nat)) as int) != 0 ==> r is Err,
    ;
}

impl<F: PrimeField> NTTField for F {
    fn from_root(root: ShoupFactor<Self::Value>) -> (r: Self) {
        Self::new(root.value())
    }

    fn to_root(self) -> (root: ShoupFactor<Self::Value>) {
        ShoupFactor::new(self.get(), Self::modulus_value())
    }

    fn mul_root(self, root: ShoupFactor<Self::Value>) -> (r: Self) {
        proof {
            Self::lemma_modulus();
        }
        Self::new(
            MulReduce::<Self::Value, ShoupFactor<Self::Value>>::mul_reduce(
                self.get(),
                root,
                Self::modulus_value(),
            ),
        )
    }

    fn mul_root_assign(&mut self, root: ShoupFactor<Self::Value>) {
        *self = (*self).mul_root(root);
    }

    fn is_primitive_root(root: Self, degree: Self::Value) -> (r: bool) {
        proof {
            Self::Value::lemma_radix();
            lemma2_to64();
            if fval(root) == 0 {
                vstd::arithmetic::power::lemma0_pow(degree.val() / 2);
                lemma_small_mod(0, Self::spec_modulus());
            }
            Self::lemma_modulus();
        }
        if root.is_zero() {
            return false;
        }
        let half = shift_right(degree, 1);
        let power = Field::pow(root, half);
        power.same(Self::neg_one())
    }

    fn try_primitive_root(degree: Self::Value) -> (r: Result<Self, AlgebraError>) {
        proof {
            Self::lemma_modulus();
            degree.lemma_word();
        }
        let modulus = Self::modulus_value().to_u64();
        let order = degree.to_u64();
        let modulus_sub_one: u64 = modulus - 1;
        let quotient: u64 = modulus_sub_one / order;
        proof {
            lemma_fundamental_div_mod(modulus_sub_one as int, order as int);
            lemma_mod_bound(modulus_sub_one as int, order as int);
            assert(quotient * order <= modulus_sub_one) by (nonlinear_arith)
                requires
                    modulus_sub_one == order * quotient + modulus_sub_one % order,
                    0 <= modulus_sub_one % order,
            ;
        }
        if modulus_sub_one != quotient * order {
            proof {
                if (modulus_sub_one as int) % (order as int) == 0 {
                    assert(modulus_sub_one == order * quotient);
                    assert(order * quotient == quotient * order) by (nonlinear_arith);
                }
            }
            return Err(AlgebraError::NoPrimitiveRoot { degree: order, modulus });
        }
        proof {
            crate::lemmas::lemma_mod_unique(
                modulus_sub_one as int,
                0,
                quotient as int,
                order as int,
            );
            assert(quotient >= 1) by (nonlinear_arith)
                requires
                    modulus_sub_one == quotient * order,
                    modulus_sub_one >= 1,
                    order >= 2,
            ;
            assert(order <= modulus_sub_one) by (nonlinear_arith)
                requires
                    modulus_sub_one == quotient * order,
                    quotient >= 1,
                    order >= 2,
            ;
        }
        let mut rng = csrng_from_entropy();
        let exponent = Self::Value::from_u64(quotient);
        let mut tries: u32 = 0;
        while tries < 100
            invariant
                modulus == Self::spec_modulus(),
                modulus_sub_one == modulus - 1,
                2 <= modulus_sub_one,
                modulus < radix::<Self::Value>(),
                degree.val() >= 2,
                order == degree.val(),
                (Self::spec_modulus() - 1) % (degree.val() as int) == 0,
            decreases 100 - tries,
        {
            let candidate = uniform_inclusive(&mut rng, 2, modulus_sub_one);
            let w = Field::pow(Self::new(Self::Value::from_u64(candidate)), exponent);
            proof {
                lemma_mod_bound(
                    pow(candidate as int, exponent.val()),
                    Self::spec_modulus() as int,
                );
            }
            if Self::is_primitive_root(w, degree) {
                return Ok(w);
            }
            tries = tries + 1;
        }
        Err(AlgebraError::NoPrimitiveRoot { degree: order, modulus })
    }

    fn try_minimal_primitive_root(degree: Self::Value) -> (r: Result<Self, AlgebraError>) {
        let found = Self::try_primitive_root(degree);
        let first = match found {
            Ok(root) => root,
            Err(e) => {
                return Err(e);
            },
        };
        let root = least_odd_power(first, degree);
        proof {
            assert(is_primitive(
                fval(first) as int,
                degree.val(),
                Self::spec_modulus() as int,
            ));
            assert(is_least_odd_power(
                fval(root) as int,
                fval(first) as int,
                Self::spec_modulus() as int,
            ));
        }
        Ok(root)
    }

    fn generate_ntt_table(log_n: u32) -> (r: Result<NTTTable<Self>, AlgebraError>) {
        let n = pow2_usize(log_n);
        proof {
            lemma_pow2_at_most_30(log_n as nat);
            lemma_pow2_pos(log_n as nat);
            Self::lemma_modulus();
        }
        let degree = Self::Value::from_u64((2 * n) as u64);
        let found = Self::try_minimal_primitive_root(degree);
        let root = match found {
            Ok(root) => root,
            Err(e) => {
                return Err(e);
            },
        };
        let ghost p = Self::spec_modulus() as int;
        let ghost w = fval(root) as int;
        let root_factor = root.to_root();
        let mut power = root;
        let mut ordinal_root_powers: Vec<ShoupFactor<Self::Value>> = Vec::new();
        ordinal_root_powers.push(Self::one().to_root());
        ordinal_root_powers.push(root_factor);
        proof {
            lemma_pow0(w);
            lemma_pow1(w);
            lemma_small_mod(1, p as nat);
            lemma_small_mod(w as nat, p as nat);
        }
        let mut i: usize = 2;
        while i < 2 * n
            invariant
                2 <= i <= 2 * n,
                n <= 0x4000_0000,
                p == Self::spec_modulus(),
                w == fval(root),
                p >= 2,
                root_factor.wf(Self::spec_modulus()),
                root_factor.spec_value().val() == w,
                canonical(power),
                fval(power) == pow(w, (i - 1) as nat) % p,
                ordinal_root_powers@.len() == i,
                all_factors_wf::<Self>(ordinal_root_powers@),
                ordinal_powers_of::<Self>(ordinal_root_powers@, w),
            decreases 2 * n - i,
        {
            let next = power.mul_root(root_factor);
            proof {
                lemma_mod_bound((fval(power) * w) as int, p);
                lemma_small_mod(w as nat, p as nat);
                lemma_pow1(w);
                lemma_pow_product_mod(w, (i - 1) as nat, 1, p);
                assert(((i - 1) as nat) + 1 == i as nat);
                assert(fval(next) == pow(w, i as nat) % p);
            }
            power = next;
            ordinal_root_powers.push(power.to_root());
            i = i + 1;
        }
        proof {
            assert((2 * n) / 2 == n);
        }
        Ok(NTTTable::new(root, log_n, ordinal_root_powers))
    }
}

/// The least of the odd powers of the primitive root `first` of order
/// `degree`: the powers `first^(2k+1)` are gone through for `k` below
/// `degree`, which is all of them, and the least is kept. It is a
/// primitive root of the same order.
pub fn least_odd_power<F: PrimeField>(first: F, degree: F::Value) -> (root: F)
    requires
        canonical(first),
        degree.val() >= 2,
        is_primitive(fval(first) as int, degree.val(), F::spec_modulus() as int),
    ensures
        canonical(root),
        is_primitive(fval(root) as int, degree.val(), F::spec_modulus() as int),
        is_least_odd_power(fval(root) as int, fval(first) as int, F::spec_modulus() as int),
{
    let ghost p = F::spec_modulus() as int;
    let ghost g = fval(first) as int;
    proof {
        F::lemma_modulus();
        degree.lemma_word();
    }
    let square = Field::mul(first, first);
    proof {
        lemma_mod_bound((fval(first) * fval(first)) as int, p);
    }
    let generator_sq = square.to_root();
    let mut root = first;
    let mut current = first;
    let ghost mut best: nat = 0;
    let count = degree.to_u64();
    let mut i: u64 = 0;
    proof {
        lemma_pow1(g);
        lemma_small_mod(g as nat, p as nat);
        assert(2 * 0 + 1 == 1);
    }
    while i < count
        invariant
            i <= count,
            count == degree.val(),
            p == F::spec_modulus(),
            g == fval(first),
            generator_sq.wf(F::spec_modulus()),
            generator_sq.spec_value().val() == (fval(first) * fval(first)) % F::spec_modulus(),
            canonical(root),
            canonical(current),
            2 <= F::spec_modulus(),
            is_primitive(fval(first) as int, degree.val(), F::spec_modulus() as int),
            is_primitive(fval(root) as int, degree.val(), F::spec_modulus() as int),
            is_primitive(fval(current) as int, degree.val(), F::spec_modulus() as int),
            fval(current) == odd_power(g, i as nat, p),
            fval(root) == odd_power(g, best, p),
            forall|k: nat| k < i ==> fval(root) <= #[trigger] odd_power(g, k, p),
        decreases count - i,
    {
        if current.get().below(root.get()) {
            root = current;
            proof {
                best = i as nat;
            }
        }
        let next = current.mul_root(generator_sq);
        proof {
            lemma_mod_bound((fval(current) * generator_sq.spec_value().val()) as int, p);
            vstd::arithmetic::div_mod::lemma_mod_twice((fval(first) * fval(first)) as int, p);
            vstd::arithmetic::div_mod::lemma_mod_twice(
                (fval(current) * generator_sq.spec_value().val()) as int,
                p,
            );
            lemma_next_odd_power(
                fval(current) as int,
                fval(first) as int,
                generator_sq.spec_value().val() as int,
                fval(next) as int,
                degree.val(),
                p,
            );
            // the next odd power is this one times the square
            let e = (2 * i + 1) as nat;
            crate::lemmas::lemma_pow_succ(g, e);
            crate::lemmas::lemma_pow_succ(g, e + 1);
            assert(pow(g, e + 2) == pow(g, e) * (g * g)) by (nonlinear_arith)
                requires
                    pow(g, e + 1) == g * pow(g, e),
                    pow(g, e + 2) == g * pow(g, e + 1),
            ;
            vstd::arithmetic::div_mod::lemma_mod_twice(pow(g, e), p);
            lemma_congruence_mul(
                fval(current) as int,
                pow(g, e),
                generator_sq.spec_value().val() as int,
                g * g,
                p,
            );
            assert(2 * ((i + 1) as nat) + 1 == e + 2);
        }
        current = next;
        i = i + 1;
    }
    proof {
        let h = degree.val() / 2;
        assert forall|k: nat| fval(root) <= #[trigger] odd_power(g, k, p) by {
            lemma_odd_powers_repeat(g, k, h, p);
            assert(k % h < count);
        }
    }
    root
}

} // verus!
