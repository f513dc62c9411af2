//! A multilinear polynomial in dense form: its values at the points of
//! `{0,1}^n`, where the index of a value is the point read as a number,
//! the first variable being the lowest bit.

use crate::field::{canonical, fval, Field, FieldCore};
use crate::polynomial::elementwise::{
    all_canonical, copied, is_difference, is_negative, is_sum, vec_add, vec_neg, vec_sub,
};
use crate::random::Random;
use crate::transformation::ntt_table::{pow2_usize, vals};
use vstd::arithmetic::power2::{lemma2_to64, lemma_pow2_pos, lemma_pow2_unfold, pow2};
use vstd::prelude::*;

verus! {

/// The values of a multilinear polynomial on the hypercube.
#[derive(Clone, Debug, PartialEq, Eq)]
pub struct DenseMultilinearExtension<F: FieldCore> {
    /// The values at the points of `{0,1}^num_vars`.
    pub evaluations: Vec<F>,
    /// The number of variables.
    pub num_vars: usize,
}

/// The values after the first variable is fixed to `r`: the pair of values
/// `(e[2b], e[2b+1])` becomes `e[2b] + r·(e[2b+1] - e[2b])`.
pub open spec fn fix_one(e: Seq<int>, r: int, p: int) -> Seq<int> {
    Seq::new((e.len() / 2) as nat, |b: int| (e[2 * b] + r * (e[2 * b + 1] - e[2 * b])) % p)
}

/// The values after the first `k` variables are fixed to the first `k` entries of `point`.
pub open spec fn fix_many(e: Seq<int>, point: Seq<int>, k: nat, p: int) -> Seq<int>
    decreases k,
{
    if k == 0 {
        e
    } else {
        fix_one(fix_many(e, point, (k - 1) as nat, p), point[k - 1], p)
    }
}

/// Fixing `k` variables of `2^n` values leaves `2^(n-k)` values.
pub proof fn lemma_fix_many_len(e: Seq<int>, point: Seq<int>, k: nat, n: nat, p: int)
    requires
        e.len() == pow2(n),
        k <= n,
    ensures
        fix_many(e, point, k, p).len() == pow2((n - k) as nat),
    decreases k,
{
    if k > 0 {
        lemma_fix_many_len(e, point, (k - 1) as nat, n, p);
        lemma_pow2_unfold((n - k + 1) as nat);
    }
}

impl<F: FieldCore> DenseMultilinearExtension<F> {
    /// There are `2^num_vars` values, all canonical, and at most 30 variables.
    pub open spec fn wf(self) -> bool {
        &&& self.num_vars <= 30
        &&& self.evaluations@.len() == pow2(self.num_vars as nat)
        &&& all_canonical(self.evaluations@)
    }

    /// The polynomial with a copy of the values `evaluations`.
    pub fn from_evaluations_slice(num_vars: usize, evaluations: &[F]) -> (r: Self)
        requires
            num_vars <= 30,
            evaluations@.len() == pow2(num_vars as nat),
        ensures
            r.num_vars == num_vars,
            r.evaluations@ == evaluations@,
    {
        Self::from_evaluations_vec(num_vars, copied(evaluations))
    }

    /// The polynomial with the values `evaluations`.
    pub fn from_evaluations_vec(num_vars: usize, evaluations: Vec<F>) -> (r: Self)
        requires
            num_vars <= 30,
            evaluations@.len() == pow2(num_vars as nat),
        ensures
            r.num_vars == num_vars,
            r.evaluations == evaluations,
    {
        DenseMultilinearExtension { evaluations, num_vars }
    }

    /// The number of variables.
    pub fn num_vars(&self) -> (n: usize)
        ensures
            n == self.num_vars,
    {
        self.num_vars
    }

    /// A copy of the values.
    pub fn to_evaluations(&self) -> (v: Vec<F>)
        ensures
            v@ == self.evaluations@,
    {
        copied(self.evaluations.as_slice())
    }

    /// The value at the point of the hypercube with the number `index`.
    pub fn index(&self, index: usize) -> (v: F)
        requires
            index < self.evaluations@.len(),
        ensures
            v == self.evaluations@[index as int],
    {
        self.evaluations[index]
    }

    /// A polynomial of `num_vars` variables with random values.
    pub fn random(num_vars: usize, rng: &mut rand_chacha::ChaCha12Rng) -> (r: Self)
        requires
            num_vars <= 30,
        ensures
            r.wf(),
            r.num_vars == num_vars,
    {
        let n = pow2_usize(num_vars as u32);
        let mut evaluations: Vec<F> = Vec::new();
        let mut i: usize = 0;
        while i < n
            invariant
                i <= n,
                evaluations@.len() == i,
                all_canonical(evaluations@),
            decreases n - i,
        {
            evaluations.push(F::random(rng));
            i = i + 1;
        }
        DenseMultilinearExtension { evaluations, num_vars }
    }

    /// The polynomial with the first variables fixed to the entries of
    /// `partial_point`: a polynomial of the variables that are left.
    pub fn fix_variables(&self, partial_point: &[F]) -> (r: Self)
        requires
            self.wf(),
            partial_point@.len() <= self.num_vars,
        ensures
            r.wf(),
            r.num_vars == self.num_vars - partial_point@.len(),
            vals(r.evaluations@) == fix_many(
                vals(self.evaluations@),
                vals(partial_point@),
                partial_point@.len(),
                F::spec_modulus() as int,
            ),
    {
        let nv = self.num_vars;
        let dim = partial_point.len();
        let ghost e = vals(self.evaluations@);
        let ghost point = vals(partial_point@);
        let ghost p = F::spec_modulus() as int;
        let mut poly = copied(self.evaluations.as_slice());
        let mut i: usize = 0;
        proof {
            assert(vals(poly@) =~= fix_many(e, point, 0, p));
        }
        while i < dim
            invariant
                i <= dim,
                dim == partial_point@.len(),
                dim <= nv,
                nv <= 30,
                e == vals(self.evaluations@),
                e.len() == pow2(nv as nat),
                point == vals(partial_point@),
                p == F::spec_modulus(),
                poly@.len() == pow2((nv - i) as nat),
                all_canonical(poly@),
                vals(poly@) == fix_many(e, point, i as nat, p),
            decreases dim - i,
        {
            let r = partial_point[i];
            let total = poly.len();
            let half = total / 2;
            let mut next: Vec<F> = Vec::new();
            let mut b: usize = 0;
            proof {
                lemma_pow2_unfold((nv - i) as nat);
                F::lemma_modulus();
            }
            while b < half
                invariant
                    b <= half,
                    total == poly@.len(),
                    2 * half == poly@.len(),
                    all_canonical(poly@),
                    p == F::spec_modulus(),
                    p > 1,
                    next@.len() == b,
                    all_canonical(next@),
                    forall|j: int|
                        0 <= j < b ==> fval(#[trigger] next@[j]) == (fval(poly@[2 * j]) + fval(r)
                            * (fval(poly@[2 * j + 1]) - fval(poly@[2 * j]))) % p,
                decreases half - b,
            {
                let left = poly[2 * b];
                let right = poly[2 * b + 1];
                let difference = right.sub(left);
                let value = left.add_mul(r, difference);
                proof {
                    let l = fval(left) as int;
                    let d = fval(right) - fval(left);
                    let rv = fval(r) as int;
                    vstd::arithmetic::div_mod::lemma_mod_twice(d, p);
                    crate::lemmas::lemma_congruence_mul_add(fval(difference) as int, d, rv, l, p);
                    vstd::arithmetic::div_mod::lemma_mod_bound(l + rv * d, p);
                }
                next.push(value);
                b = b + 1;
            }
            proof {
                assert(vals(next@) =~= fix_one(vals(poly@), point[i as int], p));
            }
            poly = next;
            i = i + 1;
        }
        DenseMultilinearExtension { evaluations: poly, num_vars: nv - dim }
    }

    /// The value of the polynomial at `point`, which has an entry for every variable.
    pub fn evaluate(&self, point: &[F]) -> (r: F)
        requires
            self.wf(),
            point@.len() == self.num_vars,
        ensures
            fval(r) == fix_many(
                vals(self.evaluations@),
                vals(point@),
                point@.len(),
                F::spec_modulus() as int,
            )[0],
    {
        let fixed = self.fix_variables(point);
        proof {
            lemma2_to64();
        }
        fixed.evaluations[0]
    }

    /// The constant polynomial `0`.
    pub fn zero() -> (r: Self)
        ensures
            r.wf(),
            r.num_vars == 0,
            fval(r.evaluations@[0]) == 0,
    {
        let mut evaluations: Vec<F> = Vec::new();
        evaluations.push(F::zero());
        proof {
            lemma2_to64();
            F::lemma_modulus();
        }
        DenseMultilinearExtension { evaluations, num_vars: 0 }
    }

    /// Whether the polynomial is the constant `0`.
    pub fn is_zero(&self) -> (r: bool)
        requires
            self.evaluations@.len() >= 1,
        ensures
            r == (self.num_vars == 0 && fval(self.evaluations@[0]) == 0),
    {
        self.num_vars == 0 && self.evaluations[0].is_zero()
    }

    /// The sum of two polynomials of the same variables, value by value.
    /// A polynomial that is the constant `0` counts as zero of any
    /// number of variables.
    pub fn add(&self, rhs: &Self) -> (r: Self)
        requires
            self.wf(),
            rhs.wf(),
            self.num_vars == rhs.num_vars || (rhs.num_vars == 0 && fval(rhs.evaluations@[0]) == 0)
                || (self.num_vars == 0 && fval(self.evaluations@[0]) == 0),
        ensures
            r.wf(),
            if rhs.num_vars == 0 && fval(rhs.evaluations@[0]) == 0 {
                r.evaluations@ == self.evaluations@ && r.num_vars == self.num_vars
            } else if self.num_vars == 0 && fval(self.evaluations@[0]) == 0 {
                r.evaluations@ == rhs.evaluations@ && r.num_vars == rhs.num_vars
            } else {
                is_sum(r.evaluations@, self.evaluations@, rhs.evaluations@) && r.num_vars
                    == self.num_vars
            },
    {
        proof {
            lemma_pow2_pos(self.num_vars as nat);
            lemma_pow2_pos(rhs.num_vars as nat);
        }
        if rhs.is_zero() {
            return DenseMultilinearExtension {
                evaluations: copied(self.evaluations.as_slice()),
                num_vars: self.num_vars,
            };
        }
        if self.is_zero() {
            return DenseMultilinearExtension {
                evaluations: copied(rhs.evaluations.as_slice()),
                num_vars: rhs.num_vars,
            };
        }
        DenseMultilinearExtension {
            evaluations: vec_add(&self.evaluations, &rhs.evaluations),
            num_vars: self.num_vars,
        }
    }

    /// The difference of two polynomials of the same variables, value by
    /// value. Where one of the two is the constant `0`, the other one is
    /// returned as it is.
    pub fn sub(&self, rhs: &Self) -> (r: Self)
        requires
            self.wf(),
            rhs.wf(),
            self.num_vars == rhs.num_vars || (rhs.num_vars == 0 && fval(rhs.evaluations@[0]) == 0)
                || (self.num_vars == 0 && fval(self.evaluations@[0]) == 0),
        ensures
            r.wf(),
            if rhs.num_vars == 0 && fval(rhs.evaluations@[0]) == 0 {
                r.evaluations@ == self.evaluations@ && r.num_vars == self.num_vars
            } else if self.num_vars == 0 && fval(self.evaluations@[0]) == 0 {
                r.evaluations@ == rhs.evaluations@ && r.num_vars == rhs.num_vars
            } else {
                is_difference(r.evaluations@, self.evaluations@, rhs.evaluations@) && r.num_vars
                    == self.num_vars
            },
    {
        proof {
            lemma_pow2_pos(self.num_vars as nat);
            lemma_pow2_pos(rhs.num_vars as nat);
        }
        if rhs.is_zero() {
            return DenseMultilinearExtension {
                evaluations: copied(self.evaluations.as_slice()),
                num_vars: self.num_vars,
            };
        }
        if self.is_zero() {
            return DenseMultilinearExtension {
                evaluations: copied(rhs.evaluations.as_slice()),
                num_vars: rhs.num_vars,
            };
        }
        DenseMultilinearExtension {
            evaluations: vec_sub(&self.evaluations, &rhs.evaluations),
            num_vars: self.num_vars,
        }
    }

    /// Adds a polynomial of the same variables, value by value.
    pub fn add_assign(&mut self, rhs: &Self)
        requires
            old(self).wf(),
            rhs.wf(),
            old(self).num_vars == rhs.num_vars,
        ensures
            final(self).wf(),
            final(self).num_vars == old(self).num_vars,
            is_sum(final(self).evaluations@, old(self).evaluations@, rhs.evaluations@),
    {
        self.evaluations = vec_add(&self.evaluations, &rhs.evaluations);
    }

    /// Subtracts a polynomial of the same variables, value by value.
    pub fn sub_assign(&mut self, rhs: &Self)
        requires
            old(self).wf(),
            rhs.wf(),
            old(self).num_vars == rhs.num_vars,
        ensures
            final(self).wf(),
            final(self).num_vars == old(self).num_vars,
            is_difference(final(self).evaluations@, old(self).evaluations@, rhs.evaluations@),
    {
        self.evaluations = vec_sub(&self.evaluations, &rhs.evaluations);
    }

    /// Adds `f` times a polynomial of the same variables, value by value.
    pub fn add_assign_scaled(&mut self, f: F, rhs: &Self)
        requires
            old(self).wf(),
            rhs.wf(),
            old(self).num_vars == rhs.num_vars,
        ensures
            final(self).wf(),
            final(self).num_vars == old(self).num_vars,
            forall|i: int|
                0 <= i < final(self).evaluations@.len() ==> fval(
                    #[trigger] final(self).evaluations@[i],
                ) == (fval(old(self).evaluations@[i]) + fval(f) * fval(rhs.evaluations@[i]))
                    % F::spec_modulus(),
    {
        let n = self.evaluations.len();
        let mut r: Vec<F> = Vec::new();
        let mut i: usize = 0;
        proof {
            F::lemma_modulus();
        }
        while i < n
            invariant
                i <= n,
                n == self.evaluations@.len(),
                n == rhs.evaluations@.len(),
                F::spec_modulus() > 1,
                r@.len() == i,
                all_canonical(r@),
                forall|j: int|
                    0 <= j < i ==> fval(#[trigger] r@[j]) == (fval(self.evaluations@[j]) + fval(f)
                        * fval(rhs.evaluations@[j])) % F::spec_modulus(),
            decreases n - i,
        {
            let value = self.evaluations[i].add_mul(f, rhs.evaluations[i]);
            proof {
                vstd::arithmetic::div_mod::lemma_mod_bound(
                    (fval(self.evaluations@[i as int]) + fval(f) * fval(
                        rhs.evaluations@[i as int],
                    )) as int,
                    F::spec_modulus() as int,
                );
            }
            r.push(value);
            i = i + 1;
        }
        self.evaluations = r;
    }

    /// The negative of the polynomial, value by value.
    pub fn neg(&self) -> (r: Self)
        requires
            self.wf(),
        ensures
            r.wf(),
            r.num_vars == self.num_vars,
            is_negative(r.evaluations@, self.evaluations@),
    {
        DenseMultilinearExtension {
            evaluations: vec_neg(&self.evaluations),
            num_vars: self.num_vars,
        }
    }
}

} // verus!
