//! Operations on vectors of field elements, entry by entry.

use crate::field::{canonical, fval, Field, FieldCore};
use crate::transformation::ntt_table::vals;
use vstd::prelude::*;

verus! {

/// Every element of the sequence is canonical.
pub open spec fn all_canonical<F: FieldCore>(s: Seq<F>) -> bool {
    forall|i: int| 0 <= i < s.len() ==> canonical(#[trigger] s[i])
}

/// Every element of the sequence is zero.
pub open spec fn is_all_zero<F: FieldCore>(s: Seq<F>) -> bool {
    forall|i: int| 0 <= i < s.len() ==> fval(#[trigger] s[i]) == 0
}

/// `r` is the sum of `a` and `b`, entry by entry.
pub open spec fn is_sum<F: FieldCore>(r: Seq<F>, a: Seq<F>, b: Seq<F>) -> bool {
    &&& r.len() == a.len()
    &&& b.len() == a.len()
    &&& forall|i: int|
        0 <= i < r.len() ==> fval(#[trigger] r[i]) == (fval(a[i]) + fval(b[i])) % F::spec_modulus()
}

/// `r` is the difference of `a` and `b`, entry by entry.
pub open spec fn is_difference<F: FieldCore>(r: Seq<F>, a: Seq<F>, b: Seq<F>) -> bool {
    &&& r.len() == a.len()
    &&& b.len() == a.len()
    &&& forall|i: int|
        0 <= i < r.len() ==> fval(#[trigger] r[i]) == (fval(a[i]) - fval(b[i])) % (
        F::spec_modulus() as int)
}

/// `r` is the negative of `a`, entry by entry.
pub open spec fn is_negative<F: FieldCore>(r: Seq<F>, a: Seq<F>) -> bool {
    &&& r.len() == a.len()
    &&& forall|i: int|
        0 <= i < r.len() ==> fval(#[trigger] r[i]) == (-(fval(a[i]) as int)) % (
        F::spec_modulus() as int)
}

/// `r` is the product of `a` and `b`, entry by entry.
pub open spec fn is_product<F: FieldCore>(r: Seq<F>, a: Seq<F>, b: Seq<F>) -> bool {
    &&& r.len() == a.len()
    &&& b.len() == a.len()
    &&& forall|i: int|
        0 <= i < r.len() ==> fval(#[trigger] r[i]) == (fval(a[i]) * fval(b[i])) % F::spec_modulus()
}

/// `r` is `a` with every entry multiplied by `c`.
pub open spec fn is_scaled<F: FieldCore>(r: Seq<F>, a: Seq<F>, c: F) -> bool {
    &&& r.len() == a.len()
    &&& forall|i: int|
        0 <= i < r.len() ==> fval(#[trigger] r[i]) == (fval(a[i]) * fval(c)) % F::spec_modulus()
}

/// `r` is `a + b·c`, entry by entry.
pub open spec fn is_sum_of_product<F: FieldCore>(r: Seq<F>, a: Seq<F>, b: Seq<F>, c: Seq<F>) -> bool {
    &&& r.len() == a.len()
    &&& b.len() == a.len()
    &&& c.len() == a.len()
    &&& forall|i: int|
        0 <= i < r.len() ==> fval(#[trigger] r[i]) == (fval(a[i]) + fval(b[i]) * fval(c[i]))
            % F::spec_modulus()
}

/// The sum of two sequences of numbers, entry by entry, modulo `p`.
pub open spec fn seq_add(a: Seq<int>, b: Seq<int>, p: int) -> Seq<int> {
    Seq::new(a.len(), |i: int| (a[i] + b[i]) % p)
}

/// The negative of a sequence of numbers, entry by entry, modulo `p`.
pub open spec fn seq_neg(a: Seq<int>, p: int) -> Seq<int> {
    Seq::new(a.len(), |i: int| (-a[i]) % p)
}

/// A sequence of numbers with every entry multiplied by `c`, modulo `p`.
pub open spec fn seq_scale(a: Seq<int>, c: int, p: int) -> Seq<int> {
    Seq::new(a.len(), |i: int| (a[i] * c) % p)
}

/// The entry-by-entry relations, as equations between sequences of numbers.
pub proof fn lemma_elementwise<F: FieldCore>(r: Seq<F>, a: Seq<F>, b: Seq<F>, c: F)
    ensures
        is_sum(r, a, b) ==> vals(r) == seq_add(vals(a), vals(b), F::spec_modulus() as int),
        is_negative(r, a) ==> vals(r) == seq_neg(vals(a), F::spec_modulus() as int),
        is_scaled(r, a, c) ==> vals(r) == seq_scale(
            vals(a),
            fval(c) as int,
            F::spec_modulus() as int,
        ),
{
    let p = F::spec_modulus() as int;
    if is_sum(r, a, b) {
        assert(vals(r) =~= seq_add(vals(a), vals(b), p));
    }
    if is_negative(r, a) {
        assert(vals(r) =~= seq_neg(vals(a), p));
    }
    if is_scaled(r, a, c) {
        assert(vals(r) =~= seq_scale(vals(a), fval(c) as int, p));
    }
}

/// A vector of `n` copies of `x`.
pub fn filled<F: FieldCore>(x: F, n: usize) -> (v: Vec<F>)
    ensures
        v@.len() == n,
        forall|i: int| 0 <= i < n ==> v@[i] == x,
{
    let mut v: Vec<F> = Vec::new();
    let mut i: usize = 0;
    while i < n
        invariant
            i <= n,
            v@.len() == i,
            forall|j: int| 0 <= j < i ==> v@[j] == x,
        decreases n - i,
    {
        v.push(x);
        i = i + 1;
    }
    v
}

/// A copy of a slice.
pub fn copied<F: FieldCore>(a: &[F]) -> (v: Vec<F>)
    ensures
        v@ == a@,
{
    let mut v: Vec<F> = Vec::new();
    let n = a.len();
    let mut i: usize = 0;
    while i < n
        invariant
            i <= n,
            n == a@.len(),
            v@.len() == i,
            forall|j: int| 0 <= j < i ==> v@[j] == a@[j],
        decreases n - i,
    {
        v.push(a[i]);
        i = i + 1;
    }
    assert(v@ =~= a@);
    v
}

/// Whether every element is zero. An empty vector counts as zero.
pub fn all_zero<F: FieldCore>(a: &Vec<F>) -> (r: bool)
    ensures
        r == is_all_zero(a@),
{
    let n = a.len();
    let mut i: usize = 0;
    while i < n
        invariant
            i <= n,
            n == a@.len(),
            forall|j: int| 0 <= j < i ==> fval(#[trigger] a@[j]) == 0,
        decreases n - i,
    {
        if !a[i].is_zero() {
            return false;
        }
        i = i + 1;
    }
    true
}

/// The sum of two vectors of canonical elements.
pub fn vec_add<F: FieldCore>(a: &Vec<F>, b: &Vec<F>) -> (r: Vec<F>)
    requires
        a@.len() == b@.len(),
        all_canonical(a@),
        all_canonical(b@),
    ensures
        is_sum(r@, a@, b@),
        all_canonical(r@),
{
    let n = a.len();
    let mut r: Vec<F> = Vec::new();
    let mut i: usize = 0;
    while i < n
        invariant
            i <= n,
            n == a@.len(),
            n == b@.len(),
            all_canonical(a@),
            all_canonical(b@),
            r@.len() == i,
            forall|j: int|
                0 <= j < i ==> fval(#[trigger] r@[j]) == (fval(a@[j]) + fval(b@[j]))
                    % F::spec_modulus(),
        decreases n - i,
    {
        r.push(a[i].add(b[i]));
        i = i + 1;
    }
    proof {
        F::lemma_modulus();
        assert forall|j: int| 0 <= j < r@.len() implies canonical(#[trigger] r@[j]) by {
            vstd::arithmetic::div_mod::lemma_mod_bound(
                (fval(a@[j]) + fval(b@[j])) as int,
                F::spec_modulus() as int,
            );
        }
    }
    r
}

/// The difference of two vectors of canonical elements.
pub fn vec_sub<F: FieldCore>(a: &Vec<F>, b: &Vec<F>) -> (r: Vec<F>)
    requires
        a@.len() == b@.len(),
        all_canonical(a@),
        all_canonical(b@),
    ensures
        is_difference(r@, a@, b@),
        all_canonical(r@),
{
    let n = a.len();
    let mut r: Vec<F> = Vec::new();
    let mut i: usize = 0;
    while i < n
        invariant
            i <= n,
            n == a@.len(),
            n == b@.len(),
            all_canonical(a@),
            all_canonical(b@),
            r@.len() == i,
            forall|j: int|
                0 <= j < i ==> fval(#[trigger] r@[j]) == (fval(a@[j]) - fval(b@[j])) % (
                F::spec_modulus() as int),
        decreases n - i,
    {
        r.push(a[i].sub(b[i]));
        i = i + 1;
    }
    proof {
        F::lemma_modulus();
        assert forall|j: int| 0 <= j < r@.len() implies canonical(#[trigger] r@[j]) by {
            vstd::arithmetic::div_mod::lemma_mod_bound(
                fval(a@[j]) - fval(b@[j]),
                F::spec_modulus() as int,
            );
        }
    }
    r
}

/// The negative of a vector of canonical elements.
pub fn vec_neg<F: FieldCore>(a: &Vec<F>) -> (r: Vec<F>)
    requires
        all_canonical(a@),
    ensures
        is_negative(r@, a@),
        all_canonical(r@),
{
    let n = a.len();
    let mut r: Vec<F> = Vec::new();
    let mut i: usize = 0;
    while i < n
        invariant
            i <= n,
            n == a@.len(),
            all_canonical(a@),
            r@.len() == i,
            forall|j: int|
                0 <= j < i ==> fval(#[trigger] r@[j]) == (-(fval(a@[j]) as int)) % (
                F::spec_modulus() as int),
        decreases n - i,
    {
        r.push(a[i].neg());
        i = i + 1;
    }
    proof {
        F::lemma_modulus();
        assert forall|j: int| 0 <= j < r@.len() implies canonical(#[trigger] r@[j]) by {
            vstd::arithmetic::div_mod::lemma_mod_bound(
                -(fval(a@[j]) as int),
                F::spec_modulus() as int,
            );
        }
    }
    r
}

/// The product of two vectors, entry by entry.
pub fn vec_mul<F: FieldCore>(a: &Vec<F>, b: &Vec<F>) -> (r: Vec<F>)
    requires
        a@.len() == b@.len(),
    ensures
        is_product(r@, a@, b@),
        all_canonical(r@),
{
    let n = a.len();
    let mut r: Vec<F> = Vec::new();
    let mut i: usize = 0;
    while i < n
        invariant
            i <= n,
            n == a@.len(),
            n == b@.len(),
            r@.len() == i,
            forall|j: int|
                0 <= j < i ==> fval(#[trigger] r@[j]) == (fval(a@[j]) * fval(b@[j]))
                    % F::spec_modulus(),
        decreases n - i,
    {
        r.push(a[i].mul(b[i]));
        i = i + 1;
    }
    proof {
        F::lemma_modulus();
        assert forall|j: int| 0 <= j < r@.len() implies canonical(#[trigger] r@[j]) by {
            vstd::arithmetic::div_mod::lemma_mod_bound(
                (fval(a@[j]) * fval(b@[j])) as int,
                F::spec_modulus() as int,
            );
        }
    }
    r
}

/// A vector with every entry multiplied by `c`.
pub fn vec_mul_scalar<F: FieldCore>(a: &Vec<F>, c: F) -> (r: Vec<F>)
    ensures
        is_scaled(r@, a@, c),
        all_canonical(r@),
{
    let n = a.len();
    let mut r: Vec<F> = Vec::new();
    let mut i: usize = 0;
    while i < n
        invariant
            i <= n,
            n == a@.len(),
            r@.len() == i,
            forall|j: int|
                0 <= j < i ==> fval(#[trigger] r@[j]) == (fval(a@[j]) * fval(c))
                    % F::spec_modulus(),
        decreases n - i,
    {
        r.push(a[i].mul(c));
        i = i + 1;
    }
    proof {
        F::lemma_modulus();
        assert forall|j: int| 0 <= j < r@.len() implies canonical(#[trigger] r@[j]) by {
            vstd::arithmetic::div_mod::lemma_mod_bound(
                (fval(a@[j]) * fval(c)) as int,
                F::spec_modulus() as int,
            );
        }
    }
    r
}

/// `a + b·c`, entry by entry.
pub fn vec_add_mul<F: FieldCore>(a: &Vec<F>, b: &Vec<F>, c: &Vec<F>) -> (r: Vec<F>)
    requires
        a@.len() == b@.len(),
        a@.len() == c@.len(),
    ensures
        is_sum_of_product(r@, a@, b@, c@),
        all_canonical(r@),
{
    let n = a.len();
    let mut r: Vec<F> = Vec::new();
    let mut i: usize = 0;
    while i < n
        invariant
            i <= n,
            n == a@.len(),
            n == b@.len(),
            n == c@.len(),
            r@.len() == i,
            forall|j: int|
                0 <= j < i ==> fval(#[trigger] r@[j]) == (fval(a@[j]) + fval(b@[j]) * fval(c@[j]))
                    % F::spec_modulus(),
        decreases n - i,
    {
        r.push(a[i].add_mul(b[i], c[i]));
        i = i + 1;
    }
    proof {
        F::lemma_modulus();
        assert forall|j: int| 0 <= j < r@.len() implies canonical(#[trigger] r@[j]) by {
            vstd::arithmetic::div_mod::lemma_mod_bound(
                (fval(a@[j]) + fval(b@[j]) * fval(c@[j])) as int,
                F::spec_modulus() as int,
            );
        }
    }
    r
}

/// `a + b·c`, entry by entry, up to one extra modulus in every entry.
pub fn vec_add_mul_fast<F: FieldCore>(a: &Vec<F>, b: &Vec<F>, c: &Vec<F>) -> (r: Vec<F>)
    requires
        a@.len() == b@.len(),
        a@.len() == c@.len(),
    ensures
        r@.len() == a@.len(),
        forall|i: int|
            0 <= i < r@.len() ==> fval(#[trigger] r@[i]) < 2 * F::spec_modulus() && fval(r@[i])
                % F::spec_modulus() == (fval(a@[i]) + fval(b@[i]) * fval(c@[i]))
                % F::spec_modulus(),
{
    let n = a.len();
    let mut r: Vec<F> = Vec::new();
    let mut i: usize = 0;
    while i < n
        invariant
            i <= n,
            n == a@.len(),
            n == b@.len(),
            n == c@.len(),
            r@.len() == i,
            forall|j: int|
                0 <= j < i ==> fval(#[trigger] r@[j]) < 2 * F::spec_modulus() && fval(r@[j])
                    % F::spec_modulus() == (fval(a@[j]) + fval(b@[j]) * fval(c@[j]))
                    % F::spec_modulus(),
        decreases n - i,
    {
        r.push(a[i].add_mul_fast(b[i], c[i]));
        i = i + 1;
    }
    r
}

} // verus!
