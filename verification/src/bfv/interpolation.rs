//! Interpolation at zero in the plaintext field.
//!
//! For distinct non-zero points `x_0, …, x_{k-1}` the Lagrange
//! coefficient of `x_j` is the product of `-x_l / (x_j - x_l)` over the
//! other points. The coefficients give the value at zero of every
//! polynomial of degree below `k` from its values at the points:
//! `f(0) = Σ λ_j · f(x_j)`.

use crate::bfv::correctness::lemma_congruence_add;
use crate::bfv::plaintext::lemma_plain_coprime;
use crate::lemmas::{lemma_congruence_mul, lemma_mod_unique};
use crate::polynomial::native_polynomial::poly_eval;
use crate::utils::gcd::{lemma_bezout_exists, lemma_gcd_unique};
use vstd::arithmetic::div_mod::{
    lemma_mod_bound, lemma_mod_twice, lemma_mul_mod_noop_left, lemma_small_mod,
    lemma_sub_mod_noop,
};
use vstd::prelude::*;

verus! {

/// `c` is an element of the plaintext field, and `c · x = 1` there.
pub open spec fn is_inverse(c: int, x: int) -> bool {
    0 <= c < 61 && (c * x) % 61 == 1
}

/// The inverse of `x` in the plaintext field.
pub open spec fn inverse(x: int) -> int {
    choose|c: int| is_inverse(c, x)
}

/// Every number that is not a multiple of 61 has an inverse.
pub proof fn lemma_inverse(x: int)
    requires
        x % 61 != 0,
    ensures
        0 <= inverse(x) < 61,
        (inverse(x) * x) % 61 == 1,
{
    let a = x % 61;
    lemma_mod_bound(x, 61);
    lemma_plain_coprime(a);
    let (u, v, g) = lemma_bezout_exists(a as nat, 61);
    lemma_gcd_unique(g, 1, a, 61);
    let c = u % 61;
    lemma_mod_bound(u, 61);
    lemma_mod_twice(u, 61);
    lemma_mod_twice(x, 61);
    lemma_congruence_mul(c, u, x, a, 61);
    lemma_mod_unique(u * a, 1, -v, 61);
    assert(is_inverse(c, x));
}

/// The first `k` points are non-zero elements of the plaintext field, no two the same.
pub open spec fn distinct_points(s: Seq<int>, k: nat) -> bool {
    &&& k <= s.len()
    &&& forall|i: int| 0 <= i < k ==> 0 < #[trigger] s[i] < 61
    &&& forall|i: int, j: int| 0 <= i < j < k ==> #[trigger] s[i] != #[trigger] s[j]
}

/// The Lagrange coefficient of `point` among the first `k` points: the
/// product of `-x / (point - x)` over the points `x` other than `point`.
pub open spec fn weight(s: Seq<int>, point: int, k: nat) -> int
    decreases k,
{
    if k == 0 {
        1
    } else if s[k - 1] == point {
        weight(s, point, (k - 1) as nat)
    } else {
        (weight(s, point, (k - 1) as nat) * ((-s[k - 1]) * inverse(point - s[k - 1]))) % 61
    }
}

/// The Lagrange coefficients of the first `k` points.
pub open spec fn weights(s: Seq<int>, k: nat) -> Seq<int> {
    Seq::new(k, |j: int| weight(s, s[j], k))
}

/// A Lagrange coefficient is an element of the plaintext field.
pub proof fn lemma_weight_range(s: Seq<int>, point: int, k: nat)
    ensures
        0 <= weight(s, point, k) < 61,
    decreases k,
{
    if k > 0 {
        lemma_weight_range(s, point, (k - 1) as nat);
        if s[k - 1] != point {
            lemma_mod_bound(
                weight(s, point, (k - 1) as nat) * ((-s[k - 1]) * inverse(point - s[k - 1])),
                61,
            );
        }
    }
}

/// The difference of two different elements of the plaintext field is
/// not a multiple of 61.
pub proof fn lemma_difference(x: int, y: int)
    requires
        0 < x < 61,
        0 < y < 61,
        x != y,
    ensures
        (x - y) % 61 != 0,
{
    if x > y {
        lemma_small_mod((x - y) as nat, 61);
    } else {
        lemma_mod_unique(x - y, x - y + 61, -1, 61);
    }
}

/// `w · (f · inv) · d` is congruent to `w · f` where `inv` is the inverse of `d`.
pub proof fn lemma_cancel(w: int, f: int, d: int)
    requires
        d % 61 != 0,
    ensures
        ((w * (f * inverse(d))) * d) % 61 == (w * f) % 61,
        (((w * (f * inverse(d))) % 61) * d) % 61 == (w * f) % 61,
{
    let inv = inverse(d);
    lemma_inverse(d);
    assert((w * (f * inv)) * d == (w * f) * (inv * d)) by (nonlinear_arith);
    lemma_small_mod(1, 61);
    lemma_congruence_mul(w * f, w * f, inv * d, 1, 61);
    assert((w * f) * 1 == w * f);
    lemma_mul_mod_noop_left(w * (f * inv), d, 61);
}

/// The coefficient of a point among `k` points, times the distance from
/// the last point, is `-x_{k-1}` times its coefficient among the first
/// `k - 1` points; for the last point itself both are zero.
pub proof fn lemma_without_last(s: Seq<int>, k: nat, j: int)
    requires
        distinct_points(s, k),
        0 <= j < k,
    ensures
        (weight(s, s[j], k) * (s[j] - s[k - 1])) % 61 == ((-s[k - 1]) * (if j < k - 1 {
            weight(s, s[j], (k - 1) as nat)
        } else {
            0
        })) % 61,
{
    if j < k - 1 {
        let before = weight(s, s[j], (k - 1) as nat);
        assert(s[j] != s[k - 1]);
        lemma_difference(s[j], s[k - 1]);
        lemma_cancel(before, -s[k - 1], s[j] - s[k - 1]);
        assert(before * (-s[k - 1]) == (-s[k - 1]) * before) by (nonlinear_arith);
    } else {
        assert(weight(s, s[j], k) * 0 == 0);
        assert((-s[k - 1]) * 0 == 0);
    }
}

/// The coefficient of a point among `k` points, from its coefficient
/// among the points after the first.
pub proof fn lemma_weight_first(s: Seq<int>, point: int, k: nat)
    requires
        1 <= k <= s.len(),
    ensures
        s[0] == point ==> weight(s, point, k) == weight(s.skip(1), point, (k - 1) as nat),
        s[0] != point ==> weight(s, point, k) % 61 == (weight(s.skip(1), point, (k - 1) as nat) * ((
        -s[0]) * inverse(point - s[0]))) % 61,
    decreases k,
{
    let rest = s.skip(1);
    let first = (-s[0]) * inverse(point - s[0]);
    if k == 1 {
        assert(weight(s, point, 0) == 1);
        assert(weight(rest, point, 0) == 1);
        if s[0] != point {
            lemma_mod_twice(1 * first, 61);
        }
    } else {
        lemma_weight_first(s, point, (k - 1) as nat);
        assert(rest[k - 2] == s[k - 1]);
        let last = (-s[k - 1]) * inverse(point - s[k - 1]);
        let before = weight(s, point, (k - 1) as nat);
        let rest_before = weight(rest, point, (k - 2) as nat);
        if s[k - 1] == point {
        } else if s[0] == point {
        } else {
            // before ≡ rest_before · first, and the coefficient is before · last
            lemma_congruence_mul(before, rest_before * first, last, last, 61);
            lemma_mod_twice(before * last, 61);
            assert((rest_before * first) * last == (rest_before * last) * first) by (nonlinear_arith);
            lemma_mod_twice(rest_before * last, 61);
            lemma_congruence_mul((rest_before * last) % 61, rest_before * last, first, first, 61);
        }
    }
}

/// The coefficient of a point among `k` points, times the distance from
/// the first point, is `-x_0` times its coefficient among the points
/// after the first; for the first point itself both are zero.
pub proof fn lemma_without_first(s: Seq<int>, k: nat, j: int)
    requires
        distinct_points(s, k),
        0 <= j < k,
    ensures
        (weight(s, s[j], k) * (s[j] - s[0])) % 61 == ((-s[0]) * (if j >= 1 {
            weight(s.skip(1), s[j], (k - 1) as nat)
        } else {
            0
        })) % 61,
{
    if j >= 1 {
        let after = weight(s.skip(1), s[j], (k - 1) as nat);
        assert(s[0] != s[j]);
        lemma_difference(s[j], s[0]);
        lemma_weight_first(s, s[j], k);
        let d = s[j] - s[0];
        lemma_congruence_mul(weight(s, s[j], k), after * ((-s[0]) * inverse(d)), d, d, 61);
        lemma_cancel(after, -s[0], d);
        assert(after * (-s[0]) == (-s[0]) * after) by (nonlinear_arith);
    } else {
        assert(weight(s, s[j], k) * 0 == 0);
        assert((-s[0]) * 0 == 0);
    }
}

/// The sum of the first `n` entries.
pub open spec fn total(t: Seq<int>, n: nat) -> int
    decreases n,
{
    if n == 0 {
        0
    } else {
        total(t, (n - 1) as nat) + t[n - 1]
    }
}

/// Congruent entries give congruent sums.
pub proof fn lemma_total_congruent(t: Seq<int>, t2: Seq<int>, n: nat)
    requires
        forall|i: int| 0 <= i < n ==> #[trigger] t[i] % 61 == t2[i] % 61,
    ensures
        total(t, n) % 61 == total(t2, n) % 61,
    decreases n,
{
    if n > 0 {
        lemma_total_congruent(t, t2, (n - 1) as nat);
        assert(t[n - 1] % 61 == t2[n - 1] % 61);
        lemma_congruence_add(
            total(t, (n - 1) as nat),
            total(t2, (n - 1) as nat),
            t[n - 1],
            t2[n - 1],
            61,
        );
    }
}

/// The sum of a combination of two sequences is the combination of their sums.
pub proof fn lemma_total_combination(t: Seq<int>, a: Seq<int>, b: Seq<int>, c: int, d: int, n: nat)
    requires
        forall|i: int| 0 <= i < n ==> #[trigger] t[i] == c * a[i] + d * b[i],
    ensures
        total(t, n) == c * total(a, n) + d * total(b, n),
    decreases n,
{
    if n == 0 {
        assert(c * 0 + d * 0 == 0);
    } else {
        lemma_total_combination(t, a, b, c, d, (n - 1) as nat);
        assert(t[n - 1] == c * a[n - 1] + d * b[n - 1]);
        assert(c * (total(a, (n - 1) as nat) + a[n - 1]) + d * (total(b, (n - 1) as nat) + b[n
            - 1]) == (c * total(a, (n - 1) as nat) + d * total(b, (n - 1) as nat)) + (c * a[n - 1]
            + d * b[n - 1])) by (nonlinear_arith);
    }
}

/// The sum is the first entry and the sum of the entries after it.
pub proof fn lemma_total_first(t: Seq<int>, n: nat)
    requires
        1 <= n <= t.len(),
    ensures
        total(t, n) == t[0] + total(t.skip(1), (n - 1) as nat),
    decreases n,
{
    if n == 1 {
        assert(total(t, 0) == 0);
        assert(total(t.skip(1), 0) == 0);
    } else {
        lemma_total_first(t, (n - 1) as nat);
        assert(t.skip(1)[n - 2] == t[n - 1]);
    }
}

/// The coefficients of distinct points have the sum one.
pub proof fn lemma_weights_sum(s: Seq<int>, k: nat)
    requires
        distinct_points(s, k),
        k >= 1,
    ensures
        total(weights(s, k), k) % 61 == 1,
    decreases k,
{
    let w = weights(s, k);
    if k == 1 {
        assert(weight(s, s[0], 1) == weight(s, s[0], 0));
        assert(total(w, 1) == total(w, 0) + w[0]);
        lemma_small_mod(1, 61);
    } else {
        let first = s[0];
        let last = s[k - 1];
        let rest = s.skip(1);
        let a = Seq::new(k, |j: int| if j < k - 1 { weight(s, s[j], (k - 1) as nat) } else { 0 });
        let b = Seq::new(k, |j: int| if j >= 1 { weight(rest, s[j], (k - 1) as nat) } else { 0 });
        // the coefficients among the first k - 1 points, and among the last k - 1
        lemma_weights_sum(s, (k - 1) as nat);
        assert(distinct_points(rest, (k - 1) as nat)) by {
            assert forall|i: int| 0 <= i < k - 1 implies 0 < #[trigger] rest[i] < 61 by {
                assert(rest[i] == s[i + 1]);
            }
            assert forall|i: int, j: int| 0 <= i < j < k - 1 implies #[trigger] rest[i]
                != #[trigger] rest[j] by {
                assert(rest[i] == s[i + 1]);
                assert(rest[j] == s[j + 1]);
            }
        }
        lemma_weights_sum(rest, (k - 1) as nat);
        lemma_total_congruent(a, weights(s, (k - 1) as nat), (k - 1) as nat);
        assert(total(a, k) == total(a, (k - 1) as nat) + a[k - 1]);
        lemma_total_first(b, k);
        assert forall|i: int| 0 <= i < k - 1 implies #[trigger] b.skip(1)[i] % 61 == weights(
            rest,
            (k - 1) as nat,
        )[i] % 61 by {
            assert(b.skip(1)[i] == b[i + 1]);
            assert(rest[i] == s[i + 1]);
        }
        lemma_total_congruent(b.skip(1), weights(rest, (k - 1) as nat), (k - 1) as nat);
        // entry by entry, (x_last - x_first) · w = x_last · a - x_first · b
        let t = Seq::new(k, |j: int| (last - first) * w[j]);
        let t2 = Seq::new(k, |j: int| last * a[j] + (-first) * b[j]);
        assert forall|j: int| 0 <= j < k implies #[trigger] t[j] % 61 == t2[j] % 61 by {
            lemma_without_last(s, k, j);
            lemma_without_first(s, k, j);
            let x = w[j] * (s[j] - first);
            let y = w[j] * (s[j] - last);
            assert(t[j] == x - y) by (nonlinear_arith)
                requires
                    t[j] == (last - first) * w[j],
                    x == w[j] * (s[j] - first),
                    y == w[j] * (s[j] - last),
            ;
            assert(t2[j] == (-first) * b[j] - (-last) * a[j]) by (nonlinear_arith)
                requires
                    t2[j] == last * a[j] + (-first) * b[j],
            ;
            lemma_sub_mod_noop(x, y, 61);
            lemma_sub_mod_noop((-first) * b[j], (-last) * a[j], 61);
        }
        lemma_total_congruent(t, t2, k);
        lemma_total_combination(t, w, w, last - first, 0, k);
        lemma_total_combination(t2, a, b, last, -first, k);
        let sum = total(w, k);
        lemma_small_mod(1, 61);
        lemma_congruence_mul(last, last, total(a, k), 1, 61);
        lemma_congruence_mul(-first, -first, total(b, k), 1, 61);
        lemma_congruence_add(last * total(a, k), last * 1, (-first) * total(b, k), (-first) * 1, 61);
        let d = last - first;
        assert(0 * sum == 0);
        assert((d * sum) % 61 == d % 61);
        // the difference of the two points can be cancelled
        assert(last != first);
        lemma_difference(last, first);
        lemma_inverse(d);
        let inv = inverse(d);
        lemma_congruence_mul(inv, inv, d * sum, d, 61);
        assert(inv * (d * sum) == (inv * d) * sum) by (nonlinear_arith);
        lemma_congruence_mul(inv * d, 1, sum, sum, 61);
        assert(1 * sum == sum);
    }
}

/// The quotient of the polynomial `f` by `X - c`.
pub open spec fn quotient(f: Seq<int>, c: int) -> Seq<int>
    decreases f.len(),
{
    if f.len() <= 1 {
        Seq::empty()
    } else {
        Seq::empty().push(poly_eval(f.skip(1), c)) + quotient(f.skip(1), c)
    }
}

/// A polynomial is its value at `c`, and `X - c` times the quotient:
/// `f(x) = f(c) + (x - c) · g(x)`. The quotient has one coefficient less.
pub proof fn lemma_quotient(f: Seq<int>, c: int, x: int)
    ensures
        quotient(f, c).len() == if f.len() == 0 {
            0
        } else {
            f.len() - 1
        },
        poly_eval(f, x) == poly_eval(f, c) + (x - c) * poly_eval(quotient(f, c), x),
    decreases f.len(),
{
    let g = quotient(f, c);
    if f.len() == 0 {
        assert((x - c) * 0 == 0);
    } else if f.len() == 1 {
        assert(f.skip(1).len() == 0);
        assert(poly_eval(f.skip(1), x) == 0);
        assert(poly_eval(f.skip(1), c) == 0);
        assert(x * 0 == 0 && c * 0 == 0 && (x - c) * 0 == 0);
    } else {
        let f1 = f.skip(1);
        let g1 = quotient(f1, c);
        lemma_quotient(f1, c, x);
        assert(g.skip(1) =~= g1);
        assert(g[0] == poly_eval(f1, c));
        let top = poly_eval(f1, x);
        let top_c = poly_eval(f1, c);
        let below = poly_eval(g1, x);
        assert(poly_eval(g, x) == top_c + x * below);
        assert(f[0] + x * top == (f[0] + c * top_c) + (x - c) * (top_c + x * below))
            by (nonlinear_arith)
            requires
                top == top_c + (x - c) * below,
        ;
    }
}

/// The values of the polynomial `f` at the first `k` points.
pub open spec fn values_at(f: Seq<int>, s: Seq<int>, k: nat) -> Seq<int> {
    Seq::new(k, |j: int| poly_eval(f, s[j]))
}

/// The values `y` at the first `k` points, each times the coefficient of its point.
pub open spec fn lagrange_terms(s: Seq<int>, y: Seq<int>, k: nat) -> Seq<int> {
    Seq::new(k, |j: int| weight(s, s[j], k) * y[j])
}

/// **Interpolation at zero.** For `k` distinct non-zero points of the
/// plaintext field and a polynomial `f` with at most `k` coefficients,
/// the sum of the values of `f` at the points, each times the Lagrange
/// coefficient of its point, is `f(0)` in the plaintext field.
pub proof fn lemma_interpolation(s: Seq<int>, f: Seq<int>, k: nat)
    requires
        distinct_points(s, k),
        f.len() <= k,
    ensures
        total(lagrange_terms(s, values_at(f, s, k), k), k) % 61 == poly_eval(f, 0) % 61,
    decreases k,
{
    if k > 0 {
        let last = s[k - 1];
        let g = quotient(f, last);
        let at_last = poly_eval(f, last);
        let below = poly_eval(g, 0);
        lemma_quotient(f, last, 0);
        lemma_interpolation(s, g, (k - 1) as nat);
        lemma_weights_sum(s, k);
        let w = weights(s, k);
        let terms = lagrange_terms(s, values_at(f, s, k), k);
        let a = Seq::new(k, |j: int| if j < k - 1 { weight(s, s[j], (k - 1) as nat) } else { 0 });
        let u = Seq::new(k, |j: int| (w[j] * (s[j] - last)) * poly_eval(g, s[j]));
        let v = Seq::new(k, |j: int| a[j] * poly_eval(g, s[j]));
        let u2 = Seq::new(k, |j: int| (-last) * v[j]);
        assert forall|j: int| 0 <= j < k implies #[trigger] terms[j] == at_last * w[j] + 1 * u[j] by {
            lemma_quotient(f, last, s[j]);
            let y = poly_eval(g, s[j]);
            assert(w[j] * (at_last + (s[j] - last) * y) == at_last * w[j] + 1 * ((w[j] * (s[j]
                - last)) * y)) by (nonlinear_arith);
        }
        lemma_total_combination(terms, w, u, at_last, 1, k);
        assert forall|j: int| 0 <= j < k implies #[trigger] u[j] % 61 == u2[j] % 61 by {
            lemma_without_last(s, k, j);
            let y = poly_eval(g, s[j]);
            lemma_congruence_mul(w[j] * (s[j] - last), (-last) * a[j], y, y, 61);
            assert(((-last) * a[j]) * y == (-last) * (a[j] * y)) by (nonlinear_arith);
        }
        lemma_total_congruent(u, u2, k);
        lemma_total_combination(u2, v, v, -last, 0, k);
        assert(0 * total(v, k) == 0);
        assert(a[k - 1] * poly_eval(g, s[k - 1]) == 0);
        assert(total(v, k) == total(v, (k - 1) as nat) + v[k - 1]);
        lemma_total_congruent(
            v,
            lagrange_terms(s, values_at(g, s, (k - 1) as nat), (k - 1) as nat),
            (k - 1) as nat,
        );
        lemma_small_mod(1, 61);
        lemma_congruence_mul(at_last, at_last, total(w, k), 1, 61);
        lemma_congruence_mul(-last, -last, total(v, k), below, 61);
        lemma_congruence_add(at_last * total(w, k), at_last * 1, total(u, k), (-last) * below, 61);
        assert(at_last * 1 + (-last) * below == at_last + (0 - last) * below) by (nonlinear_arith);
    }
}

} // verus!
