//! The forward transform as evaluation: the entry `j` of the transform of
//! a polynomial is the value of the polynomial at `ω^(2·rev(j) + 1)`, an
//! odd power of the root.

use crate::lemmas::{
    lemma_congruence_mul,
    lemma_congruence_pow,
    lemma_mod_unique,
    lemma_pow_of_square,
    lemma_pow_product_mod,
    lemma_pow_square_of_minus_one,
    lemma_pow_succ,
};
use crate::transformation::laws::lemma_partner;
use crate::transformation::spec::{ct_entry, forward, lemma_forward_len, ntt, reduced};
use crate::utils::reverse::{brv, lemma_brv_double, lemma_brv_top, lemma_brv_widen};
use vstd::arithmetic::div_mod::{lemma_add_mod_noop, lemma_mod_twice, lemma_small_mod};
use vstd::arithmetic::power::{lemma_pow0, lemma_pow_adds, pow};
use vstd::arithmetic::power2::{
    lemma2_to64, lemma_pow2_adds, lemma_pow2_pos, lemma_pow2_strictly_increases,
    lemma_pow2_unfold, pow2,
};
use vstd::prelude::*;

verus! {

/// The sum of `a[start + q·stride] · w^q` over `q < count`.
pub open spec fn strided_sum(a: Seq<int>, start: int, stride: int, count: nat, w: int) -> int
    decreases count,
{
    if count == 0 {
        0
    } else {
        strided_sum(a, start, stride, (count - 1) as nat, w) + a[start + (count - 1) * stride]
            * pow(w, (count - 1) as nat)
    }
}

/// The value of the polynomial with the coefficients `a` at `w`: the sum of `a[q] · w^q`.
pub open spec fn evaluation(a: Seq<int>, w: int) -> int {
    strided_sum(a, 0, 1, a.len(), w)
}

/// A sum over `2m` terms is the sum over the even terms and the sum over
/// the odd terms.
pub proof fn lemma_strided_split(a: Seq<int>, t: int, g: int, m: nat, w: int)
    ensures
        strided_sum(a, t, g, 2 * m, w) == strided_sum(a, t, 2 * g, m, w * w) + w * strided_sum(
            a,
            t + g,
            2 * g,
            m,
            w * w,
        ),
    decreases m,
{
    if m == 0 {
        assert(w * 0 == 0);
    } else {
        let k = (m - 1) as nat;
        lemma_strided_split(a, t, g, k, w);
        let even = a[t + (2 * k) * g];
        let odd = a[t + (2 * k + 1) * g];
        // the two last terms of the left side
        assert(strided_sum(a, t, g, 2 * m, w) == strided_sum(a, t, g, (2 * k + 1) as nat, w) + odd
            * pow(w, (2 * k + 1) as nat)) by {
            assert((2 * m - 1) as nat == (2 * k + 1) as nat);
        }
        assert(strided_sum(a, t, g, (2 * k + 1) as nat, w) == strided_sum(a, t, g, 2 * k, w) + even
            * pow(w, 2 * k)) by {
            assert((2 * k + 1 - 1) as nat == 2 * k);
        }
        // the last terms of the right side
        assert(k * (2 * g) == (2 * k) * g) by (nonlinear_arith);
        assert(t + g + k * (2 * g) == t + (2 * k + 1) * g) by (nonlinear_arith);
        lemma_pow_of_square(w, k);
        lemma_pow_succ(w, 2 * k);
        let pk = pow(w, 2 * k);
        let s0 = strided_sum(a, t, 2 * g, k, w * w);
        let s1 = strided_sum(a, t + g, 2 * g, k, w * w);
        assert(strided_sum(a, t, 2 * g, m, w * w) == s0 + even * pk);
        assert(strided_sum(a, t + g, 2 * g, m, w * w) == s1 + odd * pk);
        assert(w * (s1 + odd * pk) == w * s1 + odd * (w * pk)) by (nonlinear_arith);
    }
}

/// A sum depends on `w` only modulo `p`.
pub proof fn lemma_strided_congruent(
    a: Seq<int>,
    t: int,
    g: int,
    count: nat,
    w: int,
    w2: int,
    p: int,
)
    requires
        p > 0,
        w % p == w2 % p,
    ensures
        strided_sum(a, t, g, count, w) % p == strided_sum(a, t, g, count, w2) % p,
    decreases count,
{
    if count > 0 {
        let k = (count - 1) as nat;
        lemma_strided_congruent(a, t, g, k, w, w2, p);
        lemma_congruence_pow(w, w2, k, p);
        let x = a[t + k * g];
        lemma_congruence_mul(x, x, pow(w, k), pow(w2, k), p);
        lemma_add_mod_noop(strided_sum(a, t, g, k, w), x * pow(w, k), p);
        lemma_add_mod_noop(strided_sum(a, t, g, k, w2), x * pow(w2, k), p);
    }
}

/// The exponent of the point at which the group `k` of the stage `i`
/// holds the polynomial: the polynomial is reduced modulo
/// `X^(N/2^i) - ω^e` there. Before the last stage it is twice the
/// exponent of the root of the group; after it, it is `2·rev(k) + 1`.
pub open spec fn point_exponent(log_n: nat, i: nat, k: nat) -> nat {
    if i < log_n {
        2 * brv(pow2(i) + k, log_n)
    } else {
        2 * brv(k, log_n) + 1
    }
}

/// The exponents of the two groups that come of the group `k` of the
/// stage `i`: the exponent of the root of the group, and that plus `N`.
pub proof fn lemma_child_exponents(log_n: nat, i: nat, k: nat)
    requires
        i < log_n,
        k < pow2(i),
    ensures
        point_exponent(log_n, i + 1, 2 * k) == brv(pow2(i) + k, log_n),
        point_exponent(log_n, i + 1, 2 * k + 1) == pow2(log_n) + brv(pow2(i) + k, log_n),
{
    let x = pow2(i) + k;
    lemma_pow2_unfold(i + 1);
    lemma_pow2_unfold(log_n);
    lemma_pow2_pos(i);
    if i + 1 < log_n {
        // x < 2^(log_n - 1)
        if i + 1 < log_n - 1 {
            lemma_pow2_strictly_increases(i + 1, (log_n - 1) as nat);
        }
        assert(x < pow2(i + 1));
        assert(x < pow2((log_n - 1) as nat));
        lemma_brv_double(x, log_n);
        lemma_brv_widen(x, log_n);
        assert(pow2(i + 1) + 2 * k == 2 * x);
        assert(pow2(i + 1) + (2 * k + 1) == 2 * x + 1);
    } else {
        assert(i + 1 == log_n);
        assert(k < pow2((log_n - 1) as nat));
        lemma_brv_double(k, log_n);
        lemma_brv_widen(k, log_n);
        lemma_brv_top(k, log_n);
    }
}

/// The table holds the powers of `omega` in bit-reversed order.
pub open spec fn roots_of(omega: int, log_n: nat, roots: Seq<int>, p: int) -> bool {
    &&& roots.len() >= pow2(log_n)
    &&& forall|x: int|
        0 <= x < pow2(log_n) ==> #[trigger] roots[x] == pow(omega, brv(x as nat, log_n)) % p
}

/// After `i` layers the entry `j` of the sequence is a partial
/// evaluation: with `len = N / 2^i` and `j = k·len + t`, it is the sum of
/// `a[t + q·len] · s^q` over `q < 2^i`, where `s` is the point of the
/// group `k`.
pub proof fn lemma_forward_closed_form(
    a: Seq<int>,
    log_n: nat,
    i: nat,
    omega: int,
    roots: Seq<int>,
    p: int,
    j: int,
)
    requires
        p > 1,
        a.len() == pow2(log_n),
        i <= log_n,
        roots_of(omega, log_n, roots, p),
        pow(omega, pow2(log_n)) % p == p - 1,
        0 <= j < a.len(),
    ensures
        forward(a, log_n, i, roots, p)[j] == strided_sum(
            a,
            j % (pow2((log_n - i) as nat) as int),
            pow2((log_n - i) as nat) as int,
            pow2(i),
            pow(
                omega,
                point_exponent(log_n, i, (j / (pow2((log_n - i) as nat) as int)) as nat),
            ),
        ) % p,
    decreases i,
{
    let n = pow2(log_n) as int;
    lemma_pow2_pos(log_n);
    if i == 0 {
        lemma2_to64();
        lemma_small_mod(j as nat, n as nat);
        vstd::arithmetic::div_mod::lemma_basic_div(j, n);
        let w = pow(omega, point_exponent(log_n, 0, 0));
        lemma_pow0(w);
        assert(strided_sum(a, j, n, 1, w) == strided_sum(a, j, n, 0, w) + a[j + 0 * n] * pow(w, 0));
        assert(0 * n == 0);
        assert(a[j] * 1 == a[j]);
    } else {
        let i0 = (i - 1) as nat;
        let m = pow2(i0) as int;
        let gap = pow2((log_n - i) as nat) as int;
        lemma_pow2_pos(i0);
        lemma_pow2_pos((log_n - i) as nat);
        lemma_pow2_unfold(i);
        lemma_pow2_unfold((log_n - i0) as nat);
        lemma_pow2_adds(i, (log_n - i) as nat);
        assert(n == (2 * m) * gap);
        assert(n == m * (2 * gap)) by (nonlinear_arith)
            requires
                n == (2 * m) * gap,
        ;
        lemma_mod_unique(n, 0, m, 2 * gap);
        let below = forward(a, log_n, i0, roots, p);
        lemma_forward_len(a, log_n, i0, roots, p);
        lemma_partner(j, gap, n);
        let k = j / (2 * gap);
        let t0 = j % (2 * gap);
        vstd::arithmetic::div_mod::lemma_fundamental_div_mod(j, 2 * gap);
        assert(j == t0 + (2 * k) * gap) by (nonlinear_arith)
            requires
                j == (2 * gap) * k + t0,
        ;
        assert(j == (t0 - gap) + (2 * k + 1) * gap) by (nonlinear_arith)
            requires
                j == (2 * gap) * k + t0,
        ;
        assert(0 <= k < m) by {
            assert(n / (2 * gap) == m);
        }
        let r = roots[m + k];
        let b = brv((m + k) as nat, log_n);
        assert(m + k < n) by (nonlinear_arith)
            requires
                n == m * (2 * gap),
                gap >= 1,
                0 <= k < m,
        ;
        assert(r == pow(omega, b) % p);
        lemma_child_exponents(log_n, i0, k as nat);
        lemma_pow_square_of_minus_one(omega, n as nat, p);
        assert((log_n - i0) as nat == (log_n - i + 1) as nat);
        assert(pow2((log_n - i0) as nat) == 2 * gap);
        // the point of the group k before this layer
        let e0 = point_exponent(log_n, i0, k as nat);
        assert(e0 == 2 * b);
        let w0 = pow(omega, e0);
        assert(forward(a, log_n, i, roots, p)[j] == ct_entry(below, m, gap, roots, p, j));
        if t0 < gap {
            lemma_forward_closed_form(a, log_n, i0, omega, roots, p, j);
            lemma_forward_closed_form(a, log_n, i0, omega, roots, p, j + gap);
            lemma_mod_unique(j, t0, 2 * k, gap);
            let e1 = point_exponent(log_n, i, (2 * k) as nat);
            let w1 = pow(omega, e1);
            assert(e1 == b);
            lemma_strided_split(a, t0, gap, m as nat, w1);
            // w1² = ω^(2b) = w0
            lemma_pow_adds(omega, e1, e1);
            let s0 = strided_sum(a, t0, 2 * gap, m as nat, w1 * w1);
            let s1 = strided_sum(a, t0 + gap, 2 * gap, m as nat, w1 * w1);
            assert(w1 * w1 == w0);
            assert(below[j] == s0 % p);
            assert(below[j + gap] == s1 % p);
            // s0 + w1·s1 ≡ below[j] + r·below[j + gap]
            lemma_mod_twice(w1, p);
            lemma_mod_twice(s1, p);
            lemma_congruence_mul(w1, r, s1, below[j + gap], p);
            lemma_mod_twice(s0, p);
            lemma_add_mod_noop(s0, w1 * s1, p);
            lemma_add_mod_noop(below[j], r * below[j + gap], p);
        } else {
            let t = t0 - gap;
            lemma_forward_closed_form(a, log_n, i0, omega, roots, p, j);
            lemma_forward_closed_form(a, log_n, i0, omega, roots, p, j - gap);
            lemma_mod_unique(j, t, 2 * k + 1, gap);
            let e1 = point_exponent(log_n, i, (2 * k + 1) as nat);
            let w1 = pow(omega, e1);
            assert(e1 == n + b);
            lemma_strided_split(a, t, gap, m as nat, w1);
            let s0 = strided_sum(a, t, 2 * gap, m as nat, w1 * w1);
            let s1 = strided_sum(a, t + gap, 2 * gap, m as nat, w1 * w1);
            // w1² = ω^(2N + 2b) ≡ ω^(2b) = w0
            lemma_pow_adds(omega, e1, e1);
            lemma_pow_product_mod(omega, (2 * n) as nat, 2 * b, p);
            lemma_small_mod(1, p as nat);
            lemma_mod_twice(w0, p);
            assert((1 * (w0 % p)) % p == w0 % p);
            assert((w1 * w1) % p == w0 % p);
            lemma_strided_congruent(a, t, 2 * gap, m as nat, w1 * w1, w0, p);
            lemma_strided_congruent(a, t + gap, 2 * gap, m as nat, w1 * w1, w0, p);
            assert(below[j - gap] == s0 % p);
            assert(below[j] == s1 % p);
            // w1 = ω^N·ω^b ≡ (p - 1)·r ≡ -r
            lemma_pow_product_mod(omega, n as nat, b, p);
            lemma_mod_twice(pow(omega, b), p);
            assert(w1 % p == ((p - 1) * r) % p);
            lemma_mod_twice(s1, p);
            lemma_congruence_mul(w1, (p - 1) * r, s1, below[j], p);
            assert(((p - 1) * r) * below[j] == -(r * below[j]) + (r * below[j]) * p)
                by (nonlinear_arith);
            vstd::arithmetic::div_mod::lemma_mod_multiples_vanish(
                r * below[j],
                -(r * below[j]),
                p,
            );
            assert(p * (r * below[j]) + (-(r * below[j])) == ((p - 1) * r) * below[j])
                by (nonlinear_arith);
            lemma_mod_twice(s0, p);
            lemma_add_mod_noop(s0, w1 * s1, p);
            lemma_add_mod_noop(below[j - gap], -(r * below[j]), p);
        }
    }
}

/// **The transform is evaluation.** The entry `j` of the forward
/// transform of `a` is the value of the polynomial `a` at the odd power
/// `ω^(2·rev(j) + 1)` of the root, modulo `p`.
pub proof fn lemma_ntt_is_evaluation(
    a: Seq<int>,
    log_n: nat,
    omega: int,
    roots: Seq<int>,
    p: int,
    j: int,
)
    requires
        p > 1,
        a.len() == pow2(log_n),
        roots_of(omega, log_n, roots, p),
        pow(omega, pow2(log_n)) % p == p - 1,
        0 <= j < a.len(),
    ensures
        ntt(a, log_n, roots, p)[j] == evaluation(
            a,
            pow(omega, 2 * brv(j as nat, log_n) + 1),
        ) % p,
{
    lemma_forward_closed_form(a, log_n, log_n, omega, roots, p, j);
    lemma2_to64();
    assert((log_n - log_n) as nat == 0);
    assert(j % 1 == 0 && j / 1 == j);
}

} // verus!
