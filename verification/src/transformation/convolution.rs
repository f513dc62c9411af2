//! The product modulo `X^N + 1` by the transform is the negacyclic
//! convolution: `INTT(NTT(a) ⊙ NTT(b)) = a ⋆ b`.

use crate::lemmas::{
    lemma_congruence_mul,
    lemma_congruence_pow,
    lemma_pow_mod_order,
    lemma_pow_square_of_minus_one,
    lemma_pow_succ,
};
use crate::transformation::evaluation::{
    evaluation, lemma_ntt_is_evaluation, roots_of, strided_sum,
};
use crate::transformation::laws::{lemma_odd_power_of_minus_one, lemma_round_trip, roots_paired};
use crate::transformation::ntt_table::monomial_entry;
use crate::transformation::spec::{hadamard, intt, lemma_forward_len, ntt, reduced};
use crate::utils::reverse::brv;
use vstd::arithmetic::div_mod::{
    lemma_add_mod_noop,
    lemma_mod_twice,
    lemma_mul_mod_noop_general,
    lemma_small_mod,
};
use vstd::arithmetic::power::{lemma_pow0, lemma_pow_multiplies, pow};
use vstd::arithmetic::power2::{lemma_pow2_pos, pow2};
use vstd::prelude::*;

verus! {

/// The coefficient `k` of `X^i · b` modulo `X^N + 1`: the coefficient
/// `k - i` of `b`, or the negative of the coefficient `k - i + N` where
/// the power has wrapped around.
pub open spec fn wrapped(b: Seq<int>, i: int, k: int) -> int {
    if k >= i {
        b[k - i]
    } else {
        -b[k - i + b.len()]
    }
}

/// The sum of `a[i] · (X^i · b)[k]` over `i < m`.
pub open spec fn conv_sum(a: Seq<int>, b: Seq<int>, k: int, m: nat) -> int
    decreases m,
{
    if m == 0 {
        0
    } else {
        conv_sum(a, b, k, (m - 1) as nat) + a[m - 1] * wrapped(b, m - 1, k)
    }
}

/// The negacyclic convolution of `a` and `b`, modulo `p`: the product of
/// the two polynomials modulo `X^N + 1`, computed coefficient by
/// coefficient. The coefficient `k` is the sum of `a[i]·b[k-i]` over
/// `i <= k` less the sum of `a[i]·b[k-i+N]` over `i > k`.
pub open spec fn negacyclic(a: Seq<int>, b: Seq<int>, p: int) -> Seq<int> {
    Seq::new(a.len(), |k: int| conv_sum(a, b, k, a.len()) % p)
}

/// The polynomial `c · X^d` of length `n`.
pub open spec fn monomial(c: int, d: int, n: nat) -> Seq<int> {
    Seq::new(n, |k: int| if k == d { c } else { 0 })
}

/// The sum of a sequence that is the sum of two others, entry by entry,
/// the second one times `c`.
pub proof fn lemma_sum_linear(z: Seq<int>, x: Seq<int>, y: Seq<int>, c: int, count: nat, w: int)
    requires
        forall|q: int| 0 <= q < count ==> #[trigger] z[q] == x[q] + c * y[q],
    ensures
        strided_sum(z, 0, 1, count, w) == strided_sum(x, 0, 1, count, w) + c * strided_sum(
            y,
            0,
            1,
            count,
            w,
        ),
    decreases count,
{
    if count == 0 {
        assert(c * 0 == 0);
    } else {
        let k = (count - 1) as nat;
        lemma_sum_linear(z, x, y, c, k, w);
        assert(0 + k * 1 == k);
        assert(z[k as int] == x[k as int] + c * y[k as int]);
        let pk = pow(w, k);
        let sy = strided_sum(y, 0, 1, k, w);
        assert((x[k as int] + c * y[k as int]) * pk == x[k as int] * pk + c * (y[k as int] * pk))
            by (nonlinear_arith);
        assert(c * (sy + y[k as int] * pk) == c * sy + c * (y[k as int] * pk))
            by (nonlinear_arith);
    }
}

/// The sum of a sequence depends on its entries only modulo `p`.
pub proof fn lemma_sum_congruent(z: Seq<int>, x: Seq<int>, count: nat, w: int, p: int)
    requires
        p > 0,
        forall|q: int| 0 <= q < count ==> #[trigger] z[q] % p == x[q] % p,
    ensures
        strided_sum(z, 0, 1, count, w) % p == strided_sum(x, 0, 1, count, w) % p,
    decreases count,
{
    if count > 0 {
        let k = (count - 1) as nat;
        lemma_sum_congruent(z, x, k, w, p);
        assert(0 + k * 1 == k);
        assert(z[k as int] % p == x[k as int] % p);
        lemma_congruence_mul(z[k as int], x[k as int], pow(w, k), pow(w, k), p);
        lemma_add_mod_noop(strided_sum(z, 0, 1, k, w), z[k as int] * pow(w, k), p);
        lemma_add_mod_noop(strided_sum(x, 0, 1, k, w), x[k as int] * pow(w, k), p);
    }
}

/// The sum of the sequence that is shifted up by one place: the first
/// entry, and `w` times the sum of the sequence before the shift.
pub proof fn lemma_sum_shifted(s: Seq<int>, c: Seq<int>, count: nat, w: int)
    requires
        count >= 1,
        forall|k: int| 1 <= k < count ==> #[trigger] s[k] == c[k - 1],
    ensures
        strided_sum(s, 0, 1, count, w) == s[0] + w * strided_sum(c, 0, 1, (count - 1) as nat, w),
    decreases count,
{
    if count == 1 {
        lemma_pow0(w);
        assert(strided_sum(s, 0, 1, 1, w) == strided_sum(s, 0, 1, 0, w) + s[0int + 0int * 1int] * pow(w, 0));
        assert(s[0] * 1 == s[0]);
        assert(w * 0 == 0);
    } else {
        let k = (count - 1) as nat;
        lemma_sum_shifted(s, c, k, w);
        assert(0 + k * 1 == k);
        assert(0 + (k - 1) * 1 == k - 1);
        assert(s[k as int] == c[k - 1]);
        lemma_pow_succ(w, (k - 1) as nat);
        let prev = strided_sum(c, 0, 1, (k - 1) as nat, w);
        let x = c[k - 1];
        let pk = pow(w, (k - 1) as nat);
        assert(strided_sum(c, 0, 1, k, w) == prev + x * pk);
        assert(w * (prev + x * pk) == w * prev + x * (w * pk)) by (nonlinear_arith);
        assert(((k - 1) as nat) + 1 == k);
    }
}

/// Multiplication by `X` modulo `X^N + 1`: where `psi^N = -1`, the value
/// of `X · c` at `psi` is `psi` times the value of `c`.
pub proof fn lemma_times_x(s: Seq<int>, c: Seq<int>, psi: int, p: int)
    requires
        p > 0,
        c.len() >= 1,
        s.len() == c.len(),
        pow(psi, c.len()) % p == (p - 1) % p,
        s[0] == -c[c.len() - 1],
        forall|k: int| 1 <= k < c.len() ==> #[trigger] s[k] == c[k - 1],
    ensures
        evaluation(s, psi) % p == (psi * evaluation(c, psi)) % p,
{
    let n = c.len();
    let k = (n - 1) as nat;
    lemma_sum_shifted(s, c, n, psi);
    let rest = strided_sum(c, 0, 1, k, psi);
    let last = c[n - 1];
    assert(0 + k * 1 == k);
    assert(evaluation(c, psi) == rest + last * pow(psi, k));
    lemma_pow_succ(psi, k);
    assert((k + 1) as nat == n);
    // ψ·evaluation(c) = ψ·rest + last·ψ^N ≡ ψ·rest - last = evaluation(s)
    assert(psi * (rest + last * pow(psi, k)) == psi * rest + last * pow(psi, n))
        by (nonlinear_arith)
        requires
            pow(psi, n) == psi * pow(psi, k),
    ;
    lemma_congruence_mul(last, last, pow(psi, n), p - 1, p);
    assert(last * (p - 1) == -last + last * p) by (nonlinear_arith);
    vstd::arithmetic::div_mod::lemma_mod_multiples_vanish(last, -last, p);
    assert(p * last + (-last) == last * (p - 1)) by (nonlinear_arith);
    lemma_add_mod_noop(psi * rest, last * pow(psi, n), p);
    lemma_add_mod_noop(psi * rest, -last, p);
}

/// The coefficients of `X^i · b` modulo `X^N + 1`.
pub open spec fn wrapped_seq(b: Seq<int>, i: int) -> Seq<int> {
    Seq::new(b.len(), |k: int| wrapped(b, i, k))
}

/// Multiplication by `X^i` modulo `X^N + 1`: where `psi^N = -1`, the
/// value of `X^i · b` at `psi` is `psi^i` times the value of `b`.
pub proof fn lemma_times_power(b: Seq<int>, i: nat, psi: int, p: int)
    requires
        p > 0,
        b.len() >= 1,
        i <= b.len(),
        pow(psi, b.len()) % p == (p - 1) % p,
    ensures
        evaluation(wrapped_seq(b, i as int), psi) % p == (pow(psi, i) * evaluation(b, psi)) % p,
    decreases i,
{
    let n = b.len();
    if i == 0 {
        lemma_pow0(psi);
        assert(wrapped_seq(b, 0) =~= b);
        assert(1 * evaluation(b, psi) == evaluation(b, psi));
    } else {
        let j = (i - 1) as nat;
        lemma_times_power(b, j, psi, p);
        let c = wrapped_seq(b, j as int);
        let s = wrapped_seq(b, i as int);
        lemma_times_x(s, c, psi, p);
        lemma_pow_succ(psi, j);
        assert((j + 1) as nat == i);
        // ψ·evaluation(c) ≡ ψ·ψ^j·evaluation(b)
        lemma_congruence_mul(psi, psi, evaluation(c, psi), pow(psi, j) * evaluation(b, psi), p);
        assert(psi * (pow(psi, j) * evaluation(b, psi)) == pow(psi, i) * evaluation(b, psi))
            by (nonlinear_arith)
            requires
                pow(psi, i) == psi * pow(psi, j),
        ;
    }
}

/// The sequence of the sums `conv_sum(a, b, k, m)`.
pub open spec fn conv_seq(a: Seq<int>, b: Seq<int>, m: nat) -> Seq<int> {
    Seq::new(b.len(), |k: int| conv_sum(a, b, k, m))
}

/// The value of the product of the first `m` terms of `a` with `b`,
/// modulo `X^N + 1`, is the product of the values.
pub proof fn lemma_product_value(a: Seq<int>, b: Seq<int>, m: nat, psi: int, p: int)
    requires
        p > 0,
        b.len() >= 1,
        m <= b.len(),
        pow(psi, b.len()) % p == (p - 1) % p,
    ensures
        evaluation(conv_seq(a, b, m), psi) % p == (strided_sum(a, 0, 1, m, psi) * evaluation(
            b,
            psi,
        )) % p,
    decreases m,
{
    let n = b.len();
    let value = evaluation(b, psi);
    if m == 0 {
        lemma_sum_congruent(conv_seq(a, b, 0), Seq::new(n, |k: int| 0int), n, psi, p);
        lemma_sum_linear(
            Seq::new(n, |k: int| 0int),
            Seq::new(n, |k: int| 0int),
            Seq::new(n, |k: int| 0int),
            1,
            n,
            psi,
        );
        assert(0 * value == 0);
    } else {
        let j = (m - 1) as nat;
        lemma_product_value(a, b, j, psi, p);
        lemma_times_power(b, j, psi, p);
        let cj = conv_seq(a, b, j);
        let cm = conv_seq(a, b, m);
        let wj = wrapped_seq(b, j as int);
        lemma_sum_linear(cm, cj, wj, a[j as int], n, psi);
        let sj = strided_sum(a, 0, 1, j, psi);
        assert(0 + j * 1 == j);
        assert(strided_sum(a, 0, 1, m, psi) == sj + a[j as int] * pow(psi, j));
        // evaluation(cm) = evaluation(cj) + a_j·evaluation(wj) ≡ sj·value + a_j·ψ^j·value
        lemma_congruence_mul(
            a[j as int],
            a[j as int],
            evaluation(wj, psi),
            pow(psi, j) * value,
            p,
        );
        lemma_add_mod_noop(evaluation(cj, psi), a[j as int] * evaluation(wj, psi), p);
        lemma_add_mod_noop(sj * value, a[j as int] * (pow(psi, j) * value), p);
        assert(sj * value + a[j as int] * (pow(psi, j) * value) == (sj + a[j as int] * pow(
            psi,
            j,
        )) * value) by (nonlinear_arith);
    }
}

/// The odd powers of the root are roots of `X^N + 1`: `(ω^(2r+1))^N = -1`.
pub proof fn lemma_point_is_root(omega: int, r: nat, n: nat, p: int)
    requires
        p > 1,
        pow(omega, n) % p == p - 1,
    ensures
        pow(pow(omega, 2 * r + 1), n) % p == p - 1,
{
    lemma_pow_multiplies(omega, 2 * r + 1, n);
    lemma_pow_multiplies(omega, n, 2 * r + 1);
    assert((2 * r + 1) * n == n * (2 * r + 1)) by (nonlinear_arith);
    lemma_small_mod((p - 1) as nat, p as nat);
    lemma_congruence_pow(pow(omega, n), p - 1, 2 * r + 1, p);
    lemma_odd_power_of_minus_one(r, p);
}

/// **The transform takes the convolution to the product.** The
/// transform of the negacyclic convolution of `a` and `b` is the product
/// of their transforms, entry by entry.
pub proof fn lemma_transform_of_convolution(
    a: Seq<int>,
    b: Seq<int>,
    log_n: nat,
    omega: int,
    roots: Seq<int>,
    p: int,
)
    requires
        p > 1,
        a.len() == pow2(log_n),
        b.len() == pow2(log_n),
        roots_of(omega, log_n, roots, p),
        pow(omega, pow2(log_n)) % p == p - 1,
    ensures
        ntt(negacyclic(a, b, p), log_n, roots, p) == hadamard(
            ntt(a, log_n, roots, p),
            ntt(b, log_n, roots, p),
            p,
        ),
{
    let n = pow2(log_n);
    lemma_pow2_pos(log_n);
    let c = negacyclic(a, b, p);
    let left = ntt(c, log_n, roots, p);
    let right = hadamard(ntt(a, log_n, roots, p), ntt(b, log_n, roots, p), p);
    lemma_forward_len(c, log_n, log_n, roots, p);
    lemma_forward_len(a, log_n, log_n, roots, p);
    lemma_small_mod((p - 1) as nat, p as nat);
    assert forall|j: int| 0 <= j < n implies left[j] == right[j] by {
        let r = brv(j as nat, log_n);
        let psi = pow(omega, 2 * r + 1);
        lemma_point_is_root(omega, r, n, p);
        lemma_ntt_is_evaluation(c, log_n, omega, roots, p, j);
        lemma_ntt_is_evaluation(a, log_n, omega, roots, p, j);
        lemma_ntt_is_evaluation(b, log_n, omega, roots, p, j);
        lemma_product_value(a, b, n, psi, p);
        assert forall|q: int| 0 <= q < n implies #[trigger] c[q] % p == conv_seq(a, b, n)[q]
            % p by {
            lemma_mod_twice(conv_sum(a, b, q, n), p);
        }
        lemma_sum_congruent(c, conv_seq(a, b, n), n, psi, p);
        lemma_mul_mod_noop_general(evaluation(a, psi), evaluation(b, psi), p);
    }
    assert(left =~= right);
}

/// **Convolution.** The inverse transform of the product, entry by
/// entry, of the transforms of `a` and `b` is their negacyclic
/// convolution: `INTT(NTT(a) ⊙ NTT(b)) = a ⋆ b`.
pub proof fn lemma_convolution(
    a: Seq<int>,
    b: Seq<int>,
    log_n: nat,
    omega: int,
    roots: Seq<int>,
    inv_roots: Seq<int>,
    inv_degree: int,
    p: int,
)
    requires
        p > 1,
        a.len() == pow2(log_n),
        b.len() == pow2(log_n),
        roots_of(omega, log_n, roots, p),
        pow(omega, pow2(log_n)) % p == p - 1,
        roots_paired(log_n, roots, inv_roots, p),
        (pow2(log_n) * inv_degree) % p == 1,
    ensures
        intt(
            hadamard(ntt(a, log_n, roots, p), ntt(b, log_n, roots, p), p),
            log_n,
            inv_roots,
            inv_degree,
            p,
        ) == negacyclic(a, b, p),
{
    let c = negacyclic(a, b, p);
    lemma_transform_of_convolution(a, b, log_n, omega, roots, p);
    lemma_round_trip(c, log_n, roots, inv_roots, inv_degree, p);
    assert(reduced(c, p) =~= c) by {
        assert forall|k: int| 0 <= k < c.len() implies reduced(c, p)[k] == c[k] by {
            lemma_mod_twice(conv_sum(a, b, k, a.len()), p);
        }
    }
}

/// The value of a monomial: `c · w^d`.
pub proof fn lemma_monomial_value(c: int, d: nat, count: nat, w: int)
    ensures
        strided_sum(monomial(c, d as int, count), 0, 1, count, w) == (if d < count {
            c * pow(w, d)
        } else {
            0
        }),
    decreases count,
{
    if count > 0 {
        let k = (count - 1) as nat;
        let full = monomial(c, d as int, count);
        let less = monomial(c, d as int, k);
        lemma_monomial_value(c, d, k, w);
        lemma_sum_congruent(full, less, k, w, 1);
        lemma_sum_linear(full, less, less, 0, k, w);
        assert(0 * strided_sum(less, 0, 1, k, w) == 0);
        assert(0 + k * 1 == k);
        if d == k {
        } else {
            assert(0 * pow(w, k) == 0);
        }
    }
}

/// **Monomial identity.** The monomial transform of `c · X^d`, for
/// `d < N`, is the transform of the polynomial that is `c` at the place
/// `d` and zero elsewhere.
pub proof fn lemma_monomial_identity(
    c: int,
    d: nat,
    log_n: nat,
    omega: int,
    roots: Seq<int>,
    p: int,
    j: int,
)
    requires
        p > 1,
        d < pow2(log_n),
        roots_of(omega, log_n, roots, p),
        pow(omega, pow2(log_n)) % p == p - 1,
        0 <= j < pow2(log_n),
    ensures
        ntt(monomial(c, d as int, pow2(log_n)), log_n, roots, p)[j] == monomial_entry(
            c,
            omega,
            d,
            log_n,
            p,
            j as nat,
        ),
{
    let n = pow2(log_n);
    let r = brv(j as nat, log_n);
    let psi = pow(omega, 2 * r + 1);
    lemma_ntt_is_evaluation(monomial(c, d as int, n), log_n, omega, roots, p, j);
    lemma_monomial_value(c, d, n, psi);
    lemma_pow_multiplies(omega, 2 * r + 1, d);
    lemma_pow_square_of_minus_one(omega, n, p);
    lemma_pow2_pos(log_n);
    lemma_pow_mod_order(omega, (2 * r + 1) * d, 2 * n, p);
    lemma_congruence_mul(
        c,
        c,
        pow(omega, (2 * r + 1) * d),
        pow(omega, (((2 * r + 1) * d) % (2 * n)) as nat),
        p,
    );
}

/// **The transform of zero.** The forward transform of the zero
/// polynomial is zero at every entry.
pub proof fn lemma_transform_of_zero(log_n: nat, omega: int, roots: Seq<int>, p: int)
    requires
        p > 1,
        roots_of(omega, log_n, roots, p),
        pow(omega, pow2(log_n)) % p == p - 1,
    ensures
        ntt(Seq::new(pow2(log_n), |i: int| 0int), log_n, roots, p) == Seq::new(
            pow2(log_n),
            |i: int| 0int,
        ),
{
    let n = pow2(log_n);
    let zero = Seq::new(n, |i: int| 0int);
    let image = ntt(zero, log_n, roots, p);
    lemma_forward_len(zero, log_n, log_n, roots, p);
    assert forall|j: int| 0 <= j < n implies image[j] == 0 by {
        let psi = pow(omega, 2 * brv(j as nat, log_n) + 1);
        lemma_ntt_is_evaluation(zero, log_n, omega, roots, p, j);
        lemma_sum_linear(zero, zero, zero, 1, n, psi);
        assert(1 * strided_sum(zero, 0, 1, n, psi) == strided_sum(zero, 0, 1, n, psi));
        lemma_small_mod(0, p as nat);
    }
    assert(image =~= zero);
}

} // verus!
