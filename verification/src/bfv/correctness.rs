//! Decryption undoes encryption.
//!
//! With a ternary secret key `s`, a public key `(a·s + e, -a)` and the
//! randomness `u`, `e1`, `e2` of an encryption, the ciphertext decrypts to
//! `lift(m) + (e·u + e1 + e2·s)`: the plaintext scaled up, and a noise.
//! The errors are within 21 of zero and the keys are ternary, so that the
//! noise stays far below half a step of the scaling, and rounding gives
//! the plaintext.

use crate::bfv::ciphertext::CipherField;
use crate::bfv::scheme::{cipher_modulus, lemma_rounding, lifted, lowered, scaled_up};
use crate::bfv::secretkey::is_ternary;
use crate::field::{canonical, fval, FieldCore};
use crate::polynomial::elementwise::all_canonical;
use crate::primitive::Word;
use crate::transformation::ntt_table::vals;
use crate::utils::sample::{cbd_bound, is_small};
use crate::lemmas::lemma_congruence_mul;
use crate::polynomial::elementwise::{seq_add, seq_neg};
use crate::transformation::convolution::{
    conv_sum, lemma_sum_congruent, lemma_sum_linear, lemma_transform_of_convolution, negacyclic,
    wrapped,
};
use crate::transformation::evaluation::{evaluation, lemma_ntt_is_evaluation, roots_of, strided_sum};
use crate::transformation::laws::{lemma_round_trip, roots_paired};
use crate::transformation::spec::{lemma_forward_len, ntt, reduced};
use crate::utils::reverse::brv;
use vstd::arithmetic::div_mod::{
    lemma_add_mod_noop, lemma_mod_bound, lemma_mod_twice, lemma_small_mod, lemma_sub_mod_noop,
};
use vstd::arithmetic::power::pow;
use vstd::arithmetic::power2::{lemma_pow2_pos, pow2};
use vstd::prelude::*;

verus! {

/// Congruent summands give congruent sums.
pub proof fn lemma_congruence_add(a: int, a2: int, c: int, c2: int, m: int)
    requires
        m > 0,
        a % m == a2 % m,
        c % m == c2 % m,
    ensures
        (a + c) % m == (a2 + c2) % m,
{
    lemma_add_mod_noop(a, c, m);
    lemma_add_mod_noop(a2, c2, m);
}

/// The transform of a sum is the sum of the transforms.
pub proof fn lemma_ntt_of_sum(
    x: Seq<int>,
    y: Seq<int>,
    log_n: nat,
    omega: int,
    roots: Seq<int>,
    p: int,
    j: int,
)
    requires
        p > 1,
        x.len() == pow2(log_n),
        y.len() == pow2(log_n),
        roots_of(omega, log_n, roots, p),
        pow(omega, pow2(log_n)) % p == p - 1,
        0 <= j < pow2(log_n),
    ensures
        ntt(seq_add(x, y, p), log_n, roots, p)[j] == (ntt(x, log_n, roots, p)[j] + ntt(
            y,
            log_n,
            roots,
            p,
        )[j]) % p,
{
    let n = pow2(log_n);
    let z = seq_add(x, y, p);
    let psi = pow(omega, 2 * brv(j as nat, log_n) + 1);
    lemma_ntt_is_evaluation(z, log_n, omega, roots, p, j);
    lemma_ntt_is_evaluation(x, log_n, omega, roots, p, j);
    lemma_ntt_is_evaluation(y, log_n, omega, roots, p, j);
    let exact = Seq::new(n, |q: int| x[q] + 1 * y[q]);
    assert forall|q: int| 0 <= q < n implies #[trigger] z[q] % p == exact[q] % p by {
        lemma_mod_twice(x[q] + y[q], p);
    }
    lemma_sum_congruent(z, exact, n, psi, p);
    lemma_sum_linear(exact, x, y, 1, n, psi);
    assert(1 * strided_sum(y, 0, 1, n, psi) == strided_sum(y, 0, 1, n, psi));
    lemma_add_mod_noop(evaluation(x, psi), evaluation(y, psi), p);
}

/// The transform of the negative is the negative of the transform.
pub proof fn lemma_ntt_of_negative(
    x: Seq<int>,
    log_n: nat,
    omega: int,
    roots: Seq<int>,
    p: int,
    j: int,
)
    requires
        p > 1,
        x.len() == pow2(log_n),
        roots_of(omega, log_n, roots, p),
        pow(omega, pow2(log_n)) % p == p - 1,
        0 <= j < pow2(log_n),
    ensures
        ntt(seq_neg(x, p), log_n, roots, p)[j] % p == (-ntt(x, log_n, roots, p)[j]) % p,
{
    let n = pow2(log_n);
    let z = seq_neg(x, p);
    let psi = pow(omega, 2 * brv(j as nat, log_n) + 1);
    lemma_ntt_is_evaluation(z, log_n, omega, roots, p, j);
    lemma_ntt_is_evaluation(x, log_n, omega, roots, p, j);
    let zeros = Seq::new(n, |q: int| 0int);
    let exact = Seq::new(n, |q: int| zeros[q] + (-1) * x[q]);
    assert forall|q: int| 0 <= q < n implies #[trigger] z[q] % p == exact[q] % p by {
        lemma_mod_twice(-x[q], p);
    }
    lemma_sum_congruent(z, exact, n, psi, p);
    lemma_sum_linear(exact, zeros, x, -1, n, psi);
    lemma_sum_linear(zeros, zeros, zeros, 1, n, psi);
    assert(strided_sum(zeros, 0, 1, n, psi) == 0);
    lemma_mod_twice(evaluation(z, psi), p);
    lemma_sub_mod_noop(0, evaluation(x, psi), p);
    lemma_small_mod(0, p as nat);
    lemma_sub_mod_noop(0, evaluation(x, psi) % p, p);
}

/// Two reduced sequences with the same transform are the same.
pub proof fn lemma_ntt_injective(
    x: Seq<int>,
    y: Seq<int>,
    log_n: nat,
    roots: Seq<int>,
    inv_roots: Seq<int>,
    inv_degree: int,
    p: int,
)
    requires
        p > 0,
        x.len() == pow2(log_n),
        y.len() == pow2(log_n),
        roots_paired(log_n, roots, inv_roots, p),
        (pow2(log_n) * inv_degree) % p == 1,
        forall|k: int| 0 <= k < x.len() ==> 0 <= #[trigger] x[k] < p,
        forall|k: int| 0 <= k < y.len() ==> 0 <= #[trigger] y[k] < p,
        ntt(x, log_n, roots, p) == ntt(y, log_n, roots, p),
    ensures
        x == y,
{
    lemma_round_trip(x, log_n, roots, inv_roots, inv_degree, p);
    lemma_round_trip(y, log_n, roots, inv_roots, inv_degree, p);
    assert forall|k: int| 0 <= k < x.len() implies x[k] == y[k] by {
        lemma_small_mod(x[k] as nat, p as nat);
        lemma_small_mod(y[k] as nat, p as nat);
        assert(reduced(x, p)[k] == x[k]);
        assert(reduced(y, p)[k] == y[k]);
    }
    assert(x =~= y);
}

/// The identity of the scheme, at one point of the transform:
/// `((a·s + e)·u + e1 + m) + ((-a)·u + e2)·s = m + (e·u + e1 + e2·s)`,
/// where every operation is taken modulo `q`.
pub proof fn lemma_scheme_identity(
    a: int,
    s: int,
    e: int,
    u: int,
    e1: int,
    e2: int,
    m: int,
    q: int,
)
    requires
        q > 0,
    ensures
        (((((((a * s) % q + e) % q) * u) % q + e1) % q + m) % q + ((((((-a) % q) * u) % q + e2)
            % q) * s) % q) % q == (m + ((((e * u) % q + e1) % q + (e2 * s) % q) % q)) % q,
{
    // the left side
    let t1 = (a * s) % q;
    lemma_mod_twice(a * s, q);
    let t2 = (t1 + e) % q;
    lemma_congruence_add(t1, a * s, e, e, q);
    lemma_mod_twice(t1 + e, q);
    let t3 = (t2 * u) % q;
    lemma_congruence_mul(t2, a * s + e, u, u, q);
    lemma_mod_twice(t2 * u, q);
    let t4 = (t3 + e1) % q;
    lemma_congruence_add(t3, (a * s + e) * u, e1, e1, q);
    lemma_mod_twice(t3 + e1, q);
    let t5 = (t4 + m) % q;
    lemma_congruence_add(t4, (a * s + e) * u + e1, m, m, q);
    lemma_mod_twice(t4 + m, q);
    let n1 = (-a) % q;
    lemma_mod_twice(-a, q);
    let n2 = (n1 * u) % q;
    lemma_congruence_mul(n1, -a, u, u, q);
    lemma_mod_twice(n1 * u, q);
    let n3 = (n2 + e2) % q;
    lemma_congruence_add(n2, (-a) * u, e2, e2, q);
    lemma_mod_twice(n2 + e2, q);
    let n4 = (n3 * s) % q;
    lemma_congruence_mul(n3, (-a) * u + e2, s, s, q);
    lemma_mod_twice(n3 * s, q);
    lemma_congruence_add(t5, (a * s + e) * u + e1 + m, n4, ((-a) * u + e2) * s, q);
    // the right side
    let r1 = (e * u) % q;
    lemma_mod_twice(e * u, q);
    let r2 = (r1 + e1) % q;
    lemma_congruence_add(r1, e * u, e1, e1, q);
    lemma_mod_twice(r1 + e1, q);
    let r3 = (e2 * s) % q;
    lemma_mod_twice(e2 * s, q);
    let r4 = (r2 + r3) % q;
    lemma_congruence_add(r2, e * u + e1, r3, e2 * s, q);
    lemma_mod_twice(r2 + r3, q);
    lemma_congruence_add(m, m, r4, e * u + e1 + e2 * s, q);
    assert((a * s + e) * u + e1 + m + ((-a) * u + e2) * s == m + (e * u + e1 + e2 * s))
        by (nonlinear_arith);
}

/// The representative of a residue that is nearest to zero.
pub open spec fn centered(x: int, q: int) -> int {
    if 2 * x > q {
        x - q
    } else {
        x
    }
}

/// The representatives nearest to zero of a sequence of residues.
pub open spec fn centered_seq(s: Seq<int>, q: int) -> Seq<int> {
    Seq::new(s.len(), |i: int| centered(s[i], q))
}

/// Every entry is a residue within `bound` of zero: at most `bound`, or at least `q - bound`.
pub open spec fn all_small(s: Seq<int>, bound: int, q: int) -> bool {
    forall|i: int| 0 <= i < s.len() ==> (0 <= #[trigger] s[i] <= bound) || (q - bound <= s[i] < q)
}

/// A sum of the convolution depends on the entries only modulo `p`.
pub proof fn lemma_conv_congruent(
    a: Seq<int>,
    a2: Seq<int>,
    b: Seq<int>,
    b2: Seq<int>,
    k: int,
    m: nat,
    p: int,
)
    requires
        p > 0,
        a.len() == b.len(),
        a2.len() == b.len(),
        b2.len() == b.len(),
        0 <= k < b.len(),
        m <= b.len(),
        forall|i: int| 0 <= i < a.len() ==> #[trigger] a[i] % p == a2[i] % p,
        forall|i: int| 0 <= i < b.len() ==> #[trigger] b[i] % p == b2[i] % p,
    ensures
        conv_sum(a, b, k, m) % p == conv_sum(a2, b2, k, m) % p,
    decreases m,
{
    if m > 0 {
        let i = m - 1;
        lemma_conv_congruent(a, a2, b, b2, k, (m - 1) as nat, p);
        assert(a[i] % p == a2[i] % p);
        if k >= i {
            assert(b[k - i] % p == b2[k - i] % p);
        } else {
            assert(b[k - i + b.len()] % p == b2[k - i + b.len()] % p);
            lemma_sub_mod_noop(0, b[k - i + b.len()], p);
            lemma_sub_mod_noop(0, b2[k - i + b.len()], p);
        }
        lemma_congruence_mul(a[i], a2[i], wrapped(b, i, k), wrapped(b2, i, k), p);
        lemma_congruence_add(
            conv_sum(a, b, k, (m - 1) as nat),
            conv_sum(a2, b2, k, (m - 1) as nat),
            a[i] * wrapped(b, i, k),
            a2[i] * wrapped(b2, i, k),
            p,
        );
    }
}

/// A sum of the convolution of a sequence of size at most `x` with a
/// sequence of size at most `y` is of size at most `m · x · y`.
pub proof fn lemma_conv_bound(a: Seq<int>, b: Seq<int>, k: int, m: nat, x: int, y: int)
    requires
        a.len() == b.len(),
        0 <= k < b.len(),
        m <= b.len(),
        x >= 0,
        y >= 0,
        forall|i: int| 0 <= i < a.len() ==> -x <= #[trigger] a[i] <= x,
        forall|i: int| 0 <= i < b.len() ==> -y <= #[trigger] b[i] <= y,
    ensures
        -(m * (x * y)) <= conv_sum(a, b, k, m) <= m * (x * y),
    decreases m,
{
    if m == 0 {
        assert(0 * (x * y) == 0);
    } else {
        let i = m - 1;
        lemma_conv_bound(a, b, k, (m - 1) as nat, x, y);
        let w = wrapped(b, i, k);
        assert(-x <= a[i] <= x);
        if k >= i {
            assert(-y <= b[k - i] <= y);
        } else {
            assert(-y <= b[k - i + b.len()] <= y);
        }
        assert(-(x * y) <= a[i] * w <= x * y) by (nonlinear_arith)
            requires
                -x <= a[i] <= x,
                -y <= w <= y,
        ;
        assert(m * (x * y) == (m - 1) * (x * y) + x * y) by (nonlinear_arith);
    }
}

/// The centered representative is congruent to the residue, and small where the residue is.
pub proof fn lemma_centered(s: Seq<int>, bound: int, q: int)
    requires
        q > 2 * bound,
        bound >= 0,
        all_small(s, bound, q),
    ensures
        forall|i: int|
            0 <= i < s.len() ==> #[trigger] s[i] % q == centered_seq(s, q)[i] % q,
        forall|i: int|
            0 <= i < s.len() ==> -bound <= #[trigger] centered_seq(s, q)[i] <= bound,
{
    assert forall|i: int| 0 <= i < s.len() implies #[trigger] s[i] % q == centered_seq(s, q)[i]
        % q by {
        if 2 * s[i] > q {
            crate::lemmas::lemma_sub_multiple(s[i], 1, q);
        }
    }
    assert forall|i: int| 0 <= i < s.len() implies -bound <= #[trigger] centered_seq(s, q)[i]
        <= bound by {
        assert((0 <= s[i] <= bound) || (q - bound <= s[i] < q));
    }
}

/// The first polynomial `a·s + e` of the public key.
pub open spec fn public_b(a: Seq<int>, s: Seq<int>, e: Seq<int>) -> Seq<int> {
    seq_add(negacyclic(a, s, cipher_modulus() as int), e, cipher_modulus() as int)
}

/// The first polynomial `b·u + e1 + lift(m)` of the ciphertext.
pub open spec fn cipher_c0(b: Seq<int>, u: Seq<int>, e1: Seq<int>, m: Seq<int>) -> Seq<int> {
    seq_add(
        seq_add(negacyclic(b, u, cipher_modulus() as int), e1, cipher_modulus() as int),
        lifted(m),
        cipher_modulus() as int,
    )
}

/// The second polynomial `na·u + e2` of the ciphertext, where `na = -a`.
pub open spec fn cipher_c1(na: Seq<int>, u: Seq<int>, e2: Seq<int>) -> Seq<int> {
    seq_add(negacyclic(na, u, cipher_modulus() as int), e2, cipher_modulus() as int)
}

/// What decryption scales down: `c0 + c1·s`.
pub open spec fn decryption_input(c0: Seq<int>, c1: Seq<int>, s: Seq<int>) -> Seq<int> {
    seq_add(c0, negacyclic(c1, s, cipher_modulus() as int), cipher_modulus() as int)
}

/// The noise `e·u + e1 + e2·s` of a ciphertext.
pub open spec fn noise_of(s: Seq<int>, e: Seq<int>, u: Seq<int>, e1: Seq<int>, e2: Seq<int>) -> Seq<
    int,
> {
    seq_add(
        seq_add(negacyclic(e, u, cipher_modulus() as int), e1, cipher_modulus() as int),
        negacyclic(e2, s, cipher_modulus() as int),
        cipher_modulus() as int,
    )
}

/// At every point of the transform, `c0 + c1·s` and `lift(m) + noise` agree.
pub proof fn lemma_sides_agree(
    s: Seq<int>,
    a: Seq<int>,
    e: Seq<int>,
    u: Seq<int>,
    e1: Seq<int>,
    e2: Seq<int>,
    m: Seq<int>,
    log_n: nat,
    omega: int,
    roots: Seq<int>,
    j: int,
)
    requires
        s.len() == pow2(log_n),
        a.len() == pow2(log_n),
        e.len() == pow2(log_n),
        u.len() == pow2(log_n),
        e1.len() == pow2(log_n),
        e2.len() == pow2(log_n),
        m.len() == pow2(log_n),
        roots_of(omega, log_n, roots, cipher_modulus() as int),
        pow(omega, pow2(log_n)) % (cipher_modulus() as int) == cipher_modulus() - 1,
        0 <= j < pow2(log_n),
    ensures
        ntt(
            decryption_input(
                cipher_c0(public_b(a, s, e), u, e1, m),
                cipher_c1(seq_neg(a, cipher_modulus() as int), u, e2),
                s,
            ),
            log_n,
            roots,
            cipher_modulus() as int,
        )[j] == ntt(
            seq_add(lifted(m), noise_of(s, e, u, e1, e2), cipher_modulus() as int),
            log_n,
            roots,
            cipher_modulus() as int,
        )[j],
{
    let q = cipher_modulus() as int;
    let b = public_b(a, s, e);
    let na = seq_neg(a, q);
    let c0 = cipher_c0(b, u, e1, m);
    let c1 = cipher_c1(na, u, e2);
    let noise = noise_of(s, e, u, e1, e2);
    let ta = ntt(a, log_n, roots, q)[j];
    let ts = ntt(s, log_n, roots, q)[j];
    let te = ntt(e, log_n, roots, q)[j];
    let tu = ntt(u, log_n, roots, q)[j];
    let te1 = ntt(e1, log_n, roots, q)[j];
    let te2 = ntt(e2, log_n, roots, q)[j];
    let tm = ntt(lifted(m), log_n, roots, q)[j];
    lemma_forward_len(a, log_n, log_n, roots, q);
    lemma_forward_len(s, log_n, log_n, roots, q);
    lemma_forward_len(u, log_n, log_n, roots, q);
    lemma_forward_len(b, log_n, log_n, roots, q);
    lemma_forward_len(c1, log_n, log_n, roots, q);
    lemma_forward_len(e, log_n, log_n, roots, q);
    lemma_forward_len(e2, log_n, log_n, roots, q);
    lemma_forward_len(na, log_n, log_n, roots, q);
    // c0 = b·u + e1 + lift(m) with b = a·s + e
    lemma_transform_of_convolution(a, s, log_n, omega, roots, q);
    lemma_ntt_of_sum(negacyclic(a, s, q), e, log_n, omega, roots, q, j);
    let tb = ntt(b, log_n, roots, q)[j];
    assert(tb == ((ta * ts) % q + te) % q);
    lemma_transform_of_convolution(b, u, log_n, omega, roots, q);
    lemma_ntt_of_sum(negacyclic(b, u, q), e1, log_n, omega, roots, q, j);
    lemma_ntt_of_sum(seq_add(negacyclic(b, u, q), e1, q), lifted(m), log_n, omega, roots, q, j);
    let tc0 = ntt(c0, log_n, roots, q)[j];
    assert(tc0 == (((tb * tu) % q + te1) % q + tm) % q);
    // c1 = (-a)·u + e2
    lemma_ntt_of_negative(a, log_n, omega, roots, q, j);
    let tna = ntt(na, log_n, roots, q)[j];
    lemma_transform_of_convolution(na, u, log_n, omega, roots, q);
    lemma_ntt_of_sum(negacyclic(na, u, q), e2, log_n, omega, roots, q, j);
    let tc1 = ntt(c1, log_n, roots, q)[j];
    assert(tc1 == ((tna * tu) % q + te2) % q);
    lemma_transform_of_convolution(c1, s, log_n, omega, roots, q);
    lemma_ntt_of_sum(c0, negacyclic(c1, s, q), log_n, omega, roots, q, j);
    let left = (tc0 + (tc1 * ts) % q) % q;
    // the noise
    lemma_transform_of_convolution(e, u, log_n, omega, roots, q);
    lemma_ntt_of_sum(negacyclic(e, u, q), e1, log_n, omega, roots, q, j);
    lemma_transform_of_convolution(e2, s, log_n, omega, roots, q);
    lemma_ntt_of_sum(
        seq_add(negacyclic(e, u, q), e1, q),
        negacyclic(e2, s, q),
        log_n,
        omega,
        roots,
        q,
        j,
    );
    lemma_ntt_of_sum(lifted(m), noise, log_n, omega, roots, q, j);
    let right = (tm + ((((te * tu) % q + te1) % q + (te2 * ts) % q) % q)) % q;
    lemma_scheme_identity(ta, ts, te, tu, te1, te2, tm, q);
    // the transform of -a stands for (-ta) % q
    let ideal = ((((((-ta) % q) * tu) % q + te2) % q) * ts) % q;
    lemma_mod_twice(-ta, q);
    lemma_congruence_mul(tna, (-ta) % q, tu, tu, q);
    lemma_mod_twice(tna * tu, q);
    lemma_mod_twice(((-ta) % q) * tu, q);
    lemma_congruence_add((tna * tu) % q, (((-ta) % q) * tu) % q, te2, te2, q);
    lemma_mod_twice((tna * tu) % q + te2, q);
    lemma_mod_twice((((-ta) % q) * tu) % q + te2, q);
    lemma_congruence_mul(tc1, ((((-ta) % q) * tu) % q + te2) % q, ts, ts, q);
    lemma_mod_twice(tc1 * ts, q);
    lemma_mod_twice((((((-ta) % q) * tu) % q + te2) % q) * ts, q);
    lemma_congruence_add(tc0, tc0, (tc1 * ts) % q, ideal, q);
    assert(left == (tc0 + ideal) % q);
}

/// The noise of a ciphertext is small: its coefficient `k` is congruent
/// to a number of size at most `2 · 1024 · 21 + 21 = 43029`.
pub proof fn lemma_noise_small(
    s: Seq<int>,
    e: Seq<int>,
    u: Seq<int>,
    e1: Seq<int>,
    e2: Seq<int>,
    k: int,
) -> (nu: int)
    requires
        s.len() == e.len(),
        u.len() == e.len(),
        e1.len() == e.len(),
        e2.len() == e.len(),
        e.len() <= 1024,
        0 <= k < e.len(),
        all_small(s, 1, cipher_modulus() as int),
        all_small(u, 1, cipher_modulus() as int),
        all_small(e, 21, cipher_modulus() as int),
        all_small(e1, 21, cipher_modulus() as int),
        all_small(e2, 21, cipher_modulus() as int),
    ensures
        -43029 <= nu <= 43029,
        noise_of(s, e, u, e1, e2)[k] % (cipher_modulus() as int) == nu % (cipher_modulus() as int),
{
    let q = cipher_modulus() as int;
    let n = e.len();
    let sc = centered_seq(s, q);
    let uc = centered_seq(u, q);
    let ec = centered_seq(e, q);
    let e1c = centered_seq(e1, q);
    let e2c = centered_seq(e2, q);
    lemma_centered(s, 1, q);
    lemma_centered(u, 1, q);
    lemma_centered(e, 21, q);
    lemma_centered(e1, 21, q);
    lemma_centered(e2, 21, q);
    let x = conv_sum(ec, uc, k, n);
    let y = conv_sum(e2c, sc, k, n);
    lemma_conv_congruent(e, ec, u, uc, k, n, q);
    lemma_conv_congruent(e2, e2c, s, sc, k, n, q);
    lemma_conv_bound(ec, uc, k, n, 21, 1);
    lemma_conv_bound(e2c, sc, k, n, 21, 1);
    let nu = x + e1c[k] + y;
    assert(-21 <= e1c[k] <= 21);
    assert(n * (21 * 1) <= 21504) by (nonlinear_arith)
        requires
            n <= 1024,
    ;
    let n1 = negacyclic(e, u, q)[k];
    let n2 = seq_add(negacyclic(e, u, q), e1, q)[k];
    let n3 = negacyclic(e2, s, q)[k];
    lemma_mod_twice(conv_sum(e, u, k, n), q);
    lemma_mod_twice(conv_sum(e2, s, k, n), q);
    assert(e1[k] % q == e1c[k] % q);
    lemma_congruence_add(n1, x, e1[k], e1c[k], q);
    lemma_mod_twice(n1 + e1[k], q);
    lemma_congruence_add(n2, x + e1c[k], n3, y, q);
    lemma_mod_twice(n2 + n3, q);
    nu
}

/// What decryption scales down is the plaintext scaled up, and the
/// noise: `c0 + c1·s = lift(m) + (e·u + e1 + e2·s)` for the public key
/// `(a·s + e, -a)` and the ciphertext `(c0, c1)` of `m` with the
/// randomness `u`, `e1`, `e2`.
pub proof fn lemma_fresh_phase(
    s: Seq<int>,
    a: Seq<int>,
    e: Seq<int>,
    u: Seq<int>,
    e1: Seq<int>,
    e2: Seq<int>,
    m: Seq<int>,
    log_n: nat,
    omega: int,
    roots: Seq<int>,
    inv_roots: Seq<int>,
    inv_degree: int,
)
    requires
        s.len() == pow2(log_n),
        a.len() == pow2(log_n),
        e.len() == pow2(log_n),
        u.len() == pow2(log_n),
        e1.len() == pow2(log_n),
        e2.len() == pow2(log_n),
        m.len() == pow2(log_n),
        roots_of(omega, log_n, roots, cipher_modulus() as int),
        pow(omega, pow2(log_n)) % (cipher_modulus() as int) == cipher_modulus() - 1,
        roots_paired(log_n, roots, inv_roots, cipher_modulus() as int),
        (pow2(log_n) * inv_degree) % (cipher_modulus() as int) == 1,
    ensures
        decryption_input(
            cipher_c0(public_b(a, s, e), u, e1, m),
            cipher_c1(seq_neg(a, cipher_modulus() as int), u, e2),
            s,
        ) == seq_add(lifted(m), noise_of(s, e, u, e1, e2), cipher_modulus() as int),
{
    let q = cipher_modulus() as int;
    let n = pow2(log_n);
    lemma_pow2_pos(log_n);
    let left = decryption_input(
        cipher_c0(public_b(a, s, e), u, e1, m),
        cipher_c1(seq_neg(a, q), u, e2),
        s,
    );
    let noise = noise_of(s, e, u, e1, e2);
    let right = seq_add(lifted(m), noise, q);
    let tl = ntt(left, log_n, roots, q);
    let tr = ntt(right, log_n, roots, q);
    lemma_forward_len(left, log_n, log_n, roots, q);
    lemma_forward_len(right, log_n, log_n, roots, q);
    assert forall|j: int| 0 <= j < n implies tl[j] == tr[j] by {
        lemma_sides_agree(s, a, e, u, e1, e2, m, log_n, omega, roots, j);
    }
    assert(tl =~= tr);
    assert forall|k: int| 0 <= k < left.len() implies 0 <= #[trigger] left[k] < q by {
        lemma_mod_bound(
            cipher_c0(public_b(a, s, e), u, e1, m)[k] + negacyclic(
                cipher_c1(seq_neg(a, q), u, e2),
                s,
                q,
            )[k],
            q,
        );
    }
    assert forall|k: int| 0 <= k < right.len() implies 0 <= #[trigger] right[k] < q by {
        lemma_mod_bound(lifted(m)[k] + noise[k], q);
    }
    lemma_ntt_injective(left, right, log_n, roots, inv_roots, inv_degree, q);
}

/// **Correctness of the scheme.** Decryption undoes encryption: for a
/// ternary secret key `s`, the public key `(b, na)` with `b = a·s + e`
/// and `na = -a`, and the ciphertext `(c0, c1)` of a plaintext `m` with
/// `c0 = b·u + e1 + lift(m)` and `c1 = na·u + e2`, where `u` is ternary
/// and the errors `e`, `e1`, `e2` are within 21 of zero, the coefficients
/// of `c0 + c1·s`, scaled down, are the plaintext `m`. The products are
/// negacyclic convolutions of length `2^log_n <= 1024`.
pub proof fn lemma_decrypt_encrypt(
    s: Seq<int>,
    a: Seq<int>,
    e: Seq<int>,
    u: Seq<int>,
    e1: Seq<int>,
    e2: Seq<int>,
    m: Seq<int>,
    log_n: nat,
    omega: int,
    roots: Seq<int>,
    inv_roots: Seq<int>,
    inv_degree: int,
)
    requires
        log_n <= 10,
        s.len() == pow2(log_n),
        a.len() == pow2(log_n),
        e.len() == pow2(log_n),
        u.len() == pow2(log_n),
        e1.len() == pow2(log_n),
        e2.len() == pow2(log_n),
        m.len() == pow2(log_n),
        roots_of(omega, log_n, roots, cipher_modulus() as int),
        pow(omega, pow2(log_n)) % (cipher_modulus() as int) == cipher_modulus() - 1,
        roots_paired(log_n, roots, inv_roots, cipher_modulus() as int),
        (pow2(log_n) * inv_degree) % (cipher_modulus() as int) == 1,
        all_small(s, 1, cipher_modulus() as int),
        all_small(u, 1, cipher_modulus() as int),
        all_small(e, 21, cipher_modulus() as int),
        all_small(e1, 21, cipher_modulus() as int),
        all_small(e2, 21, cipher_modulus() as int),
        forall|k: int| 0 <= k < m.len() ==> 0 <= #[trigger] m[k] < 61,
    ensures
        lowered(
            decryption_input(
                cipher_c0(public_b(a, s, e), u, e1, m),
                cipher_c1(seq_neg(a, cipher_modulus() as int), u, e2),
                s,
            ),
        ) == m,
{
    let q = cipher_modulus() as int;
    let n = pow2(log_n);
    let left = decryption_input(
        cipher_c0(public_b(a, s, e), u, e1, m),
        cipher_c1(seq_neg(a, q), u, e2),
        s,
    );
    let noise = noise_of(s, e, u, e1, e2);
    lemma_fresh_phase(s, a, e, u, e1, e2, m, log_n, omega, roots, inv_roots, inv_degree);
    vstd::arithmetic::power2::lemma2_to64();
    if log_n < 10 {
        vstd::arithmetic::power2::lemma_pow2_strictly_increases(log_n, 10);
    }
    assert forall|k: int| 0 <= k < n implies lowered(left)[k] == m[k] by {
        let nu = lemma_noise_small(s, e, u, e1, e2, k);
        let up = scaled_up(m[k] as nat) as int;
        lemma_congruence_add(up, up, noise[k], nu, q);
        assert(left[k] == (up + nu) % q);
        lemma_rounding(m[k] as nat, nu);
        lemma_mod_bound(up + nu, q);
    }
    assert(lowered(left) =~= m);
}

/// Ternary coefficients are within one of zero.
pub proof fn lemma_ternary_small(u: Seq<CipherField>)
    requires
        is_ternary(u),
    ensures
        all_small(vals(u), 1, cipher_modulus() as int),
{
    let q = cipher_modulus() as int;
    assert forall|i: int| 0 <= i < u.len() implies (0 <= #[trigger] vals(u)[i] <= 1) || (q - 1
        <= vals(u)[i] < q) by {
        assert(fval(u[i]) <= 1 || fval(u[i]) == q - 1);
    }
}

/// The errors of the centered binomial distribution are within 21 of zero.
pub proof fn lemma_errors_small(e: Seq<CipherField>)
    requires
        forall|i: int| 0 <= i < e.len() ==> is_small(#[trigger] e[i], cbd_bound()),
    ensures
        all_small(vals(e), 21, cipher_modulus() as int),
        all_canonical(e),
{
    let q = cipher_modulus() as int;
    assert forall|i: int| 0 <= i < e.len() implies (0 <= #[trigger] vals(e)[i] <= 21) || (q - 21
        <= vals(e)[i] < q) by {
        assert(is_small(e[i], cbd_bound()));
    }
    assert forall|i: int| 0 <= i < e.len() implies canonical(#[trigger] e[i]) by {
        assert(is_small(e[i], cbd_bound()));
    }
}

} // verus!
