//! What holds of the transforms: the inverse transform undoes the forward
//! transform.

use crate::lemmas::{
    lemma_congruence_mul, lemma_mod_unique, lemma_pow_mod_order, lemma_pow_product_mod,
    lemma_pow_square_of_minus_one,
};
use crate::transformation::ntt_table::monomial_entry;
use crate::utils::reverse::brv;
use vstd::arithmetic::power::{lemma_pow_multiplies, pow};
use crate::transformation::spec::{
    backward,
    ct_layer,
    forward,
    gs_layer,
    intt,
    inv_offset,
    lemma_backward_len,
    lemma_forward_len,
    ntt,
    reduced,
    scaled,
};
use vstd::arithmetic::div_mod::{
    lemma_add_mod_noop, lemma_fundamental_div_mod, lemma_mod_bound, lemma_mod_twice,
    lemma_mul_mod_noop_general, lemma_small_mod, lemma_sub_mod_noop,
};
use vstd::arithmetic::power2::{
    lemma2_to64, lemma_pow2_adds, lemma_pow2_pos, lemma_pow2_unfold, pow2,
};
use vstd::prelude::*;

verus! {

/// Every root of the inverse transform is the inverse of the forward root
/// that it undoes: the root `k` of the inverse layer with gap `2^stage`
/// and the root `k` of the forward layer with as many groups.
pub open spec fn roots_paired(log_n: nat, roots: Seq<int>, inv_roots: Seq<int>, p: int) -> bool {
    &&& roots.len() >= pow2(log_n)
    &&& inv_roots.len() >= pow2(log_n)
    &&& forall|stage: nat, k: int|
        stage < log_n && 0 <= k < pow2((log_n - 1 - stage) as nat) ==> (#[trigger] roots[pow2(
            (log_n - 1 - stage) as nat,
        ) + k] * inv_roots[inv_offset(log_n, stage) + k]) % p == 1
}

/// The upper output of an inverse butterfly after a forward butterfly,
/// both scaled by `c`: `c·(x + r·y) + c·(x - r·y) = 2c·x`.
pub proof fn lemma_undo_upper(x: int, y: int, r: int, c: int, p: int)
    requires
        p > 0,
    ensures
        ((c * ((x + r * y) % p)) % p + (c * ((x - r * y) % p)) % p) % p == ((2 * c) * (x % p)) % p,
{
    let u = x + r * y;
    let v = x - r * y;
    lemma_mul_mod_noop_general(c, u, p);
    lemma_mul_mod_noop_general(c, v, p);
    lemma_mul_mod_noop_general(c, u % p, p);
    lemma_mul_mod_noop_general(c, v % p, p);
    lemma_mod_twice(u, p);
    lemma_mod_twice(v, p);
    lemma_add_mod_noop(c * (u % p), c * (v % p), p);
    lemma_add_mod_noop(c * u, c * v, p);
    assert(c * u + c * v == (2 * c) * x) by (nonlinear_arith)
        requires
            u == x + r * y,
            v == x - r * y,
    ;
    lemma_mul_mod_noop_general(2 * c, x, p);
    lemma_mul_mod_noop_general(2 * c, x % p, p);
    lemma_mod_twice(x, p);
}

/// The lower output of an inverse butterfly after a forward butterfly,
/// both scaled by `c`: `(c·(x + r·y) - c·(x - r·y))·s = 2c·y` where `r·s = 1`.
pub proof fn lemma_undo_lower(x: int, y: int, r: int, s: int, c: int, p: int)
    requires
        p > 0,
        (r * s) % p == 1,
    ensures
        (((c * ((x + r * y) % p)) % p - (c * ((x - r * y) % p)) % p) * s) % p == ((2 * c) * (y
            % p)) % p,
{
    let u = x + r * y;
    let v = x - r * y;
    lemma_mul_mod_noop_general(c, u, p);
    lemma_mul_mod_noop_general(c, v, p);
    lemma_mul_mod_noop_general(c, u % p, p);
    lemma_mul_mod_noop_general(c, v % p, p);
    lemma_mod_twice(u, p);
    lemma_mod_twice(v, p);
    lemma_sub_mod_noop(c * (u % p), c * (v % p), p);
    lemma_sub_mod_noop(c * u, c * v, p);
    let d = (c * (u % p)) % p - (c * (v % p)) % p;
    assert(d % p == (c * u - c * v) % p);
    lemma_congruence_mul(d, c * u - c * v, s, s, p);
    assert((c * u - c * v) * s == ((2 * c) * y) * (r * s)) by (nonlinear_arith)
        requires
            u == x + r * y,
            v == x - r * y,
    ;
    lemma_small_mod(1, p as nat);
    if p == 1 {
        assert(1int % 1 == 0);
    } else {
        lemma_congruence_mul((2 * c) * y, (2 * c) * y, r * s, 1, p);
        assert(((2 * c) * y) * 1 == (2 * c) * y);
        lemma_mul_mod_noop_general(2 * c, y, p);
        lemma_mul_mod_noop_general(2 * c, y % p, p);
        lemma_mod_twice(y, p);
    }
}

/// The places of a group: for `j` in the upper half of its group, `j + gap`
/// is in the lower half of the same group, and the other way round; and the
/// group lies inside a sequence whose length is a multiple of the group length.
pub proof fn lemma_partner(j: int, gap: int, len: int)
    requires
        gap > 0,
        0 <= j < len,
        len % (2 * gap) == 0,
    ensures
        j % (2 * gap) < gap ==> (j + gap) / (2 * gap) == j / (2 * gap) && (j + gap) % (2 * gap)
            == j % (2 * gap) + gap && j + gap < len,
        j % (2 * gap) >= gap ==> (j - gap) / (2 * gap) == j / (2 * gap) && (j - gap) % (2 * gap)
            == j % (2 * gap) - gap && j - gap >= 0,
        0 <= j / (2 * gap) < len / (2 * gap),
        0 <= j % (2 * gap) < 2 * gap,
{
    let k = j / (2 * gap);
    let t = j % (2 * gap);
    lemma_fundamental_div_mod(j, 2 * gap);
    lemma_mod_bound(j, 2 * gap);
    lemma_fundamental_div_mod(len, 2 * gap);
    let groups = len / (2 * gap);
    assert(0 <= k < groups) by (nonlinear_arith)
        requires
            j == (2 * gap) * k + t,
            0 <= t < 2 * gap,
            len == (2 * gap) * groups,
            0 <= j < len,
            gap > 0,
    ;
    assert((2 * gap) * k + 2 * gap <= len) by (nonlinear_arith)
        requires
            k + 1 <= groups,
            len == (2 * gap) * groups,
            gap > 0,
    ;
    if t < gap {
        lemma_mod_unique(j + gap, t + gap, k, 2 * gap);
    } else {
        lemma_mod_unique(j - gap, t - gap, k, 2 * gap);
    }
}

/// An inverse layer undoes the forward layer with the same groups, up to
/// a factor two: applied to `c` times the forward layer of `x`, it gives
/// `2c` times `x`.
pub proof fn lemma_layer_undone(
    x: Seq<int>,
    m: int,
    gap: int,
    offset: int,
    roots: Seq<int>,
    inv_roots: Seq<int>,
    c: int,
    p: int,
)
    requires
        p > 0,
        gap > 0,
        m > 0,
        x.len() == m * (2 * gap),
        m + m <= roots.len(),
        0 <= offset,
        offset + m <= inv_roots.len(),
        forall|k: int| 0 <= k < m ==> (#[trigger] roots[m + k] * inv_roots[offset + k]) % p == 1,
    ensures
        gs_layer(scaled(ct_layer(x, m, gap, roots, p), c, p), offset, gap, inv_roots, p) == scaled(
            x,
            2 * c,
            p,
        ),
{
    let ct = ct_layer(x, m, gap, roots, p);
    let s = scaled(ct, c, p);
    let g = gs_layer(s, offset, gap, inv_roots, p);
    let len = x.len() as int;
    lemma_mod_unique(len, 0, m, 2 * gap);
    assert forall|j: int| 0 <= j < len implies g[j] == #[trigger] scaled(x, 2 * c, p)[j] by {
        lemma_partner(j, gap, len);
        let k = j / (2 * gap);
        let t = j % (2 * gap);
        let r = roots[m + k];
        let si = inv_roots[offset + k];
        assert((roots[m + k] * inv_roots[offset + k]) % p == 1);
        if t < gap {
            lemma_partner(j + gap, gap, len);
            lemma_undo_upper(x[j], x[j + gap], r, c, p);
            lemma_mul_mod_noop_general(2 * c, x[j], p);
            lemma_mod_twice(x[j], p);
            lemma_mul_mod_noop_general(2 * c, x[j] % p, p);
        } else {
            lemma_partner(j - gap, gap, len);
            lemma_undo_lower(x[j - gap], x[j], r, si, c, p);
            lemma_mul_mod_noop_general(2 * c, x[j], p);
            lemma_mod_twice(x[j], p);
            lemma_mul_mod_noop_general(2 * c, x[j] % p, p);
        }
    }
    assert(g =~= scaled(x, 2 * c, p));
}

/// The inverse layers undo the forward layers one by one: after `d` of
/// them the sequence is `2^d` times the forward transform with its last
/// `d` layers left out.
pub proof fn lemma_layers_undone(
    a: Seq<int>,
    log_n: nat,
    d: nat,
    roots: Seq<int>,
    inv_roots: Seq<int>,
    p: int,
)
    requires
        p > 0,
        d <= log_n,
        a.len() == pow2(log_n),
        roots_paired(log_n, roots, inv_roots, p),
    ensures
        backward(ntt(a, log_n, roots, p), log_n, d, inv_roots, p) == scaled(
            forward(a, log_n, (log_n - d) as nat, roots, p),
            pow2(d) as int,
            p,
        ),
    decreases d,
{
    let top = ntt(a, log_n, roots, p);
    lemma_forward_len(a, log_n, log_n, roots, p);
    if d == 0 {
        lemma2_to64();
        assert(reduced(top, p) =~= scaled(top, 1, p)) by {
            assert forall|j: int| 0 <= j < top.len() implies reduced(top, p)[j] == scaled(
                top,
                1,
                p,
            )[j] by {
                assert(1 * top[j] == top[j]);
            }
        }
    } else {
        let e = (d - 1) as nat;
        lemma_layers_undone(a, log_n, e, roots, inv_roots, p);
        let stages = (log_n - e) as nat;
        let below = forward(a, log_n, (stages - 1) as nat, roots, p);
        lemma_forward_len(a, log_n, (stages - 1) as nat, roots, p);
        let m = pow2((stages - 1) as nat) as int;
        let gap = pow2(e) as int;
        lemma_pow2_pos((stages - 1) as nat);
        lemma_pow2_pos(e);
        lemma_pow2_unfold(d);
        lemma_pow2_unfold(stages);
        lemma_pow2_adds(stages, e);
        assert(a.len() == m * (2 * gap)) by (nonlinear_arith)
            requires
                a.len() == pow2(stages) * pow2(e),
                pow2(stages) == 2 * m,
                gap == pow2(e),
        ;
        let offset = inv_offset(log_n, e);
        assert(offset == pow2(log_n) - 2 * m + 1);
        assert(2 * m <= pow2(log_n)) by (nonlinear_arith)
            requires
                pow2(log_n) == m * (2 * gap),
                gap >= 1,
                m >= 1,
        ;
        assert forall|k: int| 0 <= k < m implies (#[trigger] roots[m + k] * inv_roots[offset + k])
            % p == 1 by {
            assert((log_n - 1 - e) as nat == (stages - 1) as nat);
        }
        lemma_layer_undone(below, m, gap, offset, roots, inv_roots, pow2(e) as int, p);
        assert(forward(a, log_n, stages, roots, p) == ct_layer(below, m, gap, roots, p));
        assert((log_n - d) as nat == (stages - 1) as nat);
        assert(2 * pow2(e) == pow2(d));
    }
}

/// **Round trip.** The inverse transform of the forward transform of a
/// sequence is the sequence again, reduced modulo `p`: `INTT(NTT(a)) = a`.
/// This holds whenever every root of the inverse transform is the inverse
/// of the forward root that it undoes, and `inv_degree` is the inverse of
/// the length.
pub proof fn lemma_round_trip(
    a: Seq<int>,
    log_n: nat,
    roots: Seq<int>,
    inv_roots: Seq<int>,
    inv_degree: int,
    p: int,
)
    requires
        p > 0,
        a.len() == pow2(log_n),
        roots_paired(log_n, roots, inv_roots, p),
        (pow2(log_n) * inv_degree) % p == 1,
    ensures
        intt(ntt(a, log_n, roots, p), log_n, inv_roots, inv_degree, p) == reduced(a, p),
{
    lemma_layers_undone(a, log_n, log_n, roots, inv_roots, p);
    let n = pow2(log_n) as int;
    let top = ntt(a, log_n, roots, p);
    let back = backward(top, log_n, log_n, inv_roots, p);
    let result = intt(top, log_n, inv_roots, inv_degree, p);
    assert(forward(a, log_n, 0, roots, p) == reduced(a, p));
    assert forall|j: int| 0 <= j < a.len() implies result[j] == #[trigger] reduced(a, p)[j] by {
        let x = a[j] % p;
        assert(back[j] == (n * x) % p);
        // inv_degree·(n·x mod p) = (n·inv_degree)·x = x
        lemma_mul_mod_noop_general(inv_degree, n * x, p);
        assert(inv_degree * (n * x) == (n * inv_degree) * x) by (nonlinear_arith);
        lemma_mod_bound(a[j], p);
        if p == 1 {
            assert(x == 0);
            assert((n * inv_degree) * x == 0) by (nonlinear_arith)
                requires
                    x == 0,
            ;
        } else {
            lemma_small_mod(1, p as nat);
            lemma_congruence_mul(n * inv_degree, 1, x, x, p);
            assert(1 * x == x);
            lemma_small_mod(x as nat, p as nat);
        }
    }
    lemma_backward_len(top, log_n, log_n, inv_roots, p);
    lemma_forward_len(a, log_n, log_n, roots, p);
    assert(result =~= reduced(a, p));
}

/// An odd power of `-1` is `-1`: `(p - 1)^(2k+1) = p - 1 (mod p)`.
pub proof fn lemma_odd_power_of_minus_one(k: nat, p: int)
    requires
        p > 1,
    ensures
        pow(p - 1, 2 * k + 1) % p == p - 1,
    decreases k,
{
    lemma_small_mod((p - 1) as nat, p as nat);
    if k == 0 {
        vstd::arithmetic::power::lemma_pow1(p - 1);
    } else {
        lemma_odd_power_of_minus_one((k - 1) as nat, p);
        vstd::arithmetic::power::lemma_pow1(p - 1);
        lemma_pow_product_mod(p - 1, 1, 1, p);
        assert((p - 1) * (p - 1) == 1 + (p - 2) * p) by (nonlinear_arith);
        lemma_mod_unique((p - 1) * (p - 1), 1, p - 2, p);
        lemma_pow_product_mod(p - 1, 2, (2 * k - 1) as nat, p);
        assert(1 * (p - 1) == p - 1);
    }
}

/// **The monomial transform is negacyclic.** The transform of
/// `c·X^(d+N)` is the transform of `-c·X^d`: raising the degree by `N`
/// changes the sign, entry by entry. In particular the transform of
/// `X^d` is the transform of `-X^(d+N)`, and the transform of `-X^d` is
/// the transform of `X^(d+N)`.
pub proof fn lemma_monomial_negacyclic(c: int, omega: int, d: nat, log_n: nat, p: int, i: nat)
    requires
        p > 1,
        pow(omega, pow2(log_n)) % p == p - 1,
    ensures
        monomial_entry(c, omega, d + pow2(log_n), log_n, p, i) == monomial_entry(
            (p - 1) * c,
            omega,
            d,
            log_n,
            p,
            i,
        ),
        monomial_entry((p - 1) * c, omega, d + pow2(log_n), log_n, p, i) == monomial_entry(
            c,
            omega,
            d,
            log_n,
            p,
            i,
        ),
{
    let n = pow2(log_n);
    lemma_pow2_pos(log_n);
    let r = brv(i, log_n);
    let k: nat = 2 * r + 1;
    let e0: nat = k * d;
    let e1: nat = k * (d + n);
    assert(e1 == e0 + k * n) by (nonlinear_arith)
        requires
            e0 == k * d,
            e1 == k * (d + n),
    ;
    lemma_pow_square_of_minus_one(omega, n, p);
    lemma_pow_mod_order(omega, e0, 2 * n, p);
    lemma_pow_mod_order(omega, e1, 2 * n, p);
    // ω^(k·N) = (ω^N)^k = (-1)^k = -1
    assert(k * n == n * k) by (nonlinear_arith);
    lemma_pow_multiplies(omega, n, k);
    lemma_small_mod((p - 1) as nat, p as nat);
    crate::lemmas::lemma_congruence_pow(pow(omega, n), p - 1, k, p);
    lemma_odd_power_of_minus_one(r, p);
    lemma_pow_product_mod(omega, e0, k * n, p);
    let x = pow(omega, e0);
    let y = pow(omega, e1);
    // y ≡ x·(p - 1)
    assert(y % p == ((x % p) * (p - 1)) % p);
    lemma_mod_twice(x, p);
    lemma_congruence_mul(x % p, x, p - 1, p - 1, p);
    let m0 = pow(omega, (e0 % (2 * n)) as nat);
    let m1 = pow(omega, (e1 % (2 * n)) as nat);
    assert(m0 % p == x % p);
    assert(m1 % p == y % p);
    // c·m1 ≡ c·x·(p-1) = ((p-1)·c)·x ≡ ((p-1)·c)·m0
    lemma_congruence_mul(c, c, m1, x * (p - 1), p);
    assert(c * (x * (p - 1)) == ((p - 1) * c) * x) by (nonlinear_arith);
    lemma_congruence_mul((p - 1) * c, (p - 1) * c, x, m0, p);
    // ((p-1)·c)·m1 ≡ (p-1)·c·x·(p-1) = c·x·(p-1)² ≡ c·x ≡ c·m0
    lemma_congruence_mul((p - 1) * c, (p - 1) * c, m1, x * (p - 1), p);
    assert(((p - 1) * c) * (x * (p - 1)) == (c * x) * ((p - 1) * (p - 1))) by (nonlinear_arith);
    assert((p - 1) * (p - 1) == 1 + (p - 2) * p) by (nonlinear_arith);
    lemma_mod_unique((p - 1) * (p - 1), 1, p - 2, p);
    lemma_small_mod(1, p as nat);
    lemma_congruence_mul(c * x, c * x, (p - 1) * (p - 1), 1, p);
    assert((c * x) * 1 == c * x);
    lemma_congruence_mul(c, c, x, m0, p);
}

} // verus!
