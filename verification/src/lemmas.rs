//! Facts of integer arithmetic that the reductions rest on.

use vstd::arithmetic::div_mod::{
    lemma_add_mod_noop, lemma_div_denominator, lemma_fundamental_div_mod,
    lemma_fundamental_div_mod_converse, lemma_mod_bound, lemma_mod_multiples_vanish,
    lemma_mod_twice, lemma_mul_mod_noop_general, lemma_small_mod, lemma_sub_mod_noop_right,
};
use vstd::arithmetic::power::{
    lemma_pow_adds,
    lemma_pow_mod_noop,
    lemma_pow_multiplies,
    lemma_square_is_pow2,
    pow,
};
use vstd::prelude::*;

verus! {

/// A number that differs from `r` by a multiple of `b` has remainder `r`, if `0 <= r < b`.
pub proof fn lemma_mod_unique(a: int, r: int, k: int, b: int)
    requires
        b > 0,
        0 <= r < b,
        a == r + k * b,
    ensures
        a % b == r,
        a / b == k,
{
    lemma_fundamental_div_mod_converse(a, b, k, r);
}

/// Two numbers with the same remainder differ by a multiple of the modulus.
pub proof fn lemma_congruent_difference(a: int, c: int, b: int) -> (k: int)
    requires
        b > 0,
        a % b == c % b,
    ensures
        a == c + k * b,
{
    lemma_fundamental_div_mod(a, b);
    lemma_fundamental_div_mod(c, b);
    let k = a / b - c / b;
    assert(a == c + k * b) by (nonlinear_arith)
        requires
            a == b * (a / b) + a % b,
            c == b * (c / b) + c % b,
            a % b == c % b,
            k == a / b - c / b,
    ;
    k
}

/// Barrett's estimate: with `mu = ⌊bb / m⌋` and `q = ⌊x·mu / bb⌋`, the
/// quotient `q` is `⌊x / m⌋` or one less, for every `0 <= x < bb`.
pub proof fn lemma_barrett_quotient(x: int, m: int, bb: int)
    requires
        0 < m,
        0 <= x < bb,
    ensures
        0 <= (x * (bb / m)) / bb,
        ((x * (bb / m)) / bb) * m <= x,
        x < ((x * (bb / m)) / bb + 2) * m,
{
    let mu = bb / m;
    let q = (x * mu) / bb;
    lemma_fundamental_div_mod(bb, m);
    lemma_mod_bound(bb, m);
    assert(mu >= 0) by (nonlinear_arith)
        requires
            bb == m * mu + bb % m,
            0 <= bb % m < m,
            bb > 0,
            m > 0,
    ;
    assert(mu * m <= bb && bb < (mu + 1) * m) by (nonlinear_arith)
        requires
            bb == m * mu + bb % m,
            0 <= bb % m < m,
    ;
    assert(x * mu >= 0) by (nonlinear_arith)
        requires
            x >= 0,
            mu >= 0,
    ;
    lemma_fundamental_div_mod(x * mu, bb);
    lemma_mod_bound(x * mu, bb);
    let rem = (x * mu) % bb;
    assert(q >= 0) by (nonlinear_arith)
        requires
            x * mu == bb * q + rem,
            0 <= rem < bb,
            x * mu >= 0,
    ;
    // q·m ≤ x
    assert(q * bb <= x * mu) by (nonlinear_arith)
        requires
            x * mu == bb * q + rem,
            0 <= rem,
    ;
    assert((q * bb) * m <= (x * mu) * m) by (nonlinear_arith)
        requires
            q * bb <= x * mu,
            m > 0,
    ;
    assert((x * mu) * m <= x * bb) by (nonlinear_arith)
        requires
            mu * m <= bb,
            x >= 0,
    ;
    assert((q * m) * bb == (q * bb) * m) by (nonlinear_arith);
    assert(q * m <= x) by (nonlinear_arith)
        requires
            (q * m) * bb <= x * bb,
            bb > 0,
    ;
    // x < (q + 2)·m
    assert(x * mu < (q + 1) * bb) by (nonlinear_arith)
        requires
            x * mu == bb * q + rem,
            rem < bb,
    ;
    assert((x * mu) * m < ((q + 1) * bb) * m) by (nonlinear_arith)
        requires
            x * mu < (q + 1) * bb,
            m > 0,
    ;
    assert(x * bb <= x * ((mu + 1) * m)) by (nonlinear_arith)
        requires
            bb < (mu + 1) * m,
            x >= 0,
    ;
    assert(x * ((mu + 1) * m) == (x * mu) * m + x * m) by (nonlinear_arith);
    assert(x * m < bb * m) by (nonlinear_arith)
        requires
            x < bb,
            m > 0,
    ;
    assert(((q + 1) * bb) * m + bb * m == ((q + 2) * m) * bb) by (nonlinear_arith);
    assert(x < (q + 2) * m) by (nonlinear_arith)
        requires
            x * bb < ((q + 2) * m) * bb,
            bb > 0,
    ;
}

/// Dividing twice by `beta` is dividing once by `beta²`.
pub proof fn lemma_two_step_quotient(a: int, b: int, beta: int)
    requires
        beta > 0,
        a >= 0,
        b >= 0,
    ensures
        (a + b / beta) / beta == (a * beta + b) / (beta * beta),
{
    lemma_fundamental_div_mod(b, beta);
    lemma_mod_bound(b, beta);
    assert(a * beta + b == (a + b / beta) * beta + b % beta) by (nonlinear_arith)
        requires
            b == beta * (b / beta) + b % beta,
    ;
    lemma_fundamental_div_mod_converse(a * beta + b, beta, a + b / beta, b % beta);
    assert(a * beta + b >= 0) by (nonlinear_arith)
        requires
            a >= 0,
            b >= 0,
            beta > 0,
    ;
    lemma_div_denominator(a * beta + b, beta, beta);
}

/// The wrapping subtraction at the end of a reduction is exact: if `lo` is
/// the low word of `x`, `t` the low word of the quotient `q`, and the true
/// remainder `x - q·m` is a word, then `lo - t·m` taken modulo `beta` twice
/// is that remainder.
pub proof fn lemma_wrapped_remainder(lo: int, x: int, t: int, q: int, m: int, beta: int)
    requires
        beta > 0,
        lo % beta == x % beta,
        t % beta == q % beta,
        0 <= x - q * m < beta,
    ensures
        (lo - (t * m) % beta) % beta == x - q * m,
{
    lemma_sub_mod_noop_right(lo, t * m, beta);
    let k1 = lemma_congruent_difference(lo, x, beta);
    let k2 = lemma_congruent_difference(t, q, beta);
    let k = k1 - k2 * m;
    assert(lo - t * m == (x - q * m) + k * beta) by (nonlinear_arith)
        requires
            lo == x + k1 * beta,
            t == q + k2 * beta,
            k == k1 - k2 * m,
    ;
    lemma_mod_unique(lo - t * m, x - q * m, k, beta);
}

/// A lazy remainder, brought below the modulus by one subtraction, is the remainder.
pub proof fn lemma_normalize(r: int, x: int, m: int)
    requires
        m > 0,
        0 <= r < 2 * m,
        r % m == x % m,
    ensures
        (if r >= m { r - m } else { r }) == x % m,
{
    if r >= m {
        lemma_mod_unique(r, r - m, 1, m);
    } else {
        lemma_small_mod(r as nat, m as nat);
    }
}

/// Congruent factors and summands give congruent results.
pub proof fn lemma_congruence_mul_add(a: int, a2: int, c: int, d: int, m: int)
    requires
        m > 0,
        a % m == a2 % m,
    ensures
        (d + c * a) % m == (d + c * a2) % m,
        (a * c) % m == (a2 * c) % m,
{
    lemma_mul_mod_noop_general(c, a, m);
    lemma_mul_mod_noop_general(c, a2, m);
    lemma_mul_mod_noop_general(a, c, m);
    lemma_mul_mod_noop_general(a2, c, m);
    lemma_add_mod_noop(d, c * a, m);
    lemma_add_mod_noop(d, c * a2, m);
}

/// `x - q·m` is congruent to `x` modulo `m`.
pub proof fn lemma_sub_multiple(x: int, q: int, m: int)
    requires
        m > 0,
    ensures
        (x - q * m) % m == x % m,
{
    lemma_mod_multiples_vanish(-q, x, m);
    assert(m * (-q) + x == x - q * m) by (nonlinear_arith);
}

/// Congruent factors give congruent products.
pub proof fn lemma_congruence_mul(a: int, a2: int, c: int, c2: int, m: int)
    requires
        m > 0,
        a % m == a2 % m,
        c % m == c2 % m,
    ensures
        (a * c) % m == (a2 * c2) % m,
{
    lemma_mul_mod_noop_general(a, c, m);
    lemma_mul_mod_noop_general(a2, c2, m);
}

/// Powers of congruent bases are congruent.
pub proof fn lemma_congruence_pow(a: int, a2: int, e: nat, m: int)
    requires
        m > 0,
        a % m == a2 % m,
    ensures
        pow(a, e) % m == pow(a2, e) % m,
{
    lemma_pow_mod_noop(a, e, m);
    lemma_pow_mod_noop(a2, e, m);
}

/// Squaring the base halves the exponent: `(b²)^k = b^(2k)`.
pub proof fn lemma_pow_of_square(b: int, k: nat)
    ensures
        pow(b * b, k) == pow(b, 2 * k),
{
    lemma_square_is_pow2(b);
    lemma_pow_multiplies(b, 2, k);
}

/// `b^(e+1) = b · b^e`.
pub proof fn lemma_pow_succ(b: int, e: nat)
    ensures
        pow(b, e + 1) == b * pow(b, e),
{
    reveal(pow);
}

/// One round of square-and-multiply keeps `acc · base^(2·⌊e/2⌋)` unchanged
/// modulo `m`, where `base2` is the square of `base`, the exponent is halved,
/// and `acc2` takes up `base2` when the halved exponent is odd.
pub proof fn lemma_pow_round(acc: int, acc2: int, base: int, base2: int, e: nat, m: int)
    requires
        m > 0,
        base2 % m == (base * base) % m,
        acc2 % m == (if (e / 2) % 2 == 1 { acc * base2 } else { acc }) % m,
    ensures
        (acc2 * pow(base2, 2 * ((e / 2) / 2))) % m == (acc * pow(base, 2 * (e / 2))) % m,
{
    let k: nat = e / 2;
    lemma_congruence_pow(base2, base * base, k, m);
    lemma_pow_of_square(base, k);
    assert(pow(base2, k) % m == pow(base, 2 * k) % m);
    if k % 2 == 1 {
        let j: nat = k / 2;
        assert(k == 2 * j + 1);
        lemma_pow_succ(base2, 2 * j);
        // acc2 · base2^(2j) ≡ acc · base2 · base2^(2j) = acc · base2^k
        lemma_congruence_mul(acc2, acc * base2, pow(base2, 2 * j), pow(base2, 2 * j), m);
        assert((acc * base2) * pow(base2, 2 * j) == acc * pow(base2, k)) by (nonlinear_arith)
            requires
                pow(base2, k) == base2 * pow(base2, 2 * j),
        ;
        lemma_congruence_mul(acc, acc, pow(base2, k), pow(base, 2 * k), m);
    } else {
        assert(2 * (k / 2) == k);
        lemma_congruence_mul(acc2, acc, pow(base2, k), pow(base, 2 * k), m);
    }
}

/// The product of two powers, each reduced, is the power of the sum of the exponents.
pub proof fn lemma_pow_product_mod(w: int, a: nat, b: nat, p: int)
    requires
        p > 0,
    ensures
        ((pow(w, a) % p) * (pow(w, b) % p)) % p == pow(w, a + b) % p,
{
    lemma_mul_mod_noop_general(pow(w, a), pow(w, b), p);
    lemma_pow_adds(w, a, b);
}

/// If `w^n = -1 (mod p)` then `w^(2n) = 1 (mod p)`.
pub proof fn lemma_pow_square_of_minus_one(w: int, n: nat, p: int)
    requires
        p > 1,
        pow(w, n) % p == p - 1,
    ensures
        pow(w, 2 * n) % p == 1,
{
    lemma_pow_product_mod(w, n, n, p);
    assert((p - 1) * (p - 1) == 1 + (p - 2) * p) by (nonlinear_arith);
    lemma_mod_unique((p - 1) * (p - 1), 1, p - 2, p);
}

/// Exponents that differ by a multiple of the order give the same power:
/// if `w^d = 1 (mod p)` then `w^e = w^(e mod d) (mod p)`.
pub proof fn lemma_pow_mod_order(w: int, e: nat, d: nat, p: int)
    requires
        p > 1,
        d > 0,
        pow(w, d) % p == 1,
    ensures
        pow(w, e) % p == pow(w, e % d) % p,
    decreases e,
{
    if e < d {
        lemma_small_mod(e, d);
    } else {
        lemma_pow_mod_order(w, (e - d) as nat, d, p);
        lemma_pow_product_mod(w, (e - d) as nat, d, p);
        lemma_mod_twice(pow(w, (e - d) as nat), p);
        assert((pow(w, (e - d) as nat) % p) * 1 == pow(w, (e - d) as nat) % p);
        vstd::arithmetic::div_mod::lemma_mod_sub_multiples_vanish(e as int, d as int);
    }
}

} // verus!
