//! Greatest common divisors and Bézout coefficients by the binary method.

use crate::lemmas::lemma_mod_unique;
use crate::primitive::{radix, Bits, Word};
use vstd::arithmetic::div_mod::{
    lemma_add_mod_noop,
    lemma_fundamental_div_mod,
    lemma_mul_mod_noop_general,
    lemma_small_mod,
    lemma_sub_mod_noop,
};
use vstd::prelude::*;

verus! {

/// `d` divides `x`.
pub open spec fn divides(d: int, x: int) -> bool {
    d > 0 && x % d == 0
}

/// `g` is the greatest common divisor of `x` and `y`: it divides both, and
/// every common divisor divides it.
pub open spec fn is_gcd(g: int, x: int, y: int) -> bool {
    &&& divides(g, x)
    &&& divides(g, y)
    &&& forall|e: int| divides(e, x) && divides(e, y) ==> #[trigger] divides(e, g)
}

/// `x` and `y` have no common divisor but 1.
pub open spec fn coprime(x: int, y: int) -> bool {
    is_gcd(1, x, y)
}

/// A divisor of two numbers divides their integer combinations.
pub proof fn lemma_divides_combination(e: int, x: int, y: int, a: int, b: int)
    requires
        divides(e, x),
        divides(e, y),
    ensures
        divides(e, a * x + b * y),
{
    lemma_fundamental_div_mod(x, e);
    lemma_fundamental_div_mod(y, e);
    let k = a * (x / e) + b * (y / e);
    assert(a * x + b * y == 0 + k * e) by (nonlinear_arith)
        requires
            x == e * (x / e),
            y == e * (y / e),
            k == a * (x / e) + b * (y / e),
    ;
    lemma_mod_unique(a * x + b * y, 0, k, e);
}

/// A multiple of `e` is divisible by `e`.
pub proof fn lemma_divides_multiple(e: int, k: int)
    requires
        e > 0,
    ensures
        divides(e, k * e),
{
    lemma_mod_unique(k * e, 0, k, e);
}

/// The greatest common divisor is unique.
pub proof fn lemma_gcd_unique(g: int, h: int, x: int, y: int)
    requires
        is_gcd(g, x, y),
        is_gcd(h, x, y),
    ensures
        g == h,
{
    assert(divides(g, h));
    assert(divides(h, g));
    lemma_fundamental_div_mod(h, g);
    lemma_fundamental_div_mod(g, h);
    let p = h / g;
    let q = g / h;
    assert(g == h) by (nonlinear_arith)
        requires
            h == g * p,
            g == h * q,
            g > 0,
            h > 0,
    ;
}

/// With Bézout coefficients for a common divisor `g`, that divisor is the
/// greatest, and stays so when everything is scaled by `k`.
pub proof fn lemma_bezout_gives_gcd(g: int, x: int, y: int, a: int, b: int, k: int)
    requires
        divides(g, x),
        divides(g, y),
        a * x + b * y == g,
        k > 0,
    ensures
        is_gcd(k * g, k * x, k * y),
{
    lemma_fundamental_div_mod(x, g);
    lemma_fundamental_div_mod(y, g);
    assert(k * g > 0) by (nonlinear_arith)
        requires
            k > 0,
            g > 0,
    ;
    assert(k * x == 0 + (x / g) * (k * g)) by (nonlinear_arith)
        requires
            x == g * (x / g),
    ;
    assert(k * y == 0 + (y / g) * (k * g)) by (nonlinear_arith)
        requires
            y == g * (y / g),
    ;
    lemma_mod_unique(k * x, 0, x / g, k * g);
    lemma_mod_unique(k * y, 0, y / g, k * g);
    assert forall|e: int| divides(e, k * x) && divides(e, k * y) implies #[trigger] divides(
        e,
        k * g,
    ) by {
        lemma_divides_combination(e, k * x, k * y, a, b);
        assert(a * (k * x) + b * (k * y) == k * g) by (nonlinear_arith)
            requires
                a * x + b * y == g,
        ;
    }
}

/// In `a·x + b·y = w` with `0 <= w < x + y`, a coefficient `a` in `(-y, y]`
/// forces `b` into `[-x, x]`.
pub proof fn lemma_bezout_bound(a: int, b: int, x: int, y: int, w: int)
    requires
        x > 0,
        y > 0,
        a * x + b * y == w,
        0 <= w < x + y,
        -y < a <= y,
    ensures
        -x <= b <= x,
{
    assert(b * y >= -(x * y)) by (nonlinear_arith)
        requires
            a * x + b * y == w,
            w >= 0,
            a <= y,
            x > 0,
    ;
    assert(b >= -x) by (nonlinear_arith)
        requires
            b * y >= -(x * y),
            y > 0,
    ;
    assert(b * y < (x + 1) * y) by (nonlinear_arith)
        requires
            a * x + b * y == w,
            w < x + y,
            a > -y,
            x > 0,
            y > 0,
    ;
    assert(b < x + 1) by (nonlinear_arith)
        requires
            b * y < (x + 1) * y,
            y > 0,
    ;
}

/// When `a·x + b·y` is even, `x` and `y` are not both even, and `a` and `b`
/// are not both even, then `a + y` and `b + x` are even.
pub proof fn lemma_bezout_parity(a: int, b: int, x: int, y: int)
    requires
        (a * x + b * y) % 2 == 0,
        x % 2 != 0 || y % 2 != 0,
        a % 2 != 0 || b % 2 != 0,
    ensures
        (a + y) % 2 == 0,
        (a - y) % 2 == 0,
        (b + x) % 2 == 0,
        (b - x) % 2 == 0,
{
    lemma_mul_mod_noop_general(a, x, 2);
    lemma_mul_mod_noop_general(b, y, 2);
    lemma_add_mod_noop(a * x, b * y, 2);
    let pa = a % 2;
    let pb = b % 2;
    let px = x % 2;
    let py = y % 2;
    assert(pa * px == if pa == 0 || px == 0 { 0int } else { 1 }) by (nonlinear_arith)
        requires
            0 <= pa <= 1,
            0 <= px <= 1,
    ;
    assert(pb * py == if pb == 0 || py == 0 { 0int } else { 1 }) by (nonlinear_arith)
        requires
            0 <= pb <= 1,
            0 <= py <= 1,
    ;
    lemma_add_mod_noop(a, y, 2);
    lemma_sub_mod_noop(a, y, 2);
    lemma_add_mod_noop(b, x, 2);
    lemma_sub_mod_noop(b, x, 2);
}

/// Half of an even number.
fn half(z: i128) -> (h: i128)
    requires
        z % 2 == 0,
        z > i128::MIN,
    ensures
        2 * h == z,
{
    if z >= 0 {
        z / 2
    } else {
        let n: i128 = (-(z + 1)) + 1;
        -(n / 2)
    }
}

/// Whether a number is even.
fn is_even(z: i128) -> (r: bool)
    ensures
        r == (z % 2 == 0),
{
    if z >= 0 {
        z % 2 == 0
    } else {
        let n: i128 = -(z + 1);
        n % 2 == 1
    }
}

/// One halving of a Bézout row `(a, b)` with `a·x + b·y = 2h`: the row for `h`.
fn halve_row(a: i128, b: i128, x: u64, y: u64, Ghost(h): Ghost<int>) -> (r: (i128, i128))
    requires
        x > 0,
        y > 0,
        x % 2 != 0 || y % 2 != 0,
        a * x + b * y == 2 * h,
        0 <= 2 * h < x + y,
        -y < a <= y,
        -x <= b <= x,
    ensures
        r.0 * x + r.1 * y == h,
        -y < r.0 <= y,
        -x <= r.1 <= x,
{
    proof {
        lemma_mod_unique(2 * h, 0, h, 2);
    }
    let (a2, b2) = if is_even(a) && is_even(b) {
        (half(a), half(b))
    } else {
        proof {
            lemma_bezout_parity(a as int, b as int, x as int, y as int);
        }
        if a > 0 {
            (half(a - (y as i128)), half(b + (x as i128)))
        } else {
            (half(a + (y as i128)), half(b - (x as i128)))
        }
    };
    proof {
        assert(a2 * x + b2 * y == h) by (nonlinear_arith)
            requires
                a * x + b * y == 2 * h,
                (2 * a2 == a && 2 * b2 == b) || (2 * a2 == a - y && 2 * b2 == b + x) || (2 * a2
                    == a + y && 2 * b2 == b - x),
        ;
        lemma_bezout_bound(a2 as int, b2 as int, x as int, y as int, h);
    }
    (a2, b2)
}

/// The difference of two Bézout rows, brought back into range.
fn subtract_row(a: i128, b: i128, c: i128, d: i128, x: u64, y: u64, Ghost(w): Ghost<int>) -> (r: (
    i128,
    i128,
))
    requires
        x > 0,
        y > 0,
        a * x + b * y - (c * x + d * y) == w,
        0 <= w < x + y,
        -y < a <= y,
        -x <= b <= x,
        -y < c <= y,
        -x <= d <= x,
    ensures
        r.0 * x + r.1 * y == w,
        -y < r.0 <= y,
        -x <= r.1 <= x,
{
    let mut a2: i128 = a - c;
    let mut b2: i128 = b - d;
    proof {
        assert(a2 * x + b2 * y == w) by (nonlinear_arith)
            requires
                a * x + b * y - (c * x + d * y) == w,
                a2 == a - c,
                b2 == b - d,
        ;
    }
    if a2 > (y as i128) {
        a2 = a2 - (y as i128);
        b2 = b2 + (x as i128);
    } else if a2 <= -(y as i128) {
        a2 = a2 + (y as i128);
        b2 = b2 - (x as i128);
    }
    proof {
        assert(a2 * x + b2 * y == w) by (nonlinear_arith)
            requires
                (a - c) * x + (b - d) * y == w,
                (a2 == a - c && b2 == b - d) || (a2 == a - c - y && b2 == b - d + x) || (a2 == a
                    - c + y && b2 == b - d - x),
        ;
        lemma_bezout_bound(a2 as int, b2 as int, x as int, y as int, w);
    }
    (a2, b2)
}

/// The extended binary algorithm on 64-bit words.
///
/// Returns `(a, b, g)` with `a·x + b·y = g` and `g` the greatest common
/// divisor of `x` and `y`.
pub fn extended_gcd_u64(x: u64, y: u64) -> (r: (i64, i64, u64))
    requires
        0 < x <= i64::MAX,
        0 < y <= i64::MAX,
    ensures
        r.0 * x + r.1 * y == r.2,
        is_gcd(r.2 as int, x as int, y as int),
        -(y as int) <= r.0 <= y,
        -(x as int) <= r.1 <= x,
{
    // the common factors of two
    let mut g: u64 = 1;
    let mut xs: u64 = x;
    let mut ys: u64 = y;
    while xs % 2 == 0 && ys % 2 == 0
        invariant
            xs > 0,
            ys > 0,
            g > 0,
            xs * g == x,
            ys * g == y,
        decreases xs,
    {
        proof {
            assert((xs / 2) * (2 * g) == xs * g) by (nonlinear_arith)
                requires
                    xs % 2 == 0,
            ;
            assert((ys / 2) * (2 * g) == ys * g) by (nonlinear_arith)
                requires
                    ys % 2 == 0,
            ;
            assert(2 * g <= x) by (nonlinear_arith)
                requires
                    (xs / 2) * (2 * g) == x,
                    xs / 2 >= 1,
                    g > 0,
            ;
        }
        xs = xs / 2;
        ys = ys / 2;
        g = 2 * g;
    }
    proof {
        assert(xs <= x && ys <= y) by (nonlinear_arith)
            requires
                xs * g == x,
                ys * g == y,
                g >= 1,
                xs > 0,
                ys > 0,
        ;
    }
    // a·xs + b·ys = u and c·xs + d·ys = v
    let mut u: u64 = xs;
    let mut v: u64 = ys;
    let mut a: i128 = 1;
    let mut b: i128 = 0;
    let mut c: i128 = 0;
    let mut d: i128 = 1;
    proof {
        assert(1 * xs + 0 * ys == xs);
        assert(0 * xs + 1 * ys == ys);
    }
    loop
        invariant_except_break
            u > 0,
        invariant
            0 < xs <= x,
            0 < ys <= y,
            x <= i64::MAX,
            y <= i64::MAX,
            g > 0,
            xs * g == x,
            ys * g == y,
            xs % 2 != 0 || ys % 2 != 0,
            u <= xs,
            0 < v <= ys,
            a * xs + b * ys == u,
            c * xs + d * ys == v,
            -ys < a <= ys,
            -xs <= b <= xs,
            -ys < c <= ys,
            -xs <= d <= xs,
            forall|e: int| divides(e, u as int) && divides(e, v as int) ==> divides(e, xs as int)
                && divides(e, ys as int),
        ensures
            u == 0,
        decreases u + v,
    {
        let ghost u0 = u;
        let ghost v0 = v;
        while u % 2 == 0
            invariant
                u <= u0,
                0 < xs,
                0 < ys,
                xs <= i64::MAX,
                ys <= i64::MAX,
                xs % 2 != 0 || ys % 2 != 0,
                0 < u <= xs,
                0 < v,
                a * xs + b * ys == u,
                -ys < a <= ys,
                -xs <= b <= xs,
                forall|e: int| divides(e, u as int) && divides(e, v as int) ==> divides(e, xs as int)
                    && divides(e, ys as int),
            decreases u,
        {
            let ghost old_u = u as int;
            let (a2, b2) = halve_row(a, b, xs, ys, Ghost((u / 2) as int));
            u = u / 2;
            a = a2;
            b = b2;
            proof {
                assert forall|e: int| divides(e, u as int) && divides(e, v as int) implies divides(
                    e,
                    xs as int,
                ) && divides(e, ys as int) by {
                    lemma_divides_combination(e, u as int, u as int, 2, 0);
                    assert(2 * (u as int) + 0 * (u as int) == old_u);
                }
            }
        }
        while v % 2 == 0
            invariant
                v <= v0,
                u <= u0,
                0 < xs,
                0 < ys,
                xs <= i64::MAX,
                ys <= i64::MAX,
                xs % 2 != 0 || ys % 2 != 0,
                0 < u,
                0 < v <= ys,
                c * xs + d * ys == v,
                -ys < c <= ys,
                -xs <= d <= xs,
                forall|e: int| divides(e, u as int) && divides(e, v as int) ==> divides(e, xs as int)
                    && divides(e, ys as int),
            decreases v,
        {
            let ghost old_v = v as int;
            let (c2, d2) = halve_row(c, d, xs, ys, Ghost((v / 2) as int));
            v = v / 2;
            c = c2;
            d = d2;
            proof {
                assert forall|e: int| divides(e, u as int) && divides(e, v as int) implies divides(
                    e,
                    xs as int,
                ) && divides(e, ys as int) by {
                    lemma_divides_combination(e, v as int, v as int, 2, 0);
                    assert(2 * (v as int) + 0 * (v as int) == old_v);
                }
            }
        }
        let ghost old_u = u as int;
        let ghost old_v = v as int;
        if u >= v {
            let (a2, b2) = subtract_row(a, b, c, d, xs, ys, Ghost(u - v));
            u = u - v;
            a = a2;
            b = b2;
            proof {
                assert forall|e: int| divides(e, u as int) && divides(e, v as int) implies divides(
                    e,
                    xs as int,
                ) && divides(e, ys as int) by {
                    lemma_divides_combination(e, u as int, v as int, 1, 1);
                    assert(1 * (u as int) + 1 * (v as int) == old_u);
                }
            }
        } else {
            let (c2, d2) = subtract_row(c, d, a, b, xs, ys, Ghost(v - u));
            v = v - u;
            c = c2;
            d = d2;
            proof {
                assert forall|e: int| divides(e, u as int) && divides(e, v as int) implies divides(
                    e,
                    xs as int,
                ) && divides(e, ys as int) by {
                    lemma_divides_combination(e, v as int, u as int, 1, 1);
                    assert(1 * (v as int) + 1 * (u as int) == old_v);
                }
            }
        }
        if u == 0 {
            break;
        }
    }
    proof {
        // v divides xs and ys, and is their combination
        lemma_small_mod(0, v as nat);
        lemma_divides_multiple(v as int, 1);
        assert(divides(v as int, 0));
        assert(divides(v as int, v as int));
        assert(divides(v as int, xs as int) && divides(v as int, ys as int));
        lemma_bezout_gives_gcd(v as int, xs as int, ys as int, c as int, d as int, g as int);
        assert(g * xs == x && g * ys == y) by (nonlinear_arith)
            requires
                xs * g == x,
                ys * g == y,
        ;
        assert(g * v <= y) by (nonlinear_arith)
            requires
                v <= ys,
                ys * g == y,
                g > 0,
        ;
        assert(c * x + d * y == g * v) by (nonlinear_arith)
            requires
                c * xs + d * ys == v,
                xs * g == x,
                ys * g == y,
        ;
    }
    (c as i64, d as i64, g * v)
}


/// **Bézout.** For every two numbers that are not both zero there are
/// integers `x` and `y` with `x·a + y·b = g`, where `g` is their greatest
/// common divisor.
pub proof fn lemma_bezout_exists(a: nat, b: nat) -> (r: (int, int, int))
    requires
        a > 0 || b > 0,
    ensures
        r.0 * a + r.1 * b == r.2,
        is_gcd(r.2, a as int, b as int),
    decreases b,
{
    if b == 0 {
        lemma_divides_multiple(a as int, 1);
        lemma_small_mod(0, a);
        assert(1 * a + 0 * b == a) by (nonlinear_arith)
            requires
                b == 0,
        ;
        (1, 0, a as int)
    } else {
        let q = (a / b) as int;
        let m = a % b;
        lemma_fundamental_div_mod(a as int, b as int);
        let (x, y, g) = lemma_bezout_exists(b, m);
        assert(y * a + (x - q * y) * b == g) by (nonlinear_arith)
            requires
                x * b + y * m == g,
                a == b * q + m,
        ;
        lemma_divides_combination(g, b as int, m as int, q, 1);
        assert(q * b + 1 * m == a) by (nonlinear_arith)
            requires
                a == b * q + m,
        ;
        assert forall|e: int| divides(e, a as int) && divides(e, b as int) implies #[trigger] divides(
            e,
            g,
        ) by {
            lemma_divides_combination(e, a as int, b as int, 1, -q);
            assert(1 * a + (-q) * b == m) by (nonlinear_arith)
                requires
                    a == b * q + m,
            ;
        }
        (y, x - q * y, g)
    }
}

/// A number that is coprime to the modulus and divides a product modulo
/// it: if `a` is coprime to `p` and `p` divides `a·b`, then `p` divides `b`.
pub proof fn lemma_coprime_cancels(a: nat, b: nat, p: nat)
    requires
        p > 0,
        coprime(a as int, p as int),
        (a * b) % p == 0,
    ensures
        b % p == 0,
{
    let (x, y, g) = lemma_bezout_exists(a, p);
    lemma_gcd_unique(g, 1, a as int, p as int);
    lemma_divides_multiple(p as int, y * b);
    lemma_divides_combination(p as int, (a * b) as int, (y * b) * p, x, 1);
    assert(x * (a * b) + 1 * ((y * b) * p) == b) by (nonlinear_arith)
        requires
            x * a + y * p == 1,
    ;
}

/// An odd divisor of `2k` divides `k`.
pub proof fn lemma_odd_divides_half(e: int, k: int)
    requires
        divides(e, 2 * k),
        e % 2 == 1,
    ensures
        divides(e, k),
{
    lemma_fundamental_div_mod(2 * k, e);
    let j = (2 * k) / e;
    lemma_mul_mod_noop_general(e, j, 2);
    lemma_mod_unique(2 * k, 0, k, 2);
    assert((1 * (j % 2)) % 2 == j % 2) by {
        lemma_small_mod((j % 2) as nat, 2);
    }
    let i = j / 2;
    assert(k == 0 + i * e) by (nonlinear_arith)
        requires
            2 * k == e * j,
            j == 2 * i,
    ;
    lemma_mod_unique(k, 0, i, e);
}

/// If `2f` divides `2k`, then `f` divides `k`.
pub proof fn lemma_halves_divide(f: int, k: int)
    requires
        divides(2 * f, 2 * k),
    ensures
        divides(f, k),
{
    lemma_fundamental_div_mod(2 * k, 2 * f);
    let j = (2 * k) / (2 * f);
    assert(k == 0 + j * f) by (nonlinear_arith)
        requires
            2 * k == (2 * f) * j,
    ;
    lemma_mod_unique(k, 0, j, f);
}

/// Doubling both numbers doubles the greatest common divisor.
pub proof fn lemma_gcd_double(h: int, a: int, b: int)
    requires
        is_gcd(h, a, b),
    ensures
        is_gcd(2 * h, 2 * a, 2 * b),
{
    lemma_fundamental_div_mod(a, h);
    lemma_fundamental_div_mod(b, h);
    assert(2 * a == 0 + (a / h) * (2 * h)) by (nonlinear_arith)
        requires
            a == h * (a / h),
    ;
    assert(2 * b == 0 + (b / h) * (2 * h)) by (nonlinear_arith)
        requires
            b == h * (b / h),
    ;
    lemma_mod_unique(2 * a, 0, a / h, 2 * h);
    lemma_mod_unique(2 * b, 0, b / h, 2 * h);
    assert forall|e: int| divides(e, 2 * a) && divides(e, 2 * b) implies #[trigger] divides(
        e,
        2 * h,
    ) by {
        if e % 2 == 1 {
            lemma_odd_divides_half(e, a);
            lemma_odd_divides_half(e, b);
            assert(divides(e, h));
            lemma_divides_combination(e, h, h, 2, 0);
            assert(2 * h + 0 * h == 2 * h);
        } else {
            let f = e / 2;
            assert(e == 2 * f);
            lemma_halves_divide(f, a);
            lemma_halves_divide(f, b);
            assert(divides(f, h));
            lemma_fundamental_div_mod(h, f);
            assert(2 * h == 0 + (h / f) * e) by (nonlinear_arith)
                requires
                    h == f * (h / f),
                    e == 2 * f,
            ;
            lemma_mod_unique(2 * h, 0, h / f, e);
        }
    }
}

/// The greatest common divisor by Stein's binary method, on 64-bit words.
/// Of `0` and `0` it is `0`.
pub fn gcd_u64(x: u64, y: u64) -> (r: u64)
    ensures
        x > 0 || y > 0 ==> is_gcd(r as int, x as int, y as int),
        x == 0 && y == 0 ==> r == 0,
{
    if x == 0 || y == 0 {
        proof {
            let r = (if x == 0 { y } else { x }) as int;
            if r > 0 {
                lemma_small_mod(0, r as nat);
                lemma_divides_multiple(r, 1);
                assert(divides(r, r));
            }
        }
        return if x == 0 { y } else { x };
    }
    let mut g: u64 = 1;
    let mut m: u64 = x;
    let mut n: u64 = y;
    // divide out the common factors of two
    while m % 2 == 0 && n % 2 == 0
        invariant
            m > 0,
            n > 0,
            g > 0,
            m * g <= x,
            forall|h: int| is_gcd(h, m as int, n as int) ==> is_gcd(h * g, x as int, y as int),
        decreases m,
    {
        let ghost old_m = m as int;
        let ghost old_n = n as int;
        let ghost old_g = g as int;
        proof {
            assert((m / 2) * (2 * g) == m * g) by (nonlinear_arith)
                requires
                    m % 2 == 0,
            ;
            assert(2 * g <= x) by (nonlinear_arith)
                requires
                    (m / 2) * (2 * g) <= x,
                    m / 2 >= 1,
                    g > 0,
            ;
        }
        m = m / 2;
        n = n / 2;
        g = 2 * g;
        proof {
            assert forall|h: int| is_gcd(h, m as int, n as int) implies is_gcd(
                h * g,
                x as int,
                y as int,
            ) by {
                lemma_gcd_double(h, m as int, n as int);
                assert(2 * (m as int) == old_m && 2 * (n as int) == old_n);
                assert((2 * h) * old_g == h * g) by (nonlinear_arith)
                    requires
                        g == 2 * old_g,
                ;
            }
        }
    }
    let ghost xs = m as int;
    let ghost ys = n as int;
    // from here on every common divisor is odd
    while m % 2 == 0
        invariant
            m > 0,
            n > 0,
            m <= xs,
            xs % 2 != 0 || ys % 2 != 0,
            forall|e: int| (divides(e, m as int) && divides(e, n as int)) <==> (divides(e, xs)
                && divides(e, ys)),
        decreases m,
    {
        let ghost old_m = m as int;
        m = m / 2;
        proof {
            assert forall|e: int| (divides(e, m as int) && divides(e, n as int)) <==> (divides(
                e,
                xs,
            ) && divides(e, ys)) by {
                if divides(e, m as int) && divides(e, n as int) {
                    lemma_divides_combination(e, m as int, m as int, 2, 0);
                    assert(2 * (m as int) + 0 * (m as int) == old_m);
                }
                if divides(e, xs) && divides(e, ys) {
                    lemma_common_divisor_odd(e, xs, ys);
                    assert(divides(e, old_m));
                    lemma_odd_divides_half(e, m as int);
                }
            }
        }
    }
    while n % 2 == 0
        invariant
            m > 0,
            n > 0,
            m <= xs,
            n <= ys,
            xs % 2 != 0 || ys % 2 != 0,
            forall|e: int| (divides(e, m as int) && divides(e, n as int)) <==> (divides(e, xs)
                && divides(e, ys)),
        decreases n,
    {
        let ghost old_n = n as int;
        n = n / 2;
        proof {
            assert forall|e: int| (divides(e, m as int) && divides(e, n as int)) <==> (divides(
                e,
                xs,
            ) && divides(e, ys)) by {
                if divides(e, m as int) && divides(e, n as int) {
                    lemma_divides_combination(e, n as int, n as int, 2, 0);
                    assert(2 * (n as int) + 0 * (n as int) == old_n);
                }
                if divides(e, xs) && divides(e, ys) {
                    lemma_common_divisor_odd(e, xs, ys);
                    assert(divides(e, old_n));
                    lemma_odd_divides_half(e, n as int);
                }
            }
        }
    }
    while m != n
        invariant
            m > 0,
            n > 0,
            m <= xs,
            xs % 2 != 0 || ys % 2 != 0,
            forall|e: int| (divides(e, m as int) && divides(e, n as int)) <==> (divides(e, xs)
                && divides(e, ys)),
        decreases m + n,
    {
        let ghost m0 = m as int;
        let ghost n0 = n as int;
        if m > n {
            m = m - n;
            proof {
                assert forall|e: int| (divides(e, m as int) && divides(e, n as int)) <==> (divides(
                    e,
                    xs,
                ) && divides(e, ys)) by {
                    if divides(e, m as int) && divides(e, n as int) {
                        lemma_divides_combination(e, m as int, n as int, 1, 1);
                        assert(1 * (m as int) + 1 * (n as int) == m0);
                    }
                    if divides(e, xs) && divides(e, ys) {
                        lemma_divides_combination(e, m0, n0, 1, -1);
                        assert(1 * m0 + (-1) * n0 == m as int);
                    }
                }
            }
            while m % 2 == 0
                invariant
                    m > 0,
                    n > 0,
                    m < m0,
                    n == n0,
                    xs % 2 != 0 || ys % 2 != 0,
                    forall|e: int| (divides(e, m as int) && divides(e, n as int)) <==> (divides(
                        e,
                        xs,
                    ) && divides(e, ys)),
                decreases m,
            {
                let ghost old_m = m as int;
                m = m / 2;
                proof {
                    assert forall|e: int| (divides(e, m as int) && divides(e, n as int)) <==> (
                    divides(e, xs) && divides(e, ys)) by {
                        if divides(e, m as int) && divides(e, n as int) {
                            lemma_divides_combination(e, m as int, m as int, 2, 0);
                            assert(2 * (m as int) + 0 * (m as int) == old_m);
                        }
                        if divides(e, xs) && divides(e, ys) {
                            lemma_common_divisor_odd(e, xs, ys);
                            assert(divides(e, old_m));
                            lemma_odd_divides_half(e, m as int);
                        }
                    }
                }
            }
        } else {
            n = n - m;
            proof {
                assert forall|e: int| (divides(e, m as int) && divides(e, n as int)) <==> (divides(
                    e,
                    xs,
                ) && divides(e, ys)) by {
                    if divides(e, m as int) && divides(e, n as int) {
                        lemma_divides_combination(e, n as int, m as int, 1, 1);
                        assert(1 * (n as int) + 1 * (m as int) == n0);
                    }
                    if divides(e, xs) && divides(e, ys) {
                        lemma_divides_combination(e, n0, m0, 1, -1);
                        assert(1 * n0 + (-1) * m0 == n as int);
                    }
                }
            }
            while n % 2 == 0
                invariant
                    m > 0,
                    n > 0,
                    n < n0,
                    m == m0,
                    xs % 2 != 0 || ys % 2 != 0,
                    forall|e: int| (divides(e, m as int) && divides(e, n as int)) <==> (divides(
                        e,
                        xs,
                    ) && divides(e, ys)),
                decreases n,
            {
                let ghost old_n = n as int;
                n = n / 2;
                proof {
                    assert forall|e: int| (divides(e, m as int) && divides(e, n as int)) <==> (
                    divides(e, xs) && divides(e, ys)) by {
                        if divides(e, m as int) && divides(e, n as int) {
                            lemma_divides_combination(e, n as int, n as int, 2, 0);
                            assert(2 * (n as int) + 0 * (n as int) == old_n);
                        }
                        if divides(e, xs) && divides(e, ys) {
                            lemma_common_divisor_odd(e, xs, ys);
                            assert(divides(e, old_n));
                            lemma_odd_divides_half(e, n as int);
                        }
                    }
                }
            }
        }
    }
    proof {
        lemma_divides_multiple(m as int, 1);
        assert(divides(m as int, m as int));
        assert(is_gcd(m as int, xs, ys));
        assert(m * g <= x) by (nonlinear_arith)
            requires
                m <= xs,
                xs * g <= x,
                g > 0,
        ;
        assert((m as int) * (g as int) == (m * g) as int);
    }
    m * g
}

/// A common divisor of two numbers that are not both even is odd.
pub proof fn lemma_common_divisor_odd(e: int, x: int, y: int)
    requires
        divides(e, x),
        divides(e, y),
        x % 2 != 0 || y % 2 != 0,
    ensures
        e % 2 == 1,
{
    if e % 2 == 0 {
        lemma_fundamental_div_mod(e, 2);
        let f = e / 2;
        lemma_fundamental_div_mod(x, e);
        lemma_fundamental_div_mod(y, e);
        assert(x == 0 + ((x / e) * f) * 2) by (nonlinear_arith)
            requires
                x == e * (x / e),
                e == 2 * f,
        ;
        assert(y == 0 + ((y / e) * f) * 2) by (nonlinear_arith)
            requires
                y == e * (y / e),
                e == 2 * f,
        ;
        lemma_mod_unique(x, 0, (x / e) * f, 2);
        lemma_mod_unique(y, 0, (y / e) * f, 2);
    }
}

/// Greatest common divisors and Bézout coefficients of words.
pub trait ExtendedGCD: Word {
    /// The signed type of the same width, for the coefficients.
    type SignedT;

    /// The number that a coefficient stands for.
    spec fn signed_val(s: Self::SignedT) -> int;

    /// The greatest common divisor of `self` and `other`; `0` when both are `0`.
    fn gcd(self, other: Self) -> (g: Self)
        ensures
            self.val() > 0 || other.val() > 0 ==> is_gcd(
                g.val() as int,
                self.val() as int,
                other.val() as int,
            ),
            self.val() == 0 && other.val() == 0 ==> g.val() == 0,
    ;

    /// Whether `self` and `other` have no common divisor above 1.
    fn coprime(self, other: Self) -> (r: bool)
        ensures
            self.val() > 0 || other.val() > 0 ==> r == coprime(
                self.val() as int,
                other.val() as int,
            ),
            self.val() == 0 && other.val() == 0 ==> r,
    ;

    /// Whether `self` and `other` have a common divisor above 1.
    fn not_coprime(self, other: Self) -> (r: bool)
        ensures
            self.val() > 0 || other.val() > 0 ==> r == !coprime(
                self.val() as int,
                other.val() as int,
            ),
            self.val() == 0 && other.val() == 0 ==> !r,
    ;

    /// Integers `a`, `b` and `g` with `a·x + b·y = g`, where `g` is the
    /// greatest common divisor of `x` and `y`. Both inputs are positive and
    /// fit the signed type.
    fn extended_gcd(x: Self, y: Self) -> (r: (Self::SignedT, Self::SignedT, Self))
        requires
            0 < x.val(),
            0 < y.val(),
            2 * x.val() < radix::<Self>(),
            2 * y.val() < radix::<Self>(),
        ensures
            Self::signed_val(r.0) * x.val() + Self::signed_val(r.1) * y.val() == r.2.val(),
            is_gcd(r.2.val() as int, x.val() as int, y.val() as int),
            -(y.val() as int) <= Self::signed_val(r.0) <= y.val(),
            -(x.val() as int) <= Self::signed_val(r.1) <= x.val(),
    ;
}

/// The greatest common divisor of two positive numbers is at most each of them.
pub proof fn lemma_gcd_at_most(g: int, x: int, y: int)
    requires
        is_gcd(g, x, y),
        x > 0,
    ensures
        g <= x,
{
    lemma_fundamental_div_mod(x, g);
    let q = x / g;
    assert(g <= x) by (nonlinear_arith)
        requires
            x == g * q,
            x > 0,
            g > 0,
    ;
}

impl ExtendedGCD for u8 {
    type SignedT = i8;

    open spec fn signed_val(s: i8) -> int {
        s as int
    }

    fn gcd(self, other: u8) -> (g: u8) {
        let r = gcd_u64(self as u64, other as u64);
        proof {
            if self > 0 {
                lemma_gcd_at_most(r as int, self as int, other as int);
            } else if other > 0 {
                lemma_gcd_at_most(r as int, other as int, self as int);
            }
        }
        r as u8
    }

    fn coprime(self, other: u8) -> (r: bool) {
        let g = gcd_u64(self as u64, other as u64);
        proof {
            if self > 0 || other > 0 {
                if coprime(self as int, other as int) {
                    lemma_gcd_unique(g as int, 1, self as int, other as int);
                }
            }
        }
        g <= 1
    }

    fn not_coprime(self, other: u8) -> (r: bool) {
        let g = gcd_u64(self as u64, other as u64);
        proof {
            if self > 0 || other > 0 {
                if coprime(self as int, other as int) {
                    lemma_gcd_unique(g as int, 1, self as int, other as int);
                }
            }
        }
        g > 1
    }

    fn extended_gcd(x: u8, y: u8) -> (r: (i8, i8, u8)) {
        proof {
            vstd::arithmetic::power2::lemma2_to64();
            vstd::arithmetic::power2::lemma2_to64_rest();
        }
        let (a, b, g) = extended_gcd_u64(x as u64, y as u64);
        proof {
            lemma_gcd_at_most(g as int, x as int, y as int);
        }
        (a as i8, b as i8, g as u8)
    }
}

impl ExtendedGCD for u16 {
    type SignedT = i16;

    open spec fn signed_val(s: i16) -> int {
        s as int
    }

    fn gcd(self, other: u16) -> (g: u16) {
        let r = gcd_u64(self as u64, other as u64);
        proof {
            if self > 0 {
                lemma_gcd_at_most(r as int, self as int, other as int);
            } else if other > 0 {
                lemma_gcd_at_most(r as int, other as int, self as int);
            }
        }
        r as u16
    }

    fn coprime(self, other: u16) -> (r: bool) {
        let g = gcd_u64(self as u64, other as u64);
        proof {
            if self > 0 || other > 0 {
                if coprime(self as int, other as int) {
                    lemma_gcd_unique(g as int, 1, self as int, other as int);
                }
            }
        }
        g <= 1
    }

    fn not_coprime(self, other: u16) -> (r: bool) {
        let g = gcd_u64(self as u64, other as u64);
        proof {
            if self > 0 || other > 0 {
                if coprime(self as int, other as int) {
                    lemma_gcd_unique(g as int, 1, self as int, other as int);
                }
            }
        }
        g > 1
    }

    fn extended_gcd(x: u16, y: u16) -> (r: (i16, i16, u16)) {
        proof {
            vstd::arithmetic::power2::lemma2_to64();
            vstd::arithmetic::power2::lemma2_to64_rest();
        }
        let (a, b, g) = extended_gcd_u64(x as u64, y as u64);
        proof {
            lemma_gcd_at_most(g as int, x as int, y as int);
        }
        (a as i16, b as i16, g as u16)
    }
}

impl ExtendedGCD for u32 {
    type SignedT = i32;

    open spec fn signed_val(s: i32) -> int {
        s as int
    }

    fn gcd(self, other: u32) -> (g: u32) {
        let r = gcd_u64(self as u64, other as u64);
        proof {
            if self > 0 {
                lemma_gcd_at_most(r as int, self as int, other as int);
            } else if other > 0 {
                lemma_gcd_at_most(r as int, other as int, self as int);
            }
        }
        r as u32
    }

    fn coprime(self, other: u32) -> (r: bool) {
        let g = gcd_u64(self as u64, other as u64);
        proof {
            if self > 0 || other > 0 {
                if coprime(self as int, other as int) {
                    lemma_gcd_unique(g as int, 1, self as int, other as int);
                }
            }
        }
        g <= 1
    }

    fn not_coprime(self, other: u32) -> (r: bool) {
        let g = gcd_u64(self as u64, other as u64);
        proof {
            if self > 0 || other > 0 {
                if coprime(self as int, other as int) {
                    lemma_gcd_unique(g as int, 1, self as int, other as int);
                }
            }
        }
        g > 1
    }

    fn extended_gcd(x: u32, y: u32) -> (r: (i32, i32, u32)) {
        proof {
            vstd::arithmetic::power2::lemma2_to64();
            vstd::arithmetic::power2::lemma2_to64_rest();
        }
        let (a, b, g) = extended_gcd_u64(x as u64, y as u64);
        proof {
            lemma_gcd_at_most(g as int, x as int, y as int);
        }
        (a as i32, b as i32, g as u32)
    }
}

impl ExtendedGCD for u64 {
    type SignedT = i64;

    open spec fn signed_val(s: i64) -> int {
        s as int
    }

    fn gcd(self, other: u64) -> (g: u64) {
        let r = gcd_u64(self as u64, other as u64);
        proof {
            if self > 0 {
                lemma_gcd_at_most(r as int, self as int, other as int);
            } else if other > 0 {
                lemma_gcd_at_most(r as int, other as int, self as int);
            }
        }
        r as u64
    }

    fn coprime(self, other: u64) -> (r: bool) {
        let g = gcd_u64(self as u64, other as u64);
        proof {
            if self > 0 || other > 0 {
                if coprime(self as int, other as int) {
                    lemma_gcd_unique(g as int, 1, self as int, other as int);
                }
            }
        }
        g <= 1
    }

    fn not_coprime(self, other: u64) -> (r: bool) {
        let g = gcd_u64(self as u64, other as u64);
        proof {
            if self > 0 || other > 0 {
                if coprime(self as int, other as int) {
                    lemma_gcd_unique(g as int, 1, self as int, other as int);
                }
            }
        }
        g > 1
    }

    fn extended_gcd(x: u64, y: u64) -> (r: (i64, i64, u64)) {
        proof {
            vstd::arithmetic::power2::lemma2_to64();
            vstd::arithmetic::power2::lemma2_to64_rest();
        }
        let (a, b, g) = extended_gcd_u64(x as u64, y as u64);
        proof {
            lemma_gcd_at_most(g as int, x as int, y as int);
        }
        (a as i64, b as i64, g as u64)
    }
}

} // verus!
