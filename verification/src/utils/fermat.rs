//! Fermat's little theorem: for a prime `p` and a base `g` that `p` does
//! not divide, `g^(p-1) = 1 (mod p)`.
//!
//! The multiples `g·1, g·2, …, g·(p-1)` are, modulo `p`, the numbers
//! `1, …, p-1` in another order. So their product is `(p-1)!` on the one
//! hand and `g^(p-1) · (p-1)!` on the other, and `(p-1)!` can be
//! cancelled.

use crate::lemmas::{lemma_congruence_mul, lemma_mod_unique, lemma_pow_succ};
use crate::utils::gcd::{coprime, divides, lemma_coprime_cancels};
use vstd::arithmetic::div_mod::{
    lemma_fundamental_div_mod, lemma_mod_bound, lemma_mod_twice, lemma_small_mod,
    lemma_sub_mod_noop,
};
use vstd::arithmetic::power::{lemma_pow0, lemma_pow_positive, pow};
use vstd::prelude::*;

verus! {

/// `p` is prime: it is at least 2, and no number between 1 and `p` divides it.
pub open spec fn is_prime(p: int) -> bool {
    p >= 2 && forall|d: int| 1 < d < p ==> #[trigger] (p % d) != 0
}

/// Every number from 1 to `p - 1` is coprime to the prime `p`.
pub proof fn lemma_prime_coprime(a: int, p: int)
    requires
        is_prime(p),
        0 < a < p,
    ensures
        coprime(a, p),
{
    lemma_small_mod(0, 1);
    assert(a % 1 == 0 && p % 1 == 0);
    assert forall|e: int| divides(e, a) && divides(e, p) implies #[trigger] divides(e, 1) by {
        lemma_fundamental_div_mod(a, e);
        let k = a / e;
        assert(e <= a) by (nonlinear_arith)
            requires
                a == e * k,
                a > 0,
                e > 0,
        ;
        if e > 1 {
            assert(p % e != 0);
        }
    }
}

/// A prime that divides a product divides one of the factors: if `p`
/// divides neither `a` nor `b`, it does not divide `a·b`.
pub proof fn lemma_prime_product(a: nat, b: nat, p: nat)
    requires
        is_prime(p as int),
        a % p != 0,
        b % p != 0,
    ensures
        (a * b) % p != 0,
{
    let r = a % p;
    lemma_mod_bound(a as int, p as int);
    lemma_prime_coprime(r as int, p as int);
    if (a * b) % p == 0 {
        lemma_mod_twice(a as int, p as int);
        lemma_congruence_mul(r as int, a as int, b as int, b as int, p as int);
        lemma_coprime_cancels(r, b, p);
    }
}

/// The product of the entries of a sequence.
pub open spec fn product(s: Seq<int>) -> int
    decreases s.len(),
{
    if s.len() == 0 {
        1
    } else {
        product(s.drop_last()) * s.last()
    }
}

/// The factorial `n!`.
pub open spec fn factorial(n: nat) -> int
    decreases n,
{
    if n == 0 {
        1
    } else {
        n * factorial((n - 1) as nat)
    }
}

/// The product of two sequences in a row is the product of their products.
pub proof fn lemma_product_concat(a: Seq<int>, b: Seq<int>)
    ensures
        product(a + b) == product(a) * product(b),
    decreases b.len(),
{
    if b.len() == 0 {
        assert(a + b =~= a);
        assert(product(a) * 1 == product(a));
    } else {
        lemma_product_concat(a, b.drop_last());
        assert((a + b).drop_last() =~= a + b.drop_last());
        assert((a + b).last() == b.last());
        assert((product(a) * product(b.drop_last())) * b.last() == product(a) * (product(
            b.drop_last(),
        ) * b.last())) by (nonlinear_arith);
    }
}

/// The sequence holds `n` different numbers from 1 to `n`.
pub open spec fn is_arrangement(s: Seq<int>, n: nat) -> bool {
    &&& s.len() == n
    &&& forall|i: int| 0 <= i < n ==> 1 <= #[trigger] s[i] <= n
    &&& forall|i: int, j: int| 0 <= i < j < n ==> #[trigger] s[i] != #[trigger] s[j]
}

/// `n` different numbers from 1 to `n` are all of them, and their product is `n!`.
pub proof fn lemma_arrangement(s: Seq<int>, n: nat)
    requires
        is_arrangement(s, n),
    ensures
        forall|v: int| 1 <= v <= n ==> #[trigger] s.contains(v),
        product(s) == factorial(n),
    decreases n,
{
    if n > 0 {
        let top = n as int;
        if s.contains(top) {
            let k = choose|k: int| 0 <= k < s.len() && s[k] == top;
            let front = s.take(k);
            let back = s.skip(k + 1);
            let rest = front + back;
            assert(is_arrangement(rest, (n - 1) as nat)) by {
                assert forall|i: int| 0 <= i < n - 1 implies 1 <= #[trigger] rest[i] <= n - 1 by {
                    if i < k {
                        assert(rest[i] == s[i]);
                    } else {
                        assert(rest[i] == s[i + 1]);
                    }
                }
                assert forall|i: int, j: int| 0 <= i < j < n - 1 implies #[trigger] rest[i]
                    != #[trigger] rest[j] by {
                    let a = if i < k {
                        i
                    } else {
                        i + 1
                    };
                    let b = if j < k {
                        j
                    } else {
                        j + 1
                    };
                    assert(rest[i] == s[a]);
                    assert(rest[j] == s[b]);
                }
            }
            lemma_arrangement(rest, (n - 1) as nat);
            assert forall|v: int| 1 <= v <= n implies #[trigger] s.contains(v) by {
                if v < n {
                    assert(rest.contains(v));
                    let i = choose|i: int| 0 <= i < rest.len() && rest[i] == v;
                    if i < k {
                        assert(s[i] == v);
                    } else {
                        assert(rest[i] == s[i + 1]);
                        assert(s[i + 1] == v);
                    }
                }
            }
            let one = Seq::<int>::empty().push(top);
            assert(s =~= front + (one + back));
            lemma_product_concat(front, one + back);
            lemma_product_concat(one, back);
            lemma_product_concat(front, back);
            assert(one.drop_last() =~= Seq::<int>::empty());
            assert(product(Seq::<int>::empty()) == 1);
            assert(one.last() == top);
            assert(product(one) == product(one.drop_last()) * one.last());
            assert(product(one) == 1 * top);
            assert(product(front) * (top * product(back)) == top * (product(front) * product(
                back,
            ))) by (nonlinear_arith);
        } else {
            // all the numbers are below `n`: the last is among those before it
            let before = s.drop_last();
            assert(is_arrangement(before, (n - 1) as nat)) by {
                assert forall|i: int| 0 <= i < n - 1 implies 1 <= #[trigger] before[i] <= n
                    - 1 by {
                    assert(before[i] == s[i]);
                    if s[i] == top {
                        assert(s.contains(top));
                    }
                }
                assert forall|i: int, j: int| 0 <= i < j < n - 1 implies #[trigger] before[i]
                    != #[trigger] before[j] by {
                    assert(before[i] == s[i]);
                    assert(before[j] == s[j]);
                }
            }
            lemma_arrangement(before, (n - 1) as nat);
            let last = s[n - 1];
            if last == top {
                assert(s.contains(top));
            }
            assert(before.contains(last));
            let i = choose|i: int| 0 <= i < before.len() && before[i] == last;
            assert(s[i] == s[n - 1]);
            assert(false);
        }
    }
}

/// The multiples `g·1, …, g·k` modulo `p`.
pub open spec fn multiples(g: int, k: nat, p: int) -> Seq<int> {
    Seq::new(k, |i: int| (g * (i + 1)) % p)
}

/// The product of the multiples `g·1, …, g·k` is `g^k · k!` modulo `p`.
pub proof fn lemma_product_of_multiples(g: int, k: nat, p: int)
    requires
        p > 0,
    ensures
        product(multiples(g, k, p)) % p == (pow(g, k) * factorial(k)) % p,
    decreases k,
{
    if k == 0 {
        lemma_pow0(g);
    } else {
        let before = multiples(g, (k - 1) as nat, p);
        let all = multiples(g, k, p);
        lemma_product_of_multiples(g, (k - 1) as nat, p);
        assert(all.drop_last() =~= before);
        assert(all.last() == (g * k) % p);
        lemma_mod_twice(g * k, p);
        lemma_congruence_mul(
            product(before),
            pow(g, (k - 1) as nat) * factorial((k - 1) as nat),
            (g * k) % p,
            g * k,
            p,
        );
        lemma_pow_succ(g, (k - 1) as nat);
        assert((pow(g, (k - 1) as nat) * factorial((k - 1) as nat)) * (g * k) == (g * pow(
            g,
            (k - 1) as nat,
        )) * (k * factorial((k - 1) as nat))) by (nonlinear_arith);
    }
}

/// A prime does not divide the factorial of a smaller number.
pub proof fn lemma_factorial_not_multiple(k: nat, p: nat)
    requires
        is_prime(p as int),
        k < p,
    ensures
        factorial(k) > 0,
        factorial(k) % (p as int) != 0,
    decreases k,
{
    if k == 0 {
        lemma_small_mod(1, p);
    } else {
        lemma_factorial_not_multiple((k - 1) as nat, p);
        let f = factorial((k - 1) as nat);
        assert(k * f > 0) by (nonlinear_arith)
            requires
                k > 0,
                f > 0,
        ;
        lemma_small_mod(k, p);
        lemma_prime_product(k, f as nat, p);
    }
}

/// **Fermat's little theorem.** For a prime `p` and a base `g` that `p`
/// does not divide, `g^(p-1) = 1 (mod p)`.
pub proof fn lemma_fermat(g: nat, p: nat)
    requires
        is_prime(p as int),
        g % p != 0,
    ensures
        pow(g as int, (p - 1) as nat) % (p as int) == 1,
{
    let n = (p - 1) as nat;
    let q = p as int;
    let s = multiples(g as int, n, q);
    // the multiples are the numbers from 1 to p - 1 in another order
    assert(is_arrangement(s, n)) by {
        assert forall|i: int| 0 <= i < n implies 1 <= #[trigger] s[i] <= n by {
            lemma_mod_bound(g * (i + 1), q);
            lemma_small_mod((i + 1) as nat, p);
            lemma_prime_product(g, (i + 1) as nat, p);
        }
        assert forall|i: int, j: int| 0 <= i < j < n implies #[trigger] s[i] != #[trigger] s[j] by {
            if s[i] == s[j] {
                lemma_sub_mod_noop(g * (j + 1), g * (i + 1), q);
                assert(g * (j + 1) - g * (i + 1) == g * (j - i)) by (nonlinear_arith);
                lemma_small_mod(0, p);
                lemma_small_mod((j - i) as nat, p);
                lemma_prime_product(g, (j - i) as nat, p);
            }
        }
    }
    lemma_arrangement(s, n);
    lemma_product_of_multiples(g as int, n, q);
    lemma_factorial_not_multiple(n, p);
    let f = factorial(n);
    let power = pow(g as int, n);
    if g == 0 {
        lemma_small_mod(0, p);
    }
    lemma_pow_positive(g as int, n);
    // (power - 1) · f is a multiple of p, and f is not
    lemma_sub_mod_noop(power * f, f, q);
    lemma_small_mod(0, p);
    assert(power * f - f == f * (power - 1)) by (nonlinear_arith);
    let r = f % q;
    lemma_mod_bound(f, q);
    lemma_prime_coprime(r, q);
    lemma_mod_twice(f, q);
    lemma_congruence_mul(r, f, power - 1, power - 1, q);
    lemma_coprime_cancels(r as nat, (power - 1) as nat, p);
    lemma_fundamental_div_mod(power - 1, q);
    let k = (power - 1) / q;
    assert((power - 1) % q == 0);
    assert(power == 1 + k * q) by (nonlinear_arith)
        requires
            power - 1 == q * k + 0,
    ;
    lemma_mod_unique(power, 1, k, q);
}

} // verus!
