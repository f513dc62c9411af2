//! The laws of a field of integers modulo `p`, over the expressions by
//! which the operations of a field are stated: the sum of `a` and `b` is
//! `(a + b) % p`, their product `(a * b) % p`, the negative of `a` is
//! `(-a) % p`, and an inverse of `a` is an `x` with `(a * x) % p == 1`.

use crate::lemmas::{lemma_congruence_mul, lemma_mod_unique};
use crate::field::{fval, FieldCore};
use crate::primitive::Word;
use crate::utils::fermat::{is_prime, lemma_fermat, lemma_prime_coprime};
use crate::utils::gcd::{coprime, lemma_bezout_exists, lemma_gcd_unique};
use vstd::arithmetic::power::pow;
use vstd::arithmetic::div_mod::{
    lemma_add_mod_noop,
    lemma_mod_bound,
    lemma_mod_twice,
    lemma_small_mod,
};
use vstd::prelude::*;

verus! {

/// **Addition is associative:** `(a + b) + c = a + (b + c)`.
pub proof fn lemma_add_associative(a: int, b: int, c: int, p: int)
    requires
        p > 0,
    ensures
        (((a + b) % p) + c) % p == (a + ((b + c) % p)) % p,
{
    lemma_add_mod_noop(a + b, c, p);
    lemma_add_mod_noop(a, b + c, p);
    lemma_mod_twice(a + b, p);
    lemma_mod_twice(b + c, p);
    lemma_add_mod_noop((a + b) % p, c, p);
    lemma_add_mod_noop(a, (b + c) % p, p);
}

/// **Addition is commutative:** `a + b = b + a`.
pub proof fn lemma_add_commutative(a: int, b: int, p: int)
    ensures
        (a + b) % p == (b + a) % p,
{
}

/// **Multiplication is associative:** `(a · b) · c = a · (b · c)`.
pub proof fn lemma_mul_associative(a: int, b: int, c: int, p: int)
    requires
        p > 0,
    ensures
        (((a * b) % p) * c) % p == (a * ((b * c) % p)) % p,
{
    lemma_mod_twice(a * b, p);
    lemma_mod_twice(b * c, p);
    lemma_congruence_mul((a * b) % p, a * b, c, c, p);
    lemma_congruence_mul(a, a, (b * c) % p, b * c, p);
    assert((a * b) * c == a * (b * c)) by (nonlinear_arith);
}

/// **Multiplication is commutative:** `a · b = b · a`.
pub proof fn lemma_mul_commutative(a: int, b: int, p: int)
    ensures
        (a * b) % p == (b * a) % p,
{
    assert(a * b == b * a) by (nonlinear_arith);
}

/// **Multiplication distributes over addition:** `(a + b) · c = a · c + b · c`.
pub proof fn lemma_distributive(a: int, b: int, c: int, p: int)
    requires
        p > 0,
    ensures
        (((a + b) % p) * c) % p == (((a * c) % p) + ((b * c) % p)) % p,
{
    lemma_mod_twice(a + b, p);
    lemma_congruence_mul((a + b) % p, a + b, c, c, p);
    assert((a + b) * c == a * c + b * c) by (nonlinear_arith);
    lemma_add_mod_noop(a * c, b * c, p);
}

/// **Zero is neutral for addition, and one for multiplication:**
/// `a + 0 = a` and `a · 1 = a`, for a canonical `a`.
pub proof fn lemma_identities(a: int, p: int)
    requires
        0 <= a < p,
    ensures
        (a + 0) % p == a,
        (a * 1) % p == a,
{
    lemma_small_mod(a as nat, p as nat);
}

/// **The negative is the additive inverse:** `a + (-a) = 0`.
pub proof fn lemma_additive_inverse(a: int, p: int)
    requires
        p > 0,
    ensures
        (a + ((-a) % p)) % p == 0,
{
    lemma_add_mod_noop(a, -a, p);
    lemma_mod_twice(-a, p);
    lemma_add_mod_noop(a, (-a) % p, p);
    lemma_small_mod(0, p as nat);
}

/// **Every element that is coprime to the modulus has an inverse:** there
/// is a canonical `x` with `a · x = 1`. In a prime field these are the
/// non-zero elements.
pub proof fn lemma_inverse_exists(a: nat, p: nat) -> (x: int)
    requires
        p > 1,
        coprime(a as int, p as int),
    ensures
        0 <= x < p,
        (a * x) % (p as int) == 1,
{
    let (u, v, g) = lemma_bezout_exists(a, p);
    lemma_gcd_unique(g, 1, a as int, p as int);
    let x = u % (p as int);
    lemma_mod_bound(u, p as int);
    lemma_mod_twice(u, p as int);
    lemma_congruence_mul(a as int, a as int, x, u, p as int);
    assert(a * u == 1 + (-v) * p) by (nonlinear_arith)
        requires
            u * a + v * p == 1,
    ;
    lemma_mod_unique(a * u, 1, -v, p as int);
    x
}

/// **The inverse of the inverse is the element:** if `x` is an inverse of
/// `a` and `y` an inverse of `x`, then `y = a`, for canonical `a` and `y`.
pub proof fn lemma_inverse_involution(a: int, x: int, y: int, p: int)
    requires
        p > 0,
        0 <= a < p,
        0 <= y < p,
        (a * x) % p == 1,
        (x * y) % p == 1,
    ensures
        y == a,
{
    lemma_small_mod(a as nat, p as nat);
    lemma_small_mod(y as nat, p as nat);
    if p == 1 {
    } else {
        lemma_small_mod(1, p as nat);
        // y = y·(a·x) = a·(x·y) = a
        lemma_congruence_mul(y, y, a * x, 1, p);
        lemma_congruence_mul(a, a, x * y, 1, p);
        assert(y * (a * x) == a * (x * y)) by (nonlinear_arith);
        assert(y * 1 == y && a * 1 == a);
    }
}

/// **Inverses in a prime field.** Where the modulus `p` is prime, every
/// `a` from 1 to `p - 1` has an inverse.
pub proof fn lemma_inverse_in_prime_field(a: nat, p: nat) -> (x: int)
    requires
        is_prime(p as int),
        0 < a < p,
    ensures
        0 <= x < p,
        (a * x) % (p as int) == 1,
{
    lemma_prime_coprime(a as int, p as int);
    lemma_inverse_exists(a, p)
}

/// **The power `p - 1`.** In a field whose modulus `p` is prime, the
/// power `p - 1` of every element but zero is one: what `pow` gives for
/// the exponent `p - 1` is the element one.
pub proof fn lemma_power_of_order<F: FieldCore>(a: F)
    requires
        is_prime(F::spec_modulus() as int),
        0 < fval(a) < F::spec_modulus(),
    ensures
        pow(fval(a) as int, (F::spec_modulus() - 1) as nat) % (F::spec_modulus() as int) == 1,
{
    lemma_small_mod(fval(a), F::spec_modulus());
    lemma_fermat(fval(a), F::spec_modulus());
}

} // verus!
