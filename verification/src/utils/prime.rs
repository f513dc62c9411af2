//! The Miller–Rabin primality test over a Barrett modulus.

use crate::modulus::BarrettModulus;
use crate::primitive::{radix, Bits, Widening, Word, WrappingOps};
use crate::random::{csrng_from_entropy, uniform_inclusive};
use crate::reduce::{MulReduce, PowReduce};
use vstd::arithmetic::div_mod::lemma_mod_twice;
use vstd::arithmetic::power::pow;
use vstd::arithmetic::power2::{lemma2_to64, lemma_pow2_pos, lemma_pow2_unfold, pow2};
use vstd::prelude::*;

verus! {

/// The primes below 64.
pub open spec fn is_prime_below_64(n: nat) -> bool {
    n == 2 || n == 3 || n == 5 || n == 7 || n == 11 || n == 13 || n == 17 || n == 19 || n == 23
        || n == 29 || n == 31 || n == 37 || n == 41 || n == 43 || n == 47 || n == 53 || n == 59
        || n == 61
}

/// Whether one of the primes from 2 to 53 divides `n`.
pub open spec fn has_small_factor(n: nat) -> bool {
    n % 2 == 0 || n % 3 == 0 || n % 5 == 0 || n % 7 == 0 || n % 11 == 0 || n % 13 == 0 || n % 17
        == 0 || n % 19 == 0 || n % 23 == 0 || n % 29 == 0 || n % 31 == 0 || n % 37 == 0 || n % 41
        == 0 || n % 43 == 0 || n % 47 == 0 || n % 53 == 0
}

/// The odd part `q` of `n`: `n = 2^r · q` with `q` odd. Of `0` it is `0`.
pub open spec fn odd_part(n: nat) -> nat
    decreases n,
{
    if n == 0 || n % 2 == 1 {
        n
    } else {
        odd_part(n / 2)
    }
}

/// The number `r` of factors two in `n`: `n = 2^r · q` with `q` odd. Of `0` it is `0`.
pub open spec fn two_adicity(n: nat) -> nat
    decreases n,
{
    if n == 0 || n % 2 == 1 {
        0
    } else {
        1 + two_adicity(n / 2)
    }
}

/// Whether `n` is a strong probable prime to the base `a`: with
/// `n - 1 = 2^r · q`, either `a^q = 1` or `a^(q·2^i) = -1 (mod n)` for some `i < r`.
pub open spec fn strong_probable_prime(n: nat, a: nat) -> bool {
    let q = odd_part((n - 1) as nat);
    let r = two_adicity((n - 1) as nat);
    ||| pow(a as int, q) % (n as int) == 1
    ||| exists|i: nat| i < r && #[trigger] pow(a as int, q * pow2(i)) % (n as int) == n - 1
}

/// Whether the base `a` shows that `n` is composite: `a` is from 2 to
/// `n - 1`, and `n` is no strong probable prime to it.
pub open spec fn is_witness(n: nat, a: nat) -> bool {
    2 <= a < n && !strong_probable_prime(n, a)
}

/// Whether some base shows that `n` is composite.
pub open spec fn has_witness(n: nat) -> bool {
    exists|a: nat| #[trigger] is_witness(n, a)
}

/// `n = 2^r · q`, taken apart.
pub fn split_odd_part(n: u64) -> (r: (u32, u64))
    requires
        n > 0,
    ensures
        r.0 as nat == two_adicity(n as nat),
        r.1 as nat == odd_part(n as nat),
        r.1 * pow2(r.0 as nat) == n,
        r.0 < 64,
{
    let mut q: u64 = n;
    let mut r: u32 = 0;
    proof {
        lemma2_to64();
    }
    while q % 2 == 0
        invariant
            q > 0,
            r < 64,
            r as nat + two_adicity(q as nat) == two_adicity(n as nat),
            odd_part(q as nat) == odd_part(n as nat),
            q * pow2(r as nat) == n,
        decreases q,
    {
        proof {
            lemma_pow2_unfold((r + 1) as nat);
            let p = pow2(r as nat);
            assert((q / 2) * (2 * p) == q * p) by (nonlinear_arith)
                requires
                    q % 2 == 0,
            ;
            if r == 63 {
                vstd::arithmetic::power2::lemma2_to64_rest();
                assert((q / 2) * (2 * p) >= 2 * p) by (nonlinear_arith)
                    requires
                        q / 2 >= 1,
                        p >= 0,
                ;
            }
        }
        q = q / 2;
        r = r + 1;
    }
    (r, q)
}

/// Whether `v < 64` is prime, read off the table of the primes below 64.
fn small_prime(v: u64) -> (r: bool)
    requires
        v < 64,
    ensures
        r == is_prime_below_64(v as nat),
{
    let mask: u64 = 0x28208a20a08a28ac;
    let bit: u64 = (mask >> v) & 1;
    proof {
        assert(v < 64 ==> ((((0x28208a20a08a28acu64 >> v) & 1) == 1) <==> (v == 2 || v == 3 || v
            == 5 || v == 7 || v == 11 || v == 13 || v == 17 || v == 19 || v == 23 || v == 29 || v
            == 31 || v == 37 || v == 41 || v == 43 || v == 47 || v == 53 || v == 59 || v == 61)))
            by (bit_vector);
    }
    bit == 1
}

/// One round of the Miller–Rabin test of `modulus` with the base `a`.
pub fn miller_rabin_round<T: Widening + WrappingOps>(modulus: BarrettModulus<T>, a: T) -> (pass:
    bool)
    requires
        modulus.wf(),
        a.val() < modulus.m(),
    ensures
        pass == strong_probable_prime(modulus.m(), a.val()),
{
    let value = modulus.value();
    let n_minus_one = value.minus(T::one());
    proof {
        value.lemma_word();
    }
    let (r, q) = split_odd_part(n_minus_one.to_u64());
    let ghost n = modulus.m() as int;
    let ghost base = a.val() as int;
    proof {
        lemma_pow2_pos(r as nat);
        assert(q <= n - 1) by (nonlinear_arith)
            requires
                q * pow2(r as nat) == n - 1,
                pow2(r as nat) >= 1,
                q >= 0,
        ;
    }
    let mut x: T = a.pow_reduce(T::from_u64(q), modulus);
    if x.same(T::one()) {
        return true;
    }
    let mut i: u32 = 0;
    proof {
        lemma2_to64();
        assert((q as nat) * 1 == q as nat);
    }
    while i < r
        invariant
            modulus.wf(),
            n == modulus.m(),
            base == a.val(),
            n_minus_one.val() == n - 1,
            i <= r,
            r as nat == two_adicity((n - 1) as nat),
            q as nat == odd_part((n - 1) as nat),
            pow(base, q as nat) % n != 1,
            x.val() == pow(base, (q as nat) * pow2(i as nat)) % n,
            forall|j: nat| j < i ==> #[trigger] pow(base, (q as nat) * pow2(j)) % n != n - 1,
        decreases r - i,
    {
        if x.same(n_minus_one) {
            proof {
                let w = i as nat;
                let q0 = odd_part((modulus.m() - 1) as nat);
                assert(w < two_adicity((modulus.m() - 1) as nat));
                assert(q0 == q as nat);
                assert(q0 * pow2(w) == (q as nat) * pow2(i as nat));
                assert(x.val() == n - 1);
                assert(pow(a.val() as int, q0 * pow2(w)) % (modulus.m() as int) == modulus.m()
                    - 1);
            }
            return true;
        }
        let ghost e: nat = (q as nat) * pow2(i as nat);
        let ghost old_x = x.val() as int;
        x = x.mul_reduce(x, modulus);
        proof {
            // x² = a^(2e) (mod n)
            lemma_mod_twice(pow(base, e), n);
            crate::lemmas::lemma_congruence_mul(old_x, pow(base, e), old_x, pow(base, e), n);
            vstd::arithmetic::power::lemma_pow_adds(base, e, e);
            lemma_pow2_unfold((i + 1) as nat);
            assert((q as nat) * pow2((i + 1) as nat) == e + e) by (nonlinear_arith)
                requires
                    pow2((i + 1) as nat) == 2 * pow2(i as nat),
                    e == (q as nat) * pow2(i as nat),
            ;
        }
        i = i + 1;
    }
    false
}

/// Primality of the value of a modulus.
pub trait Prime: Sized {
    /// What `probably_prime` asks of the modulus.
    spec fn probably_prime_pre(self) -> bool;

    /// What `probably_prime` promises of its answer, whatever witnesses were drawn.
    spec fn probably_prime_post(self, rounds: usize, out: bool) -> bool;

    /// The Miller–Rabin test with `rounds` rounds: the first with the base
    /// 2, the others with bases drawn from 3 to `n - 1`. The answer is
    /// `false` only where a small prime divides the number or one of the
    /// bases shows that it is composite.
    fn probably_prime(self, rounds: usize) -> (out: bool)
        requires
            self.probably_prime_pre(),
        ensures
            self.probably_prime_post(rounds, out),
    ;
}

impl<T: Widening + WrappingOps> Prime for BarrettModulus<T> {
    open spec fn probably_prime_pre(self) -> bool {
        self.wf()
    }

    open spec fn probably_prime_post(self, rounds: usize, out: bool) -> bool {
        if self.m() < 64 {
            out == is_prime_below_64(self.m())
        } else if has_small_factor(self.m()) {
            !out
        } else if rounds == 0 {
            out
        } else {
            &&& out ==> strong_probable_prime(self.m(), 2)
            &&& !out ==> has_witness(self.m())
        }
    }

    fn probably_prime(self, rounds: usize) -> (out: bool) {
        let word = self.value();
        let value: u64 = word.to_u64();
        if value < 64 {
            return small_prime(value);
        }
        if value % 2 == 0 || value % 3 == 0 || value % 5 == 0 || value % 7 == 0 || value % 11 == 0
            || value % 13 == 0 || value % 17 == 0 || value % 19 == 0 || value % 23 == 0 || value
            % 29 == 0 || value % 31 == 0 || value % 37 == 0 || value % 41 == 0 || value % 43 == 0
            || value % 47 == 0 || value % 53 == 0 {
            return false;
        }
        if rounds == 0 {
            return true;
        }
        proof {
            word.lemma_word();
        }
        if !miller_rabin_round(self, T::from_u64(2)) {
            proof {
                assert(is_witness(self.m(), 2));
            }
            return false;
        }
        let mut rng = csrng_from_entropy();
        let mut i: usize = 1;
        while i < rounds
            invariant
                self.wf(),
                value == self.m(),
                value >= 64,
                value < radix::<T>(),
            decreases rounds - i,
        {
            let a: u64 = uniform_inclusive(&mut rng, 3, value - 1);
            if !miller_rabin_round(self, T::from_u64(a)) {
                proof {
                    assert(is_witness(self.m(), a as nat));
                }
                return false;
            }
            i = i + 1;
        }
        true
    }
}

} // verus!
