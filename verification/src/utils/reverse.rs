//! Reversal of the low bits of a number.

use crate::primitive::{Bits, Word};
use vstd::arithmetic::power2::{
    lemma2_to64, lemma2_to64_rest, lemma_pow2_pos, lemma_pow2_strictly_increases,
    lemma_pow2_unfold, pow2,
};
use vstd::prelude::*;

verus! {

/// The number whose low `n` bits are the low `n` bits of `x` in reverse
/// order, and whose other bits are zero.
pub open spec fn brv(x: nat, n: nat) -> nat
    decreases n,
{
    if n == 0 {
        0
    } else {
        (x % 2) * pow2((n - 1) as nat) + brv(x / 2, (n - 1) as nat)
    }
}

/// A reversal of `n` bits is below `2^n`.
pub proof fn lemma_brv_bound(x: nat, n: nat)
    ensures
        brv(x, n) < pow2(n),
    decreases n,
{
    if n == 0 {
        lemma2_to64();
    } else {
        lemma_brv_bound(x / 2, (n - 1) as nat);
        lemma_pow2_unfold(n);
        let h = pow2((n - 1) as nat);
        assert((x % 2) * h <= h) by (nonlinear_arith)
            requires
                x % 2 <= 1,
        ;
    }
}

/// The reversal of zero is zero.
pub proof fn lemma_brv_zero(n: nat)
    ensures
        brv(0, n) == 0,
    decreases n,
{
    if n > 0 {
        lemma_brv_zero((n - 1) as nat);
        assert(0 * pow2((n - 1) as nat) == 0);
    }
}

/// The reversal of `n` ones is `n` ones.
pub proof fn lemma_brv_ones(n: nat)
    ensures
        brv((pow2(n) - 1) as nat, n) == pow2(n) - 1,
    decreases n,
{
    lemma_pow2_pos(n);
    lemma2_to64();
    if n > 0 {
        lemma_pow2_unfold(n);
        lemma_pow2_pos((n - 1) as nat);
        lemma_brv_ones((n - 1) as nat);
        let h = pow2((n - 1) as nat);
        assert((2 * h - 1) % 2 == 1);
        assert((2 * h - 1) / 2 == h - 1);
        assert(1 * h == h);
    }
}

/// The places of a forward root and of the inverse root that undoes it:
/// for `k < 2^i` and `i < n`, the reversal of `2^i + k` is one more than
/// the reversal of `2^n - 2^(i+1) + k`.
pub proof fn lemma_brv_pair(n: nat, i: nat, k: nat)
    requires
        i < n,
        k < pow2(i),
    ensures
        pow2(i + 1) <= pow2(n),
        brv(pow2(i) + k, n) == brv((pow2(n) - pow2(i + 1) + k) as nat, n) + 1,
    decreases i,
{
    lemma_pow2_unfold(n);
    lemma_pow2_unfold(i + 1);
    lemma_pow2_pos(i);
    lemma_pow2_pos((n - 1) as nat);
    if i + 1 < n {
        lemma_pow2_strictly_increases(i + 1, n);
    }
    let h = pow2((n - 1) as nat);
    if i == 0 {
        lemma2_to64();
        assert(k == 0);
        lemma_brv_zero((n - 1) as nat);
        lemma_brv_ones((n - 1) as nat);
        assert(1nat % 2 == 1 && 1nat / 2 == 0);
        assert((2 * h - 2) % 2 == 0);
        assert((2 * h - 2) / 2 == h - 1);
        assert(1 * h == h);
        assert(0 * h == 0);
    } else {
        lemma_pow2_unfold(i);
        let q = pow2((i - 1) as nat);
        lemma_brv_pair((n - 1) as nat, (i - 1) as nat, k / 2);
        let a = 2 * q + k;
        let b = 2 * h - 4 * q + k;
        assert(a % 2 == k % 2 && a / 2 == q + k / 2);
        assert(b % 2 == k % 2 && b / 2 == h - 2 * q + k / 2);
        lemma_pow2_unfold(((i - 1) + 1) as nat);
    }
}

/// The reversals of `2x` and of `2x + 1`: the lowest bit goes to the top.
pub proof fn lemma_brv_double(x: nat, n: nat)
    requires
        n >= 1,
    ensures
        brv(2 * x, n) == brv(x, (n - 1) as nat),
        brv(2 * x + 1, n) == pow2((n - 1) as nat) + brv(x, (n - 1) as nat),
{
    assert((2 * x) % 2 == 0 && (2 * x) / 2 == x);
    assert((2 * x + 1) % 2 == 1 && (2 * x + 1) / 2 == x);
    assert(0 * pow2((n - 1) as nat) == 0);
    assert(1 * pow2((n - 1) as nat) == pow2((n - 1) as nat));
}

/// One more bit of width doubles the reversal: `rev_n(x) = 2·rev_(n-1)(x)` for `x < 2^(n-1)`.
pub proof fn lemma_brv_widen(x: nat, n: nat)
    requires
        n >= 1,
        x < pow2((n - 1) as nat),
    ensures
        brv(x, n) == 2 * brv(x, (n - 1) as nat),
    decreases n,
{
    lemma2_to64();
    if n == 1 {
        assert(x == 0);
        assert(0 * pow2(0) == 0);
    } else {
        lemma_pow2_unfold((n - 1) as nat);
        lemma_brv_widen(x / 2, (n - 1) as nat);
        let h = pow2((n - 2) as nat);
        assert((x % 2) * (2 * h) == 2 * ((x % 2) * h)) by (nonlinear_arith);
    }
}

/// The top bit of the number is the lowest bit of the reversal:
/// `rev_n(2^(n-1) + k) = rev_n(k) + 1` for `k < 2^(n-1)`.
pub proof fn lemma_brv_top(k: nat, n: nat)
    requires
        n >= 1,
        k < pow2((n - 1) as nat),
    ensures
        brv(pow2((n - 1) as nat) + k, n) == brv(k, n) + 1,
    decreases n,
{
    lemma2_to64();
    if n == 1 {
        assert(k == 0);
        lemma_brv_zero(0);
        assert(1nat % 2 == 1 && 1nat / 2 == 0);
        assert(1 * pow2(0) == 1);
        assert(0 * pow2(0) == 0);
    } else {
        lemma_pow2_unfold((n - 1) as nat);
        let h = pow2((n - 2) as nat);
        lemma_brv_top(k / 2, (n - 1) as nat);
        let x = 2 * h + k;
        assert(x % 2 == k % 2 && x / 2 == h + k / 2);
    }
}

/// Reverses the low `bits` bits of a 64-bit word; the other bits become zero.
pub fn reverse_lsbs_u64(x: u64, bits: u32) -> (r: u64)
    requires
        bits <= 64,
    ensures
        r == brv(x as nat, bits as nat),
{
    let mut r: u64 = 0;
    let mut v: u64 = x;
    let mut i: u32 = 0;
    proof {
        lemma2_to64();
        lemma_brv_bound(x as nat, bits as nat);
        assert(0 * pow2(bits as nat) == 0);
    }
    while i < bits
        invariant
            i <= bits <= 64,
            r < pow2(i as nat),
            r * pow2((bits - i) as nat) + brv(v as nat, (bits - i) as nat) == brv(
                x as nat,
                bits as nat,
            ),
        decreases bits - i,
    {
        proof {
            let k = (bits - i) as nat;
            lemma_pow2_unfold(k);
            lemma_pow2_unfold((i + 1) as nat);
            lemma2_to64_rest();
            if i + 1 < 64 {
                lemma_pow2_strictly_increases((i + 1) as nat, 64);
            }
            let pk = pow2((k - 1) as nat);
            assert((2 * r + (v % 2)) * pk == r * (2 * pk) + (v % 2) * pk) by (nonlinear_arith);
        }
        r = 2 * r + (v % 2);
        v = v / 2;
        i = i + 1;
    }
    proof {
        assert(r * 1 == r);
    }
    r
}

/// Reversal of the low bits.
pub trait ReverseLsbs: Sized {
    /// The number that `self` stands for.
    spec fn number(self) -> nat;

    /// The number of bits of the type.
    spec fn width() -> nat;

    /// Reverses the low `bits` bits of `self`, and sets the other bits to zero.
    fn reverse_lsbs(self, bits: u32) -> (r: Self)
        requires
            bits < Self::width(),
        ensures
            r.number() == brv(self.number(), bits as nat),
    ;
}

impl<T: Word> ReverseLsbs for T {
    open spec fn number(self) -> nat {
        self.val()
    }

    open spec fn width() -> nat {
        T::spec_n_bits()
    }

    fn reverse_lsbs(self, bits: u32) -> (r: T) {
        proof {
            T::lemma_radix();
            lemma_brv_bound(self.val(), bits as nat);
            lemma_pow2_strictly_increases(bits as nat, T::spec_n_bits());
        }
        T::from_u64(reverse_lsbs_u64(self.to_u64(), bits))
    }
}

impl ReverseLsbs for usize {
    open spec fn number(self) -> nat {
        self as nat
    }

    open spec fn width() -> nat {
        32
    }

    fn reverse_lsbs(self, bits: u32) -> (r: usize) {
        proof {
            lemma2_to64();
            lemma2_to64_rest();
            lemma_brv_bound(self as nat, bits as nat);
            lemma_pow2_strictly_increases(bits as nat, 32);
        }
        reverse_lsbs_u64(self as u64, bits) as usize
    }
}

} // verus!
