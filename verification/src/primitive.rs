//! Machine words and the double-width primitives the modular layer is built on.
//!
//! Every algorithm above this module is written once, over any type that
//! implements [`Word`], [`Widening`] and [`WrappingOps`]. A word is modelled by
//! its value, a natural number below the radix `β = 2^bits`.

use vstd::arithmetic::power2::{lemma2_to64, lemma2_to64_rest, pow2};
use vstd::prelude::*;

verus! {

/// Access to the width of an integer type.
pub trait Bits {
    /// The number of bits of the type.
    spec fn spec_n_bits() -> nat;

    /// The number of bits of the type.
    fn n_bits() -> (n: u32)
        ensures
            n == Self::spec_n_bits(),
    ;
}

/// The radix `β = 2^bits` of a word type.
pub open spec fn radix<T: Bits>() -> nat {
    pow2(T::spec_n_bits())
}

/// An unsigned machine word of 8, 16, 32 or 64 bits.
pub trait Word: Bits + Copy + Sized {
    /// The number this word stands for.
    spec fn val(self) -> nat;

    /// The radix is one of `2^8 .. 2^64`.
    proof fn lemma_radix()
        ensures
            8 <= Self::spec_n_bits() <= 64,
            0x100 <= radix::<Self>() <= 0x1_0000_0000_0000_0000,
    ;

    /// A word is below the radix.
    proof fn lemma_word(self)
        ensures
            self.val() < radix::<Self>(),
            0x100 <= radix::<Self>() <= 0x1_0000_0000_0000_0000,
    ;

    /// Two words with the same value are the same word.
    proof fn lemma_val_injective(self, other: Self)
        requires
            self.val() == other.val(),
        ensures
            self == other,
    ;

    /// The value as a `u64`.
    fn to_u64(self) -> (r: u64)
        ensures
            r == self.val(),
    ;

    /// The word with value `x`.
    fn from_u64(x: u64) -> (r: Self)
        requires
            x < radix::<Self>(),
        ensures
            r.val() == x,
    ;

    /// The word `0`.
    fn zero() -> (r: Self)
        ensures
            r.val() == 0,
    {
        proof {
            Self::lemma_radix();
        }
        Self::from_u64(0)
    }

    /// The word `1`.
    fn one() -> (r: Self)
        ensures
            r.val() == 1,
    {
        proof {
            Self::lemma_radix();
        }
        Self::from_u64(1)
    }

    /// Whether the word is `0`.
    fn is_zero(self) -> (r: bool)
        ensures
            r == (self.val() == 0),
    {
        self.to_u64() == 0
    }

    /// Whether `self < other`.
    fn below(self, other: Self) -> (r: bool)
        ensures
            r == (self.val() < other.val()),
    {
        self.to_u64() < other.to_u64()
    }

    /// Whether `self >= other`.
    fn at_least(self, other: Self) -> (r: bool)
        ensures
            r == (self.val() >= other.val()),
    {
        self.to_u64() >= other.to_u64()
    }

    /// Whether the two words are the same.
    fn same(self, other: Self) -> (r: bool)
        ensures
            r == (self.val() == other.val()),
            r == (self == other),
    {
        proof {
            if self.val() == other.val() {
                self.lemma_val_injective(other);
            }
        }
        self.to_u64() == other.to_u64()
    }

    /// `self + other`, where the sum is a word.
    fn plus(self, other: Self) -> (r: Self)
        requires
            self.val() + other.val() < radix::<Self>(),
        ensures
            r.val() == self.val() + other.val(),
    {
        proof {
            self.lemma_word();
        }
        Self::from_u64(self.to_u64() + other.to_u64())
    }

    /// `self - other`, where `other <= self`.
    fn minus(self, other: Self) -> (r: Self)
        requires
            other.val() <= self.val(),
        ensures
            r.val() == self.val() - other.val(),
    {
        proof {
            self.lemma_word();
        }
        Self::from_u64(self.to_u64() - other.to_u64())
    }
}

/// The radix of a word type is one of `2^8 .. 2^64`.
pub proof fn lemma_radix_range<T: Word>()
    ensures
        8 <= T::spec_n_bits() <= 64,
        0x100 <= radix::<T>() <= 0x1_0000_0000_0000_0000,
{
    T::lemma_radix();
}

/// Double-width arithmetic on words: sums with carry and full products.
pub trait Widening: Word {
    /// The type of twice the width.
    type WideT;

    /// `self + rhs + carry`: the low word and the carry out.
    fn carry_add(self, rhs: Self, carry: bool) -> (r: (Self, bool))
        ensures
            r.0.val() + (if r.1 { radix::<Self>() } else { 0 }) == self.val() + rhs.val() + (if carry { 1nat } else { 0 }),
    ;

    /// `self - rhs - borrow`: the low word and the borrow out.
    fn borrow_sub(self, rhs: Self, borrow: bool) -> (r: (Self, bool))
        ensures
            r.0.val() - (if r.1 { radix::<Self>() } else { 0 }) == self.val() - rhs.val() - (if borrow { 1nat } else { 0 }),
    ;

    /// The full product `self * rhs` as `(low, high)`.
    fn widen_mul(self, rhs: Self) -> (r: (Self, Self))
        ensures
            r.0.val() + r.1.val() * radix::<Self>() == self.val() * rhs.val(),
    ;

    /// `self * rhs + carry` without loss, as `(low, high)`.
    fn carry_mul(self, rhs: Self, carry: Self) -> (r: (Self, Self))
        ensures
            r.0.val() + r.1.val() * radix::<Self>() == self.val() * rhs.val() + carry.val(),
    ;

    /// Divides the two-word number `hi·β + lo` by `divisor`: quotient and remainder.
    fn div_wide(hi: Self, lo: Self, divisor: Self) -> (r: (Self, Self))
        requires
            hi.val() < divisor.val(),
        ensures
            r.0.val() == (hi.val() * radix::<Self>() + lo.val()) / divisor.val(),
            r.1.val() == (hi.val() * radix::<Self>() + lo.val()) % divisor.val(),
    ;
}

/// Arithmetic modulo the radix.
pub trait WrappingOps: Word {
    /// `self + rhs` modulo the radix.
    fn wrapping_add(self, rhs: Self) -> (r: Self)
        ensures
            r.val() == (self.val() + rhs.val()) % radix::<Self>(),
    ;

    /// `self - rhs` modulo the radix.
    fn wrapping_sub(self, rhs: Self) -> (r: Self)
        ensures
            r.val() == (self.val() - rhs.val()) % (radix::<Self>() as int),
    ;

    /// `-self` modulo the radix.
    fn wrapping_neg(self) -> (r: Self)
        ensures
            r.val() == (-(self.val() as int)) % (radix::<Self>() as int),
    ;

    /// `self * rhs` modulo the radix.
    fn wrapping_mul(self, rhs: Self) -> (r: Self)
        ensures
            r.val() == (self.val() * rhs.val()) % radix::<Self>(),
    ;
}

/// Quotient of `lhs` by `rhs`, rounded towards positive infinity.
pub fn div_ceil(lhs: u32, rhs: u32) -> (q: u32)
    requires
        rhs > 0,
    ensures
        q as int == (lhs as int + rhs as int - 1) / (rhs as int),
{
    let d: u32 = lhs / rhs;
    let r: u32 = lhs % rhs;
    proof {
        let x = lhs as int;
        let y = rhs as int;
        let q = if r > 0 { d as int + 1 } else { d as int };
        let s = if r > 0 { r as int - 1 } else { y - 1 };
        vstd::arithmetic::div_mod::lemma_fundamental_div_mod(x, y);
        assert(x + y - 1 == q * y + s) by (nonlinear_arith)
            requires
                x == y * (d as int) + (r as int),
                q == if r > 0 { d as int + 1 } else { d as int },
                s == if r > 0 { r as int - 1 } else { y - 1 },
        ;
        vstd::arithmetic::div_mod::lemma_fundamental_div_mod_converse(x + y - 1, y, q, s);
        assert(y * (d as int) >= d) by (nonlinear_arith)
            requires
                y > 0,
                d >= 0,
        ;
    }
    if r > 0 {
        d + 1
    } else {
        d
    }
}

impl Bits for u8 {
    open spec fn spec_n_bits() -> nat {
        8
    }

    fn n_bits() -> (n: u32) {
        8
    }
}

impl Word for u8 {
    open spec fn val(self) -> nat {
        self as nat
    }

    proof fn lemma_radix() {
        lemma2_to64();
        lemma2_to64_rest();
    }

    proof fn lemma_word(self) {
        lemma2_to64();
        lemma2_to64_rest();
    }

    proof fn lemma_val_injective(self, other: u8) {
    }

    fn to_u64(self) -> (r: u64) {
        self as u64
    }

    fn from_u64(x: u64) -> (r: u8) {
        proof {
            lemma2_to64();
            lemma2_to64_rest();
        }
        x as u8
    }
}

impl Widening for u8 {
    type WideT = u16;

    fn carry_add(self, rhs: u8, carry: bool) -> (r: (u8, bool)) {
        proof {
            lemma2_to64();
            lemma2_to64_rest();
        }
        let c: u16 = if carry { 1 } else { 0 };
        let wide: u16 = (self as u16) + (rhs as u16) + c;
        if wide >= 0x100 {
            ((wide - 0x100) as u8, true)
        } else {
            (wide as u8, false)
        }
    }

    fn borrow_sub(self, rhs: u8, borrow: bool) -> (r: (u8, bool)) {
        proof {
            lemma2_to64();
            lemma2_to64_rest();
        }
        let c: u16 = if borrow { 1 } else { 0 };
        let take: u16 = (rhs as u16) + c;
        if (self as u16) >= take {
            (((self as u16) - take) as u8, false)
        } else {
            (((self as u16) + 0x100 - take) as u8, true)
        }
    }

    fn widen_mul(self, rhs: u8) -> (r: (u8, u8)) {
        proof {
            lemma2_to64();
            lemma2_to64_rest();
            lemma_product_bound(self as nat, rhs as nat, 0x100);
        }
        let wide: u16 = (self as u16) * (rhs as u16);
        proof {
            assert(wide == (wide / 0x100) * 0x100 + wide % 0x100);
            assert(radix::<u8>() == 0x100);
        }
        ((wide % 0x100) as u8, (wide / 0x100) as u8)
    }

    fn carry_mul(self, rhs: u8, carry: u8) -> (r: (u8, u8)) {
        proof {
            lemma2_to64();
            lemma2_to64_rest();
            lemma_product_bound(self as nat, rhs as nat, 0x100);
        }
        let wide: u16 = (self as u16) * (rhs as u16) + (carry as u16);
        proof {
            assert(wide == (wide / 0x100) * 0x100 + wide % 0x100);
            assert(radix::<u8>() == 0x100);
        }
        ((wide % 0x100) as u8, (wide / 0x100) as u8)
    }

    fn div_wide(hi: u8, lo: u8, divisor: u8) -> (r: (u8, u8)) {
        proof {
            lemma2_to64();
            lemma2_to64_rest();
            lemma_product_bound(hi as nat, (0x100 - 1) as nat, 0x100);
        }
        let wide: u16 = (hi as u16) * 0x100 + (lo as u16);
        let q: u16 = wide / (divisor as u16);
        let rem: u16 = wide % (divisor as u16);
        proof {
            lemma_quotient_below_radix(hi as nat, lo as nat, divisor as nat, 0x100);
        }
        (q as u8, rem as u8)
    }
}

impl WrappingOps for u8 {
    fn wrapping_add(self, rhs: u8) -> (r: u8) {
        proof {
            lemma2_to64();
            lemma2_to64_rest();
        }
        let wide: u16 = (self as u16) + (rhs as u16);
        (wide % 0x100) as u8
    }

    fn wrapping_sub(self, rhs: u8) -> (r: u8) {
        proof {
            lemma2_to64();
            lemma2_to64_rest();
        }
        let wide: u16 = (self as u16) + 0x100 - (rhs as u16);
        proof {
            vstd::arithmetic::div_mod::lemma_mod_add_multiples_vanish(
                self as int - rhs as int,
                0x100 as int,
            );
        }
        (wide % 0x100) as u8
    }

    fn wrapping_neg(self) -> (r: u8) {
        proof {
            lemma2_to64();
            lemma2_to64_rest();
        }
        let wide: u16 = 0x100 - (self as u16);
        proof {
            vstd::arithmetic::div_mod::lemma_mod_add_multiples_vanish(
                -(self as int),
                0x100 as int,
            );
        }
        (wide % 0x100) as u8
    }

    fn wrapping_mul(self, rhs: u8) -> (r: u8) {
        proof {
            lemma2_to64();
            lemma2_to64_rest();
            lemma_product_bound(self as nat, rhs as nat, 0x100);
        }
        let wide: u16 = (self as u16) * (rhs as u16);
        (wide % 0x100) as u8
    }
}

impl Bits for u16 {
    open spec fn spec_n_bits() -> nat {
        16
    }

    fn n_bits() -> (n: u32) {
        16
    }
}

impl Word for u16 {
    open spec fn val(self) -> nat {
        self as nat
    }

    proof fn lemma_radix() {
        lemma2_to64();
        lemma2_to64_rest();
    }

    proof fn lemma_word(self) {
        lemma2_to64();
        lemma2_to64_rest();
    }

    proof fn lemma_val_injective(self, other: u16) {
    }

    fn to_u64(self) -> (r: u64) {
        self as u64
    }

    fn from_u64(x: u64) -> (r: u16) {
        proof {
            lemma2_to64();
            lemma2_to64_rest();
        }
        x as u16
    }
}

impl Widening for u16 {
    type WideT = u32;

    fn carry_add(self, rhs: u16, carry: bool) -> (r: (u16, bool)) {
        proof {
            lemma2_to64();
            lemma2_to64_rest();
        }
        let c: u32 = if carry { 1 } else { 0 };
        let wide: u32 = (self as u32) + (rhs as u32) + c;
        if wide >= 0x1_0000 {
            ((wide - 0x1_0000) as u16, true)
        } else {
            (wide as u16, false)
        }
    }

    fn borrow_sub(self, rhs: u16, borrow: bool) -> (r: (u16, bool)) {
        proof {
            lemma2_to64();
            lemma2_to64_rest();
        }
        let c: u32 = if borrow { 1 } else { 0 };
        let take: u32 = (rhs as u32) + c;
        if (self as u32) >= take {
            (((self as u32) - take) as u16, false)
        } else {
            (((self as u32) + 0x1_0000 - take) as u16, true)
        }
    }

    fn widen_mul(self, rhs: u16) -> (r: (u16, u16)) {
        proof {
            lemma2_to64();
            lemma2_to64_rest();
            lemma_product_bound(self as nat, rhs as nat, 0x1_0000);
        }
        let wide: u32 = (self as u32) * (rhs as u32);
        proof {
            assert(wide == (wide / 0x1_0000) * 0x1_0000 + wide % 0x1_0000);
            assert(radix::<u16>() == 0x1_0000);
        }
        ((wide % 0x1_0000) as u16, (wide / 0x1_0000) as u16)
    }

    fn carry_mul(self, rhs: u16, carry: u16) -> (r: (u16, u16)) {
        proof {
            lemma2_to64();
            lemma2_to64_rest();
            lemma_product_bound(self as nat, rhs as nat, 0x1_0000);
        }
        let wide: u32 = (self as u32) * (rhs as u32) + (carry as u32);
        proof {
            assert(wide == (wide / 0x1_0000) * 0x1_0000 + wide % 0x1_0000);
            assert(radix::<u16>() == 0x1_0000);
        }
        ((wide % 0x1_0000) as u16, (wide / 0x1_0000) as u16)
    }

    fn div_wide(hi: u16, lo: u16, divisor: u16) -> (r: (u16, u16)) {
        proof {
            lemma2_to64();
            lemma2_to64_rest();
            lemma_product_bound(hi as nat, (0x1_0000 - 1) as nat, 0x1_0000);
        }
        let wide: u32 = (hi as u32) * 0x1_0000 + (lo as u32);
        let q: u32 = wide / (divisor as u32);
        let rem: u32 = wide % (divisor as u32);
        proof {
            lemma_quotient_below_radix(hi as nat, lo as nat, divisor as nat, 0x1_0000);
        }
        (q as u16, rem as u16)
    }
}

impl WrappingOps for u16 {
    fn wrapping_add(self, rhs: u16) -> (r: u16) {
        proof {
            lemma2_to64();
            lemma2_to64_rest();
        }
        let wide: u32 = (self as u32) + (rhs as u32);
        (wide % 0x1_0000) as u16
    }

    fn wrapping_sub(self, rhs: u16) -> (r: u16) {
        proof {
            lemma2_to64();
            lemma2_to64_rest();
        }
        let wide: u32 = (self as u32) + 0x1_0000 - (rhs as u32);
        proof {
            vstd::arithmetic::div_mod::lemma_mod_add_multiples_vanish(
                self as int - rhs as int,
                0x1_0000 as int,
            );
        }
        (wide % 0x1_0000) as u16
    }

    fn wrapping_neg(self) -> (r: u16) {
        proof {
            lemma2_to64();
            lemma2_to64_rest();
        }
        let wide: u32 = 0x1_0000 - (self as u32);
        proof {
            vstd::arithmetic::div_mod::lemma_mod_add_multiples_vanish(
                -(self as int),
                0x1_0000 as int,
            );
        }
        (wide % 0x1_0000) as u16
    }

    fn wrapping_mul(self, rhs: u16) -> (r: u16) {
        proof {
            lemma2_to64();
            lemma2_to64_rest();
            lemma_product_bound(self as nat, rhs as nat, 0x1_0000);
        }
        let wide: u32 = (self as u32) * (rhs as u32);
        (wide % 0x1_0000) as u16
    }
}

impl Bits for u32 {
    open spec fn spec_n_bits() -> nat {
        32
    }

    fn n_bits() -> (n: u32) {
        32
    }
}

impl Word for u32 {
    open spec fn val(self) -> nat {
        self as nat
    }

    proof fn lemma_radix() {
        lemma2_to64();
        lemma2_to64_rest();
    }

    proof fn lemma_word(self) {
        lemma2_to64();
        lemma2_to64_rest();
    }

    proof fn lemma_val_injective(self, other: u32) {
    }

    fn to_u64(self) -> (r: u64) {
        self as u64
    }

    fn from_u64(x: u64) -> (r: u32) {
        proof {
            lemma2_to64();
            lemma2_to64_rest();
        }
        x as u32
    }
}

impl Widening for u32 {
    type WideT = u64;

    fn carry_add(self, rhs: u32, carry: bool) -> (r: (u32, bool)) {
        proof {
            lemma2_to64();
            lemma2_to64_rest();
        }
        let c: u64 = if carry { 1 } else { 0 };
        let wide: u64 = (self as u64) + (rhs as u64) + c;
        if wide >= 0x1_0000_0000 {
            ((wide - 0x1_0000_0000) as u32, true)
        } else {
            (wide as u32, false)
        }
    }

    fn borrow_sub(self, rhs: u32, borrow: bool) -> (r: (u32, bool)) {
        proof {
            lemma2_to64();
            lemma2_to64_rest();
        }
        let c: u64 = if borrow { 1 } else { 0 };
        let take: u64 = (rhs as u64) + c;
        if (self as u64) >= take {
            (((self as u64) - take) as u32, false)
        } else {
            (((self as u64) + 0x1_0000_0000 - take) as u32, true)
        }
    }

    fn widen_mul(self, rhs: u32) -> (r: (u32, u32)) {
        proof {
            lemma2_to64();
            lemma2_to64_rest();
            lemma_product_bound(self as nat, rhs as nat, 0x1_0000_0000);
        }
        let wide: u64 = (self as u64) * (rhs as u64);
        proof {
            assert(wide == (wide / 0x1_0000_0000) * 0x1_0000_0000 + wide % 0x1_0000_0000);
            assert(radix::<u32>() == 0x1_0000_0000);
        }
        ((wide % 0x1_0000_0000) as u32, (wide / 0x1_0000_0000) as u32)
    }

    fn carry_mul(self, rhs: u32, carry: u32) -> (r: (u32, u32)) {
        proof {
            lemma2_to64();
            lemma2_to64_rest();
            lemma_product_bound(self as nat, rhs as nat, 0x1_0000_0000);
        }
        let wide: u64 = (self as u64) * (rhs as u64) + (carry as u64);
        proof {
            assert(wide == (wide / 0x1_0000_0000) * 0x1_0000_0000 + wide % 0x1_0000_0000);
            assert(radix::<u32>() == 0x1_0000_0000);
        }
        ((wide % 0x1_0000_0000) as u32, (wide / 0x1_0000_0000) as u32)
    }

    fn div_wide(hi: u32, lo: u32, divisor: u32) -> (r: (u32, u32)) {
        proof {
            lemma2_to64();
            lemma2_to64_rest();
            lemma_product_bound(hi as nat, (0x1_0000_0000 - 1) as nat, 0x1_0000_0000);
        }
        let wide: u64 = (hi as u64) * 0x1_0000_0000 + (lo as u64);
        let q: u64 = wide / (divisor as u64);
        let rem: u64 = wide % (divisor as u64);
        proof {
            lemma_quotient_below_radix(hi as nat, lo as nat, divisor as nat, 0x1_0000_0000);
        }
        (q as u32, rem as u32)
    }
}

impl WrappingOps for u32 {
    fn wrapping_add(self, rhs: u32) -> (r: u32) {
        proof {
            lemma2_to64();
            lemma2_to64_rest();
        }
        let wide: u64 = (self as u64) + (rhs as u64);
        (wide % 0x1_0000_0000) as u32
    }

    fn wrapping_sub(self, rhs: u32) -> (r: u32) {
        proof {
            lemma2_to64();
            lemma2_to64_rest();
        }
        let wide: u64 = (self as u64) + 0x1_0000_0000 - (rhs as u64);
        proof {
            vstd::arithmetic::div_mod::lemma_mod_add_multiples_vanish(
                self as int - rhs as int,
                0x1_0000_0000 as int,
            );
        }
        (wide % 0x1_0000_0000) as u32
    }

    fn wrapping_neg(self) -> (r: u32) {
        proof {
            lemma2_to64();
            lemma2_to64_rest();
        }
        let wide: u64 = 0x1_0000_0000 - (self as u64);
        proof {
            vstd::arithmetic::div_mod::lemma_mod_add_multiples_vanish(
                -(self as int),
                0x1_0000_0000 as int,
            );
        }
        (wide % 0x1_0000_0000) as u32
    }

    fn wrapping_mul(self, rhs: u32) -> (r: u32) {
        proof {
            lemma2_to64();
            lemma2_to64_rest();
            lemma_product_bound(self as nat, rhs as nat, 0x1_0000_0000);
        }
        let wide: u64 = (self as u64) * (rhs as u64);
        (wide % 0x1_0000_0000) as u32
    }
}

impl Bits for u64 {
    open spec fn spec_n_bits() -> nat {
        64
    }

    fn n_bits() -> (n: u32) {
        64
    }
}

impl Word for u64 {
    open spec fn val(self) -> nat {
        self as nat
    }

    proof fn lemma_radix() {
        lemma2_to64();
        lemma2_to64_rest();
    }

    proof fn lemma_word(self) {
        lemma2_to64();
        lemma2_to64_rest();
    }

    proof fn lemma_val_injective(self, other: u64) {
    }

    fn to_u64(self) -> (r: u64) {
        self as u64
    }

    fn from_u64(x: u64) -> (r: u64) {
        proof {
            lemma2_to64();
            lemma2_to64_rest();
        }
        x as u64
    }
}

impl Widening for u64 {
    type WideT = u128;

    fn carry_add(self, rhs: u64, carry: bool) -> (r: (u64, bool)) {
        proof {
            lemma2_to64();
            lemma2_to64_rest();
        }
        let c: u128 = if carry { 1 } else { 0 };
        let wide: u128 = (self as u128) + (rhs as u128) + c;
        if wide >= 0x1_0000_0000_0000_0000 {
            ((wide - 0x1_0000_0000_0000_0000) as u64, true)
        } else {
            (wide as u64, false)
        }
    }

    fn borrow_sub(self, rhs: u64, borrow: bool) -> (r: (u64, bool)) {
        proof {
            lemma2_to64();
            lemma2_to64_rest();
        }
        let c: u128 = if borrow { 1 } else { 0 };
        let take: u128 = (rhs as u128) + c;
        if (self as u128) >= take {
            (((self as u128) - take) as u64, false)
        } else {
            (((self as u128) + 0x1_0000_0000_0000_0000 - take) as u64, true)
        }
    }

    fn widen_mul(self, rhs: u64) -> (r: (u64, u64)) {
        proof {
            lemma2_to64();
            lemma2_to64_rest();
            lemma_product_bound(self as nat, rhs as nat, 0x1_0000_0000_0000_0000);
        }
        let wide: u128 = (self as u128) * (rhs as u128);
        proof {
            assert(wide == (wide / 0x1_0000_0000_0000_0000) * 0x1_0000_0000_0000_0000 + wide % 0x1_0000_0000_0000_0000);
            assert(radix::<u64>() == 0x1_0000_0000_0000_0000);
        }
        ((wide % 0x1_0000_0000_0000_0000) as u64, (wide / 0x1_0000_0000_0000_0000) as u64)
    }

    fn carry_mul(self, rhs: u64, carry: u64) -> (r: (u64, u64)) {
        proof {
            lemma2_to64();
            lemma2_to64_rest();
            lemma_product_bound(self as nat, rhs as nat, 0x1_0000_0000_0000_0000);
        }
        let wide: u128 = (self as u128) * (rhs as u128) + (carry as u128);
        proof {
            assert(wide == (wide / 0x1_0000_0000_0000_0000) * 0x1_0000_0000_0000_0000 + wide % 0x1_0000_0000_0000_0000);
            assert(radix::<u64>() == 0x1_0000_0000_0000_0000);
        }
        ((wide % 0x1_0000_0000_0000_0000) as u64, (wide / 0x1_0000_0000_0000_0000) as u64)
    }

    fn div_wide(hi: u64, lo: u64, divisor: u64) -> (r: (u64, u64)) {
        proof {
            lemma2_to64();
            lemma2_to64_rest();
            lemma_product_bound(hi as nat, (0x1_0000_0000_0000_0000 - 1) as nat, 0x1_0000_0000_0000_0000);
        }
        let wide: u128 = (hi as u128) * 0x1_0000_0000_0000_0000 + (lo as u128);
        let q: u128 = wide / (divisor as u128);
        let rem: u128 = wide % (divisor as u128);
        proof {
            lemma_quotient_below_radix(hi as nat, lo as nat, divisor as nat, 0x1_0000_0000_0000_0000);
        }
        (q as u64, rem as u64)
    }
}

impl WrappingOps for u64 {
    fn wrapping_add(self, rhs: u64) -> (r: u64) {
        proof {
            lemma2_to64();
            lemma2_to64_rest();
        }
        let wide: u128 = (self as u128) + (rhs as u128);
        (wide % 0x1_0000_0000_0000_0000) as u64
    }

    fn wrapping_sub(self, rhs: u64) -> (r: u64) {
        proof {
            lemma2_to64();
            lemma2_to64_rest();
        }
        let wide: u128 = (self as u128) + 0x1_0000_0000_0000_0000 - (rhs as u128);
        proof {
            vstd::arithmetic::div_mod::lemma_mod_add_multiples_vanish(
                self as int - rhs as int,
                0x1_0000_0000_0000_0000 as int,
            );
        }
        (wide % 0x1_0000_0000_0000_0000) as u64
    }

    fn wrapping_neg(self) -> (r: u64) {
        proof {
            lemma2_to64();
            lemma2_to64_rest();
        }
        let wide: u128 = 0x1_0000_0000_0000_0000 - (self as u128);
        proof {
            vstd::arithmetic::div_mod::lemma_mod_add_multiples_vanish(
                -(self as int),
                0x1_0000_0000_0000_0000 as int,
            );
        }
        (wide % 0x1_0000_0000_0000_0000) as u64
    }

    fn wrapping_mul(self, rhs: u64) -> (r: u64) {
        proof {
            lemma2_to64();
            lemma2_to64_rest();
            lemma_product_bound(self as nat, rhs as nat, 0x1_0000_0000_0000_0000);
        }
        let wide: u128 = (self as u128) * (rhs as u128);
        (wide % 0x1_0000_0000_0000_0000) as u64
    }
}

/// A product of two numbers below `b` is at most `(b - 1)^2`.
pub proof fn lemma_product_bound(x: nat, y: nat, b: nat)
    requires
        x < b,
        y < b,
    ensures
        x * y <= (b - 1) * (b - 1),
        x * y + (b - 1) < b * b,
{
    assert(x * y <= (b - 1) * (b - 1)) by (nonlinear_arith)
        requires
            x < b,
            y < b,
    ;
    assert((b - 1) * (b - 1) + (b - 1) < b * b) by (nonlinear_arith)
        requires
            b >= 1,
    ;
}

/// Dividing `hi·b + lo` by `d` leaves a quotient below `b` when `hi < d`.
pub proof fn lemma_quotient_below_radix(hi: nat, lo: nat, d: nat, b: nat)
    requires
        hi < d,
        lo < b,
    ensures
        (hi * b + lo) / d < b,
        (hi * b + lo) % d < d,
{
    let x = (hi * b + lo) as int;
    vstd::arithmetic::div_mod::lemma_fundamental_div_mod(x, d as int);
    vstd::arithmetic::div_mod::lemma_mod_bound(x, d as int);
    let q = x / (d as int);
    assert(q < b) by (nonlinear_arith)
        requires
            x == (d as int) * q + x % (d as int),
            0 <= x % (d as int),
            x == hi * b + lo,
            hi < d,
            lo < b,
            d > 0,
    ;
}

/// `x >> bits`, which is `⌊x / 2^bits⌋`.
pub fn shift_right<T: Word>(x: T, bits: u32) -> (r: T)
    requires
        bits < T::spec_n_bits(),
    ensures
        r.val() == x.val() / pow2(bits as nat),
{
    proof {
        x.lemma_word();
        T::lemma_radix();
        vstd::bits::lemma_u64_shr_is_div(x.val() as u64, bits as u64);
        vstd::arithmetic::power2::lemma_pow2_pos(bits as nat);
        let d = pow2(bits as nat) as int;
        let xv = x.val() as int;
        vstd::arithmetic::div_mod::lemma_fundamental_div_mod(xv, d);
        vstd::arithmetic::div_mod::lemma_mod_bound(xv, d);
        assert(xv / d <= xv) by (nonlinear_arith)
            requires
                xv == d * (xv / d) + xv % d,
                0 <= xv % d,
                d >= 1,
                xv >= 0,
        ;
    }
    T::from_u64(x.to_u64() >> (bits as u64))
}

/// `x & mask` for a mask `2^k - 1`, which is `x mod 2^k`.
pub fn low_bits<T: Word>(x: T, mask: T) -> (r: T)
    requires
        exists|k: nat| mask.val() + 1 == #[trigger] pow2(k),
    ensures
        r.val() == x.val() % (mask.val() + 1),
{
    proof {
        x.lemma_word();
        mask.lemma_word();
        let k = choose|k: nat| mask.val() + 1 == #[trigger] pow2(k);
        lemma2_to64();
        lemma2_to64_rest();
        if k > 64 {
            vstd::arithmetic::power2::lemma_pow2_strictly_increases(64, k);
        }
        if k == 64 {
            let xw = x.val() as u64;
            assert(xw & 0xffff_ffff_ffff_ffffu64 == xw) by (bit_vector);
            vstd::arithmetic::div_mod::lemma_small_mod(x.val(), pow2(64));
        } else {
            vstd::arithmetic::power2::lemma_pow2_pos(k);
            assert(vstd::bits::low_bits_mask(k) == pow2(k) - 1) by {
                reveal(vstd::bits::low_bits_mask);
            }
            vstd::bits::lemma_u64_low_bits_mask_is_mod(x.val() as u64, k);
        }
        vstd::arithmetic::div_mod::lemma_mod_bound(x.val() as int, (mask.val() + 1) as int);
    }
    T::from_u64(x.to_u64() & mask.to_u64())
}

/// The word with the low `bits` bits set: `2^bits - 1`.
pub fn ones<T: Word>(bits: u32) -> (r: T)
    requires
        0 < bits <= T::spec_n_bits(),
    ensures
        r.val() == pow2(bits as nat) - 1,
{
    proof {
        T::lemma_radix();
        lemma2_to64();
        lemma2_to64_rest();
        let k = (64 - bits) as nat;
        vstd::bits::lemma_u64_shr_is_div(u64::MAX, (64 - bits) as u64);
        vstd::arithmetic::power2::lemma_pow2_adds(bits as nat, k);
        vstd::arithmetic::power2::lemma_pow2_pos(k);
        vstd::arithmetic::power2::lemma_pow2_pos(bits as nat);
        let a = pow2(bits as nat) as int;
        let b = pow2(k) as int;
        assert(0xffff_ffff_ffff_ffff == (b - 1) + (a - 1) * b) by (nonlinear_arith)
            requires
                a * b == 0x1_0000_0000_0000_0000,
        ;
        crate::lemmas::lemma_mod_unique(0xffff_ffff_ffff_ffff, b - 1, a - 1, b);
        if bits < T::spec_n_bits() {
            vstd::arithmetic::power2::lemma_pow2_strictly_increases(bits as nat, T::spec_n_bits());
        }
    }
    T::from_u64(u64::MAX >> ((64 - bits) as u64))
}

} // verus!
