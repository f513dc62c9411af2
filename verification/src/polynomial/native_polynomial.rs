//! Polynomials in coefficient form, modulo `X^N + 1`.

use crate::field::basis::digit;
use crate::field::{canonical, fval, Basis, Field, FieldCore};
use crate::polynomial::elementwise::{
    all_canonical, all_zero, copied, filled, is_all_zero, is_difference, is_negative, is_scaled, is_sum,
    vec_add, vec_mul_scalar, vec_neg, vec_sub,
};
use crate::polynomial::ntt_polynomial::NTTPolynomial;
use crate::transformation::ntt_table::{all_below, factors, vals, NTTTable};
use crate::primitive::Word;
use crate::random::Random;
use crate::utils::sample::{
    cbd_bound, is_small, sample_binary_field_vec, sample_cbd_field_vec, sample_ternary_field_vec,
};
use crate::transformation::spec::{hadamard, intt, ntt};
use vstd::arithmetic::power2::pow2;
use vstd::prelude::*;

verus! {

/// A polynomial as the vector of its coefficients: the entry `i` is the
/// coefficient of `X^i`.
#[derive(Clone, Debug, PartialEq, Eq)]
pub struct Polynomial<F: FieldCore> {
    data: Vec<F>,
}

impl<F: FieldCore> View for Polynomial<F> {
    type V = Seq<F>;

    closed spec fn view(&self) -> Seq<F> {
        self.data@
    }
}

/// The value of the polynomial with the coefficients `s` at `x`:
/// `s[0] + s[1]·x + s[2]·x² + …`.
pub open spec fn poly_eval(s: Seq<int>, x: int) -> int
    decreases s.len(),
{
    if s.len() == 0 {
        0
    } else {
        s[0] + x * poly_eval(s.skip(1), x)
    }
}

impl<F: FieldCore> Polynomial<F> {
    /// The polynomial with the coefficients `polynomial`.
    pub fn new(polynomial: Vec<F>) -> (r: Self)
        ensures
            r@ == polynomial@,
    {
        Polynomial { data: polynomial }
    }

    /// The polynomial with a copy of the coefficients `polynomial`.
    pub fn from_slice(polynomial: &[F]) -> (r: Self)
        ensures
            r@ == polynomial@,
    {
        Polynomial { data: copied(polynomial) }
    }

    /// The coefficients, by value.
    pub fn data(self) -> (data: Vec<F>)
        ensures
            data@ == self@,
    {
        self.data
    }

    /// The polynomial `0` with `coeff_count` coefficients.
    pub fn zero(coeff_count: usize) -> (r: Self)
        ensures
            r@.len() == coeff_count,
            forall|i: int| 0 <= i < coeff_count ==> fval(#[trigger] r@[i]) == 0,
    {
        Polynomial { data: filled(F::zero(), coeff_count) }
    }

    /// Whether every coefficient is `0`.
    pub fn is_zero(&self) -> (r: bool)
        ensures
            r == is_all_zero(self@),
    {
        all_zero(&self.data)
    }

    /// Sets every coefficient to `0`.
    pub fn set_zero(&mut self)
        ensures
            final(self)@.len() == old(self)@.len(),
            forall|i: int| 0 <= i < final(self)@.len() ==> fval(#[trigger] final(self)@[i]) == 0,
    {
        let n = self.data.len();
        self.data = filled(F::zero(), n);
    }

    /// Copies the coefficients from a slice of the same length.
    pub fn copy_from(&mut self, src: &[F])
        requires
            src@.len() == old(self)@.len(),
        ensures
            final(self)@ == src@,
    {
        self.data = copied(src);
    }

    /// The coefficients as a slice.
    pub fn as_slice(&self) -> (s: &[F])
        ensures
            s@ == self@,
    {
        self.data.as_slice()
    }

    /// The coefficient of `X^i`.
    pub fn get(&self, i: usize) -> (c: F)
        requires
            i < self@.len(),
        ensures
            c == self@[i as int],
    {
        self.data[i]
    }

    /// Replaces the coefficient of `X^i`.
    pub fn set(&mut self, i: usize, c: F)
        requires
            i < old(self)@.len(),
        ensures
            final(self)@ == old(self)@.update(i as int, c),
    {
        self.data.set(i, c);
    }

    /// The number of coefficients.
    pub fn coeff_count(&self) -> (n: usize)
        ensures
            n == self@.len(),
    {
        self.data.len()
    }

    /// The polynomial times a scalar.
    pub fn mul_scalar(&self, scalar: F) -> (r: Self)
        ensures
            is_scaled(r@, self@, scalar),
            all_canonical(r@),
    {
        Polynomial { data: vec_mul_scalar(&self.data, scalar) }
    }

    /// Multiplies the polynomial by a scalar.
    pub fn mul_scalar_assign(&mut self, scalar: F)
        ensures
            is_scaled(final(self)@, old(self)@, scalar),
            all_canonical(final(self)@),
    {
        self.data = vec_mul_scalar(&self.data, scalar);
    }

    /// Changes the number of coefficients: cuts the polynomial, or fills it up with `value`.
    pub fn resize(&mut self, new_degree: usize, value: F)
        ensures
            final(self)@.len() == new_degree,
            forall|i: int|
                0 <= i < new_degree ==> #[trigger] final(self)@[i] == (if i < old(self)@.len() {
                    old(self)@[i]
                } else {
                    value
                }),
    {
        let n = self.data.len();
        let mut r: Vec<F> = Vec::new();
        let mut i: usize = 0;
        while i < new_degree
            invariant
                i <= new_degree,
                n == self.data@.len(),
                r@.len() == i,
                forall|j: int|
                    0 <= j < i ==> #[trigger] r@[j] == (if j < n {
                        self.data@[j]
                    } else {
                        value
                    }),
            decreases new_degree - i,
        {
            if i < n {
                r.push(self.data[i]);
            } else {
                r.push(value);
            }
            i = i + 1;
        }
        self.data = r;
    }

    /// The sum of two polynomials of the same length.
    pub fn add(&self, rhs: &Self) -> (r: Self)
        requires
            self@.len() == rhs@.len(),
            all_canonical(self@),
            all_canonical(rhs@),
        ensures
            is_sum(r@, self@, rhs@),
            all_canonical(r@),
    {
        Polynomial { data: vec_add(&self.data, &rhs.data) }
    }

    /// Adds a polynomial of the same length.
    pub fn add_assign(&mut self, rhs: &Self)
        requires
            old(self)@.len() == rhs@.len(),
            all_canonical(old(self)@),
            all_canonical(rhs@),
        ensures
            is_sum(final(self)@, old(self)@, rhs@),
            all_canonical(final(self)@),
    {
        self.data = vec_add(&self.data, &rhs.data);
    }

    /// The difference of two polynomials of the same length.
    pub fn sub(&self, rhs: &Self) -> (r: Self)
        requires
            self@.len() == rhs@.len(),
            all_canonical(self@),
            all_canonical(rhs@),
        ensures
            is_difference(r@, self@, rhs@),
            all_canonical(r@),
    {
        Polynomial { data: vec_sub(&self.data, &rhs.data) }
    }

    /// Subtracts a polynomial of the same length.
    pub fn sub_assign(&mut self, rhs: &Self)
        requires
            old(self)@.len() == rhs@.len(),
            all_canonical(old(self)@),
            all_canonical(rhs@),
        ensures
            is_difference(final(self)@, old(self)@, rhs@),
            all_canonical(final(self)@),
    {
        self.data = vec_sub(&self.data, &rhs.data);
    }

    /// The negative of the polynomial.
    pub fn neg(&self) -> (r: Self)
        requires
            all_canonical(self@),
        ensures
            is_negative(r@, self@),
            all_canonical(r@),
    {
        Polynomial { data: vec_neg(&self.data) }
    }

    /// Negates the polynomial.
    pub fn neg_assign(&mut self)
        requires
            all_canonical(old(self)@),
        ensures
            is_negative(final(self)@, old(self)@),
            all_canonical(final(self)@),
    {
        self.data = vec_neg(&self.data);
    }

    /// The value of the polynomial at `x`, by Horner's rule.
    pub fn evaluate(&self, x: F) -> (r: F)
        ensures
            fval(r) == poly_eval(vals(self@), fval(x) as int) % (F::spec_modulus() as int),
    {
        let ghost s = vals(self.data@);
        let ghost p = F::spec_modulus() as int;
        let ghost xv = fval(x) as int;
        let n = self.data.len();
        let mut acc = F::zero();
        let mut i: usize = n;
        proof {
            F::lemma_modulus();
            assert(s.skip(n as int).len() == 0);
            vstd::arithmetic::div_mod::lemma_small_mod(0, p as nat);
        }
        while i > 0
            invariant
                i <= n,
                n == self.data@.len(),
                s == vals(self.data@),
                p == F::spec_modulus(),
                p > 0,
                xv == fval(x),
                fval(acc) == poly_eval(s.skip(i as int), xv) % p,
            decreases i,
        {
            i = i - 1;
            proof {
                let rest = poly_eval(s.skip(i + 1), xv);
                assert(s.skip(i as int).skip(1) =~= s.skip(i + 1));
                assert(s.skip(i as int)[0] == fval(self.data@[i as int]));
                // a + acc·x ≡ a + x·rest
                vstd::arithmetic::div_mod::lemma_mod_twice(rest, p);
                crate::lemmas::lemma_congruence_mul_add(fval(acc) as int, rest, xv, s[i as int], p);
                assert(fval(acc) * xv == xv * fval(acc)) by (nonlinear_arith);
            }
            acc = self.data[i].add_mul(acc, x);
        }
        proof {
            assert(s.skip(0) =~= s);
        }
        acc
    }

    /// The digits of the polynomial in the basis: the polynomial `k` of
    /// the result holds the digit `k` of every coefficient.
    pub fn decompose(self, basis: Basis<F>) -> (digits: Vec<Self>)
        requires
            basis.wf(),
        ensures
            digits@.len() == basis.spec_decompose_len(),
            forall|k: int|
                0 <= k < digits@.len() ==> (#[trigger] digits@[k])@.len() == self@.len(),
            forall|k: int, i: int|
                0 <= k < digits@.len() && 0 <= i < self@.len() ==> fval(
                    #[trigger] (#[trigger] digits@[k])@[i],
                ) == digit(fval(self@[i]), basis.spec_bits() as nat, k as nat),
    {
        let len = basis.decompose_len();
        let mut rest = self;
        let ghost start = rest@;
        let mut digits: Vec<Self> = Vec::new();
        let mut k: usize = 0;
        proof {
            vstd::arithmetic::power2::lemma2_to64();
            assert forall|i: int| 0 <= i < start.len() implies fval(#[trigger] rest@[i]) == fval(
                start[i],
            ) / pow2((basis.spec_bits() as nat) * 0) by {
                assert((basis.spec_bits() as nat) * 0 == 0);
            }
        }
        while k < len
            invariant
                basis.wf(),
                len == basis.spec_decompose_len(),
                k <= len,
                rest@.len() == start.len(),
                digits@.len() == k,
                forall|i: int|
                    0 <= i < start.len() ==> fval(#[trigger] rest@[i]) == fval(start[i]) / pow2(
                        (basis.spec_bits() as nat) * (k as nat),
                    ),
                forall|j: int| 0 <= j < k ==> (#[trigger] digits@[j])@.len() == start.len(),
                forall|j: int, i: int|
                    0 <= j < k && 0 <= i < start.len() ==> fval(
                        #[trigger] (#[trigger] digits@[j])@[i],
                    ) == digit(fval(start[i]), basis.spec_bits() as nat, j as nat),
            decreases len - k,
        {
            let mut low = Polynomial { data: Vec::new() };
            let ghost before = rest@;
            rest.decompose_lsb_bits_inplace(basis, &mut low);
            proof {
                assert forall|i: int| 0 <= i < start.len() implies fval(#[trigger] rest@[i])
                    == fval(start[i]) / pow2((basis.spec_bits() as nat) * ((k + 1) as nat))
                    && fval(low@[i]) == digit(
                    fval(start[i]),
                    basis.spec_bits() as nat,
                    k as nat,
                ) by {
                    crate::field::basis::lemma_digit_step(
                        fval(start[i]),
                        basis.spec_bits() as nat,
                        k as nat,
                    );
                    assert(fval(before[i]) == fval(start[i]) / pow2(
                        (basis.spec_bits() as nat) * (k as nat),
                    ));
                }
            }
            digits.push(low);
            k = k + 1;
        }
        digits
    }

    /// Takes the lowest digit off every coefficient: `destination` gets
    /// the digits, and the coefficients are left divided by the basis.
    pub fn decompose_lsb_bits_inplace(&mut self, basis: Basis<F>, destination: &mut Self)
        requires
            basis.wf(),
        ensures
            final(self)@.len() == old(self)@.len(),
            final(destination)@.len() == old(self)@.len(),
            forall|i: int|
                0 <= i < old(self)@.len() ==> fval(#[trigger] final(destination)@[i]) == fval(
                    old(self)@[i],
                ) % pow2(basis.spec_bits() as nat),
            forall|i: int|
                0 <= i < old(self)@.len() ==> fval(#[trigger] final(self)@[i]) == fval(
                    old(self)@[i],
                ) / pow2(basis.spec_bits() as nat),
    {
        let mask = basis.mask();
        let bits = basis.bits();
        let n = self.data.len();
        let ghost before = self.data@;
        let mut low: Vec<F> = Vec::new();
        let mut high: Vec<F> = Vec::new();
        let mut i: usize = 0;
        while i < n
            invariant
                basis.wf(),
                mask == basis.spec_mask(),
                bits == basis.spec_bits(),
                i <= n,
                n == before.len(),
                self.data@ == before,
                low@.len() == i,
                high@.len() == i,
                forall|j: int|
                    0 <= j < i ==> fval(#[trigger] low@[j]) == fval(before[j]) % pow2(bits as nat),
                forall|j: int|
                    0 <= j < i ==> fval(#[trigger] high@[j]) == fval(before[j]) / pow2(
                        bits as nat,
                    ),
            decreases n - i,
        {
            let mut c = self.data[i];
            let d = c.decompose_lsb_bits(mask, bits);
            low.push(d);
            high.push(c);
            i = i + 1;
        }
        self.data = high;
        destination.data = low;
    }

    /// The digits of the polynomial in the basis, written to `destination`;
    /// the polynomial is left with every coefficient divided by the basis
    /// once for every digit.
    pub fn decompose_inplace(&mut self, basis: Basis<F>, destination: &mut Vec<Self>)
        requires
            basis.wf(),
            old(destination)@.len() == basis.spec_decompose_len(),
        ensures
            final(self)@.len() == old(self)@.len(),
            final(destination)@.len() == basis.spec_decompose_len(),
            forall|k: int|
                0 <= k < final(destination)@.len() ==> (#[trigger] final(destination)@[k])@.len()
                    == old(self)@.len(),
            forall|k: int, i: int|
                0 <= k < final(destination)@.len() && 0 <= i < old(self)@.len() ==> fval(
                    #[trigger] (#[trigger] final(destination)@[k])@[i],
                ) == digit(fval(old(self)@[i]), basis.spec_bits() as nat, k as nat),
            forall|i: int|
                0 <= i < old(self)@.len() ==> fval(#[trigger] final(self)@[i]) == fval(
                    old(self)@[i],
                ) / pow2((basis.spec_bits() as nat) * (basis.spec_decompose_len() as nat)),
    {
        let len = basis.decompose_len();
        let ghost start = self@;
        let mut digits: Vec<Self> = Vec::new();
        let mut k: usize = 0;
        proof {
            vstd::arithmetic::power2::lemma2_to64();
            assert forall|i: int| 0 <= i < start.len() implies fval(#[trigger] self@[i]) == fval(
                start[i],
            ) / pow2((basis.spec_bits() as nat) * 0) by {
                assert((basis.spec_bits() as nat) * 0 == 0);
            }
        }
        while k < len
            invariant
                basis.wf(),
                len == basis.spec_decompose_len(),
                k <= len,
                self@.len() == start.len(),
                digits@.len() == k,
                forall|i: int|
                    0 <= i < start.len() ==> fval(#[trigger] self@[i]) == fval(start[i]) / pow2(
                        (basis.spec_bits() as nat) * (k as nat),
                    ),
                forall|j: int| 0 <= j < k ==> (#[trigger] digits@[j])@.len() == start.len(),
                forall|j: int, i: int|
                    0 <= j < k && 0 <= i < start.len() ==> fval(
                        #[trigger] (#[trigger] digits@[j])@[i],
                    ) == digit(fval(start[i]), basis.spec_bits() as nat, j as nat),
            decreases len - k,
        {
            let mut low = Polynomial { data: Vec::new() };
            let ghost before = self@;
            self.decompose_lsb_bits_inplace(basis, &mut low);
            proof {
                assert forall|i: int| 0 <= i < start.len() implies fval(#[trigger] self@[i])
                    == fval(start[i]) / pow2((basis.spec_bits() as nat) * ((k + 1) as nat))
                    && fval(low@[i]) == digit(
                    fval(start[i]),
                    basis.spec_bits() as nat,
                    k as nat,
                ) by {
                    crate::field::basis::lemma_digit_step(
                        fval(start[i]),
                        basis.spec_bits() as nat,
                        k as nat,
                    );
                    assert(fval(before[i]) == fval(start[i]) / pow2(
                        (basis.spec_bits() as nat) * (k as nat),
                    ));
                }
            }
            digits.push(low);
            k = k + 1;
        }
        *destination = digits;
    }

    /// The transform of the polynomial.
    pub fn into_ntt_polynomial(self, table: &NTTTable<F>) -> (r: NTTPolynomial<F>)
        requires
            table.wf_shape(),
            self@.len() == table.n(),
            all_below(self@, 4),
        ensures
            r@.len() == self@.len(),
            all_canonical(r@),
            vals(r@) == ntt(
                vals(self@),
                table.spec_log_n() as nat,
                factors(table.spec_root_powers()),
                F::spec_modulus() as int,
            ),
    {
        let mut data = self.data;
        table.transform_slice(data.as_mut_slice());
        proof {
            assert forall|i: int| 0 <= i < data@.len() implies canonical(#[trigger] data@[i]) by {
                assert(fval(data@[i]) < 1 * F::spec_modulus());
            }
        }
        NTTPolynomial::new(data)
    }

    /// A polynomial of `n` coefficients drawn uniformly from the field.
    pub fn random(n: usize, rng: &mut rand_chacha::ChaCha12Rng) -> (r: Self)
        ensures
            r@.len() == n,
            all_canonical(r@),
    {
        let mut data: Vec<F> = Vec::new();
        let mut i: usize = 0;
        while i < n
            invariant
                i <= n,
                data@.len() == i,
                all_canonical(data@),
            decreases n - i,
        {
            data.push(F::random(rng));
            i = i + 1;
        }
        Polynomial { data }
    }

    /// A polynomial of `n` binary coefficients.
    pub fn random_with_binary(n: usize, rng: &mut rand_chacha::ChaCha12Rng) -> (r: Self)
        ensures
            r@.len() == n,
            forall|i: int| 0 <= i < n ==> fval(#[trigger] r@[i]) <= 1,
    {
        Polynomial { data: sample_binary_field_vec(n, rng) }
    }

    /// A polynomial of `n` ternary coefficients.
    pub fn random_with_ternary(n: usize, rng: &mut rand_chacha::ChaCha12Rng) -> (r: Self)
        ensures
            r@.len() == n,
            forall|i: int|
                0 <= i < n ==> fval(#[trigger] r@[i]) <= 1 || fval(r@[i]) == F::spec_modulus() - 1,
    {
        Polynomial { data: sample_ternary_field_vec(n, rng) }
    }

    /// A polynomial of `n` coefficients of the discrete Gaussian
    /// distribution of standard deviation 3.2, which is sampled as a
    /// centered binomial distribution: every coefficient is within 21 of zero.
    pub fn random_with_gaussian(n: usize, rng: &mut rand_chacha::ChaCha12Rng) -> (r: Self)
        requires
            F::spec_modulus() > 21,
        ensures
            r@.len() == n,
            forall|i: int| 0 <= i < n ==> is_small(#[trigger] r@[i], cbd_bound()),
    {
        Polynomial { data: sample_cbd_field_vec(n, rng) }
    }

    /// The product of two polynomials modulo `X^N + 1`: both are
    /// transformed, multiplied value by value, and transformed back.
    pub fn mul(&self, rhs: &Self, table: &NTTTable<F>) -> (r: Self)
        requires
            table.wf_shape(),
            self@.len() == table.n(),
            rhs@.len() == table.n(),
            all_below(self@, 4),
            all_below(rhs@, 4),
        ensures
            r@.len() == self@.len(),
            all_canonical(r@),
            vals(r@) == ring_product(vals(self@), vals(rhs@), *table),
    {
        let mut lhs = copied(self.data.as_slice());
        let mut other = copied(rhs.data.as_slice());
        table.transform_slice(other.as_mut_slice());
        table.transform_slice(lhs.as_mut_slice());
        let product = pointwise_fast(&lhs, &other);
        NTTPolynomial::new(product).into_native_lazy(table, Ghost(vals(lhs@)), Ghost(vals(other@)))
    }

    /// Multiplies by a polynomial modulo `X^N + 1`.
    pub fn mul_assign(&mut self, rhs: &Self, table: &NTTTable<F>)
        requires
            table.wf_shape(),
            old(self)@.len() == table.n(),
            rhs@.len() == table.n(),
            all_below(old(self)@, 4),
            all_below(rhs@, 4),
        ensures
            final(self)@.len() == old(self)@.len(),
            all_canonical(final(self)@),
            vals(final(self)@) == ring_product(vals(old(self)@), vals(rhs@), *table),
    {
        let r = self.mul(rhs, table);
        self.data = r.data;
    }

    /// The product with a polynomial that is given in transformed form.
    pub fn mul_ntt(&self, rhs: &NTTPolynomial<F>, table: &NTTTable<F>) -> (r: Self)
        requires
            table.wf_shape(),
            self@.len() == table.n(),
            rhs@.len() == table.n(),
            all_below(self@, 4),
        ensures
            r@.len() == self@.len(),
            all_canonical(r@),
            vals(r@) == intt(
                hadamard(
                    ntt(
                        vals(self@),
                        table.spec_log_n() as nat,
                        factors(table.spec_root_powers()),
                        F::spec_modulus() as int,
                    ),
                    vals(rhs@),
                    F::spec_modulus() as int,
                ),
                table.spec_log_n() as nat,
                factors(table.spec_inv_root_powers()),
                table.spec_inv_degree().spec_value().val() as int,
                F::spec_modulus() as int,
            ),
    {
        let mut lhs = copied(self.data.as_slice());
        table.transform_slice(lhs.as_mut_slice());
        let other = copied(rhs.as_slice());
        let product = pointwise_fast(&lhs, &other);
        NTTPolynomial::new(product).into_native_lazy(table, Ghost(vals(lhs@)), Ghost(vals(other@)))
    }
}

/// The product of two polynomials modulo `X^N + 1`, as the transform
/// computes it: the inverse transform of the product, value by value, of
/// the two transforms.
pub open spec fn ring_product<F: FieldCore>(a: Seq<int>, b: Seq<int>, table: NTTTable<F>) -> Seq<
    int,
> {
    let p = F::spec_modulus() as int;
    let log_n = table.spec_log_n() as nat;
    let roots = factors(table.spec_root_powers());
    intt(
        hadamard(ntt(a, log_n, roots, p), ntt(b, log_n, roots, p), p),
        log_n,
        factors(table.spec_inv_root_powers()),
        table.spec_inv_degree().spec_value().val() as int,
        p,
    )
}

/// The product of two vectors, value by value, up to one extra modulus.
fn pointwise_fast<F: FieldCore>(a: &Vec<F>, b: &Vec<F>) -> (r: Vec<F>)
    requires
        a@.len() == b@.len(),
    ensures
        r@.len() == a@.len(),
        all_below(r@, 2),
        forall|i: int|
            0 <= i < r@.len() ==> fval(#[trigger] r@[i]) % F::spec_modulus() == (fval(a@[i])
                * fval(b@[i])) % F::spec_modulus(),
{
    let n = a.len();
    let mut r: Vec<F> = Vec::new();
    let mut i: usize = 0;
    while i < n
        invariant
            i <= n,
            n == a@.len(),
            n == b@.len(),
            r@.len() == i,
            all_below(r@, 2),
            forall|j: int|
                0 <= j < i ==> fval(#[trigger] r@[j]) % F::spec_modulus() == (fval(a@[j]) * fval(
                    b@[j],
                )) % F::spec_modulus(),
        decreases n - i,
    {
        r.push(a[i].mul_fast(b[i]));
        i = i + 1;
    }
    r
}

} // verus!
