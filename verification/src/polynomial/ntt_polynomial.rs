//! Polynomials in transformed form: the values at the odd powers of the
//! root, in bit-reversed order.

use crate::field::{canonical, fval, Field, FieldCore};
use crate::polynomial::elementwise::{
    all_canonical, all_zero, copied, filled, is_all_zero, is_difference, is_negative, is_product, is_scaled,
    is_sum, is_sum_of_product, vec_add, vec_add_mul, vec_add_mul_fast, vec_mul, vec_mul_scalar,
    vec_neg, vec_sub,
};
use crate::polynomial::native_polynomial::Polynomial;
use crate::primitive::Word;
use crate::random::Random;
use crate::transformation::ntt_table::{all_below, factors, vals, NTTTable};
use crate::transformation::spec::{hadamard, intt, lemma_intt_congruent};
use vstd::prelude::*;

verus! {

/// A polynomial as the vector of its transformed values.
#[derive(Clone, Debug, PartialEq, Eq)]
pub struct NTTPolynomial<F: FieldCore> {
    data: Vec<F>,
}

impl<F: FieldCore> View for NTTPolynomial<F> {
    type V = Seq<F>;

    closed spec fn view(&self) -> Seq<F> {
        self.data@
    }
}

impl<F: FieldCore> NTTPolynomial<F> {
    /// The polynomial with the values `data`.
    pub fn new(data: Vec<F>) -> (r: Self)
        ensures
            r@ == data@,
    {
        NTTPolynomial { data }
    }

    /// The polynomial with a copy of the values `vec`.
    pub fn from_slice(vec: &[F]) -> (r: Self)
        ensures
            r@ == vec@,
    {
        NTTPolynomial { data: copied(vec) }
    }

    /// The values, by value.
    pub fn data(self) -> (data: Vec<F>)
        ensures
            data@ == self@,
    {
        self.data
    }

    /// The polynomial `0` with `coeff_count` values.
    pub fn zero(coeff_count: usize) -> (r: Self)
        ensures
            r@.len() == coeff_count,
            forall|i: int| 0 <= i < coeff_count ==> fval(#[trigger] r@[i]) == 0,
    {
        NTTPolynomial { data: filled(F::zero(), coeff_count) }
    }

    /// Whether every value is `0`.
    pub fn is_zero(&self) -> (r: bool)
        ensures
            r == is_all_zero(self@),
    {
        all_zero(&self.data)
    }

    /// Sets every value to `0`.
    pub fn set_zero(&mut self)
        ensures
            final(self)@.len() == old(self)@.len(),
            forall|i: int| 0 <= i < final(self)@.len() ==> fval(#[trigger] final(self)@[i]) == 0,
    {
        let n = self.data.len();
        self.data = filled(F::zero(), n);
    }

    /// Copies the values from a slice of the same length.
    pub fn copy_from(&mut self, src: &[F])
        requires
            src@.len() == old(self)@.len(),
        ensures
            final(self)@ == src@,
    {
        self.data = copied(src);
    }

    /// The values as a slice.
    pub fn as_slice(&self) -> (s: &[F])
        ensures
            s@ == self@,
    {
        self.data.as_slice()
    }

    /// The value at the place `i`.
    pub fn get(&self, i: usize) -> (c: F)
        requires
            i < self@.len(),
        ensures
            c == self@[i as int],
    {
        self.data[i]
    }

    /// Replaces the value at the place `i`.
    pub fn set(&mut self, i: usize, c: F)
        requires
            i < old(self)@.len(),
        ensures
            final(self)@ == old(self)@.update(i as int, c),
    {
        self.data.set(i, c);
    }

    /// The number of values.
    pub fn coeff_count(&self) -> (n: usize)
        ensures
            n == self@.len(),
    {
        self.data.len()
    }

    /// The polynomial times a scalar.
    pub fn mul_scalar(&self, scalar: F) -> (r: Self)
        ensures
            is_scaled(r@, self@, scalar),
            all_canonical(r@),
    {
        NTTPolynomial { data: vec_mul_scalar(&self.data, scalar) }
    }

    /// Multiplies the polynomial by a scalar.
    pub fn mul_scalar_assign(&mut self, scalar: F)
        ensures
            is_scaled(final(self)@, old(self)@, scalar),
            all_canonical(final(self)@),
    {
        self.data = vec_mul_scalar(&self.data, scalar);
    }

    /// Changes the number of values: cuts the vector, or fills it up with `value`.
    pub fn resize(&mut self, new_degree: usize, value: F)
        ensures
            final(self)@.len() == new_degree,
            forall|i: int|
                0 <= i < new_degree ==> #[trigger] final(self)@[i] == (if i < old(self)@.len() {
                    old(self)@[i]
                } else {
                    value
                }),
    {
        let n = self.data.len();
        let mut r: Vec<F> = Vec::new();
        let mut i: usize = 0;
        while i < new_degree
            invariant
                i <= new_degree,
                n == self.data@.len(),
                r@.len() == i,
                forall|j: int|
                    0 <= j < i ==> #[trigger] r@[j] == (if j < n {
                        self.data@[j]
                    } else {
                        value
                    }),
            decreases new_degree - i,
        {
            if i < n {
                r.push(self.data[i]);
            } else {
                r.push(value);
            }
            i = i + 1;
        }
        self.data = r;
    }

    /// The sum of two polynomials of the same length.
    pub fn add(&self, rhs: &Self) -> (r: Self)
        requires
            self@.len() == rhs@.len(),
            all_canonical(self@),
            all_canonical(rhs@),
        ensures
            is_sum(r@, self@, rhs@),
            all_canonical(r@),
    {
        NTTPolynomial { data: vec_add(&self.data, &rhs.data) }
    }

    /// Adds a polynomial of the same length.
    pub fn add_assign(&mut self, rhs: &Self)
        requires
            old(self)@.len() == rhs@.len(),
            all_canonical(old(self)@),
            all_canonical(rhs@),
        ensures
            is_sum(final(self)@, old(self)@, rhs@),
            all_canonical(final(self)@),
    {
        self.data = vec_add(&self.data, &rhs.data);
    }

    /// The difference of two polynomials of the same length.
    pub fn sub(&self, rhs: &Self) -> (r: Self)
        requires
            self@.len() == rhs@.len(),
            all_canonical(self@),
            all_canonical(rhs@),
        ensures
            is_difference(r@, self@, rhs@),
            all_canonical(r@),
    {
        NTTPolynomial { data: vec_sub(&self.data, &rhs.data) }
    }

    /// Subtracts a polynomial of the same length.
    pub fn sub_assign(&mut self, rhs: &Self)
        requires
            old(self)@.len() == rhs@.len(),
            all_canonical(old(self)@),
            all_canonical(rhs@),
        ensures
            is_difference(final(self)@, old(self)@, rhs@),
            all_canonical(final(self)@),
    {
        self.data = vec_sub(&self.data, &rhs.data);
    }

    /// The product of two polynomials of the same length: value by value.
    pub fn mul(&self, rhs: &Self) -> (r: Self)
        requires
            self@.len() == rhs@.len(),
        ensures
            is_product(r@, self@, rhs@),
            all_canonical(r@),
    {
        NTTPolynomial { data: vec_mul(&self.data, &rhs.data) }
    }

    /// Multiplies by a polynomial of the same length, value by value.
    pub fn mul_assign(&mut self, rhs: &Self)
        requires
            old(self)@.len() == rhs@.len(),
        ensures
            is_product(final(self)@, old(self)@, rhs@),
            all_canonical(final(self)@),
    {
        self.data = vec_mul(&self.data, &rhs.data);
    }

    /// The negative of the polynomial.
    pub fn neg(&self) -> (r: Self)
        requires
            all_canonical(self@),
        ensures
            is_negative(r@, self@),
            all_canonical(r@),
    {
        NTTPolynomial { data: vec_neg(&self.data) }
    }

    /// Negates the polynomial.
    pub fn neg_assign(&mut self)
        requires
            all_canonical(old(self)@),
        ensures
            is_negative(final(self)@, old(self)@),
            all_canonical(final(self)@),
    {
        self.data = vec_neg(&self.data);
    }

    /// A polynomial of `n` values drawn uniformly from the field.
    pub fn random(n: usize, rng: &mut rand_chacha::ChaCha12Rng) -> (r: Self)
        ensures
            r@.len() == n,
            all_canonical(r@),
    {
        let mut data: Vec<F> = Vec::new();
        let mut i: usize = 0;
        while i < n
            invariant
                i <= n,
                data@.len() == i,
                all_canonical(data@),
            decreases n - i,
        {
            data.push(F::random(rng));
            i = i + 1;
        }
        NTTPolynomial { data }
    }

    /// The polynomial in coefficient form: the inverse transform.
    pub fn into_native_polynomial(self, table: &NTTTable<F>) -> (r: Polynomial<F>)
        requires
            table.wf_shape(),
            self@.len() == table.n(),
            all_below(self@, 2),
        ensures
            r@.len() == self@.len(),
            all_canonical(r@),
            vals(r@) == intt(
                vals(self@),
                table.spec_log_n() as nat,
                factors(table.spec_inv_root_powers()),
                table.spec_inv_degree().spec_value().val() as int,
                F::spec_modulus() as int,
            ),
    {
        let mut data = self.data;
        table.inverse_transform_slice(data.as_mut_slice());
        proof {
            assert forall|i: int| 0 <= i < data@.len() implies canonical(#[trigger] data@[i]) by {
                assert(fval(data@[i]) < 1 * F::spec_modulus());
            }
        }
        Polynomial::new(data)
    }
}

impl<F: FieldCore> NTTPolynomial<F> {
    /// The inverse transform of a product that was left with one extra
    /// modulus in its values: `x` and `y` are the factors.
    pub(crate) fn into_native_lazy(
        self,
        table: &NTTTable<F>,
        Ghost(x): Ghost<Seq<int>>,
        Ghost(y): Ghost<Seq<int>>,
    ) -> (r: Polynomial<F>)
        requires
            table.wf_shape(),
            self@.len() == table.n(),
            x.len() == self@.len(),
            all_below(self@, 2),
            forall|i: int|
                0 <= i < self@.len() ==> fval(#[trigger] self@[i]) % F::spec_modulus() == (x[i]
                    * y[i]) % (F::spec_modulus() as int),
        ensures
            r@.len() == self@.len(),
            all_canonical(r@),
            vals(r@) == intt(
                hadamard(x, y, F::spec_modulus() as int),
                table.spec_log_n() as nat,
                factors(table.spec_inv_root_powers()),
                table.spec_inv_degree().spec_value().val() as int,
                F::spec_modulus() as int,
            ),
    {
        proof {
            let p = F::spec_modulus() as int;
            F::lemma_modulus();
            assert forall|j: int| 0 <= j < self@.len() implies #[trigger] vals(self@)[j] % p
                == hadamard(x, y, p)[j] % p by {
                vstd::arithmetic::div_mod::lemma_mod_twice(x[j] * y[j], p);
            }
            lemma_intt_congruent(
                vals(self@),
                hadamard(x, y, p),
                table.spec_log_n() as nat,
                factors(table.spec_inv_root_powers()),
                table.spec_inv_degree().spec_value().val() as int,
                p,
            );
        }
        self.into_native_polynomial(table)
    }
}

/// `x = x·y`, value by value.
pub fn ntt_mul_assign<F: FieldCore>(x: &mut NTTPolynomial<F>, y: &NTTPolynomial<F>)
    requires
        old(x)@.len() == y@.len(),
    ensures
        is_product(final(x)@, old(x)@, y@),
        all_canonical(final(x)@),
{
    x.mul_assign(y);
}

/// `des = x·y`, value by value.
pub fn ntt_mul_inplace<F: FieldCore>(
    x: &NTTPolynomial<F>,
    y: &NTTPolynomial<F>,
    des: &mut NTTPolynomial<F>,
)
    requires
        x@.len() == y@.len(),
    ensures
        is_product(final(des)@, x@, y@),
        all_canonical(final(des)@),
{
    *des = x.mul(y);
}

/// `x = x + y·z`, value by value.
pub fn ntt_add_mul_assign<F: FieldCore>(
    x: &mut NTTPolynomial<F>,
    y: &NTTPolynomial<F>,
    z: &NTTPolynomial<F>,
)
    requires
        old(x)@.len() == y@.len(),
        old(x)@.len() == z@.len(),
    ensures
        is_sum_of_product(final(x)@, old(x)@, y@, z@),
        all_canonical(final(x)@),
{
    x.data = vec_add_mul(&x.data, &y.data, &z.data);
}

/// `des = x + y·z`, value by value.
pub fn ntt_add_mul_inplace<F: FieldCore>(
    x: &NTTPolynomial<F>,
    y: &NTTPolynomial<F>,
    z: &NTTPolynomial<F>,
    des: &mut NTTPolynomial<F>,
)
    requires
        x@.len() == y@.len(),
        x@.len() == z@.len(),
    ensures
        is_sum_of_product(final(des)@, x@, y@, z@),
        all_canonical(final(des)@),
{
    des.data = vec_add_mul(&x.data, &y.data, &z.data);
}

/// `x = x + y·z`, value by value, up to one extra modulus in every value.
pub fn ntt_add_mul_assign_fast<F: FieldCore>(
    x: &mut NTTPolynomial<F>,
    y: &NTTPolynomial<F>,
    z: &NTTPolynomial<F>,
)
    requires
        old(x)@.len() == y@.len(),
        old(x)@.len() == z@.len(),
    ensures
        final(x)@.len() == old(x)@.len(),
        forall|i: int|
            0 <= i < final(x)@.len() ==> fval(#[trigger] final(x)@[i]) < 2 * F::spec_modulus()
                && fval(final(x)@[i]) % F::spec_modulus() == (fval(old(x)@[i]) + fval(y@[i])
                * fval(z@[i])) % F::spec_modulus(),
{
    x.data = vec_add_mul_fast(&x.data, &y.data, &z.data);
}

} // verus!
