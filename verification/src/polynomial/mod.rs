//! Polynomials over a field, in coefficient form and in transformed form.

pub mod elementwise;
pub mod multivariate;
pub mod native_polynomial;
pub mod ntt_polynomial;

pub use multivariate::{DenseMultilinearExtension, ListOfProductsOfPolynomials, PolynomialInfo};
pub use native_polynomial::Polynomial;
pub use ntt_polynomial::{
    ntt_add_mul_assign, ntt_add_mul_assign_fast, ntt_add_mul_inplace, ntt_mul_assign,
    ntt_mul_inplace, NTTPolynomial,
};
