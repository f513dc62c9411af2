//! Multilinear polynomials by their values on the Boolean hypercube.

pub mod data_structures;
pub mod dense;

pub use data_structures::{ListOfProductsOfPolynomials, PolynomialInfo};
pub use dense::DenseMultilinearExtension;
