//! Prime-field arithmetic, the negacyclic number theoretic transform and a
//! linearly homomorphic encryption scheme with a threshold variant.

pub mod bfv;
pub mod error;
pub mod field;
pub mod lemmas;
pub mod modulus;
pub mod polynomial;
pub mod primitive;
pub mod random;
pub mod reduce;
pub mod transformation;
pub mod utils;

pub use bfv::{
    BFVCiphertext, BFVContext, BFVPlaintext, BFVPublicKey, BFVScheme, BFVSecretKey, CipherField,
    PlainField, ThresholdPKE, ThresholdPKEContext, ThresholdPolicy, DIMENSION_N,
    MAX_NODES_NUMBER,
};
pub use error::AlgebraError;
pub use field::{Field, FieldCore, NTTField, PrimeField};
pub use polynomial::{
    DenseMultilinearExtension, ListOfProductsOfPolynomials, PolynomialInfo,
    ntt_add_mul_assign, ntt_add_mul_assign_fast, ntt_add_mul_inplace, ntt_mul_assign,
    ntt_mul_inplace, NTTPolynomial, Polynomial,
};
pub use primitive::{div_ceil, Bits, Widening, Word, WrappingOps};
pub use random::{FieldBinarySampler, FieldTernarySampler, Random, RandomNTTField};
pub use reduce::ModulusConfig;
