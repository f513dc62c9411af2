//! The kinds of modulus: Barrett, power of two, and Shoup factors.

pub mod barrett;
pub mod barrett_ops;
pub mod powof2;
pub mod shoup;

pub use barrett::BarrettModulus;
pub use powof2::PowOf2Modulus;
pub use shoup::ShoupFactor;
