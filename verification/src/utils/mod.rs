//! Number theory: greatest common divisors, primality, bit reversal, sampling.

pub mod fermat;
pub mod gcd;
pub mod prime;
pub mod reverse;
pub mod sample;

pub use gcd::ExtendedGCD;
pub use prime::Prime;
pub use reverse::ReverseLsbs;
pub use sample::{
    from_signed, sample_binary_field_vec, sample_cbd_field_vec, sample_ternary_field_vec,
};
