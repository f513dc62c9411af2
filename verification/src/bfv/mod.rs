//! A linearly homomorphic encryption scheme of the BFV family, and its
//! threshold variant.

use vstd::prelude::*;

pub mod aead;
pub mod budget;
pub mod ciphertext;
pub mod context;
pub mod correctness;
pub mod interpolation;
pub mod laws;
pub mod plaintext;
pub mod publickey;
pub mod scheme;
pub mod secretkey;
pub mod serial;
pub mod tpke;

pub use ciphertext::{BFVCiphertext, CipherField, DIMENSION_N};
pub use context::BFVContext;
pub use plaintext::{BFVPlaintext, PlainField};
pub use publickey::BFVPublicKey;
pub use scheme::BFVScheme;
pub use secretkey::BFVSecretKey;
pub use tpke::{ThresholdPKE, ThresholdPKEContext, ThresholdPolicy};

verus! {

/// The largest number of nodes of a threshold policy.
pub const MAX_NODES_NUMBER: usize = 20;

} // verus!
