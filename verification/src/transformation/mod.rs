//! The negacyclic number theoretic transform.

pub mod cache;
pub mod convolution;
pub mod evaluation;
pub mod laws;
pub mod ntt_table;
pub mod spec;

pub use cache::NTTTableCache;
pub use ntt_table::NTTTable;
