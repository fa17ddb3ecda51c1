//! Pseudorandom number generation for callers of the crate.
pub mod pcg;
pub mod rng;

pub use pcg::PCGRng;
pub use rng::{BoundedRng, MappedRng, Rng};
