//! Product quantization over integer-valued vectors.
//!
//! A product quantizer splits a vector into equally long slices and stores,
//! for each slice, the index of the nearest centroid of that slice's codebook.
//! Coordinates are `i32` values on a grid that the caller chooses, so every
//! distance is computed exactly.

pub mod bucket;
pub mod error;
pub mod gaussian_opq;
pub mod kmeans;
pub mod matrix;
pub mod pq;
pub mod projection;
pub mod rng;

pub use crate::error::PqError;
pub use crate::gaussian_opq::GaussianOPQ;
pub use crate::matrix::Matrix;
pub use crate::pq::{QuantizeVector, Quantizer, ReconstructVector, PQ};
