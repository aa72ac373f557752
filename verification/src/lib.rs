//! Spectral compact training: linear layers that are stored as a truncated SVD.

pub mod algebra;
pub mod best_laws;
pub mod chol_laws;
pub mod chol_rounding;
pub mod cholesky;
pub mod dense;
pub mod error_laws;
pub mod exact;
pub mod grid;
pub mod house;
pub mod lanes;
pub mod layer;
pub mod layer_laws;
pub mod matmul;
pub mod mirror;
pub mod outcome;
pub mod plan;
pub mod qr;
pub mod qr_laws;
pub mod qr_rounding;
pub mod ratio;
pub mod residue;
pub mod rounding_laws;
pub mod scalar;
pub mod stored_laws;
pub mod svd;
pub mod svd_laws;
pub mod svd_rounding;
pub mod sweep_laws;
pub mod tensor;
pub mod tensor_laws;
pub mod tensor_rounding;
pub mod unique_laws;
pub mod wave;
pub mod winding;
pub mod words;

pub use layer::{SctConfig, SctLinear};
