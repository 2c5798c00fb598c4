//! Masked low-rank matrix factorization for collaborative filtering.
//!
//! The library estimates the missing entries of a sparse user-item rating
//! matrix by gradient descent on a bilinear factorization `Y ~ U * V^T`,
//! with a batch and a stochastic trainer, masked error metrics, and a
//! post-processing step that maps raw predictions back onto the rating
//! scale.  All numbers are exact fixed-point values (see [`fixed`]), so every
//! result a function returns is stated precisely in its contract.

pub mod config;
pub mod datasource_reader;
pub mod fixed;
pub mod matrix;
pub mod matrix_factorization;
pub mod metrics;
pub mod mf;
pub mod post;
