//! A multivariate Kalman filter over exact rational arithmetic.
//!
//! The filter keeps a Gaussian belief about the state of a system: a mean
//! vector and a covariance matrix. Time moves the belief through an evolution
//! function, and each measurement is fused into it. All numbers are exact
//! fractions, so the algebraic laws of the fusion hold as stated, not up to
//! rounding.

pub mod algebra;
pub mod checked;
pub mod error;
pub mod fusion;
pub mod inverse;
pub mod kalman_filter;
pub mod kalman_filter_utils;
pub mod matrix;
pub mod ratio;

pub use crate::error::FilterError;
pub use crate::fusion::combine_measurements;
pub use crate::kalman_filter::KalmanFilter;
pub use crate::kalman_filter_utils::{
    covariance_matrix_from_variance, covariance_matrix_from_variance_vector,
};
pub use crate::matrix::{SimpleSquareMatrix, SimpleVector};
pub use crate::ratio::Ratio;
