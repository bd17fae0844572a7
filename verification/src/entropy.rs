//! Estimators of randomness, regularity and compressibility.

pub mod lempel_ziv;
pub mod ranking;
pub mod templates;

pub use lempel_ziv::lempel_ziv_complexity;
