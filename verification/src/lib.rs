//! Complexity and entropy estimators over byte strings and sampled signals,
//! with their integer logic stated and proved.
//!
//! The library works on integers only. Byte strings come as they are. A
//! sample of a signal comes as the 64 bits of its IEEE-754 binary64 number,
//! or, where an estimator only asks which samples are close to each other,
//! as a table of those answers. What an estimator computes from there is
//! exact: a count, an order, a fraction of two counts. The logarithm or the
//! quotient that turns it into a score is left to the caller.
//!
//! - [`entropy::lempel_ziv`]: dictionary complexity of a byte string.
//! - [`entropy::ranking`]: the samples of a signal in ascending order, for
//!   statistics of its empirical distribution.
//! - [`entropy::templates`]: the counts of matching windows that approximate
//!   entropy and sample entropy are made of.
//! - [`bytes`]: byte frequencies and byte changes of a string.
//! - [`hashing`]: two 32-bit string hashes, in hexadecimal.
//! - [`similarity`]: Levenshtein distance, with the laws of a metric.

pub mod bytes;
pub mod entropy;
pub mod error;
pub mod hashing;
pub mod similarity;

pub use error::EstimatorError;
pub use hashing::fnv_hash;
pub use hashing::murmur_hash;
