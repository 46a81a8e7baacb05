//! Quantile regression of a line through the origin, `y = m * x`, on exact
//! integer samples, with the coefficient of determination of a fitted slope.
//!
//! Samples are 32-bit integers; slopes, quantile levels and scores are exact
//! fractions, so every contract is stated over the integers.

pub mod samples;
pub mod quantile_model;
pub mod sorting;
pub mod walk;
pub mod estimator;
pub mod goodness;
pub mod laws;
