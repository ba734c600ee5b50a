//! A genetic-algorithm engine that evolves linear predictors for anomaly
//! detection in time series.
//!
//! Numbers are held in fixed point: a gene `g` stands for the weight
//! `g / 2^32` in `[0, 1)`, and samples, predictions and fitness values are
//! integers in one common unit chosen by the caller (for example thousandths
//! of the measured quantity).

pub mod chromosome;
pub mod genetics;
mod random;
