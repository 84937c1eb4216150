//! Detection of three-leg currency cycles on one venue's quote snapshot.
//!
//! Prices and sizes are fixed-point integers with `PRICE_SCALE` units per
//! whole unit; percentages are integers with `PCT_SCALE` units per percent.
pub mod decimal;
pub mod detector;
pub mod exchange;
pub mod market;
pub mod profit;
pub mod ranking;
