//! A price-volatility estimator over time-bucketed feed data.
//!
//! Observations from up to four independent price feeds are merged into a
//! grid of time buckets, one representative price per bucket is chosen, gaps
//! are filled by linear interpolation, and a standard-deviation based
//! volatility figure is computed over the resulting series.
//!
//! Prices are fixed-point integers: a value of [`PRICE_SCALE`] units stands
//! for a price of one. Timestamps are Unix seconds (UTC).

pub mod config;
pub mod consolidate;
pub mod grid;
pub mod interpolate;
pub mod rounding;
pub mod stats;
pub mod volatility;

use vstd::prelude::*;

verus! {

/// Number of fixed-point units that stand for a price of one.
pub const PRICE_SCALE: i64 = 1_000_000_000;

} // verus!
