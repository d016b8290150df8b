//! A step-indexed concentrated-liquidity exchange engine for a two-asset
//! pair (a stablecoin and one other asset).
//!
//! Liquidity providers deposit assets into discrete price steps; traders
//! swap one asset for the other, consuming liquidity step by step as the
//! price moves; providers accrue a proportional share of trading fees
//! through per-step fee-growth accumulators and can withdraw capital plus
//! accrued fees at any time.
//!
//! All amounts are [`decimal::Decimal`] values: fixed-point numbers with
//! eighteen fractional digits backed by an `i128`, with exact, truncating
//! arithmetic through full-width intermediates. The price grid and the
//! conversion between prices and step indices rest on the fixed-point
//! exponential and logarithm of [`decimal_maths`]. Each executable
//! function is verified to return exactly the value of its
//! specification-level model, or the model's error with the state
//! unchanged; the cross-operation laws live in [`laws`].

pub mod asset;
pub mod constants;
pub mod decimal;
pub mod decimal_maths;
pub mod errors;
pub mod laws;
pub mod pool;
pub mod pool_step;
pub mod position;
pub mod router;
pub mod utils;
mod wide;
