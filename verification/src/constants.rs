//! Engine-wide constants: the step-grid size and the fee split.
//!
//! Of every unit of swap input, `TRADED` is exchanged, `LP_FEE` goes to the
//! touched step's fee vault for its liquidity providers, and
//! `PROTOCOL_FEE` to the pool's protocol reserve; the three fractions sum
//! to one. The raw values are fixed-point with eighteen fractional digits.

use vstd::prelude::*;

verus! {

/// Highest step index: step indices run over `[0, NB_STEP]`.
pub const NB_STEP: u16 = 65535;

/// Liquidity-provider fee fraction, `0.0025` (raw).
pub const LP_FEE: i128 = 2_500_000_000_000_000;

/// Protocol fee fraction, `0.0005` (raw).
pub const PROTOCOL_FEE: i128 = 500_000_000_000_000;

/// Fraction of a swap input that is actually exchanged, `0.997` (raw).
pub const TRADED: i128 = 997_000_000_000_000_000;

} // verus!
