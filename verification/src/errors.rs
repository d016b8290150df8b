//! The engine's error taxonomy: configuration errors, range errors,
//! insufficient-funds errors and numeric errors. Every failure is
//! synchronous and leaves the engine state unchanged.

use vstd::prelude::*;

verus! {

/// Why an engine operation was refused. Each operation's contract states
/// exactly which inputs produce which variant.
#[derive(Clone, Copy, Debug, PartialEq, Eq, Structural)]
pub enum EngineError {
    /// A pool was requested with `min_rate <= 0`.
    MinRateNotPositive,
    /// A pool was requested with `max_rate <= min_rate`.
    MaxRateNotGreater,
    /// A pool was requested with an initial rate outside `[min_rate, max_rate]`.
    InitialRateOutOfRange,
    /// A pool was requested over a single asset.
    SameToken,
    /// Neither asset of the requested pair is the stablecoin.
    NoStablecoin,
    /// A pool trading the pair already exists.
    PoolAlreadyExists,
    /// No pool trades the pair.
    NoPoolForPair,
    /// A computed or given step index lies outside `[0, NB_STEP]`.
    StepOutOfRange,
    /// A step was created with a rate that is not positive.
    InvalidRate,
    /// A withdrawal or trade asked for more than the reservoirs hold.
    InsufficientFunds,
    /// Two containers of different assets were combined.
    AssetMismatch,
    /// A position refers to a step the pool does not hold.
    NoSuchStep,
    /// The logarithm of a non-positive number was requested.
    LogOfNonPositive,
    /// `pow(0, 0)` was requested.
    ZeroToTheZero,
    /// The logarithm iteration did not reach a fixed point within its cap.
    NonConvergence,
    /// A fixed-point result does not fit in the decimal's range.
    Overflow,
    /// A division by zero was requested.
    DivisionByZero,
}

} // verus!
