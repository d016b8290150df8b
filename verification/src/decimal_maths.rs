//! Fixed-point exponential, logarithm and power.
//!
//! `exp` sums the Taylor series term by term until the next term rounds to
//! exactly zero at the fixed-point precision. `ln` first reduces its
//! argument by repeated division by Euler's number, then runs Halley's
//! iteration `t <- t + 2 * (a - exp(t)) / (a + exp(t))` to a bit-for-bit
//! fixed point, with a hard cap that turns non-convergence into an error.
//! `pow(v, e)` is `exp(e * ln(v))`, and `powi` is exponentiation by
//! squaring. Each executable function returns exactly the value of its
//! specification-level model, or the same error.

use crate::decimal::{
    in_range, res_matches, spec_add, spec_div, spec_mul, spec_sub, trunc_div, Decimal, SCALE,
};
use crate::errors::EngineError;
use vstd::arithmetic::div_mod::lemma_fundamental_div_mod;
use vstd::arithmetic::power2::{lemma2_to64, lemma2_to64_rest, lemma_pow2_adds, pow2};
use vstd::prelude::*;

verus! {

broadcast use crate::decimal::lemma_decimal_view_range;

/// Euler's number `e`, raw (fixed-point, eighteen fractional digits).
pub const EULER_NUMBER: i128 = 2_718_281_828_459_045_235;

/// Iteration cap of the Halley fixed-point loop: the thousandth attempt
/// fails with [`EngineError::NonConvergence`] instead of looping forever.
pub const HALLEY_FUEL: u32 = 999;

// ---------------------------------------------------------------------
// small arithmetic lemmas
// ---------------------------------------------------------------------
/// Truncated division of non-negatives is floor division.
pub(crate) proof fn lemma_trunc_div_nonneg(a: int, b: int)
    requires
        a >= 0,
        b > 0,
    ensures
        trunc_div(a, b) == a / b,
        trunc_div(a, b) >= 0,
{
    assert(a / b >= 0) by (nonlinear_arith)
        requires
            a >= 0,
            b > 0,
    {
    }
}

/// Scaling up then dividing by at least the scale cannot grow a
/// non-negative value.
pub(crate) proof fn lemma_div_scale_le(a: int, b: int)
    requires
        0 <= a,
        SCALE as int <= b,
    ensures
        0 <= trunc_div(a * SCALE as int, b) <= a,
{
    let s = SCALE as int;
    assert(a * s >= 0) by (nonlinear_arith)
        requires
            a >= 0,
            s > 0,
    {
    }
    lemma_trunc_div_nonneg(a * s, b);
    lemma_fundamental_div_mod(a * s, b);
    assert((a * s) / b <= a) by (nonlinear_arith)
        requires
            a * s == b * ((a * s) / b) + (a * s) % b,
            0 <= (a * s) % b,
            (a * s) / b >= 0,
            s <= b,
            0 <= a,
            s > 0,
    {
    }
}

/// Once the counter has passed the argument, each Taylor term is strictly
/// smaller than the one before it.
proof fn lemma_taylor_term_decreases(term: int, c2: int, x: int, t1: int, t2: int)
    requires
        term >= 1,
        0 <= x < c2,
        t1 == trunc_div(term * SCALE as int, c2),
        t2 == trunc_div(t1 * x, SCALE as int),
    ensures
        0 <= t2 < term,
{
    let s = SCALE as int;
    assert(term * s >= 0) by (nonlinear_arith)
        requires
            term >= 0,
            s > 0,
    {
    }
    lemma_trunc_div_nonneg(term * s, c2);
    assert(t1 * x >= 0) by (nonlinear_arith)
        requires
            t1 >= 0,
            x >= 0,
    {
    }
    lemma_trunc_div_nonneg(t1 * x, s);
    lemma_fundamental_div_mod(term * s, c2);
    lemma_fundamental_div_mod(t1 * x, s);
    assert(t2 < term) by (nonlinear_arith)
        requires
            c2 * t1 <= term * s,
            s * t2 <= t1 * x,
            0 <= x < c2,
            term >= 1,
            s >= 1,
            t1 >= 0,
            t2 >= 0,
    {
        assert(s * t2 * c2 <= t1 * x * c2);
        assert(t1 * x * c2 == (c2 * t1) * x);
        assert((c2 * t1) * x <= (term * s) * x);
        assert((term * s) * x < (term * s) * c2);
    }
}

// ---------------------------------------------------------------------
// the exponential
// ---------------------------------------------------------------------
/// First component of the Taylor loop's termination measure: how far the
/// counter still is from passing the argument.
pub open spec fn taylor_measure(x: int, counter: int) -> int {
    if counter <= x {
        x + SCALE as int - counter
    } else {
        0
    }
}

/// One step of the Taylor summation, as iterated by `exp` on a positive
/// argument: starting from `result`, with `term` the next term to add and
/// `counter` the term index, sum until a term rounds to exactly zero.
pub open spec fn spec_exp_taylor(x: int, result: int, term: int, counter: int) -> Result<
    int,
    EngineError,
>
    decreases taylor_measure(x, counter), term,
    when 0 <= x && 0 <= term && SCALE as int <= counter
    via spec_exp_taylor_decreases
{
    if term == 0 {
        Ok(result)
    } else {
        match spec_add(result, term) {
            Err(e) => Err(e),
            Ok(r2) => match spec_add(counter, SCALE as int) {
                Err(e) => Err(e),
                Ok(c2) => match spec_div(term, c2) {
                    Err(e) => Err(e),
                    Ok(t1) => match spec_mul(t1, x) {
                        Err(e) => Err(e),
                        Ok(t2) => spec_exp_taylor(x, r2, t2, c2),
                    },
                },
            },
        }
    }
}

#[via_fn]
proof fn spec_exp_taylor_decreases(x: int, result: int, term: int, counter: int) {
    if term != 0 && in_range(result + term) && in_range(counter + SCALE as int) {
        let c2 = counter + SCALE as int;
        let t1 = trunc_div(term * SCALE as int, c2);
        lemma_div_scale_le(term, c2);
        if in_range(t1) {
            let t2 = trunc_div(t1 * x, SCALE as int);
            assert(t1 * x >= 0) by (nonlinear_arith)
                requires
                    t1 >= 0,
                    x >= 0,
            {
            }
            lemma_trunc_div_nonneg(t1 * x, SCALE as int);
            if in_range(t2) {
                if counter > x {
                    lemma_taylor_term_decreases(term, c2, x, t1, t2);
                }
            }
        }
    }
}

/// The exponential of `x` (raw), as the engine computes it: exactly one
/// for zero, zero below the representability cutoff `-43`, the reciprocal
/// of `exp(-x)` for negative `x`, and the truncating Taylor sum for
/// positive `x`.
pub open spec fn spec_exp(x: int) -> Result<int, EngineError>
    decreases (if x < 0 {
        1int
    } else {
        0int
    }),
{
    if x == 0 {
        Ok(SCALE as int)
    } else if x < 0 {
        if x < -43 * SCALE as int {
            Ok(0)
        } else if !in_range(-x) {
            Err(EngineError::Overflow)
        } else {
            match spec_exp(-x) {
                Err(e) => Err(e),
                Ok(e1) => spec_div(SCALE as int, e1),
            }
        }
    } else {
        spec_exp_taylor(x, SCALE as int, x, SCALE as int)
    }
}

/// Returns the exponential of a [`Decimal`] using its Taylor series,
/// summed term by term until a term rounds to exactly zero; the result is
/// exactly [`spec_exp`] of the argument.
pub fn exp(value: &Decimal) -> (r: Result<Decimal, EngineError>)
    ensures
        res_matches(r, spec_exp(value@)),
    decreases (if value@ < 0 {
        1int
    } else {
        0int
    }),
{
    if value.is_zero() {
        return Ok(Decimal::one());
    }
    if value.is_negative() {
        let cutoff = Decimal::from_int(-43);
        if value.lt(&cutoff) {
            return Ok(Decimal::zero());
        }
        let nx = match value.checked_neg() {
            Ok(v) => v,
            Err(e) => {
                return Err(e);
            },
        };
        let e1 = match exp(&nx) {
            Ok(v) => v,
            Err(e) => {
                return Err(e);
            },
        };
        return match Decimal::one().checked_div(&e1) {
            Ok(v) => Ok(v),
            Err(e) => Err(e),
        };
    }
    let ghost x = value@;
    let one = Decimal::one();
    let mut result = Decimal::one();
    let mut added_term = *value;
    let mut counter = Decimal::one();
    while !added_term.is_zero()
        invariant
            x == value@,
            x > 0,
            one@ == SCALE as int,
            0 <= added_term@,
            SCALE as int <= counter@,
            spec_exp(x) == spec_exp_taylor(x, result@, added_term@, counter@),
        decreases taylor_measure(x, counter@), added_term@,
    {
        result = match result.checked_add(&added_term) {
            Ok(v) => v,
            Err(e) => {
                return Err(e);
            },
        };
        counter = match counter.checked_add(&one) {
            Ok(v) => v,
            Err(e) => {
                return Err(e);
            },
        };
        let t1 = match added_term.checked_div(&counter) {
            Ok(v) => v,
            Err(e) => {
                return Err(e);
            },
        };
        let t2 = match t1.checked_mul(value) {
            Ok(v) => v,
            Err(e) => {
                return Err(e);
            },
        };
        proof {
            lemma_div_scale_le(added_term@, counter@);
            assert(t1@ * x >= 0) by (nonlinear_arith)
                requires
                    t1@ >= 0,
                    x >= 0,
            {
            }
            lemma_trunc_div_nonneg(t1@ * x, SCALE as int);
            if counter@ - SCALE as int > x {
                lemma_taylor_term_decreases(added_term@, counter@, x, t1@, t2@);
            }
        }
        added_term = t2;
    }
    Ok(result)
}

// ---------------------------------------------------------------------
// the logarithm
// ---------------------------------------------------------------------
/// Repeated division by Euler's number until the value drops below `e`,
/// counting the divisions: returns the reduced value and the count.
pub open spec fn spec_ln_reduce(v: int, n: int) -> (int, int)
    decreases v,
    when SCALE as int <= v
    via spec_ln_reduce_decreases
{
    if v < EULER_NUMBER as int {
        (v, n)
    } else {
        spec_ln_reduce(trunc_div(v * SCALE as int, EULER_NUMBER as int), n + 1)
    }
}

#[via_fn]
proof fn spec_ln_reduce_decreases(v: int, n: int) {
    if v >= EULER_NUMBER as int {
        lemma_ln_reduce_step(v);
    }
}

/// One reduction step stays at or above one, at most halves the value,
/// and strictly shrinks it.
proof fn lemma_ln_reduce_step(v: int)
    requires
        v >= EULER_NUMBER as int,
    ensures
        SCALE as int <= trunc_div(v * SCALE as int, EULER_NUMBER as int),
        2 * trunc_div(v * SCALE as int, EULER_NUMBER as int) <= v,
        trunc_div(v * SCALE as int, EULER_NUMBER as int) < v,
{
    let s = SCALE as int;
    let e = EULER_NUMBER as int;
    assert(v * s >= 0) by (nonlinear_arith)
        requires
            v >= 0,
            s > 0,
    {
    }
    lemma_trunc_div_nonneg(v * s, e);
    lemma_fundamental_div_mod(v * s, e);
    assert(s <= (v * s) / e && 2 * ((v * s) / e) <= v && (v * s) / e < v) by (nonlinear_arith)
        requires
            v * s == e * ((v * s) / e) + (v * s) % e,
            0 <= (v * s) % e < e,
            e == 2_718_281_828_459_045_235,
            s == 1_000_000_000_000_000_000,
            v >= e,
    {
        assert(e * s <= v * s);
        assert(2 * s <= e);
        assert((v * s) / e >= 0);
        assert(2 * ((v * s) / e) * s <= 2 * ((v * s) / e) * s);
        assert(v * s < e * ((v * s) / e) + e);
    }
}

/// Halley's iteration for `ln` on the reduced value `v`: from the guess
/// `t`, step to `t + 2 * (v - exp(t)) / (v + exp(t))` until two
/// consecutive iterates are bit-for-bit equal, or the fuel runs out.
pub open spec fn spec_ln_halley(v: int, t: int, fuel: nat) -> Result<int, EngineError>
    decreases fuel,
{
    if fuel == 0 {
        Err(EngineError::NonConvergence)
    } else {
        match spec_exp(t) {
            Err(e) => Err(e),
            Ok(e1) => match spec_sub(v, e1) {
                Err(e) => Err(e),
                Ok(num) => match spec_add(v, e1) {
                    Err(e) => Err(e),
                    Ok(den) => match spec_div(num, den) {
                        Err(e) => Err(e),
                        Ok(q) => match spec_mul(q, 2 * SCALE as int) {
                            Err(e) => Err(e),
                            Ok(step) => match spec_add(t, step) {
                                Err(e) => Err(e),
                                Ok(t2) => if t2 == t {
                                    Ok(t)
                                } else {
                                    spec_ln_halley(v, t2, (fuel - 1) as nat)
                                },
                            },
                        },
                    },
                },
            },
        }
    }
}

/// The natural logarithm of `x` (raw), as the engine computes it: an
/// error for non-positive arguments, `-ln(1/x)` below one, and otherwise
/// the reduction count plus Halley's iteration on the reduced value.
pub open spec fn spec_ln(x: int) -> Result<int, EngineError>
    decreases (if x < SCALE as int {
        1int
    } else {
        0int
    }),
    when true
    via spec_ln_decreases
{
    if x <= 0 {
        Err(EngineError::LogOfNonPositive)
    } else if x < SCALE as int {
        match spec_div(SCALE as int, x) {
            Err(e) => Err(e),
            Ok(inv) => match spec_ln(inv) {
                Err(e) => Err(e),
                Ok(r) => if in_range(-r) {
                    Ok(-r)
                } else {
                    Err(EngineError::Overflow)
                },
            },
        }
    } else {
        let (a, n) = spec_ln_reduce(x, 0);
        if a == SCALE as int {
            Ok(n * SCALE as int)
        } else {
            match spec_div(a, 2 * SCALE as int) {
                Err(e) => Err(e),
                Ok(half) => {
                    let t0 = if half == 0 {
                        a
                    } else {
                        half
                    };
                    match spec_ln_halley(a, t0, HALLEY_FUEL as nat) {
                        Err(e) => Err(e),
                        Ok(h) => spec_add(h, n * SCALE as int),
                    }
                },
            }
        }
    }
}

#[via_fn]
proof fn spec_ln_decreases(x: int) {
    if 0 < x && x < SCALE as int {
        lemma_ln_invert(x);
    }
}

/// Inverting a value strictly between zero and one lands at or above one.
proof fn lemma_ln_invert(x: int)
    requires
        0 < x < SCALE as int,
    ensures
        SCALE as int <= trunc_div(SCALE as int * SCALE as int, x) <= SCALE as int * SCALE as int,
{
    let s = SCALE as int;
    lemma_trunc_div_nonneg(s * s, x);
    lemma_fundamental_div_mod(s * s, x);
    assert(s <= (s * s) / x <= s * s) by (nonlinear_arith)
        requires
            s * s == x * ((s * s) / x) + (s * s) % x,
            0 <= (s * s) % x < x,
            0 < x < s,
            s == 1_000_000_000_000_000_000,
            (s * s) / x >= 0,
    {
        assert(x * ((s * s) / x) <= s * s);
        assert(x * s <= s * s);
    }
}

/// Returns the natural logarithm of a [`Decimal`] using Halley's method;
/// the result is exactly [`spec_ln`] of the argument. Fails with
/// [`EngineError::LogOfNonPositive`] if and only if the argument is not
/// positive, and with [`EngineError::NonConvergence`] when the iteration
/// cap is reached.
pub fn ln(value: &Decimal) -> (r: Result<Decimal, EngineError>)
    ensures
        res_matches(r, spec_ln(value@)),
    decreases (if value@ < SCALE as int {
        1int
    } else {
        0int
    }),
{
    if !value.is_positive() {
        return Err(EngineError::LogOfNonPositive);
    }
    let one = Decimal::one();
    if value.lt(&one) {
        let inv = match one.checked_div(value) {
            Ok(v) => v,
            Err(e) => {
                return Err(e);
            },
        };
        proof {
            lemma_ln_invert(value@);
        }
        let r = match ln(&inv) {
            Ok(v) => v,
            Err(e) => {
                return Err(e);
            },
        };
        return match r.checked_neg() {
            Ok(v) => Ok(v),
            Err(e) => Err(e),
        };
    }
    let euler = Decimal::from_raw(EULER_NUMBER);
    let mut v = *value;
    let mut n: u32 = 0;
    proof {
        lemma2_to64();
    }
    while v.ge(&euler)
        invariant
            SCALE as int <= v@,
            euler@ == EULER_NUMBER as int,
            spec_ln_reduce(value@, 0) == spec_ln_reduce(v@, n as int),
            v@ * pow2(n as nat) <= i128::MAX,
        decreases v@,
    {
        let ghost v_old = v@;
        proof {
            lemma_ln_reduce_step(v_old);
        }
        v = match v.checked_div(&euler) {
            Ok(w) => w,
            Err(e) => {
                proof {
                    assert(false);
                }
                return Err(e);
            },
        };
        proof {
            lemma2_to64();
            lemma_pow2_adds(1, n as nat);
            assert(v@ * pow2((n + 1) as nat) <= i128::MAX) by (nonlinear_arith)
                requires
                    2 * v@ <= v_old,
                    v_old * pow2(n as nat) <= i128::MAX,
                    pow2((n + 1) as nat) == 2 * pow2(n as nat),
                    pow2(n as nat) >= 0,
                    v@ >= 0,
            {
            }
            // The count cannot reach 68, so incrementing it is safe.
            if n >= 68 {
                lemma2_to64_rest();
                lemma_pow2_adds(64, 4);
                assert(pow2(68) == 0x10_0000_0000_0000_0000);
                if n > 68 {
                    vstd::arithmetic::power2::lemma_pow2_strictly_increases(68, n as nat);
                }
                assert(pow2(n as nat) >= 0x10_0000_0000_0000_0000);
                assert(v_old * pow2(n as nat) >= SCALE as int * pow2(n as nat))
                    by (nonlinear_arith)
                    requires
                        v_old >= SCALE as int,
                        pow2(n as nat) >= 0,
                {
                }
                assert(SCALE as int * pow2(n as nat) > i128::MAX) by (nonlinear_arith)
                    requires
                        pow2(n as nat) >= 0x10_0000_0000_0000_0000,
                        SCALE == 1_000_000_000_000_000_000i128,
                {
                }
                assert(false);
            }
        }
        n = n + 1;
    }
    if v.raw() == SCALE {
        return Ok(Decimal::from_int(n as i64));
    }
    let two = Decimal::from_int(2);
    let mut result = match v.checked_div(&two) {
        Ok(w) => w,
        Err(e) => {
            return Err(e);
        },
    };
    if result.is_zero() {
        result = v;
    }
    let ghost t0 = result@;
    let mut fuel: u32 = HALLEY_FUEL;
    loop
        invariant
            SCALE as int <= v@,
            value@ > 0,
            two@ == 2 * SCALE as int,
            spec_ln(value@) == ({
                match spec_ln_halley(v@, result@, fuel as nat) {
                    Err(e) => Err::<int, EngineError>(e),
                    Ok(h) => spec_add(h, (n as int) * SCALE as int),
                }
            }),
        decreases fuel,
    {
        if fuel == 0 {
            return Err(EngineError::NonConvergence);
        }
        let e1 = match exp(&result) {
            Ok(w) => w,
            Err(e) => {
                return Err(e);
            },
        };
        let num = match v.checked_sub(&e1) {
            Ok(w) => w,
            Err(e) => {
                return Err(e);
            },
        };
        let den = match v.checked_add(&e1) {
            Ok(w) => w,
            Err(e) => {
                return Err(e);
            },
        };
        let q = match num.checked_div(&den) {
            Ok(w) => w,
            Err(e) => {
                return Err(e);
            },
        };
        let step = match q.checked_mul(&two) {
            Ok(w) => w,
            Err(e) => {
                return Err(e);
            },
        };
        let t2 = match result.checked_add(&step) {
            Ok(w) => w,
            Err(e) => {
                return Err(e);
            },
        };
        if t2.raw() == result.raw() {
            return match result.checked_add(&Decimal::from_int(n as i64)) {
                Ok(w) => Ok(w),
                Err(e) => Err(e),
            };
        }
        result = t2;
        fuel = fuel - 1;
    }
}

// ---------------------------------------------------------------------
// powers
// ---------------------------------------------------------------------
/// `pow(v, e) = exp(e * ln(v))` (raw), undefined only at `0^0`.
pub open spec fn spec_pow(v: int, e: int) -> Result<int, EngineError> {
    if v == 0 && e == 0 {
        Err(EngineError::ZeroToTheZero)
    } else {
        match spec_ln(v) {
            Err(err) => Err(err),
            Ok(l) => match spec_mul(e, l) {
                Err(err) => Err(err),
                Ok(p) => spec_exp(p),
            },
        }
    }
}

/// Returns `value` raised to the power `exponent`, as
/// `exp(exponent * ln(value))`; exactly [`spec_pow`] of the arguments.
/// Fails with [`EngineError::ZeroToTheZero`] if and only if both are zero,
/// and with [`EngineError::LogOfNonPositive`] when `value` is negative or
/// zero with a nonzero exponent.
pub fn pow(value: &Decimal, exponent: &Decimal) -> (r: Result<Decimal, EngineError>)
    ensures
        res_matches(r, spec_pow(value@, exponent@)),
{
    if value.is_zero() && exponent.is_zero() {
        return Err(EngineError::ZeroToTheZero);
    }
    let l = match ln(value) {
        Ok(v) => v,
        Err(e) => {
            return Err(e);
        },
    };
    let p = match exponent.checked_mul(&l) {
        Ok(v) => v,
        Err(e) => {
            return Err(e);
        },
    };
    exp(&p)
}

/// `v^n` (raw) for a non-negative integer exponent, by squaring: square
/// the truncated base and halve the exponent, multiplying once more at
/// each odd step.
pub open spec fn spec_powi(x: int, n: int) -> Result<int, EngineError>
    decreases n,
    when n >= 0
{
    if n == 0 {
        Ok(SCALE as int)
    } else {
        match spec_mul(x, x) {
            Err(e) => Err(e),
            Ok(sq) => {
                if n % 2 == 0 {
                    spec_powi(sq, n / 2)
                } else {
                    match spec_powi(sq, (n - 1) / 2) {
                        Err(e) => Err(e),
                        Ok(sub) => spec_mul(x, sub),
                    }
                }
            },
        }
    }
}

/// Returns `value` raised to the non-negative integer power `n`, by
/// squaring; exactly [`spec_powi`] of the arguments.
pub fn powi(value: &Decimal, n: u16) -> (r: Result<Decimal, EngineError>)
    ensures
        res_matches(r, spec_powi(value@, n as int)),
    decreases n,
{
    if n == 0 {
        return Ok(Decimal::one());
    }
    let sq = match value.checked_mul(value) {
        Ok(v) => v,
        Err(e) => {
            return Err(e);
        },
    };
    if n % 2 == 0 {
        powi(&sq, n / 2)
    } else {
        let sub = match powi(&sq, (n - 1) / 2) {
            Ok(v) => v,
            Err(e) => {
                return Err(e);
            },
        };
        value.checked_mul(&sub)
    }
}

} // verus!
