//! The engine's cross-operation laws, proved once over the step model.

use crate::decimal::{trunc_div, SCALE};
use crate::decimal_maths::lemma_trunc_div_nonneg;
use crate::errors::EngineError;
use crate::pool_step::{
    spec_add_liquidity, spec_claim_fees, spec_remove_liquidity, spec_swap_for_x, spec_swap_for_y,
    step_wf, StakeV, StepV,
};
use vstd::prelude::*;

verus! {

/// The fee-growth accumulators never decrease: a fee claim, a deposit
/// and a withdrawal leave both untouched, and each swap direction can
/// only grow the accumulator of its input asset. Since these five are
/// the only operations on a step, the accumulators are non-decreasing
/// across any sequence of operations.
pub proof fn lemma_fees_per_liq_monotonic(s: StepV, p: StakeV, amount_x: int, amount_y: int, g: int, stable_side: bool)
    requires
        step_wf(s),
        0 <= g,
    ensures
        match spec_claim_fees(s, p) {
            Ok((_, _, s2, _)) => s2.stable_fees_per_liq == s.stable_fees_per_liq
                && s2.other_fees_per_liq == s.other_fees_per_liq,
            Err(_) => true,
        },
        match spec_add_liquidity(s, amount_x, amount_y, p, stable_side) {
            Ok((_, _, s2, _)) => s2.stable_fees_per_liq == s.stable_fees_per_liq
                && s2.other_fees_per_liq == s.other_fees_per_liq,
            Err(_) => true,
        },
        match spec_remove_liquidity(s, p) {
            Ok((_, _, s2, _)) => s2.stable_fees_per_liq == s.stable_fees_per_liq
                && s2.other_fees_per_liq == s.other_fees_per_liq,
            Err(_) => true,
        },
        match spec_swap_for_y(s, g) {
            Ok((_, _, _, _, s2)) => s2.stable_fees_per_liq >= s.stable_fees_per_liq
                && s2.other_fees_per_liq == s.other_fees_per_liq,
            Err(_) => true,
        },
        match spec_swap_for_x(s, g) {
            Ok((_, _, _, _, s2)) => s2.other_fees_per_liq >= s.other_fees_per_liq
                && s2.stable_fees_per_liq == s.stable_fees_per_liq,
            Err(_) => true,
        },
{
    crate::pool_step::lemma_swap_for_y_wf(s, g);
    crate::pool_step::lemma_swap_for_x_wf(s, g);
}

/// Settling fees twice in a row pays nothing the second time: after a
/// claim, the stake's snapshots equal the step's accumulators, so an
/// immediate second claim pays zero for both assets and changes neither
/// the step nor the stake.
pub proof fn lemma_claim_fees_twice(s: StepV, p: StakeV)
    ensures
        match spec_claim_fees(s, p) {
            Ok((_, _, s1, p1)) => spec_claim_fees(s1, p1) == Ok::<_, EngineError>(
                (0int, 0int, s1, p1),
            ),
            Err(_) => true,
        },
{
    if let Ok((fee_x, fee_y, s1, p1)) = spec_claim_fees(s, p) {
        assert(trunc_div(0 * p1.liquidity, SCALE as int) == 0);
    }
}

/// Depositing into an empty step and immediately withdrawing the minted
/// stake returns exactly the consumed amounts when the deposit sat on
/// the stable side: the withdrawal share is exactly one, so the stable
/// reservoir empties back into the stake's owner. (A deposit on the
/// other side or into an occupied step round-trips only up to
/// fixed-point rounding, which the scenario tests cover.)
pub proof fn lemma_add_then_remove_stable_roundtrip(rate: int, amount_x: int)
    requires
        rate > 0,
        0 < amount_x,
        crate::decimal::in_range(amount_x),
    ensures
        ({
            let s0 = StepV {
                stable: 0,
                other: 0,
                rate: rate,
                stable_fees_per_liq: 0,
                other_fees_per_liq: 0,
                stable_fees_vault: 0,
                other_fees_vault: 0,
            };
            let p0 = StakeV { liquidity: 0, last_stable: 0, last_other: 0 };
            match spec_add_liquidity(s0, amount_x, 0, p0, true) {
                Ok((ret_x, ret_y, s1, p1)) => ret_x == 0 && ret_y == 0 && spec_remove_liquidity(
                    s1,
                    p1,
                ) == Ok::<_, EngineError>(
                    (amount_x, 0int, StepV { stable: 0, ..s1 }, StakeV { liquidity: 0, ..p1 }),
                ),
                Err(_) => false,
            }
        }),
{
    let s0 = StepV {
        stable: 0,
        other: 0,
        rate: rate,
        stable_fees_per_liq: 0,
        other_fees_per_liq: 0,
        stable_fees_vault: 0,
        other_fees_vault: 0,
    };
    let p0 = StakeV { liquidity: 0, last_stable: 0, last_other: 0 };
    let s = SCALE as int;
    assert(trunc_div(0 * p0.liquidity, s) == 0);
    assert(trunc_div(0 * rate, s) == 0);
    assert(trunc_div(0 * s, rate) == 0) by {
        lemma_trunc_div_nonneg(0 * s, rate);
        vstd::arithmetic::div_mod::lemma_div_of0(rate);
    }
    if let Ok((ret_x, ret_y, s1, p1)) = spec_add_liquidity(s0, amount_x, 0, p0, true) {
        // the deposit is consumed whole: reservoirs (amount_x, 0),
        // minted liquidity amount_x
        assert(s1.stable == amount_x && s1.other == 0 && p1.liquidity == amount_x);
        {
            // the withdrawal share is exactly one
            assert(trunc_div(amount_x * s, amount_x) == s) by {
                lemma_trunc_div_nonneg(amount_x * s, amount_x);
                vstd::arithmetic::div_mod::lemma_div_multiples_vanish(s, amount_x);
                assert(amount_x * s == s * amount_x) by (nonlinear_arith) {
                }
            }
            assert(trunc_div(amount_x * s, s) == amount_x) by {
                lemma_trunc_div_nonneg(amount_x * s, s);
                vstd::arithmetic::div_mod::lemma_div_multiples_vanish(amount_x, s);
                assert(amount_x * s == s * amount_x) by (nonlinear_arith) {
                }
            }
            assert(trunc_div(amount_x * (s - s), s) == 0) by {
                assert(amount_x * (s - s) == 0) by (nonlinear_arith) {
                }
            }
        }
    }
}

/// A decimal built from an integer keeps its value scaled by the unit,
/// and the truncating quotient of exact multiples is exact; these two
/// facts make the concrete arithmetic of the scenario tests checkable by
/// hand.
pub proof fn lemma_scale_exact(n: int)
    requires
        n >= 0,
    ensures
        trunc_div(n * SCALE as int, SCALE as int) == n,
{
    let s = SCALE as int;
    lemma_trunc_div_nonneg(n * s, s);
    vstd::arithmetic::div_mod::lemma_div_multiples_vanish(n, s);
    assert(n * s == s * n) by (nonlinear_arith) {
    }
}

} // verus!
