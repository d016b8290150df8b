//! A single price step: the two reservoirs traded at one fixed rate, the
//! per-asset fee-growth accumulators, and the fee vaults holding
//! claimable-but-unclaimed fees.
//!
//! Liquidity is denominated in stable-asset units: a stake's liquidity is
//! `consumed_stable + consumed_other * rate`. Fees are settled lazily: the
//! accumulators `*_fees_per_liq` only ever grow, and a stake's unclaimed
//! fee per asset is `(accumulator - snapshot) * liquidity`.
//!
//! Every mutating operation either succeeds and matches its
//! specification-level model exactly, or fails with the model's error and
//! leaves the step unchanged.

use crate::constants::{LP_FEE, PROTOCOL_FEE, TRADED};
use crate::decimal::{spec_add, spec_div, spec_mul, spec_sub, trunc_div, Decimal, SCALE};
use crate::decimal_maths::{lemma_div_scale_le, lemma_trunc_div_nonneg};
use crate::errors::EngineError;
use crate::position::StepPosition;
use crate::wide::{le256, mul_u128};
use vstd::arithmetic::div_mod::lemma_fundamental_div_mod;
use vstd::prelude::*;

verus! {

broadcast use crate::decimal::lemma_decimal_view_range;

/// The mathematical state of a pool step (all raw fixed-point values).
pub ghost struct StepV {
    /// Stable-asset reservoir.
    pub stable: int,
    /// Other-asset reservoir.
    pub other: int,
    /// The step's fixed exchange rate (stable per other).
    pub rate: int,
    /// Stable-asset fees accrued per unit of liquidity.
    pub stable_fees_per_liq: int,
    /// Other-asset fees accrued per unit of liquidity.
    pub other_fees_per_liq: int,
    /// Stable-asset fee vault.
    pub stable_fees_vault: int,
    /// Other-asset fee vault.
    pub other_fees_vault: int,
}

/// The mathematical state of a per-step stake.
pub ghost struct StakeV {
    /// Liquidity owned, in stable-asset units.
    pub liquidity: int,
    /// Stable-asset accumulator at the last settlement.
    pub last_stable: int,
    /// Other-asset accumulator at the last settlement.
    pub last_other: int,
}

/// The view of an executable stake.
pub open spec fn stake_view(sp: StepPosition) -> StakeV {
    StakeV {
        liquidity: sp.liquidity@,
        last_stable: sp.last_stable_fees_per_liq@,
        last_other: sp.last_other_fees_per_liq@,
    }
}

/// A step state is well formed when the reservoirs, accumulators and
/// vaults are non-negative and the rate is positive.
pub open spec fn step_wf(s: StepV) -> bool {
    s.stable >= 0 && s.other >= 0 && s.rate > 0 && s.stable_fees_per_liq >= 0
        && s.other_fees_per_liq >= 0 && s.stable_fees_vault >= 0 && s.other_fees_vault >= 0
}

/// A stake is well formed when its fields are non-negative.
pub open spec fn stake_wf(p: StakeV) -> bool {
    p.liquidity >= 0 && p.last_stable >= 0 && p.last_other >= 0
}

// ---------------------------------------------------------------------
// the specification model
// ---------------------------------------------------------------------
/// Total liquidity a step's reservoirs stand for:
/// `stable + other * rate`.
pub open spec fn spec_liq_total(s: StepV) -> Result<int, EngineError> {
    match spec_mul(s.other, s.rate) {
        Err(e) => Err(e),
        Ok(yv) => spec_add(s.stable, yv),
    }
}

/// Settling a stake's fees: pay `(accumulator - snapshot) * liquidity`
/// per asset out of the fee vaults and move the snapshots forward. Fails
/// with [`EngineError::InsufficientFunds`] exactly when a computed fee is
/// negative or exceeds its vault.
pub open spec fn spec_claim_fees(s: StepV, p: StakeV) -> Result<
    (int, int, StepV, StakeV),
    EngineError,
> {
    match spec_sub(s.stable_fees_per_liq, p.last_stable) {
        Err(e) => Err(e),
        Ok(dx) => match spec_mul(dx, p.liquidity) {
            Err(e) => Err(e),
            Ok(fee_x) => match spec_sub(s.other_fees_per_liq, p.last_other) {
                Err(e) => Err(e),
                Ok(dy) => match spec_mul(dy, p.liquidity) {
                    Err(e) => Err(e),
                    Ok(fee_y) => {
                        if !(0 <= fee_x <= s.stable_fees_vault) || !(0 <= fee_y
                            <= s.other_fees_vault) {
                            Err(EngineError::InsufficientFunds)
                        } else {
                            Ok(
                                (
                                    fee_x,
                                    fee_y,
                                    StepV {
                                        stable_fees_vault: s.stable_fees_vault - fee_x,
                                        other_fees_vault: s.other_fees_vault - fee_y,
                                        ..s
                                    },
                                    StakeV {
                                        liquidity: p.liquidity,
                                        last_stable: s.stable_fees_per_liq,
                                        last_other: s.other_fees_per_liq,
                                    },
                                ),
                            )
                        }
                    },
                },
            },
        },
    }
}

/// Depositing into a step: settle fees first and compound them into the
/// deposit; then consume the deposit in the proportion of the reservoirs
/// (one-sided for an empty step: the stable side at or below the pool's
/// current step, the other side above it), minting
/// `consumed_stable + consumed_other * rate` of liquidity; the
/// unconsumed remainders are returned.
pub open spec fn spec_add_liquidity(
    s: StepV,
    ax: int,
    ay: int,
    p: StakeV,
    stable_side: bool,
) -> Result<(int, int, StepV, StakeV), EngineError> {
    match spec_claim_fees(s, p) {
        Err(e) => Err(e),
        Ok((fee_x, fee_y, s1, p1)) => match spec_add(ax, fee_x) {
            Err(e) => Err(e),
            Ok(xin) => match spec_add(ay, fee_y) {
                Err(e) => Err(e),
                Ok(yin) => match spec_mul(s1.other, s1.rate) {
                    Err(e) => Err(e),
                    Ok(yv) => match spec_add(s1.stable, yv) {
                        Err(e) => Err(e),
                        Ok(ltot) => match spec_consume(s1, xin, yin, yv, ltot, stable_side) {
                            Err(e) => Err(e),
                            Ok((rx, ry)) => {
                                if !(0 <= rx <= xin) || !(0 <= ry <= yin) {
                                    Err(EngineError::InsufficientFunds)
                                } else {
                                    match spec_mul(ry, s1.rate) {
                                        Err(e) => Err(e),
                                        Ok(ryv) => match spec_add(rx, ryv) {
                                            Err(e) => Err(e),
                                            Ok(minted) => match spec_add(s1.stable, rx) {
                                                Err(e) => Err(e),
                                                Ok(st2) => match spec_add(s1.other, ry) {
                                                    Err(e) => Err(e),
                                                    Ok(ot2) => match spec_add(
                                                        p1.liquidity,
                                                        minted,
                                                    ) {
                                                        Err(e) => Err(e),
                                                        Ok(liq2) => Ok(
                                                            (
                                                                xin - rx,
                                                                yin - ry,
                                                                StepV { stable: st2, other: ot2, ..s1 },
                                                                StakeV { liquidity: liq2, ..p1 },
                                                            ),
                                                        ),
                                                    },
                                                },
                                            },
                                        },
                                    }
                                }
                            },
                        },
                    },
                },
            },
        },
    }
}

/// How much of a deposit a step consumes: for an empty step, one side in
/// full by `stable_side`; otherwise the scarce side in full (decided by
/// the exact cross product `xin * yv <= stable * yin * rate`) and the
/// other side scaled through the step's stable fraction
/// `xf = stable / ltot`.
pub open spec fn spec_consume(
    s1: StepV,
    xin: int,
    yin: int,
    yv: int,
    ltot: int,
    stable_side: bool,
) -> Result<(int, int), EngineError> {
    if ltot == 0 {
        if stable_side {
            Ok((xin, 0))
        } else {
            Ok((0, yin))
        }
    } else {
        match spec_mul(yin, s1.rate) {
            Err(e) => Err(e),
            Ok(lvin) => match spec_div(s1.stable, ltot) {
                Err(e) => Err(e),
                Ok(xf) => match spec_sub(SCALE as int, xf) {
                    Err(e) => Err(e),
                    Ok(yf) => {
                        if xin * yv <= s1.stable * lvin {
                            if xf == 0 {
                                Ok((xin, 0))
                            } else {
                                match spec_mul(xin, yf) {
                                    Err(e) => Err(e),
                                    Ok(part) => match spec_div(part, xf) {
                                        Err(e) => Err(e),
                                        Ok(val) => match spec_div(val, s1.rate) {
                                            Err(e) => Err(e),
                                            Ok(ry) => Ok((xin, ry)),
                                        },
                                    },
                                }
                            }
                        } else {
                            match spec_mul(lvin, xf) {
                                Err(e) => Err(e),
                                Ok(part) => match spec_div(part, yf) {
                                    Err(e) => Err(e),
                                    Ok(rx) => Ok((rx, yin)),
                                },
                            }
                        }
                    },
                },
            },
        }
    }
}

/// Withdrawing a stake: settle fees first, then pay out the stake's
/// share of each reservoir through the stable fraction `xf = stable /
/// ltot`: `liquidity * xf` of the stable asset and
/// `liquidity * (1 - xf) / rate` of the other; the stake's liquidity
/// drops to zero.
pub open spec fn spec_remove_liquidity(s: StepV, p: StakeV) -> Result<
    (int, int, StepV, StakeV),
    EngineError,
> {
    match spec_claim_fees(s, p) {
        Err(e) => Err(e),
        Ok((fee_x, fee_y, s1, p1)) => match spec_mul(s1.other, s1.rate) {
            Err(e) => Err(e),
            Ok(yv) => match spec_add(s1.stable, yv) {
                Err(e) => Err(e),
                Ok(ltot) => match spec_div(s1.stable, ltot) {
                    Err(e) => Err(e),
                    Ok(xf) => match spec_mul(p1.liquidity, xf) {
                        Err(e) => Err(e),
                        Ok(xo) => match spec_sub(SCALE as int, xf) {
                            Err(e) => Err(e),
                            Ok(yf) => match spec_mul_then_div(p1.liquidity, yf, s1.rate) {
                                Err(e) => Err(e),
                                Ok(yo) => {
                                    if !(0 <= xo <= s1.stable) || !(0 <= yo <= s1.other) {
                                        Err(EngineError::InsufficientFunds)
                                    } else {
                                        match spec_add(fee_x, xo) {
                                            Err(e) => Err(e),
                                            Ok(out_x) => match spec_add(fee_y, yo) {
                                                Err(e) => Err(e),
                                                Ok(out_y) => Ok(
                                                    (
                                                        out_x,
                                                        out_y,
                                                        StepV {
                                                            stable: s1.stable - xo,
                                                            other: s1.other - yo,
                                                            ..s1
                                                        },
                                                        StakeV { liquidity: 0, ..p1 },
                                                    ),
                                                ),
                                            },
                                        }
                                    }
                                },
                            },
                        },
                    },
                },
            },
        },
    }
}

/// A swap of stable input for the other asset at this step: of the
/// gross other-equivalent `q = min(input / rate, other_reservoir)`, the
/// trader receives `q * TRADED`, the stable reservoir gains
/// `(q * rate) * TRADED`, the step's stable fee vault gains
/// `(q * rate) * LP_FEE` (growing the stable accumulator by its share
/// per unit of pre-trade liquidity), `(q * rate) * PROTOCOL_FEE` goes to
/// the protocol, and the rest of the input is returned. `exhausted`
/// reports whether the step's other reservoir capped the trade.
pub open spec fn spec_swap_for_y(s: StepV, g: int) -> Result<
    (int, int, int, bool, StepV),
    EngineError,
> {
    match spec_div(g, s.rate) {
        Err(e) => Err(e),
        Ok(max_y) => {
            let exhausted = max_y >= s.other;
            let q = if exhausted {
                s.other
            } else {
                max_y
            };
            spec_swap_y_amounts(s, g, q, exhausted)
        },
    }
}

/// Stage two of [`spec_swap_for_y`]: the gross stable value of the trade
/// and the trader's output.
pub open spec fn spec_swap_y_amounts(s: StepV, g: int, q: int, exhausted: bool) -> Result<
    (int, int, int, bool, StepV),
    EngineError,
> {
    match spec_mul(q, s.rate) {
        Err(e) => Err(e),
        Ok(gross_x) => match spec_mul(q, TRADED as int) {
            Err(e) => Err(e),
            Ok(y_out) => spec_swap_y_fees(s, g, gross_x, y_out, exhausted),
        },
    }
}

/// Stage three of [`spec_swap_for_y`]: the traded part and the two fee
/// parts of the gross stable value.
pub open spec fn spec_swap_y_fees(s: StepV, g: int, gross_x: int, y_out: int, exhausted: bool) -> Result<
    (int, int, int, bool, StepV),
    EngineError,
> {
    match spec_mul(gross_x, TRADED as int) {
        Err(e) => Err(e),
        Ok(x_in) => match spec_mul(gross_x, LP_FEE as int) {
            Err(e) => Err(e),
            Ok(lp) => match spec_mul(gross_x, PROTOCOL_FEE as int) {
                Err(e) => Err(e),
                Ok(prot) => spec_swap_y_commit(s, g, y_out, x_in, lp, prot, exhausted),
            },
        },
    }
}

/// Final stage of [`spec_swap_for_y`]: grow the stable accumulator and
/// vault, move the reservoirs, and return the leftover input.
pub open spec fn spec_swap_y_commit(
    s: StepV,
    g: int,
    y_out: int,
    x_in: int,
    lp: int,
    prot: int,
    exhausted: bool,
) -> Result<(int, int, int, bool, StepV), EngineError> {
    match spec_liq_total(s) {
        Err(e) => Err(e),
        Ok(ltot) => match spec_acc_grow(s.stable_fees_per_liq, lp, ltot) {
            Err(e) => Err(e),
            Ok(fx2) => match spec_add(s.stable_fees_vault, lp) {
                Err(e) => Err(e),
                Ok(vx2) => match spec_add(s.stable, x_in) {
                    Err(e) => Err(e),
                    Ok(st2) => match spec_swap_rem(g, x_in, lp, prot) {
                        Err(e) => Err(e),
                        Ok(rem) => {
                            if x_in < 0 || lp < 0 || prot < 0 || rem < 0 || y_out < 0 || y_out
                                > s.other {
                                Err(EngineError::InsufficientFunds)
                            } else {
                                Ok(
                                    (
                                        y_out,
                                        rem,
                                        prot,
                                        exhausted,
                                        StepV {
                                            stable: st2,
                                            other: s.other - y_out,
                                            stable_fees_per_liq: fx2,
                                            stable_fees_vault: vx2,
                                            ..s
                                        },
                                    ),
                                )
                            }
                        },
                    },
                },
            },
        },
    }
}

/// A swap of the other asset for stable at this step: the gross amounts
/// are `(g * rate, g)` when the stable reservoir suffices, else the whole
/// reservoir and its other-equivalent; the trader receives
/// `gross_stable * TRADED`, the other reservoir gains
/// `gross_other * TRADED`, the other fee vault gains
/// `gross_other * LP_FEE` (growing the other accumulator), protocol takes
/// `gross_other * PROTOCOL_FEE`, the rest of the input is returned.
pub open spec fn spec_swap_for_x(s: StepV, g: int) -> Result<
    (int, int, int, bool, StepV),
    EngineError,
> {
    match spec_mul(g, s.rate) {
        Err(e) => Err(e),
        Ok(max_x) => {
            let exhausted = max_x >= s.stable;
            match spec_gross_for_x(s, g, max_x) {
                Err(e) => Err(e),
                Ok((gross_x, gross_y)) => spec_swap_x_fees(s, g, gross_x, gross_y, exhausted),
            }
        },
    }
}

/// Stage two of [`spec_swap_for_x`]: the trader's stable output, the
/// traded other part and the two fee parts.
pub open spec fn spec_swap_x_fees(
    s: StepV,
    g: int,
    gross_x: int,
    gross_y: int,
    exhausted: bool,
) -> Result<(int, int, int, bool, StepV), EngineError> {
    match spec_mul(gross_x, TRADED as int) {
        Err(e) => Err(e),
        Ok(x_out) => match spec_mul(gross_y, TRADED as int) {
            Err(e) => Err(e),
            Ok(y_in) => match spec_mul(gross_y, LP_FEE as int) {
                Err(e) => Err(e),
                Ok(lp) => match spec_mul(gross_y, PROTOCOL_FEE as int) {
                    Err(e) => Err(e),
                    Ok(prot) => spec_swap_x_commit(s, g, x_out, y_in, lp, prot, exhausted),
                },
            },
        },
    }
}

/// Final stage of [`spec_swap_for_x`]: grow the other accumulator and
/// vault, move the reservoirs, and return the leftover input.
pub open spec fn spec_swap_x_commit(
    s: StepV,
    g: int,
    x_out: int,
    y_in: int,
    lp: int,
    prot: int,
    exhausted: bool,
) -> Result<(int, int, int, bool, StepV), EngineError> {
    match spec_liq_total(s) {
        Err(e) => Err(e),
        Ok(ltot) => match spec_acc_grow(s.other_fees_per_liq, lp, ltot) {
            Err(e) => Err(e),
            Ok(fy2) => match spec_add(s.other_fees_vault, lp) {
                Err(e) => Err(e),
                Ok(vy2) => match spec_add(s.other, y_in) {
                    Err(e) => Err(e),
                    Ok(ot2) => match spec_swap_rem(g, y_in, lp, prot) {
                        Err(e) => Err(e),
                        Ok(rem) => {
                            if y_in < 0 || lp < 0 || prot < 0 || rem < 0 || x_out < 0 || x_out
                                > s.stable {
                                Err(EngineError::InsufficientFunds)
                            } else {
                                Ok(
                                    (
                                        x_out,
                                        rem,
                                        prot,
                                        exhausted,
                                        StepV {
                                            stable: s.stable - x_out,
                                            other: ot2,
                                            other_fees_per_liq: fy2,
                                            other_fees_vault: vy2,
                                            ..s
                                        },
                                    ),
                                )
                            }
                        },
                    },
                },
            },
        },
    }
}

/// The gross amounts of an other-for-stable swap: the input and its
/// stable value when the stable reservoir suffices, else the whole
/// reservoir and its other-equivalent.
/// A fixed-point multiplication followed by a division, with errors
/// threaded through.
pub open spec fn spec_mul_then_div(a: int, b: int, d: int) -> Result<int, EngineError> {
    match spec_mul(a, b) {
        Err(e) => Err(e),
        Ok(p) => spec_div(p, d),
    }
}

/// The input left over after a swap: the gross input minus the traded
/// part and both fee parts.
pub open spec fn spec_swap_rem(g: int, traded: int, lp: int, prot: int) -> Result<
    int,
    EngineError,
> {
    match spec_sub(g, traded) {
        Err(e) => Err(e),
        Ok(r1) => match spec_sub(r1, lp) {
            Err(e) => Err(e),
            Ok(r2) => spec_sub(r2, prot),
        },
    }
}

/// The gross amounts of an other-for-stable swap: the input and its
/// stable value when the stable reservoir suffices, else the whole
/// reservoir and its other-equivalent.
pub open spec fn spec_gross_for_x(s: StepV, g: int, max_x: int) -> Result<
    (int, int),
    EngineError,
> {
    if max_x >= s.stable {
        match spec_div(s.stable, s.rate) {
            Err(e) => Err(e),
            Ok(gy) => Ok((s.stable, gy)),
        }
    } else {
        Ok((max_x, g))
    }
}

/// Growth of a fee accumulator by `lp / ltot`; an empty step (zero total
/// liquidity) leaves the accumulator unchanged.
pub open spec fn spec_acc_grow(acc: int, lp: int, ltot: int) -> Result<int, EngineError> {
    if ltot == 0 {
        Ok(acc)
    } else {
        match spec_div(lp, ltot) {
            Err(e) => Err(e),
            Ok(d) => spec_add(acc, d),
        }
    }
}

// ---------------------------------------------------------------------
// model lemmas
// ---------------------------------------------------------------------
/// Multiplying a non-negative value by a fraction at most one cannot grow
/// it (raw fixed-point product).
proof fn lemma_mul_frac_le(a: int, f: int)
    requires
        0 <= a,
        0 <= f <= SCALE as int,
    ensures
        0 <= trunc_div(a * f, SCALE as int) <= a,
{
    let s = SCALE as int;
    assert(a * f >= 0) by (nonlinear_arith)
        requires
            a >= 0,
            f >= 0,
    {
    }
    lemma_trunc_div_nonneg(a * f, s);
    lemma_fundamental_div_mod(a * f, s);
    assert((a * f) / s <= a) by (nonlinear_arith)
        requires
            a * f == s * ((a * f) / s) + (a * f) % s,
            0 <= (a * f) % s,
            0 <= f <= s,
            0 <= a,
            s > 0,
            (a * f) / s >= 0,
    {
        assert(a * f <= a * s);
    }
}

/// The three fee parts of a gross amount sum to at most the gross
/// amount: the three fractions sum to exactly one.
proof fn lemma_fee_split_le(a: int)
    requires
        0 <= a,
    ensures
        0 <= trunc_div(a * TRADED as int, SCALE as int) + trunc_div(a * LP_FEE as int, SCALE as int)
            + trunc_div(a * PROTOCOL_FEE as int, SCALE as int) <= a,
{
    let s = SCALE as int;
    lemma_mul_frac_le(a, TRADED as int);
    lemma_mul_frac_le(a, LP_FEE as int);
    lemma_mul_frac_le(a, PROTOCOL_FEE as int);
    lemma_fundamental_div_mod(a * TRADED as int, s);
    lemma_fundamental_div_mod(a * LP_FEE as int, s);
    lemma_fundamental_div_mod(a * PROTOCOL_FEE as int, s);
    assert(trunc_div(a * TRADED as int, s) == (a * TRADED as int) / s && trunc_div(
        a * LP_FEE as int,
        s,
    ) == (a * LP_FEE as int) / s && trunc_div(a * PROTOCOL_FEE as int, s) == (a * PROTOCOL_FEE as int)
        / s);
    assert((a * TRADED as int) / s + (a * LP_FEE as int) / s + (a * PROTOCOL_FEE as int) / s <= a)
        by (nonlinear_arith)
        requires
            a * TRADED as int == s * ((a * TRADED as int) / s) + (a * TRADED as int) % s,
            a * LP_FEE as int == s * ((a * LP_FEE as int) / s) + (a * LP_FEE as int) % s,
            a * PROTOCOL_FEE as int == s * ((a * PROTOCOL_FEE as int) / s) + (a * PROTOCOL_FEE as int)
                % s,
            0 <= (a * TRADED as int) % s,
            0 <= (a * LP_FEE as int) % s,
            0 <= (a * PROTOCOL_FEE as int) % s,
            TRADED as int + LP_FEE as int + PROTOCOL_FEE as int == s,
            s > 0,
            a >= 0,
    {
        assert(a * TRADED as int + a * LP_FEE as int + a * PROTOCOL_FEE as int == a * s);
    }
}

/// Division with a positive divisor is monotone in the dividend
/// (non-negative case).
proof fn lemma_trunc_div_mono(a: int, b: int, d: int)
    requires
        0 <= a <= b,
        d > 0,
    ensures
        trunc_div(a, d) <= trunc_div(b, d),
{
    lemma_trunc_div_nonneg(a, d);
    lemma_trunc_div_nonneg(b, d);
    vstd::arithmetic::div_mod::lemma_div_is_ordered(a, b, d);
}

/// Scaling down by a rate and back up cannot grow a non-negative value:
/// `trunc(trunc(g * S / r) * r / S) <= g`.
proof fn lemma_rate_round_trip_le(g: int, r: int)
    requires
        0 <= g,
        r > 0,
    ensures
        0 <= trunc_div(trunc_div(g * SCALE as int, r) * r, SCALE as int) <= g,
{
    let s = SCALE as int;
    let q = trunc_div(g * s, r);
    assert(g * s >= 0) by (nonlinear_arith)
        requires
            g >= 0,
            s > 0,
    {
    }
    lemma_trunc_div_nonneg(g * s, r);
    assert(q * r >= 0) by (nonlinear_arith)
        requires
            q >= 0,
            r > 0,
    {
    }
    lemma_trunc_div_nonneg(q * r, s);
    lemma_fundamental_div_mod(g * s, r);
    lemma_fundamental_div_mod(q * r, s);
    assert((q * r) / s <= g) by (nonlinear_arith)
        requires
            g * s == r * q + (g * s) % r,
            0 <= (g * s) % r,
            q * r == s * ((q * r) / s) + (q * r) % s,
            0 <= (q * r) % s,
            s > 0,
            r > 0,
            g >= 0,
            q >= 0,
            (q * r) / s >= 0,
    {
        assert(q * r <= g * s);
    }
}

/// On a well-formed step and a non-negative input, a stable-for-other
/// swap's model can fail only by arithmetic overflow (never for
/// insufficient funds), and on success preserves well-formedness, returns
/// non-negative amounts, and only ever grows the stable accumulator.
pub proof fn lemma_swap_for_y_wf(s: StepV, g: int)
    requires
        step_wf(s),
        0 <= g,
    ensures
        match spec_swap_for_y(s, g) {
            Ok((y_out, rem, prot, exhausted, s2)) => step_wf(s2) && 0 <= y_out && 0 <= rem <= g
                && 0 <= prot && s2.stable_fees_per_liq >= s.stable_fees_per_liq
                && s2.other_fees_per_liq == s.other_fees_per_liq && s2.rate == s.rate,
            Err(e) => e == EngineError::Overflow,
        },
{
    if let Ok(max_y) = spec_div(g, s.rate) {
        assert(g * SCALE as int >= 0) by (nonlinear_arith)
            requires
                g >= 0,
                SCALE as int > 0,
        {
        }
        lemma_trunc_div_nonneg(g * SCALE as int, s.rate);
        let exhausted = max_y >= s.other;
        let q = if exhausted {
            s.other
        } else {
            max_y
        };
        assert(q * s.rate >= 0) by (nonlinear_arith)
            requires
                q >= 0,
                s.rate > 0,
        {
        }
        lemma_trunc_div_nonneg(q * s.rate, SCALE as int);
        if let Ok(gross_x) = spec_mul(q, s.rate) {
            lemma_mul_frac_le(q, TRADED as int);
            lemma_mul_frac_le(gross_x, TRADED as int);
            lemma_mul_frac_le(gross_x, LP_FEE as int);
            lemma_mul_frac_le(gross_x, PROTOCOL_FEE as int);
            lemma_fee_split_le(gross_x);
            // gross_x <= g: q <= trunc(g*S/rate), so q*rate scaled back stays <= g
            assert(q * s.rate <= max_y * s.rate) by (nonlinear_arith)
                requires
                    q <= max_y,
                    s.rate > 0,
            {
            }
            lemma_trunc_div_mono(q * s.rate, trunc_div(g * SCALE as int, s.rate) * s.rate,
                SCALE as int);
            lemma_rate_round_trip_le(g, s.rate);
            if let Ok(ltot) = spec_liq_total(s) {
                assert(s.other * s.rate >= 0) by (nonlinear_arith)
                    requires
                        s.other >= 0,
                        s.rate > 0,
                {
                }
                lemma_trunc_div_nonneg(s.other * s.rate, SCALE as int);
                if ltot != 0 {
                    let lp = trunc_div(gross_x * LP_FEE as int, SCALE as int);
                    assert(lp * SCALE as int >= 0) by (nonlinear_arith)
                        requires
                            lp >= 0,
                            SCALE as int > 0,
                    {
                    }
                    lemma_trunc_div_nonneg(lp * SCALE as int, ltot);
                }
            }
        }
    }
}

/// The mirror fact for an other-for-stable swap.
pub proof fn lemma_swap_for_x_wf(s: StepV, g: int)
    requires
        step_wf(s),
        0 <= g,
    ensures
        match spec_swap_for_x(s, g) {
            Ok((x_out, rem, prot, exhausted, s2)) => step_wf(s2) && 0 <= x_out && 0 <= rem <= g
                && 0 <= prot && s2.other_fees_per_liq >= s.other_fees_per_liq
                && s2.stable_fees_per_liq == s.stable_fees_per_liq && s2.rate == s.rate,
            Err(e) => e == EngineError::Overflow,
        },
{
    if let Ok(max_x) = spec_mul(g, s.rate) {
        assert(g * s.rate >= 0) by (nonlinear_arith)
            requires
                g >= 0,
                s.rate > 0,
        {
        }
        lemma_trunc_div_nonneg(g * s.rate, SCALE as int);
        let exhausted = max_x >= s.stable;
        if exhausted {
            assert(s.stable * SCALE as int >= 0) by (nonlinear_arith)
                requires
                    s.stable >= 0,
                    SCALE as int > 0,
            {
            }
            lemma_trunc_div_nonneg(s.stable * SCALE as int, s.rate);
            lemma_rate_round_trip_le_flip(s.stable, s.rate, g, max_x);
        }
        let gross_x = if exhausted {
            s.stable
        } else {
            max_x
        };
        let gross_y = if exhausted {
            trunc_div(s.stable * SCALE as int, s.rate)
        } else {
            g
        };
        lemma_mul_frac_le(gross_x, TRADED as int);
        lemma_mul_frac_le(gross_y, TRADED as int);
        lemma_mul_frac_le(gross_y, LP_FEE as int);
        lemma_mul_frac_le(gross_y, PROTOCOL_FEE as int);
        lemma_fee_split_le(gross_y);
        if let Ok(ltot) = spec_liq_total(s) {
            assert(s.other * s.rate >= 0) by (nonlinear_arith)
                requires
                    s.other >= 0,
                    s.rate > 0,
            {
            }
            lemma_trunc_div_nonneg(s.other * s.rate, SCALE as int);
            if ltot != 0 {
                let lp = trunc_div(gross_y * LP_FEE as int, SCALE as int);
                assert(lp * SCALE as int >= 0) by (nonlinear_arith)
                    requires
                        lp >= 0,
                        SCALE as int > 0,
                {
                }
                lemma_trunc_div_nonneg(lp * SCALE as int, ltot);
            }
        }
    }
}

/// When the stable reservoir caps the trade, its other-equivalent stays
/// at most the input: `trunc(stable * S / r) <= g` given
/// `stable <= trunc(g * r / S)`.
proof fn lemma_rate_round_trip_le_flip(stable: int, r: int, g: int, max_x: int)
    requires
        0 <= stable,
        r > 0,
        0 <= g,
        max_x == trunc_div(g * r, SCALE as int),
        max_x >= stable,
    ensures
        trunc_div(stable * SCALE as int, r) <= g,
{
    let s = SCALE as int;
    assert(g * r >= 0) by (nonlinear_arith)
        requires
            g >= 0,
            r > 0,
    {
    }
    lemma_trunc_div_nonneg(g * r, s);
    assert(stable * s >= 0) by (nonlinear_arith)
        requires
            stable >= 0,
            s > 0,
    {
    }
    lemma_trunc_div_nonneg(stable * s, r);
    lemma_fundamental_div_mod(g * r, s);
    lemma_fundamental_div_mod(stable * s, r);
    assert((stable * s) / r <= g) by (nonlinear_arith)
        requires
            g * r == s * max_x + (g * r) % s,
            0 <= (g * r) % s,
            stable * s == r * ((stable * s) / r) + (stable * s) % r,
            0 <= (stable * s) % r,
            stable <= max_x,
            s > 0,
            r > 0,
            g >= 0,
            (stable * s) / r >= 0,
    {
        assert(stable * s <= max_x * s);
        assert(max_x * s <= g * r);
    }
}

// ---------------------------------------------------------------------
// the executable step
// ---------------------------------------------------------------------
/// A single-tick liquidity reservoir with fee accounting.
#[derive(Clone, Copy, Debug)]
pub struct PoolStep {
    stable_reservoir: Decimal,
    other_reservoir: Decimal,
    rate: Decimal,
    stable_fees_per_liq: Decimal,
    other_fees_per_liq: Decimal,
    stable_fees_vault: Decimal,
    other_fees_vault: Decimal,
}

impl View for PoolStep {
    type V = StepV;

    closed spec fn view(&self) -> StepV {
        StepV {
            stable: self.stable_reservoir@,
            other: self.other_reservoir@,
            rate: self.rate@,
            stable_fees_per_liq: self.stable_fees_per_liq@,
            other_fees_per_liq: self.other_fees_per_liq@,
            stable_fees_vault: self.stable_fees_vault@,
            other_fees_vault: self.other_fees_vault@,
        }
    }
}

impl PoolStep {
    /// A fresh step trading at the fixed positive `rate`, with empty
    /// reservoirs, vaults and accumulators.
    pub fn new(rate: Decimal) -> (r: PoolStep)
        requires
            rate@ > 0,
        ensures
            r@ == (StepV {
                stable: 0,
                other: 0,
                rate: rate@,
                stable_fees_per_liq: 0,
                other_fees_per_liq: 0,
                stable_fees_vault: 0,
                other_fees_vault: 0,
            }),
            step_wf(r@),
    {
        PoolStep {
            stable_reservoir: Decimal::zero(),
            other_reservoir: Decimal::zero(),
            rate,
            stable_fees_per_liq: Decimal::zero(),
            other_fees_per_liq: Decimal::zero(),
            stable_fees_vault: Decimal::zero(),
            other_fees_vault: Decimal::zero(),
        }
    }

    /// The step's fixed rate.
    pub fn rate(&self) -> (r: Decimal)
        ensures
            r@ == self@.rate,
    {
        self.rate
    }

    /// The step's state as a vector: stable reservoir, other reservoir,
    /// rate, both fee accumulators, both fee vaults.
    pub fn pool_step_state(&self) -> (r: Vec<Decimal>)
        ensures
            r@.len() == 7,
            r@[0]@ == self@.stable,
            r@[1]@ == self@.other,
            r@[2]@ == self@.rate,
            r@[3]@ == self@.stable_fees_per_liq,
            r@[4]@ == self@.other_fees_per_liq,
            r@[5]@ == self@.stable_fees_vault,
            r@[6]@ == self@.other_fees_vault,
    {
        let mut v: Vec<Decimal> = Vec::new();
        v.push(self.stable_reservoir);
        v.push(self.other_reservoir);
        v.push(self.rate);
        v.push(self.stable_fees_per_liq);
        v.push(self.other_fees_per_liq);
        v.push(self.stable_fees_vault);
        v.push(self.other_fees_vault);
        v
    }

    /// Settles a stake's accrued fees and moves its snapshots forward;
    /// exactly [`spec_claim_fees`]. Claiming twice in a row pays zero the
    /// second time, and the accumulators do not change.
    pub fn claim_fees(&mut self, step_position: StepPosition) -> (r: Result<
        (Decimal, Decimal, StepPosition),
        EngineError,
    >)
        ensures
            match r {
                Ok((fee_x, fee_y, sp2)) => spec_claim_fees(old(self)@, stake_view(step_position))
                    == Ok::<_, EngineError>(
                    (fee_x@, fee_y@, final(self)@, stake_view(sp2)),
                ) && fee_x@ >= 0 && fee_y@ >= 0 && sp2.liquidity == step_position.liquidity && (
                step_wf(old(self)@) ==> step_wf(final(self)@)) && (step_wf(old(self)@)
                    && step_position.liquidity@ >= 0 ==> stake_wf(stake_view(sp2))),
                Err(e) => spec_claim_fees(old(self)@, stake_view(step_position)) == Err::<
                    (int, int, StepV, StakeV),
                    EngineError,
                >(e) && *final(self) == *old(self),
            },
            final(self)@.stable_fees_per_liq == old(self)@.stable_fees_per_liq,
            final(self)@.other_fees_per_liq == old(self)@.other_fees_per_liq,
            final(self)@.stable == old(self)@.stable,
            final(self)@.other == old(self)@.other,
            final(self)@.rate == old(self)@.rate,
    {
        let dx = match self.stable_fees_per_liq.checked_sub(&step_position.last_stable_fees_per_liq) {
            Ok(v) => v,
            Err(e) => {
                return Err(e);
            },
        };
        let fee_x = match dx.checked_mul(&step_position.liquidity) {
            Ok(v) => v,
            Err(e) => {
                return Err(e);
            },
        };
        let dy = match self.other_fees_per_liq.checked_sub(&step_position.last_other_fees_per_liq) {
            Ok(v) => v,
            Err(e) => {
                return Err(e);
            },
        };
        let fee_y = match dy.checked_mul(&step_position.liquidity) {
            Ok(v) => v,
            Err(e) => {
                return Err(e);
            },
        };
        if fee_x.is_negative() || fee_x.gt(&self.stable_fees_vault) || fee_y.is_negative()
            || fee_y.gt(&self.other_fees_vault) {
            return Err(EngineError::InsufficientFunds);
        }
        let vx2 = match self.stable_fees_vault.checked_sub(&fee_x) {
            Ok(v) => v,
            Err(e) => {
                proof {
                    assert(false);
                }
                return Err(e);
            },
        };
        let vy2 = match self.other_fees_vault.checked_sub(&fee_y) {
            Ok(v) => v,
            Err(e) => {
                proof {
                    assert(false);
                }
                return Err(e);
            },
        };
        self.stable_fees_vault = vx2;
        self.other_fees_vault = vy2;
        let sp2 = StepPosition {
            liquidity: step_position.liquidity,
            last_stable_fees_per_liq: self.stable_fees_per_liq,
            last_other_fees_per_liq: self.other_fees_per_liq,
        };
        Ok((fee_x, fee_y, sp2))
    }

    /// Adds liquidity: settles the stake's fees into the deposit, consumes
    /// the deposit in the reservoirs' proportion (one-sided if the step is
    /// empty) and mints rate-weighted liquidity onto the stake; exactly
    /// [`spec_add_liquidity`]. Returns the unconsumed remainders and the
    /// updated stake; the fee accumulators and the rate never change.
    pub fn add_liquidity(
        &mut self,
        amount_stable: Decimal,
        amount_other: Decimal,
        on_stable_side: bool,
        step_position: StepPosition,
    ) -> (r: Result<(Decimal, Decimal, StepPosition), EngineError>)
        requires
            step_wf(old(self)@),
            stake_wf(stake_view(step_position)),
            amount_stable@ >= 0,
            amount_other@ >= 0,
        ensures
            match r {
                Ok((ret_x, ret_y, sp2)) => spec_add_liquidity(
                    old(self)@,
                    amount_stable@,
                    amount_other@,
                    stake_view(step_position),
                    on_stable_side,
                ) == Ok::<_, EngineError>((ret_x@, ret_y@, final(self)@, stake_view(sp2))),
                Err(e) => spec_add_liquidity(
                    old(self)@,
                    amount_stable@,
                    amount_other@,
                    stake_view(step_position),
                    on_stable_side,
                ) == Err::<(int, int, StepV, StakeV), EngineError>(e) && *final(self) == *old(
                    self,
                ),
            },
            final(self)@.stable_fees_per_liq == old(self)@.stable_fees_per_liq,
            final(self)@.other_fees_per_liq == old(self)@.other_fees_per_liq,
            final(self)@.rate == old(self)@.rate,
            match r {
                Ok((ret_x, ret_y, sp2)) => step_wf(final(self)@) && stake_wf(stake_view(sp2))
                    && ret_x@ >= 0 && ret_y@ >= 0,
                Err(_) => true,
            },
    {
        let mut work = *self;
        let (fee_x, fee_y, sp1) = match work.claim_fees(step_position) {
            Ok(v) => v,
            Err(e) => {
                return Err(e);
            },
        };
        let xin = match amount_stable.checked_add(&fee_x) {
            Ok(v) => v,
            Err(e) => {
                return Err(e);
            },
        };
        let yin = match amount_other.checked_add(&fee_y) {
            Ok(v) => v,
            Err(e) => {
                return Err(e);
            },
        };
        let yv = match work.other_reservoir.checked_mul(&work.rate) {
            Ok(v) => v,
            Err(e) => {
                return Err(e);
            },
        };
        let ltot = match work.stable_reservoir.checked_add(&yv) {
            Ok(v) => v,
            Err(e) => {
                return Err(e);
            },
        };
        let (rx, ry) = match work.consume(xin, yin, yv, ltot, on_stable_side) {
            Ok(v) => v,
            Err(e) => {
                return Err(e);
            },
        };
        if rx.is_negative() || rx.gt(&xin) || ry.is_negative() || ry.gt(&yin) {
            return Err(EngineError::InsufficientFunds);
        }
        let ryv = match ry.checked_mul(&work.rate) {
            Ok(v) => v,
            Err(e) => {
                return Err(e);
            },
        };
        let minted = match rx.checked_add(&ryv) {
            Ok(v) => v,
            Err(e) => {
                return Err(e);
            },
        };
        let st2 = match work.stable_reservoir.checked_add(&rx) {
            Ok(v) => v,
            Err(e) => {
                return Err(e);
            },
        };
        let ot2 = match work.other_reservoir.checked_add(&ry) {
            Ok(v) => v,
            Err(e) => {
                return Err(e);
            },
        };
        let liq2 = match sp1.liquidity.checked_add(&minted) {
            Ok(v) => v,
            Err(e) => {
                return Err(e);
            },
        };
        let ret_x = match xin.checked_sub(&rx) {
            Ok(v) => v,
            Err(e) => {
                proof {
                    assert(false);
                }
                return Err(e);
            },
        };
        let ret_y = match yin.checked_sub(&ry) {
            Ok(v) => v,
            Err(e) => {
                proof {
                    assert(false);
                }
                return Err(e);
            },
        };
        work.stable_reservoir = st2;
        work.other_reservoir = ot2;
        *self = work;
        let sp2 = StepPosition { liquidity: liq2, ..sp1 };
        Ok((ret_x, ret_y, sp2))
    }

    /// The consumed pair of a deposit, per [`spec_consume`].
    fn consume(&self, xin: Decimal, yin: Decimal, yv: Decimal, ltot: Decimal, stable_side: bool) -> (r:
        Result<(Decimal, Decimal), EngineError>)
        requires
            xin@ >= 0,
            yin@ >= 0,
            self@.stable >= 0,
            self@.rate > 0,
            yv@ >= 0,
        ensures
            match r {
                Ok((rx, ry)) => spec_consume(self@, xin@, yin@, yv@, ltot@, stable_side) == Ok::<
                    _,
                    EngineError,
                >((rx@, ry@)),
                Err(e) => spec_consume(self@, xin@, yin@, yv@, ltot@, stable_side) == Err::<
                    (int, int),
                    EngineError,
                >(e),
            },
    {
        let zero = Decimal::zero();
        if ltot.is_zero() {
            if stable_side {
                return Ok((xin, zero));
            } else {
                return Ok((zero, yin));
            }
        }
        let lvin = match yin.checked_mul(&self.rate) {
            Ok(v) => v,
            Err(e) => {
                return Err(e);
            },
        };
        let xf = match self.stable_reservoir.checked_div(&ltot) {
            Ok(v) => v,
            Err(e) => {
                return Err(e);
            },
        };
        let yf = match Decimal::one().checked_sub(&xf) {
            Ok(v) => v,
            Err(e) => {
                return Err(e);
            },
        };
        proof {
            assert(yin@ * self@.rate >= 0) by (nonlinear_arith)
                requires
                    yin@ >= 0,
                    self@.rate > 0,
            {
            }
            lemma_trunc_div_nonneg(yin@ * self@.rate, SCALE as int);
        }
        // Decide which deposit side is scarce by the exact cross product.
        let scarce_x = xin.le_product(&yv, &self.stable_reservoir, &lvin);
        if scarce_x {
            if xf.is_zero() {
                Ok((xin, zero))
            } else {
                let part = match xin.checked_mul(&yf) {
                    Ok(v) => v,
                    Err(e) => {
                        return Err(e);
                    },
                };
                let val = match part.checked_div(&xf) {
                    Ok(v) => v,
                    Err(e) => {
                        return Err(e);
                    },
                };
                let ry = match val.checked_div(&self.rate) {
                    Ok(v) => v,
                    Err(e) => {
                        return Err(e);
                    },
                };
                Ok((xin, ry))
            }
        } else {
            let part = match lvin.checked_mul(&xf) {
                Ok(v) => v,
                Err(e) => {
                    return Err(e);
                },
            };
            let rx = match part.checked_div(&yf) {
                Ok(v) => v,
                Err(e) => {
                    return Err(e);
                },
            };
            Ok((rx, yin))
        }
    }

    /// Withdraws the stake's whole liquidity, paying its unclaimed fees
    /// plus its share of each reservoir through the step's stable
    /// fraction; exactly [`spec_remove_liquidity`]. The returned stake has
    /// zero liquidity; the fee accumulators and the rate never change.
    pub fn remove_liquidity(&mut self, step_position: StepPosition) -> (r: Result<
        (Decimal, Decimal, StepPosition),
        EngineError,
    >)
        requires
            step_wf(old(self)@),
            stake_wf(stake_view(step_position)),
        ensures
            match r {
                Ok((out_x, out_y, sp2)) => spec_remove_liquidity(
                    old(self)@,
                    stake_view(step_position),
                ) == Ok::<_, EngineError>((out_x@, out_y@, final(self)@, stake_view(sp2))),
                Err(e) => spec_remove_liquidity(old(self)@, stake_view(step_position)) == Err::<
                    (int, int, StepV, StakeV),
                    EngineError,
                >(e) && *final(self) == *old(self),
            },
            final(self)@.stable_fees_per_liq == old(self)@.stable_fees_per_liq,
            final(self)@.other_fees_per_liq == old(self)@.other_fees_per_liq,
            final(self)@.rate == old(self)@.rate,
            match r {
                Ok((out_x, out_y, sp2)) => step_wf(final(self)@) && stake_wf(stake_view(sp2))
                    && out_x@ >= 0 && out_y@ >= 0 && sp2.liquidity@ == 0,
                Err(_) => true,
            },
    {
        let mut work = *self;
        let (fee_x, fee_y, sp1) = match work.claim_fees(step_position) {
            Ok(v) => v,
            Err(e) => {
                return Err(e);
            },
        };
        let yv = match work.other_reservoir.checked_mul(&work.rate) {
            Ok(v) => v,
            Err(e) => {
                return Err(e);
            },
        };
        let ltot = match work.stable_reservoir.checked_add(&yv) {
            Ok(v) => v,
            Err(e) => {
                return Err(e);
            },
        };
        let xf = match work.stable_reservoir.checked_div(&ltot) {
            Ok(v) => v,
            Err(e) => {
                return Err(e);
            },
        };
        let xo = match sp1.liquidity.checked_mul(&xf) {
            Ok(v) => v,
            Err(e) => {
                return Err(e);
            },
        };
        let yf = match Decimal::one().checked_sub(&xf) {
            Ok(v) => v,
            Err(e) => {
                return Err(e);
            },
        };
        let yo_val = match sp1.liquidity.checked_mul(&yf) {
            Ok(v) => v,
            Err(e) => {
                return Err(e);
            },
        };
        let yo = match yo_val.checked_div(&work.rate) {
            Ok(v) => v,
            Err(e) => {
                return Err(e);
            },
        };
        if xo.is_negative() || xo.gt(&work.stable_reservoir) || yo.is_negative() || yo.gt(
            &work.other_reservoir,
        ) {
            return Err(EngineError::InsufficientFunds);
        }
        let out_x = match fee_x.checked_add(&xo) {
            Ok(v) => v,
            Err(e) => {
                return Err(e);
            },
        };
        let out_y = match fee_y.checked_add(&yo) {
            Ok(v) => v,
            Err(e) => {
                return Err(e);
            },
        };
        let st2 = match work.stable_reservoir.checked_sub(&xo) {
            Ok(v) => v,
            Err(e) => {
                proof {
                    assert(false);
                }
                return Err(e);
            },
        };
        let ot2 = match work.other_reservoir.checked_sub(&yo) {
            Ok(v) => v,
            Err(e) => {
                proof {
                    assert(false);
                }
                return Err(e);
            },
        };
        work.stable_reservoir = st2;
        work.other_reservoir = ot2;
        *self = work;
        let sp2 = StepPosition { liquidity: Decimal::zero(), ..sp1 };
        Ok((out_x, out_y, sp2))
    }

    /// Swaps stable input for the other asset at this step's rate; exactly
    /// [`spec_swap_for_y`]. Returns the other-asset output, the input left
    /// over, the protocol's cut, and whether the step's other reservoir
    /// capped the trade. The stable accumulator only ever grows.
    #[verifier::rlimit(100)]
    #[verifier::spinoff_prover]
    pub fn swap_for_y(&mut self, input: Decimal) -> (r: Result<
        (Decimal, Decimal, Decimal, bool),
        EngineError,
    >)
        ensures
            match r {
                Ok((y_out, remainder, protocol, exhausted)) => spec_swap_for_y(old(self)@, input@)
                    == Ok::<_, EngineError>(
                    (y_out@, remainder@, protocol@, exhausted, final(self)@),
                ),
                Err(e) => spec_swap_for_y(old(self)@, input@) == Err::<
                    (int, int, int, bool, StepV),
                    EngineError,
                >(e) && *final(self) == *old(self),
            },
    {
        let traded = Decimal::from_raw(TRADED);
        let lp_fee = Decimal::from_raw(LP_FEE);
        let protocol_fee = Decimal::from_raw(PROTOCOL_FEE);
        let max_y = match input.checked_div(&self.rate) {
            Ok(v) => v,
            Err(e) => {
                return Err(e);
            },
        };
        let exhausted = max_y.ge(&self.other_reservoir);
        let q = if exhausted {
            self.other_reservoir
        } else {
            max_y
        };
        proof {
            assert(spec_swap_for_y(self@, input@) == spec_swap_y_amounts(
                self@,
                input@,
                q@,
                exhausted,
            ));
        }
        let gross_x = match q.checked_mul(&self.rate) {
            Ok(v) => v,
            Err(e) => {
                return Err(e);
            },
        };
        let y_out = match q.checked_mul(&traded) {
            Ok(v) => v,
            Err(e) => {
                return Err(e);
            },
        };
        proof {
            assert(spec_swap_for_y(self@, input@) == spec_swap_y_fees(
                self@,
                input@,
                gross_x@,
                y_out@,
                exhausted,
            ));
        }
        let x_in = match gross_x.checked_mul(&traded) {
            Ok(v) => v,
            Err(e) => {
                return Err(e);
            },
        };
        let lp = match gross_x.checked_mul(&lp_fee) {
            Ok(v) => v,
            Err(e) => {
                return Err(e);
            },
        };
        let prot = match gross_x.checked_mul(&protocol_fee) {
            Ok(v) => v,
            Err(e) => {
                return Err(e);
            },
        };
        proof {
            assert(spec_swap_for_y(self@, input@) == spec_swap_y_commit(
                self@,
                input@,
                y_out@,
                x_in@,
                lp@,
                prot@,
                exhausted,
            ));
        }
        let yv = match self.other_reservoir.checked_mul(&self.rate) {
            Ok(v) => v,
            Err(e) => {
                return Err(e);
            },
        };
        let ltot = match self.stable_reservoir.checked_add(&yv) {
            Ok(v) => v,
            Err(e) => {
                return Err(e);
            },
        };
        let fx2 = if !ltot.is_zero() {
            let d = match lp.checked_div(&ltot) {
                Ok(v) => v,
                Err(e) => {
                    return Err(e);
                },
            };
            match self.stable_fees_per_liq.checked_add(&d) {
                Ok(v) => v,
                Err(e) => {
                    return Err(e);
                },
            }
        } else {
            self.stable_fees_per_liq
        };
        let vx2 = match self.stable_fees_vault.checked_add(&lp) {
            Ok(v) => v,
            Err(e) => {
                return Err(e);
            },
        };
        let st2 = match self.stable_reservoir.checked_add(&x_in) {
            Ok(v) => v,
            Err(e) => {
                return Err(e);
            },
        };
        let r1 = match input.checked_sub(&x_in) {
            Ok(v) => v,
            Err(e) => {
                return Err(e);
            },
        };
        let r2 = match r1.checked_sub(&lp) {
            Ok(v) => v,
            Err(e) => {
                return Err(e);
            },
        };
        let rem = match r2.checked_sub(&prot) {
            Ok(v) => v,
            Err(e) => {
                return Err(e);
            },
        };
        if x_in.is_negative() || lp.is_negative() || prot.is_negative() || rem.is_negative()
            || y_out.is_negative() || y_out.gt(&self.other_reservoir) {
            return Err(EngineError::InsufficientFunds);
        }
        let ot2 = match self.other_reservoir.checked_sub(&y_out) {
            Ok(v) => v,
            Err(e) => {
                proof {
                    assert(false);
                }
                return Err(e);
            },
        };
        self.stable_reservoir = st2;
        self.other_reservoir = ot2;
        self.stable_fees_per_liq = fx2;
        self.stable_fees_vault = vx2;
        Ok((y_out, rem, prot, exhausted))
    }

    /// Swaps other-asset input for stable at this step's rate; exactly
    /// [`spec_swap_for_x`]. Returns the stable output, the input left
    /// over, the protocol's cut, and whether the step's stable reservoir
    /// capped the trade. The other accumulator only ever grows.
    #[verifier::rlimit(100)]
    #[verifier::spinoff_prover]
    pub fn swap_for_x(&mut self, input: Decimal) -> (r: Result<
        (Decimal, Decimal, Decimal, bool),
        EngineError,
    >)
        ensures
            match r {
                Ok((x_out, remainder, protocol, exhausted)) => spec_swap_for_x(old(self)@, input@)
                    == Ok::<_, EngineError>(
                    (x_out@, remainder@, protocol@, exhausted, final(self)@),
                ),
                Err(e) => spec_swap_for_x(old(self)@, input@) == Err::<
                    (int, int, int, bool, StepV),
                    EngineError,
                >(e) && *final(self) == *old(self),
            },
    {
        let traded = Decimal::from_raw(TRADED);
        let lp_fee = Decimal::from_raw(LP_FEE);
        let protocol_fee = Decimal::from_raw(PROTOCOL_FEE);
        let max_x = match input.checked_mul(&self.rate) {
            Ok(v) => v,
            Err(e) => {
                return Err(e);
            },
        };
        let exhausted = max_x.ge(&self.stable_reservoir);
        let gross_y = if exhausted {
            match self.stable_reservoir.checked_div(&self.rate) {
                Ok(v) => v,
                Err(e) => {
                    return Err(e);
                },
            }
        } else {
            input
        };
        let gross_x = if exhausted {
            self.stable_reservoir
        } else {
            max_x
        };
        proof {
            assert(spec_gross_for_x(self@, input@, max_x@) == Ok::<(int, int), EngineError>(
                (gross_x@, gross_y@),
            ));
            assert(spec_swap_for_x(self@, input@) == spec_swap_x_fees(
                self@,
                input@,
                gross_x@,
                gross_y@,
                exhausted,
            ));
        }
        let x_out = match gross_x.checked_mul(&traded) {
            Ok(v) => v,
            Err(e) => {
                return Err(e);
            },
        };
        let y_in = match gross_y.checked_mul(&traded) {
            Ok(v) => v,
            Err(e) => {
                return Err(e);
            },
        };
        let lp = match gross_y.checked_mul(&lp_fee) {
            Ok(v) => v,
            Err(e) => {
                return Err(e);
            },
        };
        let prot = match gross_y.checked_mul(&protocol_fee) {
            Ok(v) => v,
            Err(e) => {
                return Err(e);
            },
        };
        proof {
            assert(spec_swap_for_x(self@, input@) == spec_swap_x_commit(
                self@,
                input@,
                x_out@,
                y_in@,
                lp@,
                prot@,
                exhausted,
            ));
        }
        let yv = match self.other_reservoir.checked_mul(&self.rate) {
            Ok(v) => v,
            Err(e) => {
                return Err(e);
            },
        };
        let ltot = match self.stable_reservoir.checked_add(&yv) {
            Ok(v) => v,
            Err(e) => {
                return Err(e);
            },
        };
        let fy2 = if !ltot.is_zero() {
            let d = match lp.checked_div(&ltot) {
                Ok(v) => v,
                Err(e) => {
                    return Err(e);
                },
            };
            match self.other_fees_per_liq.checked_add(&d) {
                Ok(v) => v,
                Err(e) => {
                    return Err(e);
                },
            }
        } else {
            self.other_fees_per_liq
        };
        let vy2 = match self.other_fees_vault.checked_add(&lp) {
            Ok(v) => v,
            Err(e) => {
                return Err(e);
            },
        };
        let ot2 = match self.other_reservoir.checked_add(&y_in) {
            Ok(v) => v,
            Err(e) => {
                return Err(e);
            },
        };
        let r1 = match input.checked_sub(&y_in) {
            Ok(v) => v,
            Err(e) => {
                return Err(e);
            },
        };
        let r2 = match r1.checked_sub(&lp) {
            Ok(v) => v,
            Err(e) => {
                return Err(e);
            },
        };
        let rem = match r2.checked_sub(&prot) {
            Ok(v) => v,
            Err(e) => {
                return Err(e);
            },
        };
        if y_in.is_negative() || lp.is_negative() || prot.is_negative() || rem.is_negative()
            || x_out.is_negative() || x_out.gt(&self.stable_reservoir) {
            return Err(EngineError::InsufficientFunds);
        }
        let st2 = match self.stable_reservoir.checked_sub(&x_out) {
            Ok(v) => v,
            Err(e) => {
                proof {
                    assert(false);
                }
                return Err(e);
            },
        };
        self.stable_reservoir = st2;
        self.other_reservoir = ot2;
        self.other_fees_per_liq = fy2;
        self.other_fees_vault = vy2;
        Ok((x_out, rem, prot, exhausted))
    }
}

} // verus!
