//! A pool: the step table of one asset pair, the price grid that places
//! each step on a rate, the swap router that walks steps as the price
//! moves, and the pool's protocol fee reserves.
//!
//! The grid is geometric: `rate_at_step(i) = min_rate * rate_step^i`,
//! where `rate_step = (max_rate / min_rate)^(1 / NB_STEP)` is the fixed
//! multiplier between adjacent steps, and
//! `step_at_rate(rate) = floor(ln(rate / min_rate) / ln(rate_step))`.
//! `current_step` is the step at the money; it moves only while a swap
//! walks the table.

use crate::asset::AssetContainer;
use crate::decimal::{res_matches, spec_add, spec_div, spec_mul, spec_sub, trunc_div, Decimal, SCALE};
use crate::decimal_maths::{spec_ln, spec_pow, spec_powi};
use crate::errors::EngineError;
use crate::constants::NB_STEP;
use crate::pool_step::{
    spec_add_liquidity, spec_claim_fees, spec_remove_liquidity, spec_swap_for_x, spec_swap_for_y,
    stake_view, step_wf, PoolStep, StakeV, StepV,
};
use crate::position::{key_index, keys_unique, lemma_key_index, lemma_key_index_converse, Position,
    StepPosition};
use vstd::prelude::*;

verus! {

broadcast use crate::decimal::lemma_decimal_view_range;

/// The view of a pool's step table: each entry's step index and step
/// state.
pub open spec fn steps_view(s: Seq<(u16, PoolStep)>) -> Seq<(u16, StepV)> {
    s.map_values(|e: (u16, PoolStep)| (e.0, e.1@))
}

/// The view of a position's step table: each entry's step index and
/// stake state.
pub open spec fn stakes_view(s: Seq<(u16, StepPosition)>) -> Seq<(u16, StakeV)> {
    s.map_values(|e: (u16, StepPosition)| (e.0, stake_view(e.1)))
}

/// `rate_at_step(i) = min_rate * rate_step^i` (raw), with the power by
/// squaring.
pub open spec fn spec_rate_at_step(min_rate: int, rate_step: int, i: int) -> Result<
    int,
    EngineError,
> {
    match spec_powi(rate_step, i) {
        Err(e) => Err(e),
        Ok(p) => spec_mul(min_rate, p),
    }
}

/// `step_at_rate(rate) = floor(ln(rate / min_rate) / ln(rate_step))`,
/// refused with [`EngineError::StepOutOfRange`] when the quotient falls
/// outside `[0, NB_STEP]`.
pub open spec fn spec_step_at_rate(min_rate: int, rate_step: int, rate: int) -> Result<
    u16,
    EngineError,
> {
    match spec_div(rate, min_rate) {
        Err(e) => Err(e),
        Ok(ratio) => match spec_ln(ratio) {
            Err(e) => Err(e),
            Ok(num) => match spec_ln(rate_step) {
                Err(e) => Err(e),
                Ok(den) => match spec_div(num, den) {
                    Err(e) => Err(e),
                    Ok(ds) => {
                        if !(0 <= ds <= NB_STEP as int * SCALE as int) {
                            Err(EngineError::StepOutOfRange)
                        } else {
                            Ok((ds / SCALE as int) as u16)
                        }
                    },
                },
            },
        },
    }
}

/// The price grid of a new pool: refuses the configuration errors, then
/// computes `rate_step = (max_rate / min_rate)^(1 / NB_STEP)` and the
/// current step of the initial rate.
pub open spec fn spec_rate_grid(initial_rate: int, min_rate: int, max_rate: int) -> Result<
    (int, u16),
    EngineError,
> {
    if min_rate <= 0 {
        Err(EngineError::MinRateNotPositive)
    } else if max_rate <= min_rate {
        Err(EngineError::MaxRateNotGreater)
    } else if !(min_rate <= initial_rate <= max_rate) {
        Err(EngineError::InitialRateOutOfRange)
    } else {
        match spec_div(max_rate, min_rate) {
            Err(e) => Err(e),
            Ok(ratio) => match spec_div(SCALE as int, NB_STEP as int * SCALE as int) {
                Err(e) => Err(e),
                Ok(exponent) => match spec_pow(ratio, exponent) {
                    Err(e) => Err(e),
                    Ok(rs) => match spec_step_at_rate(min_rate, rs, initial_rate) {
                        Err(e) => Err(e),
                        Ok(current) => Ok((rs, current)),
                    },
                },
            },
        }
    }
}

/// One deposit routed to a step of the table: the step is looked up, or
/// created on its grid rate (refused as [`EngineError::InvalidRate`] if
/// that rate rounds to zero or below); the deposit is consumed per
/// [`spec_add_liquidity`] with the stable side chosen for steps at or
/// below `current`, and the step and stake tables gain or update their
/// entries.
pub open spec fn spec_pool_add_at_step(
    steps: Seq<(u16, StepV)>,
    stakes: Seq<(u16, StakeV)>,
    current: u16,
    min_rate: int,
    rate_step: int,
    ax: int,
    ay: int,
    step: u16,
) -> Result<(int, int, Seq<(u16, StepV)>, Seq<(u16, StakeV)>), EngineError> {
    let ki = key_index(steps, step);
    match (if ki >= 0 {
        Ok(steps[ki].1)
    } else {
        match spec_rate_at_step(min_rate, rate_step, step as int) {
            Err(e) => Err(e),
            Ok(rate) => {
                if rate <= 0 {
                    Err(EngineError::InvalidRate)
                } else {
                    Ok(
                        StepV {
                            stable: 0,
                            other: 0,
                            rate: rate,
                            stable_fees_per_liq: 0,
                            other_fees_per_liq: 0,
                            stable_fees_vault: 0,
                            other_fees_vault: 0,
                        },
                    )
                }
            },
        }
    }) {
        Err(e) => Err(e),
        Ok(sv) => {
            let kp = key_index(stakes, step);
            let stake = if kp >= 0 {
                stakes[kp].1
            } else {
                StakeV { liquidity: 0, last_stable: 0, last_other: 0 }
            };
            match spec_add_liquidity(sv, ax, ay, stake, step <= current) {
                Err(e) => Err(e),
                Ok((ret_x, ret_y, s2, p2)) => {
                    let steps2 = if ki >= 0 {
                        steps.update(ki, (step, s2))
                    } else {
                        steps.push((step, s2))
                    };
                    let stakes2 = if kp >= 0 {
                        stakes.update(kp, (step, p2))
                    } else {
                        stakes.push((step, p2))
                    };
                    Ok((ret_x, ret_y, steps2, stakes2))
                },
            }
        },
    }
}

/// A withdrawal routed to a step of the table: the stake entry leaves the
/// stake table; a stake with positive liquidity must find its step
/// (else [`EngineError::NoSuchStep`]) and is paid per
/// [`spec_remove_liquidity`]; a zero or missing stake pays nothing.
pub open spec fn spec_pool_remove_at_step(
    steps: Seq<(u16, StepV)>,
    stakes: Seq<(u16, StakeV)>,
    step: u16,
) -> Result<(int, int, Seq<(u16, StepV)>, Seq<(u16, StakeV)>), EngineError> {
    let kp = key_index(stakes, step);
    let stake = if kp >= 0 {
        stakes[kp].1
    } else {
        StakeV { liquidity: 0, last_stable: 0, last_other: 0 }
    };
    let stakes2 = if kp >= 0 {
        stakes.remove(kp)
    } else {
        stakes
    };
    if stake.liquidity <= 0 {
        Ok((0, 0, steps, stakes2))
    } else {
        let ki = key_index(steps, step);
        if ki < 0 {
            Err(EngineError::NoSuchStep)
        } else {
            match spec_remove_liquidity(steps[ki].1, stake) {
                Err(e) => Err(e),
                Ok((out_x, out_y, s2, _p2)) => Ok(
                    (out_x, out_y, steps.update(ki, (step, s2)), stakes2),
                ),
            }
        }
    }
}

/// A fee claim from table index `i` on: each of the position's entries in
/// turn finds its step (else [`EngineError::NoSuchStep`]), settles per
/// [`spec_claim_fees`], and the fee totals accumulate.
pub open spec fn spec_pool_claim(
    steps: Seq<(u16, StepV)>,
    stakes: Seq<(u16, StakeV)>,
    i: int,
    acc_x: int,
    acc_y: int,
) -> Result<(int, int, Seq<(u16, StepV)>, Seq<(u16, StakeV)>), EngineError>
    decreases stakes.len() - i,
    when 0 <= i <= stakes.len()
{
    if i == stakes.len() {
        Ok((acc_x, acc_y, steps, stakes))
    } else {
        let (step, stake) = stakes[i];
        let ki = key_index(steps, step);
        if ki < 0 {
            Err(EngineError::NoSuchStep)
        } else {
            match spec_claim_fees(steps[ki].1, stake) {
                Err(e) => Err(e),
                Ok((fx, fy, s2, p2)) => match spec_add(acc_x, fx) {
                    Err(e) => Err(e),
                    Ok(ax2) => match spec_add(acc_y, fy) {
                        Err(e) => Err(e),
                        Ok(ay2) => spec_pool_claim(
                            steps.update(ki, (step, s2)),
                            stakes.update(i, (step, p2)),
                            i + 1,
                            ax2,
                            ay2,
                        ),
                    },
                },
            }
        }
    }
}

/// An even deposit over the inclusive step range `[i, stop]`: `per_x` and
/// `per_y` go to each step in turn per [`spec_pool_add_at_step`], the
/// leftovers accumulating. The second component is the step table after
/// however far the run got: on an error it is the partial state of the
/// prefix that succeeded, each per-step deposit being atomic by itself.
pub open spec fn spec_pool_add_at_steps(
    steps: Seq<(u16, StepV)>,
    stakes: Seq<(u16, StakeV)>,
    current: u16,
    min_rate: int,
    rate_step: int,
    per_x: int,
    per_y: int,
    i: u16,
    stop: u16,
    acc_rx: int,
    acc_ry: int,
) -> (Result<(int, int, Seq<(u16, StakeV)>), EngineError>, Seq<(u16, StepV)>)
    decreases stop - i,
    when i <= stop
{
    match spec_pool_add_at_step(steps, stakes, current, min_rate, rate_step, per_x, per_y, i) {
        Err(e) => (Err(e), steps),
        Ok((rx, ry, steps2, stakes2)) => match spec_add(acc_rx, rx) {
            Err(e) => (Err(e), steps2),
            Ok(arx) => match spec_add(acc_ry, ry) {
                Err(e) => (Err(e), steps2),
                Ok(ary) => {
                    if i == stop {
                        (Ok((arx, ary, stakes2)), steps2)
                    } else {
                        spec_pool_add_at_steps(
                            steps2,
                            stakes2,
                            current,
                            min_rate,
                            rate_step,
                            per_x,
                            per_y,
                            (i + 1) as u16,
                            stop,
                            arx,
                            ary,
                        )
                    }
                },
            },
        },
    }
}

/// A whole ranged deposit: refuse a reversed range, split each amount
/// evenly (`amount / (stop - start + 1)` per step, truncating), run the
/// per-step deposits, and return the accumulated leftovers plus the even
/// split's remainders. The second component is the step table after
/// however far the run got.
pub open spec fn spec_pool_add_range(
    steps: Seq<(u16, StepV)>,
    stakes: Seq<(u16, StakeV)>,
    current: u16,
    min_rate: int,
    rate_step: int,
    ax: int,
    ay: int,
    start: u16,
    stop: u16,
) -> (Result<(int, int, Seq<(u16, StakeV)>), EngineError>, Seq<(u16, StepV)>) {
    if stop < start {
        (Err(EngineError::StepOutOfRange), steps)
    } else {
        let nb = stop - start + 1;
        match spec_div(ax, nb * SCALE as int) {
            Err(e) => (Err(e), steps),
            Ok(per_x) => match spec_div(ay, nb * SCALE as int) {
                Err(e) => (Err(e), steps),
                Ok(per_y) => {
                    let (res, steps2) = spec_pool_add_at_steps(
                        steps,
                        stakes,
                        current,
                        min_rate,
                        rate_step,
                        per_x,
                        per_y,
                        start,
                        stop,
                        0,
                        0,
                    );
                    match res {
                        Err(e) => (Err(e), steps2),
                        Ok((arx, ary, stakes2)) => spec_pool_range_dust(
                            ax,
                            ay,
                            per_x,
                            per_y,
                            nb as int,
                            arx,
                            ary,
                            stakes2,
                            steps2,
                        ),
                    }
                },
            },
        }
    }
}

/// The tail of a ranged deposit's accounting: what the even split could
/// not hand out (`amount - nb * per` of each asset) joins the per-step
/// leftovers; a negative total is refused.
pub open spec fn spec_pool_range_dust(
    ax: int,
    ay: int,
    per_x: int,
    per_y: int,
    nb: int,
    arx: int,
    ary: int,
    stakes2: Seq<(u16, StakeV)>,
    steps2: Seq<(u16, StepV)>,
) -> (Result<(int, int, Seq<(u16, StakeV)>), EngineError>, Seq<(u16, StepV)>) {
    match spec_mul(per_x, nb * SCALE as int) {
        Err(e) => (Err(e), steps2),
        Ok(used_x) => match spec_mul(per_y, nb * SCALE as int) {
            Err(e) => (Err(e), steps2),
            Ok(used_y) => match spec_sub(ax, used_x) {
                Err(e) => (Err(e), steps2),
                Ok(dust_x) => match spec_sub(ay, used_y) {
                    Err(e) => (Err(e), steps2),
                    Ok(dust_y) => match spec_add(arx, dust_x) {
                        Err(e) => (Err(e), steps2),
                        Ok(ret_x) => match spec_add(ary, dust_y) {
                            Err(e) => (Err(e), steps2),
                            Ok(ret_y) => {
                                if ret_x < 0 || ret_y < 0 {
                                    (Err(EngineError::InsufficientFunds), steps2)
                                } else {
                                    (Ok((ret_x, ret_y, stakes2)), steps2)
                                }
                            },
                        },
                    },
                },
            },
        },
    }
}

/// A withdrawal over the inclusive step range `[i, stop]`: each step in
/// turn per [`spec_pool_remove_at_step`], the payouts accumulating. The
/// second component is the step table after however far the run got.
pub open spec fn spec_pool_remove_at_steps(
    steps: Seq<(u16, StepV)>,
    stakes: Seq<(u16, StakeV)>,
    i: u16,
    stop: u16,
    acc_x: int,
    acc_y: int,
) -> (Result<(int, int, Seq<(u16, StakeV)>), EngineError>, Seq<(u16, StepV)>)
    decreases stop - i,
    when i <= stop
{
    match spec_pool_remove_at_step(steps, stakes, i) {
        Err(e) => (Err(e), steps),
        Ok((ox, oy, steps2, stakes2)) => match spec_add(acc_x, ox) {
            Err(e) => (Err(e), steps2),
            Ok(ax2) => match spec_add(acc_y, oy) {
                Err(e) => (Err(e), steps2),
                Ok(ay2) => {
                    if i == stop {
                        (Ok((ax2, ay2, stakes2)), steps2)
                    } else {
                        spec_pool_remove_at_steps(steps2, stakes2, (i + 1) as u16, stop, ax2, ay2)
                    }
                },
            },
        },
    }
}

/// A whole-position withdrawal: every entry in table order must find its
/// step (else [`EngineError::NoSuchStep`]) and is paid per
/// [`spec_remove_liquidity`], the payouts accumulating. The second
/// component is the step table after however far the run got; each
/// entry's withdrawal is atomic by itself.
pub open spec fn spec_pool_remove_all(
    steps: Seq<(u16, StepV)>,
    stakes: Seq<(u16, StakeV)>,
    acc_x: int,
    acc_y: int,
) -> (Result<(int, int), EngineError>, Seq<(u16, StepV)>)
    decreases stakes.len(),
{
    if stakes.len() == 0 {
        (Ok((acc_x, acc_y)), steps)
    } else {
        let (step, stake) = stakes[0];
        let ki = key_index(steps, step);
        if ki < 0 {
            (Err(EngineError::NoSuchStep), steps)
        } else {
            match spec_remove_liquidity(steps[ki].1, stake) {
                Err(e) => (Err(e), steps),
                Ok((ox, oy, s2, _p2)) => match spec_add(acc_x, ox) {
                    Err(e) => (Err(e), steps),
                    Ok(ax2) => match spec_add(acc_y, oy) {
                        Err(e) => (Err(e), steps),
                        Ok(ay2) => spec_pool_remove_all(
                            steps.update(ki, (step, s2)),
                            stakes.skip(1),
                            ax2,
                            ay2,
                        ),
                    },
                },
            }
        }
    }
}

/// One upward walk of a stable-input swap over the step table: trade at
/// `current` if a step is there, stop when the input is spent or the
/// step was not exhausted, else move up, stopping at the top of the
/// grid. Yields the updated table, the final current step, the total
/// output, the protocol's total cut, and the leftover input.
pub open spec fn spec_walk_y(
    steps: Seq<(u16, StepV)>,
    current: u16,
    g: int,
    acc_out: int,
    acc_prot: int,
) -> Result<(Seq<(u16, StepV)>, u16, int, int, int), EngineError>
    decreases NB_STEP - current,
{
    let ki = key_index(steps, current);
    if ki >= 0 {
        match spec_swap_for_y(steps[ki].1, g) {
            Err(e) => Err(e),
            Ok((y_out, rem, prot, exhausted, s2)) => {
                let steps2 = steps.update(ki, (current, s2));
                match spec_add(acc_out, y_out) {
                    Err(e) => Err(e),
                    Ok(out2) => match spec_add(acc_prot, prot) {
                        Err(e) => Err(e),
                        Ok(prot2) => {
                            if rem == 0 || !exhausted {
                                Ok((steps2, current, out2, prot2, rem))
                            } else if current == NB_STEP {
                                Ok((steps2, current, out2, prot2, rem))
                            } else {
                                spec_walk_y(steps2, (current + 1) as u16, rem, out2, prot2)
                            }
                        },
                    },
                }
            },
        }
    } else {
        if current == NB_STEP {
            Ok((steps, current, acc_out, acc_prot, g))
        } else {
            spec_walk_y(steps, (current + 1) as u16, g, acc_out, acc_prot)
        }
    }
}

/// The downward mirror of [`spec_walk_y`] for other-asset input, walking
/// toward step zero.
pub open spec fn spec_walk_x(
    steps: Seq<(u16, StepV)>,
    current: u16,
    g: int,
    acc_out: int,
    acc_prot: int,
) -> Result<(Seq<(u16, StepV)>, u16, int, int, int), EngineError>
    decreases current,
{
    let ki = key_index(steps, current);
    if ki >= 0 {
        match spec_swap_for_x(steps[ki].1, g) {
            Err(e) => Err(e),
            Ok((x_out, rem, prot, exhausted, s2)) => {
                let steps2 = steps.update(ki, (current, s2));
                match spec_add(acc_out, x_out) {
                    Err(e) => Err(e),
                    Ok(out2) => match spec_add(acc_prot, prot) {
                        Err(e) => Err(e),
                        Ok(prot2) => {
                            if rem == 0 || !exhausted {
                                Ok((steps2, current, out2, prot2, rem))
                            } else if current == 0 {
                                Ok((steps2, current, out2, prot2, rem))
                            } else {
                                spec_walk_x(steps2, (current - 1) as u16, rem, out2, prot2)
                            }
                        },
                    },
                }
            },
        }
    } else {
        if current == 0 {
            Ok((steps, current, acc_out, acc_prot, g))
        } else {
            spec_walk_x(steps, (current - 1) as u16, g, acc_out, acc_prot)
        }
    }
}

/// A whole swap: the walk in the direction of the input asset, with the
/// protocol's total cut added to the matching reserve. Yields the updated
/// table, current step, both reserves, the output and the leftover input.
pub open spec fn spec_pool_swap(
    steps: Seq<(u16, StepV)>,
    current: u16,
    stable_reserve: int,
    other_reserve: int,
    g: int,
    stable_input: bool,
) -> Result<(Seq<(u16, StepV)>, u16, int, int, int, int), EngineError> {
    if stable_input {
        match spec_walk_y(steps, current, g, 0, stable_reserve) {
            Err(e) => Err(e),
            Ok((steps2, cur2, out, res2, rem)) => Ok(
                (steps2, cur2, res2, other_reserve, out, rem),
            ),
        }
    } else {
        match spec_walk_x(steps, current, g, 0, other_reserve) {
            Err(e) => Err(e),
            Ok((steps2, cur2, out, res2, rem)) => Ok(
                (steps2, cur2, stable_reserve, res2, out, rem),
            ),
        }
    }
}

/// Key lookups agree between a step table and its view.
pub proof fn lemma_key_index_steps_view(s: Seq<(u16, PoolStep)>, k: u16)
    ensures
        key_index(steps_view(s), k) == key_index(s, k),
    decreases s.len(),
{
    if s.len() > 0 {
        assert(steps_view(s)[0].0 == s[0].0);
        if s[0].0 != k {
            lemma_key_index_steps_view(s.skip(1), k);
            assert(steps_view(s).skip(1) =~= steps_view(s.skip(1)));
        }
    } else {
        assert(steps_view(s).len() == 0);
    }
}

/// Key lookups agree between a position's step table and its view.
pub proof fn lemma_key_index_stakes_view(s: Seq<(u16, StepPosition)>, k: u16)
    ensures
        key_index(stakes_view(s), k) == key_index(s, k),
    decreases s.len(),
{
    if s.len() > 0 {
        assert(stakes_view(s)[0].0 == s[0].0);
        if s[0].0 != k {
            lemma_key_index_stakes_view(s.skip(1), k);
            assert(stakes_view(s).skip(1) =~= stakes_view(s.skip(1)));
        }
    } else {
        assert(stakes_view(s).len() == 0);
    }
}

/// A pool: the sparse step table for one stablecoin/other pair, its price
/// grid, and the protocol's fee reserves.
#[derive(Clone, Debug)]
pub struct Pool {
    rate_step: Decimal,
    current_step: u16,
    min_rate: Decimal,
    steps: Vec<(u16, PoolStep)>,
    stable_protocol_fees: Decimal,
    other_protocol_fees: Decimal,
    stable_asset: u64,
    other_asset: u64,
}

impl Pool {
    /// The grid multiplier between adjacent steps.
    pub closed spec fn spec_rate_step(&self) -> int {
        self.rate_step@
    }

    /// The step currently at the money.
    pub closed spec fn spec_current_step(&self) -> u16 {
        self.current_step
    }

    /// The rate of step zero.
    pub closed spec fn spec_min_rate(&self) -> int {
        self.min_rate@
    }

    /// The step table's view.
    pub closed spec fn spec_steps(&self) -> Seq<(u16, StepV)> {
        steps_view(self.steps@)
    }

    /// The protocol's stable-asset fee reserve.
    pub closed spec fn spec_stable_protocol_fees(&self) -> int {
        self.stable_protocol_fees@
    }

    /// The protocol's other-asset fee reserve.
    pub closed spec fn spec_other_protocol_fees(&self) -> int {
        self.other_protocol_fees@
    }

    /// The pair's stablecoin asset id.
    pub closed spec fn spec_stable_asset(&self) -> u64 {
        self.stable_asset
    }

    /// The pair's other asset id.
    pub closed spec fn spec_other_asset(&self) -> u64 {
        self.other_asset
    }

    /// A pool is well formed when its step keys are distinct, every step
    /// state is well formed, its grid values are positive, its reserves
    /// are non-negative and the pair's assets differ.
    pub open spec fn wf(&self) -> bool {
        keys_unique(self.spec_steps()) && (forall|i: int|
            0 <= i < self.spec_steps().len() ==> step_wf(#[trigger] self.spec_steps()[i].1))
            && self.spec_rate_step() > 0 && self.spec_min_rate() > 0
            && self.spec_stable_protocol_fees() >= 0 && self.spec_other_protocol_fees() >= 0
            && self.spec_stable_asset() != self.spec_other_asset()
            && self.spec_current_step() <= NB_STEP
}

    /// Index of `step` in the pool's table, or the table's length.
    fn find_step(&self, step: u16) -> (r: usize)
        ensures
            r <= self.spec_steps().len(),
            r < self.spec_steps().len() ==> key_index(self.spec_steps(), step) == r,
            r == self.spec_steps().len() ==> key_index(self.spec_steps(), step) == -1,
    {
        let ghost s = self.spec_steps();
        let n = self.steps.len();
        let mut i: usize = 0;
        while i < n
            invariant
                n == s.len(),
                s == self.spec_steps(),
                0 <= i <= n,
                forall|m: int| 0 <= m < i ==> s[m].0 != step,
            decreases n - i,
        {
            if self.steps[i].0 == step {
                proof {
                    lemma_key_index_converse(s, step, i as int);
                }
                return i;
            }
            i = i + 1;
        }
        proof {
            lemma_key_index_converse(s, step, n as int);
        }
        n
    }

    /// The rate the grid assigns to a step: `min_rate * rate_step^i`;
    /// exactly [`spec_rate_at_step`].
    pub fn rate_at_step(&self, step_id: u16) -> (r: Result<Decimal, EngineError>)
        ensures
            res_matches(r, spec_rate_at_step(self.spec_min_rate(), self.spec_rate_step(),
            step_id as int)),
    {
        let p = match crate::decimal_maths::powi(&self.rate_step, step_id) {
            Ok(v) => v,
            Err(e) => {
                return Err(e);
            },
        };
        self.min_rate.checked_mul(&p)
    }

    /// The step whose rate bracket holds `rate`:
    /// `floor(ln(rate / min_rate) / ln(rate_step))`; exactly
    /// [`spec_step_at_rate`], refusing rates outside the grid with
    /// [`EngineError::StepOutOfRange`].
    pub fn step_at_rate(&self, rate: Decimal) -> (r: Result<u16, EngineError>)
        ensures
            match r {
                Ok(step) => spec_step_at_rate(self.spec_min_rate(), self.spec_rate_step(), rate@)
                    == Ok::<u16, EngineError>(step),
                Err(e) => spec_step_at_rate(self.spec_min_rate(), self.spec_rate_step(), rate@)
                    == Err::<u16, EngineError>(e),
            },
    {
        let ratio = match rate.checked_div(&self.min_rate) {
            Ok(v) => v,
            Err(e) => {
                return Err(e);
            },
        };
        let num = match crate::decimal_maths::ln(&ratio) {
            Ok(v) => v,
            Err(e) => {
                return Err(e);
            },
        };
        let den = match crate::decimal_maths::ln(&self.rate_step) {
            Ok(v) => v,
            Err(e) => {
                return Err(e);
            },
        };
        let ds = match num.checked_div(&den) {
            Ok(v) => v,
            Err(e) => {
                return Err(e);
            },
        };
        let top = Decimal::from_int(NB_STEP as i64);
        if ds.is_negative() || ds.gt(&top) {
            return Err(EngineError::StepOutOfRange);
        }
        let units = ds.floor_units();
        proof {
            assert(ds@ / SCALE as int <= NB_STEP as int) by (nonlinear_arith)
                requires
                    0 <= ds@ <= NB_STEP as int * SCALE as int,
                    SCALE == 1_000_000_000_000_000_000i128,
            {
            }
            assert(ds@ / SCALE as int >= 0) by (nonlinear_arith)
                requires
                    ds@ >= 0,
                    SCALE as int > 0,
            {
            }
        }
        Ok(units as u16)
    }

    /// Deposits both assets at one step, creating the step on its grid
    /// rate if it is new; exactly [`spec_pool_add_at_step`] over the step
    /// and stake tables. Returns the unconsumed parts of both deposits
    /// and the updated position; the grid, the current step, the reserves
    /// and every other step stay as they were.
    pub fn add_liquidity_at_step(
        &mut self,
        bucket_stable: AssetContainer,
        bucket_other: AssetContainer,
        position: Position,
        step_id: u16,
    ) -> (r: Result<(AssetContainer, AssetContainer, Position), EngineError>)
        requires
            old(self).wf(),
            position.wf(),
            bucket_stable.wf(),
            bucket_other.wf(),
        ensures
            final(self).grid_unchanged(old(self)),
            match r {
                Ok((ret_s, ret_o, pos2)) => bucket_stable.asset_of() == old(
                    self,
                ).spec_stable_asset() && bucket_other.asset_of() == old(self).spec_other_asset()
                    && spec_pool_add_at_step(
                    old(self).spec_steps(),
                    stakes_view(position.entries()),
                    old(self).spec_current_step(),
                    old(self).spec_min_rate(),
                    old(self).spec_rate_step(),
                    bucket_stable.amount_of(),
                    bucket_other.amount_of(),
                    step_id,
                ) == Ok::<_, EngineError>(
                    (
                        ret_s.amount_of(),
                        ret_o.amount_of(),
                        final(self).spec_steps(),
                        stakes_view(pos2.entries()),
                    ),
                ) && ret_s.asset_of() == old(self).spec_stable_asset() && ret_o.asset_of() == old(
                    self,
                ).spec_other_asset() && pos2.token == position.token && final(self).wf()
                    && pos2.wf() && ret_s.wf() && ret_o.wf(),
                Err(e) => *final(self) == *old(self) && if bucket_stable.asset_of() != old(
                    self,
                ).spec_stable_asset() || bucket_other.asset_of() != old(self).spec_other_asset() {
                    e == EngineError::AssetMismatch
                } else {
                    spec_pool_add_at_step(
                        old(self).spec_steps(),
                        stakes_view(position.entries()),
                        old(self).spec_current_step(),
                        old(self).spec_min_rate(),
                        old(self).spec_rate_step(),
                        bucket_stable.amount_of(),
                        bucket_other.amount_of(),
                        step_id,
                    ) == Err::<
                        (int, int, Seq<(u16, StepV)>, Seq<(u16, StakeV)>),
                        EngineError,
                    >(e)
                },
            },
    {
        if bucket_stable.asset_id() != self.stable_asset || bucket_other.asset_id()
            != self.other_asset {
            return Err(EngineError::AssetMismatch);
        }
        let ax = bucket_stable.amount();
        let ay = bucket_other.amount();
        let ghost steps0 = self.spec_steps();
        let ghost stakes0 = stakes_view(position.entries());
        proof {
            lemma_key_index_stakes_view(position.entries(), step_id);
        }
        let sp = position.get_step(step_id);
        proof {
            lemma_key_index(position.entries(), step_id);
            if key_index(position.entries(), step_id) >= 0 {
                assert((#[trigger] position.entries()[key_index(position.entries(), step_id)]).1.wf());
            }
        }
        let side = step_id <= self.current_step;
        let idx = self.find_step(step_id);
        let n = self.steps.len();
        if idx < n {
            let mut st = self.steps[idx].1;
            let (ret_x, ret_y, sp2) = match st.add_liquidity(ax, ay, side, sp) {
                Ok(v) => v,
                Err(e) => {
                    return Err(e);
                },
            };
            self.steps[idx] = (step_id, st);
            let mut pos2 = position;
            pos2.insert_step(step_id, sp2);
            proof {
                lemma_key_index(steps0, step_id);
                assert(steps0[idx as int].0 == step_id);
                assert(self.spec_steps() =~= steps0.update(idx as int, (step_id, st@)));
                lemma_key_index_stakes_view(position.entries(), step_id);
                if key_index(stakes0, step_id) >= 0 {
                    lemma_key_index(position.entries(), step_id);
                    assert(stakes_view(pos2.entries()) =~= stakes0.update(
                        key_index(stakes0, step_id),
                        (step_id, stake_view(sp2)),
                    ));
                } else {
                    assert(stakes_view(pos2.entries()) =~= stakes0.push(
                        (step_id, stake_view(sp2)),
                    ));
                }
                lemma_pool_wf_update(old(self).spec_steps(), self.spec_steps(), idx as int);
            }
            let ret_s = AssetContainer::with_amount(self.stable_asset, ret_x);
            let ret_o = AssetContainer::with_amount(self.other_asset, ret_y);
            Ok((ret_s, ret_o, pos2))
        } else {
            let rate = match self.rate_at_step(step_id) {
                Ok(v) => v,
                Err(e) => {
                    return Err(e);
                },
            };
            if !rate.is_positive() {
                return Err(EngineError::InvalidRate);
            }
            let mut st = PoolStep::new(rate);
            let (ret_x, ret_y, sp2) = match st.add_liquidity(ax, ay, side, sp) {
                Ok(v) => v,
                Err(e) => {
                    return Err(e);
                },
            };
            self.steps.push((step_id, st));
            let mut pos2 = position;
            pos2.insert_step(step_id, sp2);
            proof {
                assert(self.spec_steps() =~= steps0.push((step_id, st@)));
                lemma_key_index_stakes_view(position.entries(), step_id);
                if key_index(stakes0, step_id) >= 0 {
                    lemma_key_index(position.entries(), step_id);
                    assert(stakes_view(pos2.entries()) =~= stakes0.update(
                        key_index(stakes0, step_id),
                        (step_id, stake_view(sp2)),
                    ));
                } else {
                    assert(stakes_view(pos2.entries()) =~= stakes0.push(
                        (step_id, stake_view(sp2)),
                    ));
                }
                lemma_pool_wf_push(old(self).spec_steps(), self.spec_steps(), step_id);
            }
            let ret_s = AssetContainer::with_amount(self.stable_asset, ret_x);
            let ret_o = AssetContainer::with_amount(self.other_asset, ret_y);
            Ok((ret_s, ret_o, pos2))
        }
    }

    /// Withdraws a position's whole stake at one step: the stake entry
    /// leaves the position, and when it carried liquidity the step pays
    /// out fees plus the reservoir share per [`spec_remove_liquidity`];
    /// exactly [`spec_pool_remove_at_step`]. A zero stake is a no-op that
    /// still returns empty containers.
    pub fn remove_liquidity_at_step(&mut self, position: Position, step_id: u16) -> (r: Result<
        (AssetContainer, AssetContainer, Position),
        EngineError,
    >)
        requires
            old(self).wf(),
            position.wf(),
        ensures
            final(self).grid_unchanged(old(self)),
            match r {
                Ok((out_s, out_o, pos2)) => spec_pool_remove_at_step(
                    old(self).spec_steps(),
                    stakes_view(position.entries()),
                    step_id,
                ) == Ok::<_, EngineError>(
                    (
                        out_s.amount_of(),
                        out_o.amount_of(),
                        final(self).spec_steps(),
                        stakes_view(pos2.entries()),
                    ),
                ) && out_s.asset_of() == old(self).spec_stable_asset() && out_o.asset_of() == old(
                    self,
                ).spec_other_asset() && pos2.token == position.token && final(self).wf()
                    && pos2.wf() && out_s.wf() && out_o.wf(),
                Err(e) => *final(self) == *old(self) && spec_pool_remove_at_step(
                    old(self).spec_steps(),
                    stakes_view(position.entries()),
                    step_id,
                ) == Err::<(int, int, Seq<(u16, StepV)>, Seq<(u16, StakeV)>), EngineError>(e),
            },
    {
        let ghost steps0 = self.spec_steps();
        let ghost stakes0 = stakes_view(position.entries());
        proof {
            lemma_key_index_stakes_view(position.entries(), step_id);
            lemma_key_index(position.entries(), step_id);
            if key_index(position.entries(), step_id) >= 0 {
                assert((#[trigger] position.entries()[key_index(position.entries(), step_id)]).1.wf());
            }
        }
        let mut pos2 = position;
        let sp = pos2.remove_step(step_id);
        proof {
            if key_index(stakes0, step_id) >= 0 {
                assert(stakes_view(pos2.entries()) =~= stakes0.remove(
                    key_index(stakes0, step_id),
                ));
            } else {
                assert(stakes_view(pos2.entries()) =~= stakes0);
            }
        }
        if !sp.liquidity.is_positive() {
            let out_s = AssetContainer::new(self.stable_asset);
            let out_o = AssetContainer::new(self.other_asset);
            return Ok((out_s, out_o, pos2));
        }
        let idx = self.find_step(step_id);
        let n = self.steps.len();
        if idx == n {
            return Err(EngineError::NoSuchStep);
        }
        let mut st = self.steps[idx].1;
        let (out_x, out_y, _sp2) = match st.remove_liquidity(sp) {
            Ok(v) => v,
            Err(e) => {
                return Err(e);
            },
        };
        self.steps[idx] = (step_id, st);
        proof {
            lemma_key_index(steps0, step_id);
            assert(steps0[idx as int].0 == step_id);
            assert(self.spec_steps() =~= steps0.update(idx as int, (step_id, st@)));
            lemma_pool_wf_update(old(self).spec_steps(), self.spec_steps(), idx as int);
        }
        let out_s = AssetContainer::with_amount(self.stable_asset, out_x);
        let out_o = AssetContainer::with_amount(self.other_asset, out_y);
        Ok((out_s, out_o, pos2))
    }

    /// A swap against the pool. Stable input buys the other asset,
    /// walking the step table upward from the current step; other-asset
    /// input buys stable, walking downward. The protocol's cut of every
    /// touched step accrues to the pool's reserve of the input asset, and
    /// `current_step` is left at the last step touched. Returns the pair
    /// `(other container, stable container)`: output and leftover input,
    /// arranged by asset. Exactly [`spec_pool_swap`].
    #[verifier::rlimit(100)]
    #[verifier::spinoff_prover]
    pub fn swap(&mut self, input_bucket: AssetContainer) -> (r: Result<
        (AssetContainer, AssetContainer),
        EngineError,
    >)
        requires
            old(self).wf(),
            input_bucket.wf(),
        ensures
            final(self).spec_rate_step() == old(self).spec_rate_step(),
            final(self).spec_min_rate() == old(self).spec_min_rate(),
            final(self).spec_stable_asset() == old(self).spec_stable_asset(),
            final(self).spec_other_asset() == old(self).spec_other_asset(),
            match r {
                Ok((out_o, out_s)) => spec_pool_swap(
                    old(self).spec_steps(),
                    old(self).spec_current_step(),
                    old(self).spec_stable_protocol_fees(),
                    old(self).spec_other_protocol_fees(),
                    input_bucket.amount_of(),
                    input_bucket.asset_of() == old(self).spec_stable_asset(),
                ) == Ok::<_, EngineError>(
                    (
                        final(self).spec_steps(),
                        final(self).spec_current_step(),
                        final(self).spec_stable_protocol_fees(),
                        final(self).spec_other_protocol_fees(),
                        if input_bucket.asset_of() == old(self).spec_stable_asset() {
                            out_o.amount_of()
                        } else {
                            out_s.amount_of()
                        },
                        if input_bucket.asset_of() == old(self).spec_stable_asset() {
                            out_s.amount_of()
                        } else {
                            out_o.amount_of()
                        },
                    ),
                ) && out_o.asset_of() == old(self).spec_other_asset() && out_s.asset_of() == old(
                    self,
                ).spec_stable_asset() && (input_bucket.asset_of() == old(self).spec_stable_asset()
                    || input_bucket.asset_of() == old(self).spec_other_asset()) && final(self).wf()
                    && out_o.wf() && out_s.wf(),
                Err(e) => final(self).same_state(old(self)) && if input_bucket.asset_of() != old(
                    self,
                ).spec_stable_asset() && input_bucket.asset_of() != old(self).spec_other_asset() {
                    e == EngineError::AssetMismatch
                } else {
                    spec_pool_swap(
                        old(self).spec_steps(),
                        old(self).spec_current_step(),
                        old(self).spec_stable_protocol_fees(),
                        old(self).spec_other_protocol_fees(),
                        input_bucket.amount_of(),
                        input_bucket.asset_of() == old(self).spec_stable_asset(),
                    ) == Err::<(Seq<(u16, StepV)>, u16, int, int, int, int), EngineError>(e)
                },
            },
    {
        if input_bucket.asset_id() == self.stable_asset {
            let reserve0 = self.stable_protocol_fees;
            let (out, rem, reserve2) = match self.walk_y(
                input_bucket.amount(),
                Decimal::zero(),
                reserve0,
            ) {
                Ok(v) => v,
                Err(e) => {
                    return Err(e);
                },
            };
            self.stable_protocol_fees = reserve2;
            let out_o = AssetContainer::with_amount(self.other_asset, out);
            let out_s = AssetContainer::with_amount(self.stable_asset, rem);
            Ok((out_o, out_s))
        } else if input_bucket.asset_id() == self.other_asset {
            let reserve0 = self.other_protocol_fees;
            let (out, rem, reserve2) = match self.walk_x(
                input_bucket.amount(),
                Decimal::zero(),
                reserve0,
            ) {
                Ok(v) => v,
                Err(e) => {
                    return Err(e);
                },
            };
            self.other_protocol_fees = reserve2;
            let out_s = AssetContainer::with_amount(self.stable_asset, out);
            let out_o = AssetContainer::with_amount(self.other_asset, rem);
            Ok((out_o, out_s))
        } else {
            Err(EngineError::AssetMismatch)
        }
    }

    /// The upward walk of a stable-input swap: trade at the current step
    /// if it exists, stop when the input is spent or the step was not
    /// exhausted, else move up, to the top of the grid at most; exactly
    /// [`spec_walk_y`]. Returns the other-asset output, the leftover
    /// input and the protocol's total cut.
    fn walk_y(&mut self, g: Decimal, acc_out: Decimal, acc_prot: Decimal) -> (r: Result<
        (Decimal, Decimal, Decimal),
        EngineError,
    >)
        requires
            old(self).wf(),
            g@ >= 0,
            acc_out@ >= 0,
            acc_prot@ >= 0,
        ensures
            final(self).grid_except_current_unchanged(old(self)),
            match r {
                Ok((out, rem, prot)) => spec_walk_y(
                    old(self).spec_steps(),
                    old(self).spec_current_step(),
                    g@,
                    acc_out@,
                    acc_prot@,
                ) == Ok::<_, EngineError>(
                    (final(self).spec_steps(), final(self).spec_current_step(), out@, prot@, rem@),
                ) && final(self).wf() && out@ >= 0 && rem@ >= 0 && prot@ >= 0,
                Err(e) => final(self).same_state(old(self)) && spec_walk_y(
                    old(self).spec_steps(),
                    old(self).spec_current_step(),
                    g@,
                    acc_out@,
                    acc_prot@,
                ) == Err::<(Seq<(u16, StepV)>, u16, int, int, int), EngineError>(e),
            },
        decreases NB_STEP - old(self).spec_current_step(),
    {
        let ghost steps0 = self.spec_steps();
        let step = self.current_step;
        let idx = self.find_step(step);
        let n = self.steps.len();
        if idx < n {
            let saved = self.steps[idx].1;
            let mut st = saved;
            proof {
                lemma_key_index(steps0, step);
                crate::pool_step::lemma_swap_for_y_wf(st@, g@);
            }
            let (y_out, rem, prot, exhausted) = match st.swap_for_y(g) {
                Ok(v) => v,
                Err(e) => {
                    return Err(e);
                },
            };
            let out2 = match acc_out.checked_add(&y_out) {
                Ok(v) => v,
                Err(e) => {
                    return Err(e);
                },
            };
            let prot2 = match acc_prot.checked_add(&prot) {
                Ok(v) => v,
                Err(e) => {
                    return Err(e);
                },
            };
            self.steps[idx] = (step, st);
            proof {
                assert(steps0[idx as int].0 == step);
                assert(self.spec_steps() =~= steps0.update(idx as int, (step, st@)));
                lemma_pool_wf_update(old(self).spec_steps(), self.spec_steps(), idx as int);
            }
            if rem.is_zero() || !exhausted {
                return Ok((out2, rem, prot2));
            }
            if self.current_step == NB_STEP {
                return Ok((out2, rem, prot2));
            }
            self.current_step = self.current_step + 1;
            match self.walk_y(rem, out2, prot2) {
                Ok(v) => Ok(v),
                Err(e) => {
                    let ghost pre = self.spec_steps();
                    self.current_step = step;
                    self.steps[idx] = (step, saved);
                    proof {
                        assert(pre == steps0.update(idx as int, (step, st@)));
                        assert(steps0[idx as int] == (step, saved@));
                        assert forall|m: int| 0 <= m < steps0.len() implies self.spec_steps()[m]
                            == steps0[m] by {
                            if m != idx as int {
                                assert(self.spec_steps()[m] == pre[m]);
                            }
                        }
                        assert(self.spec_steps() =~= steps0);
                    }
                    Err(e)
                },
            }
        } else {
            if self.current_step == NB_STEP {
                return Ok((acc_out, g, acc_prot));
            }
            self.current_step = self.current_step + 1;
            match self.walk_y(g, acc_out, acc_prot) {
                Ok(v) => Ok(v),
                Err(e) => {
                    self.current_step = step;
                    Err(e)
                },
            }
        }
    }

    /// The downward walk of an other-input swap, the mirror of
    /// [`Pool::walk_y`] toward step zero; exactly [`spec_walk_x`].
    /// Returns the stable output, the leftover input and the protocol's
    /// total cut.
    fn walk_x(&mut self, g: Decimal, acc_out: Decimal, acc_prot: Decimal) -> (r: Result<
        (Decimal, Decimal, Decimal),
        EngineError,
    >)
        requires
            old(self).wf(),
            g@ >= 0,
            acc_out@ >= 0,
            acc_prot@ >= 0,
        ensures
            final(self).grid_except_current_unchanged(old(self)),
            match r {
                Ok((out, rem, prot)) => spec_walk_x(
                    old(self).spec_steps(),
                    old(self).spec_current_step(),
                    g@,
                    acc_out@,
                    acc_prot@,
                ) == Ok::<_, EngineError>(
                    (final(self).spec_steps(), final(self).spec_current_step(), out@, prot@, rem@),
                ) && final(self).wf() && out@ >= 0 && rem@ >= 0 && prot@ >= 0,
                Err(e) => final(self).same_state(old(self)) && spec_walk_x(
                    old(self).spec_steps(),
                    old(self).spec_current_step(),
                    g@,
                    acc_out@,
                    acc_prot@,
                ) == Err::<(Seq<(u16, StepV)>, u16, int, int, int), EngineError>(e),
            },
        decreases old(self).spec_current_step(),
    {
        let ghost steps0 = self.spec_steps();
        let step = self.current_step;
        let idx = self.find_step(step);
        let n = self.steps.len();
        if idx < n {
            let saved = self.steps[idx].1;
            let mut st = saved;
            proof {
                lemma_key_index(steps0, step);
                crate::pool_step::lemma_swap_for_x_wf(st@, g@);
            }
            let (x_out, rem, prot, exhausted) = match st.swap_for_x(g) {
                Ok(v) => v,
                Err(e) => {
                    return Err(e);
                },
            };
            let out2 = match acc_out.checked_add(&x_out) {
                Ok(v) => v,
                Err(e) => {
                    return Err(e);
                },
            };
            let prot2 = match acc_prot.checked_add(&prot) {
                Ok(v) => v,
                Err(e) => {
                    return Err(e);
                },
            };
            self.steps[idx] = (step, st);
            proof {
                assert(steps0[idx as int].0 == step);
                assert(self.spec_steps() =~= steps0.update(idx as int, (step, st@)));
                lemma_pool_wf_update(old(self).spec_steps(), self.spec_steps(), idx as int);
            }
            if rem.is_zero() || !exhausted {
                return Ok((out2, rem, prot2));
            }
            if self.current_step == 0 {
                return Ok((out2, rem, prot2));
            }
            self.current_step = self.current_step - 1;
            match self.walk_x(rem, out2, prot2) {
                Ok(v) => Ok(v),
                Err(e) => {
                    let ghost pre = self.spec_steps();
                    self.current_step = step;
                    self.steps[idx] = (step, saved);
                    proof {
                        assert(pre == steps0.update(idx as int, (step, st@)));
                        assert(steps0[idx as int] == (step, saved@));
                        assert forall|m: int| 0 <= m < steps0.len() implies self.spec_steps()[m]
                            == steps0[m] by {
                            if m != idx as int {
                                assert(self.spec_steps()[m] == pre[m]);
                            }
                        }
                        assert(self.spec_steps() =~= steps0);
                    }
                    Err(e)
                },
            }
        } else {
            if self.current_step == 0 {
                return Ok((acc_out, g, acc_prot));
            }
            self.current_step = self.current_step - 1;
            match self.walk_x(g, acc_out, acc_prot) {
                Ok(v) => Ok(v),
                Err(e) => {
                    self.current_step = step;
                    Err(e)
                },
            }
        }
    }

    /// A new pool for the pair held by the two containers, whose grid is
    /// exactly [`spec_rate_grid`] of the three rates; the deposit seeds
    /// the current step unless both amounts are zero. Returns the pool,
    /// the unconsumed parts of the deposit and the creator's position.
    pub fn new(
        bucket_stable: AssetContainer,
        bucket_other: AssetContainer,
        initial_rate: Decimal,
        min_rate: Decimal,
        max_rate: Decimal,
    ) -> (r: Result<(Pool, AssetContainer, AssetContainer, Position), EngineError>)
        requires
            bucket_stable.wf(),
            bucket_other.wf(),
        ensures
            match r {
                Ok((pool, ret_s, ret_o, pos)) => bucket_stable.asset_of() != bucket_other.asset_of()
                    && spec_rate_grid(initial_rate@, min_rate@, max_rate@) == Ok::<
                    (int, u16),
                    EngineError,
                >((pool.spec_rate_step(), pool.spec_current_step())) && pool.spec_min_rate()
                    == min_rate@ && pool.spec_stable_asset() == bucket_stable.asset_of()
                    && pool.spec_other_asset() == bucket_other.asset_of()
                    && pool.spec_stable_protocol_fees() == 0 && pool.spec_other_protocol_fees()
                    == 0 && pos.token == bucket_other.asset_of() && pool.wf() && pos.wf()
                    && ret_s.wf() && ret_o.wf() && ret_s.asset_of() == bucket_stable.asset_of()
                    && ret_o.asset_of() == bucket_other.asset_of() && if bucket_stable.amount_of()
                    == 0 && bucket_other.amount_of() == 0 {
                    pool.spec_steps() =~= Seq::<(u16, StepV)>::empty() && stakes_view(pos.entries())
                        =~= Seq::<(u16, StakeV)>::empty() && ret_s.amount_of() == 0
                        && ret_o.amount_of() == 0
                } else {
                    spec_pool_add_at_step(
                        Seq::<(u16, StepV)>::empty(),
                        Seq::<(u16, StakeV)>::empty(),
                        pool.spec_current_step(),
                        min_rate@,
                        pool.spec_rate_step(),
                        bucket_stable.amount_of(),
                        bucket_other.amount_of(),
                        pool.spec_current_step(),
                    ) == Ok::<_, EngineError>(
                        (
                            ret_s.amount_of(),
                            ret_o.amount_of(),
                            pool.spec_steps(),
                            stakes_view(pos.entries()),
                        ),
                    )
                },
                Err(e) => if bucket_stable.asset_of() == bucket_other.asset_of() {
                    e == EngineError::SameToken
                } else {
                    match spec_rate_grid(initial_rate@, min_rate@, max_rate@) {
                        Err(ge) => e == ge,
                        Ok((rs, cur)) => !(bucket_stable.amount_of() == 0
                            && bucket_other.amount_of() == 0) && spec_pool_add_at_step(
                            Seq::<(u16, StepV)>::empty(),
                            Seq::<(u16, StakeV)>::empty(),
                            cur,
                            min_rate@,
                            rs,
                            bucket_stable.amount_of(),
                            bucket_other.amount_of(),
                            cur,
                        ) == Err::<
                            (int, int, Seq<(u16, StepV)>, Seq<(u16, StakeV)>),
                            EngineError,
                        >(e),
                    }
                },
            },
    {
        if bucket_stable.asset_id() == bucket_other.asset_id() {
            return Err(EngineError::SameToken);
        }
        if !min_rate.is_positive() {
            return Err(EngineError::MinRateNotPositive);
        }
        if !max_rate.gt(&min_rate) {
            return Err(EngineError::MaxRateNotGreater);
        }
        if initial_rate.lt(&min_rate) || initial_rate.gt(&max_rate) {
            return Err(EngineError::InitialRateOutOfRange);
        }
        let ratio = match max_rate.checked_div(&min_rate) {
            Ok(v) => v,
            Err(e) => {
                return Err(e);
            },
        };
        let exponent = match Decimal::one().checked_div(&Decimal::from_int(NB_STEP as i64)) {
            Ok(v) => v,
            Err(e) => {
                return Err(e);
            },
        };
        let rate_step = match crate::decimal_maths::pow(&ratio, &exponent) {
            Ok(v) => v,
            Err(e) => {
                return Err(e);
            },
        };
        proof {
            assert(spec_rate_grid(initial_rate@, min_rate@, max_rate@) == (
            match spec_step_at_rate(min_rate@, rate_step@, initial_rate@) {
                Err(e) => Err::<(int, u16), EngineError>(e),
                Ok(c) => Ok((rate_step@, c)),
            }));
        }
        let mut pool = Pool {
            rate_step,
            current_step: 0,
            min_rate,
            steps: Vec::new(),
            stable_protocol_fees: Decimal::zero(),
            other_protocol_fees: Decimal::zero(),
            stable_asset: bucket_stable.asset_id(),
            other_asset: bucket_other.asset_id(),
        };
        let current = match pool.step_at_rate(initial_rate) {
            Ok(v) => v,
            Err(e) => {
                return Err(e);
            },
        };
        pool.current_step = current;
        let position = Position::from(bucket_other.asset_id());
        if bucket_stable.amount().is_zero() && bucket_other.amount().is_zero() {
            proof {
                assert(pool.spec_steps() =~= Seq::<(u16, StepV)>::empty());
                assert(stakes_view(position.entries()) =~= Seq::<(u16, StakeV)>::empty());
            }
            let ret_s = AssetContainer::new(bucket_stable.asset_id());
            let ret_o = AssetContainer::new(bucket_other.asset_id());
            return Ok((pool, ret_s, ret_o, position));
        }
        proof {
            assert(pool.spec_steps() =~= Seq::<(u16, StepV)>::empty());
            assert(stakes_view(position.entries()) =~= Seq::<(u16, StakeV)>::empty());
        }
        let (ret_s, ret_o, pos) = match pool.add_liquidity_at_step(
            bucket_stable,
            bucket_other,
            position,
            current,
        ) {
            Ok(v) => v,
            Err(e) => {
                return Err(e);
            },
        };
        Ok((pool, ret_s, ret_o, pos))
    }

    /// Settles a position's accrued fees across every step it touches, in
    /// table order; exactly [`spec_pool_claim`]. Pays the two fee totals
    /// and returns the position with its snapshots moved forward;
    /// liquidity never changes.
    pub fn claim_fees(&mut self, position: Position) -> (r: Result<
        (AssetContainer, AssetContainer, Position),
        EngineError,
    >)
        requires
            old(self).wf(),
            position.wf(),
        ensures
            final(self).grid_unchanged(old(self)),
            match r {
                Ok((fee_s, fee_o, pos2)) => spec_pool_claim(
                    old(self).spec_steps(),
                    stakes_view(position.entries()),
                    0,
                    0,
                    0,
                ) == Ok::<_, EngineError>(
                    (
                        fee_s.amount_of(),
                        fee_o.amount_of(),
                        final(self).spec_steps(),
                        stakes_view(pos2.entries()),
                    ),
                ) && fee_s.asset_of() == old(self).spec_stable_asset() && fee_o.asset_of() == old(
                    self,
                ).spec_other_asset() && pos2.token == position.token && final(self).wf()
                    && pos2.wf() && fee_s.wf() && fee_o.wf(),
                Err(e) => final(self).same_state(old(self)) && spec_pool_claim(
                    old(self).spec_steps(),
                    stakes_view(position.entries()),
                    0,
                    0,
                    0,
                ) == Err::<(int, int, Seq<(u16, StepV)>, Seq<(u16, StakeV)>), EngineError>(e),
            },
    {
        let (fx, fy, pos2) = match self.claim_from(position, 0, Decimal::zero(), Decimal::zero()) {
            Ok(v) => v,
            Err(e) => {
                return Err(e);
            },
        };
        let fee_s = AssetContainer::with_amount(self.stable_asset, fx);
        let fee_o = AssetContainer::with_amount(self.other_asset, fy);
        Ok((fee_s, fee_o, pos2))
    }

    /// The tail of a fee claim: settles the position's entries from table
    /// index `i` on; exactly [`spec_pool_claim`].
    fn claim_from(&mut self, position: Position, i: usize, acc_x: Decimal, acc_y: Decimal) -> (r:
        Result<(Decimal, Decimal, Position), EngineError>)
        requires
            old(self).wf(),
            position.wf(),
            i <= position.entries().len(),
            acc_x@ >= 0,
            acc_y@ >= 0,
        ensures
            final(self).grid_unchanged(old(self)),
            match r {
                Ok((fx, fy, pos2)) => spec_pool_claim(
                    old(self).spec_steps(),
                    stakes_view(position.entries()),
                    i as int,
                    acc_x@,
                    acc_y@,
                ) == Ok::<_, EngineError>(
                    (fx@, fy@, final(self).spec_steps(), stakes_view(pos2.entries())),
                ) && pos2.token == position.token && final(self).wf() && pos2.wf() && fx@ >= 0
                    && fy@ >= 0,
                Err(e) => final(self).same_state(old(self)) && spec_pool_claim(
                    old(self).spec_steps(),
                    stakes_view(position.entries()),
                    i as int,
                    acc_x@,
                    acc_y@,
                ) == Err::<(int, int, Seq<(u16, StepV)>, Seq<(u16, StakeV)>), EngineError>(e),
            },
        decreases position.entries().len() - i,
    {
        let ghost steps0 = self.spec_steps();
        let ghost stakes0 = stakes_view(position.entries());
        let n = position.step_count();
        if i == n {
            return Ok((acc_x, acc_y, position));
        }
        let (step, sp) = position.entry_at(i);
        let idx = self.find_step(step);
        if idx == self.steps.len() {
            proof {
                lemma_key_index_steps_view(self.steps@, step);
            }
            return Err(EngineError::NoSuchStep);
        }
        let saved = self.steps[idx].1;
        let mut st = saved;
        let (fee_x, fee_y, sp2) = match st.claim_fees(sp) {
            Ok(v) => v,
            Err(e) => {
                return Err(e);
            },
        };
        let ax2 = match acc_x.checked_add(&fee_x) {
            Ok(v) => v,
            Err(e) => {
                return Err(e);
            },
        };
        let ay2 = match acc_y.checked_add(&fee_y) {
            Ok(v) => v,
            Err(e) => {
                return Err(e);
            },
        };
        self.steps[idx] = (step, st);
        let mut pos2 = position;
        proof {
            lemma_key_index(steps0, step);
            assert(steps0[idx as int].0 == step);
            assert(self.spec_steps() =~= steps0.update(idx as int, (step, st@)));
            lemma_pool_wf_update(old(self).spec_steps(), self.spec_steps(), idx as int);
            lemma_key_index_stakes_view(pos2.entries(), step);
            lemma_key_index_converse(pos2.entries(), step, i as int);
            assert((#[trigger] pos2.entries()[i as int]).1.wf());
            if step_wf(saved@) && sp.liquidity@ >= 0 {
            }
        }
        pos2.insert_step(step, sp2);
        proof {
            assert(stakes_view(pos2.entries()) =~= stakes0.update(i as int, (step, stake_view(sp2))));
        }
        let ghost mid = *self;
        match self.claim_from(pos2, i + 1, ax2, ay2) {
            Ok(v) => Ok(v),
            Err(e) => {
                let ghost pre = self.spec_steps();
                self.steps[idx] = (step, saved);
                proof {
                    assert(pre == steps0.update(idx as int, (step, st@)));
                    assert(steps0[idx as int] == (step, saved@));
                    assert forall|m: int| 0 <= m < steps0.len() implies self.spec_steps()[m]
                        == steps0[m] by {
                        if m != idx as int {
                            assert(self.spec_steps()[m] == pre[m]);
                        }
                    }
                    assert(self.spec_steps() =~= steps0);
                }
                Err(e)
            },
        }
    }

    /// Drains both protocol fee reserves to the caller.
    pub fn claim_protocol_fees(&mut self) -> (r: (AssetContainer, AssetContainer))
        requires
            old(self).wf(),
        ensures
            r.0.asset_of() == old(self).spec_stable_asset(),
            r.0.amount_of() == old(self).spec_stable_protocol_fees(),
            r.1.asset_of() == old(self).spec_other_asset(),
            r.1.amount_of() == old(self).spec_other_protocol_fees(),
            final(self).spec_stable_protocol_fees() == 0,
            final(self).spec_other_protocol_fees() == 0,
            final(self).spec_steps() == old(self).spec_steps(),
            final(self).spec_current_step() == old(self).spec_current_step(),
            final(self).spec_rate_step() == old(self).spec_rate_step(),
            final(self).spec_min_rate() == old(self).spec_min_rate(),
            final(self).spec_stable_asset() == old(self).spec_stable_asset(),
            final(self).spec_other_asset() == old(self).spec_other_asset(),
            final(self).wf(),
    {
        let s = AssetContainer::with_amount(self.stable_asset, self.stable_protocol_fees);
        let o = AssetContainer::with_amount(self.other_asset, self.other_protocol_fees);
        self.stable_protocol_fees = Decimal::zero();
        self.other_protocol_fees = Decimal::zero();
        (s, o)
    }

    /// Both protocol fee reserves, read without change.
    pub(crate) fn protocol_fees(&self) -> (r: (Decimal, Decimal))
        ensures
            r.0@ == self.spec_stable_protocol_fees(),
            r.1@ == self.spec_other_protocol_fees(),
    {
        (self.stable_protocol_fees, self.other_protocol_fees)
    }

    /// The pool's state: the grid multiplier, the current step, the rate
    /// of step zero, both protocol reserves, and per table entry the step
    /// index with its seven state values.
    pub fn get_state(&self) -> (r: (Decimal, u16, Decimal, (Decimal, Decimal), Vec<
        (u16, Vec<Decimal>),
    >))
        ensures
            r.0@ == self.spec_rate_step(),
            r.1 == self.spec_current_step(),
            r.2@ == self.spec_min_rate(),
            r.3.0@ == self.spec_stable_protocol_fees(),
            r.3.1@ == self.spec_other_protocol_fees(),
            r.4@.len() == self.spec_steps().len(),
            forall|m: int|
                0 <= m < self.spec_steps().len() ==> (#[trigger] r.4@[m]).0
                    == self.spec_steps()[m].0 && r.4@[m].1@.len() == 7 && r.4@[m].1@[0]@
                    == self.spec_steps()[m].1.stable && r.4@[m].1@[1]@
                    == self.spec_steps()[m].1.other && r.4@[m].1@[2]@ == self.spec_steps()[m].1.rate
                    && r.4@[m].1@[3]@ == self.spec_steps()[m].1.stable_fees_per_liq && r.4@[m].1@[4]@
                    == self.spec_steps()[m].1.other_fees_per_liq && r.4@[m].1@[5]@
                    == self.spec_steps()[m].1.stable_fees_vault && r.4@[m].1@[6]@
                    == self.spec_steps()[m].1.other_fees_vault,
    {
        let mut states: Vec<(u16, Vec<Decimal>)> = Vec::new();
        let n = self.steps.len();
        let mut i: usize = 0;
        while i < n
            invariant
                n == self.steps@.len(),
                0 <= i <= n,
                states@.len() == i,
                forall|m: int|
                    0 <= m < i ==> (#[trigger] states@[m]).0 == self.spec_steps()[m].0
                        && states@[m].1@.len() == 7 && states@[m].1@[0]@
                        == self.spec_steps()[m].1.stable && states@[m].1@[1]@
                        == self.spec_steps()[m].1.other && states@[m].1@[2]@
                        == self.spec_steps()[m].1.rate && states@[m].1@[3]@
                        == self.spec_steps()[m].1.stable_fees_per_liq && states@[m].1@[4]@
                        == self.spec_steps()[m].1.other_fees_per_liq && states@[m].1@[5]@
                        == self.spec_steps()[m].1.stable_fees_vault && states@[m].1@[6]@
                        == self.spec_steps()[m].1.other_fees_vault,
            decreases n - i,
        {
            let entry = &self.steps[i];
            let state = entry.1.pool_step_state();
            states.push((entry.0, state));
            i = i + 1;
        }
        (
            self.rate_step,
            self.current_step,
            self.min_rate,
            (self.stable_protocol_fees, self.other_protocol_fees),
            states,
        )
    }

    /// Deposits at the step whose rate bracket holds `rate`: the
    /// composition of [`Pool::step_at_rate`] and
    /// [`Pool::add_liquidity_at_step`].
    pub fn add_liquidity(
        &mut self,
        bucket_stable: AssetContainer,
        bucket_other: AssetContainer,
        rate: Decimal,
        position: Position,
    ) -> (r: Result<(AssetContainer, AssetContainer, Position), EngineError>)
        requires
            old(self).wf(),
            position.wf(),
            bucket_stable.wf(),
            bucket_other.wf(),
        ensures
            final(self).grid_unchanged(old(self)),
            match spec_step_at_rate(old(self).spec_min_rate(), old(self).spec_rate_step(), rate@) {
                Err(e) => r == Err::<(AssetContainer, AssetContainer, Position), EngineError>(e)
                    && final(self).same_state(old(self)),
                Ok(step) => match r {
                    Ok((ret_s, ret_o, pos2)) => spec_pool_add_at_step(
                        old(self).spec_steps(),
                        stakes_view(position.entries()),
                        old(self).spec_current_step(),
                        old(self).spec_min_rate(),
                        old(self).spec_rate_step(),
                        bucket_stable.amount_of(),
                        bucket_other.amount_of(),
                        step,
                    ) == Ok::<_, EngineError>(
                        (
                            ret_s.amount_of(),
                            ret_o.amount_of(),
                            final(self).spec_steps(),
                            stakes_view(pos2.entries()),
                        ),
                    ) && pos2.token == position.token && final(self).wf() && pos2.wf()
                        && ret_s.wf() && ret_o.wf() && ret_s.asset_of() == old(
                        self,
                    ).spec_stable_asset() && ret_o.asset_of() == old(self).spec_other_asset(),
                    Err(e) => final(self).same_state(old(self)) && if bucket_stable.asset_of()
                        != old(self).spec_stable_asset() || bucket_other.asset_of() != old(
                        self,
                    ).spec_other_asset() {
                        e == EngineError::AssetMismatch
                    } else {
                        spec_pool_add_at_step(
                            old(self).spec_steps(),
                            stakes_view(position.entries()),
                            old(self).spec_current_step(),
                            old(self).spec_min_rate(),
                            old(self).spec_rate_step(),
                            bucket_stable.amount_of(),
                            bucket_other.amount_of(),
                            step,
                        ) == Err::<
                            (int, int, Seq<(u16, StepV)>, Seq<(u16, StakeV)>),
                            EngineError,
                        >(e)
                    },
                },
            },
    {
        let step_id = match self.step_at_rate(rate) {
            Ok(v) => v,
            Err(e) => {
                return Err(e);
            },
        };
        self.add_liquidity_at_step(bucket_stable, bucket_other, position, step_id)
    }

    /// Withdraws at the step whose rate bracket holds `rate`: the
    /// composition of [`Pool::step_at_rate`] and
    /// [`Pool::remove_liquidity_at_step`].
    pub fn remove_liquidity_at_rate(&mut self, position: Position, rate: Decimal) -> (r: Result<
        (AssetContainer, AssetContainer, Position),
        EngineError,
    >)
        requires
            old(self).wf(),
            position.wf(),
        ensures
            final(self).grid_unchanged(old(self)),
            match spec_step_at_rate(old(self).spec_min_rate(), old(self).spec_rate_step(), rate@) {
                Err(e) => r == Err::<(AssetContainer, AssetContainer, Position), EngineError>(e)
                    && final(self).same_state(old(self)),
                Ok(step) => match r {
                    Ok((out_s, out_o, pos2)) => spec_pool_remove_at_step(
                        old(self).spec_steps(),
                        stakes_view(position.entries()),
                        step,
                    ) == Ok::<_, EngineError>(
                        (
                            out_s.amount_of(),
                            out_o.amount_of(),
                            final(self).spec_steps(),
                            stakes_view(pos2.entries()),
                        ),
                    ) && pos2.token == position.token && final(self).wf() && pos2.wf()
                        && out_s.wf() && out_o.wf() && out_s.asset_of() == old(
                        self,
                    ).spec_stable_asset() && out_o.asset_of() == old(self).spec_other_asset(),
                    Err(e) => final(self).same_state(old(self)) && spec_pool_remove_at_step(
                        old(self).spec_steps(),
                        stakes_view(position.entries()),
                        step,
                    ) == Err::<(int, int, Seq<(u16, StepV)>, Seq<(u16, StakeV)>), EngineError>(e),
                },
            },
    {
        let step_id = match self.step_at_rate(rate) {
            Ok(v) => v,
            Err(e) => {
                return Err(e);
            },
        };
        self.remove_liquidity_at_step(position, step_id)
    }

    /// Splits both deposits evenly over the inclusive step range and adds
    /// each share in turn; exactly [`spec_pool_add_at_steps`]. On an error
    /// part of the range may already be deposited: callers that need
    /// all-or-nothing behaviour stage the call against a copy of the
    /// pool, as the concurrency model prescribes.
    pub fn add_liquidity_at_steps(
        &mut self,
        bucket_stable: AssetContainer,
        bucket_other: AssetContainer,
        position: Position,
        start_step: u16,
        stop_step: u16,
    ) -> (r: Result<(AssetContainer, AssetContainer, Position), EngineError>)
        requires
            old(self).wf(),
            position.wf(),
            bucket_stable.wf(),
            bucket_other.wf(),
        ensures
            final(self).grid_unchanged(old(self)),
            final(self).wf(),
            ({
                let (res, steps2) = spec_pool_add_range(
                    old(self).spec_steps(),
                    stakes_view(position.entries()),
                    old(self).spec_current_step(),
                    old(self).spec_min_rate(),
                    old(self).spec_rate_step(),
                    bucket_stable.amount_of(),
                    bucket_other.amount_of(),
                    start_step,
                    stop_step,
                );
                if bucket_stable.asset_of() != old(self).spec_stable_asset()
                    || bucket_other.asset_of() != old(self).spec_other_asset() {
                    r == Err::<(AssetContainer, AssetContainer, Position), EngineError>(
                        EngineError::AssetMismatch,
                    ) && final(self).same_state(old(self))
                } else {
                    final(self).spec_steps() == steps2 && match r {
                        Ok((ret_s, ret_o, pos2)) => res == Ok::<_, EngineError>(
                            (ret_s.amount_of(), ret_o.amount_of(), stakes_view(pos2.entries())),
                        ) && pos2.token == position.token && pos2.wf() && ret_s.wf() && ret_o.wf()
                            && ret_s.asset_of() == old(self).spec_stable_asset()
                            && ret_o.asset_of() == old(self).spec_other_asset(),
                        Err(e) => res == Err::<(int, int, Seq<(u16, StakeV)>), EngineError>(e),
                    }
                }
            }),
    {
        if bucket_stable.asset_id() != self.stable_asset || bucket_other.asset_id()
            != self.other_asset {
            return Err(EngineError::AssetMismatch);
        }
        if stop_step < start_step {
            return Err(EngineError::StepOutOfRange);
        }
        let nb: i64 = (stop_step as i64) - (start_step as i64) + 1;
        let nb_dec = Decimal::from_int(nb);
        let per_x = match bucket_stable.amount().checked_div(&nb_dec) {
            Ok(v) => v,
            Err(e) => {
                return Err(e);
            },
        };
        let per_y = match bucket_other.amount().checked_div(&nb_dec) {
            Ok(v) => v,
            Err(e) => {
                return Err(e);
            },
        };
        proof {
            crate::decimal_maths::lemma_div_scale_le(bucket_stable.amount_of(), nb as int
                * SCALE as int);
            crate::decimal_maths::lemma_div_scale_le(bucket_other.amount_of(), nb as int
                * SCALE as int);
            assert(nb as int * SCALE as int == (stop_step - start_step + 1) * SCALE as int);
        }
        let (arx, ary, pos2) = match self.add_steps_from(
            per_x,
            per_y,
            position,
            start_step,
            stop_step,
            Decimal::zero(),
            Decimal::zero(),
        ) {
            Ok(v) => v,
            Err(e) => {
                return Err(e);
            },
        };
        // what the even split could not hand out goes back with the
        // leftovers: amount - nb * per of each asset
        let used_x = match per_x.checked_mul(&nb_dec) {
            Ok(v) => v,
            Err(e) => {
                return Err(e);
            },
        };
        let used_y = match per_y.checked_mul(&nb_dec) {
            Ok(v) => v,
            Err(e) => {
                return Err(e);
            },
        };
        proof {
            lemma_mul_by_whole(per_x@, nb as int);
            lemma_mul_by_whole(per_y@, nb as int);
        }
        let dust_x = match bucket_stable.amount().checked_sub(&used_x) {
            Ok(v) => v,
            Err(e) => {
                return Err(e);
            },
        };
        let dust_y = match bucket_other.amount().checked_sub(&used_y) {
            Ok(v) => v,
            Err(e) => {
                return Err(e);
            },
        };
        let ret_x = match arx.checked_add(&dust_x) {
            Ok(v) => v,
            Err(e) => {
                return Err(e);
            },
        };
        let ret_y = match ary.checked_add(&dust_y) {
            Ok(v) => v,
            Err(e) => {
                return Err(e);
            },
        };
        if ret_x.is_negative() || ret_y.is_negative() {
            return Err(EngineError::InsufficientFunds);
        }
        proof {
            assert(used_x@ == per_x@ * (nb as int));
            assert(ret_x@ == arx@ + (bucket_stable.amount_of() - (nb as int) * per_x@));
            assert(ret_y@ == ary@ + (bucket_other.amount_of() - (nb as int) * per_y@));
        }
        let ret_s = AssetContainer::with_amount(self.stable_asset, ret_x);
        let ret_o = AssetContainer::with_amount(self.other_asset, ret_y);
        Ok((ret_s, ret_o, pos2))
    }

    /// The tail of a ranged deposit: one share to each step of
    /// `[i, stop]`; exactly [`spec_pool_add_at_steps`].
    fn add_steps_from(
        &mut self,
        per_x: Decimal,
        per_y: Decimal,
        position: Position,
        i: u16,
        stop: u16,
        acc_rx: Decimal,
        acc_ry: Decimal,
    ) -> (r: Result<(Decimal, Decimal, Position), EngineError>)
        requires
            old(self).wf(),
            position.wf(),
            i <= stop,
            per_x@ >= 0,
            per_y@ >= 0,
            acc_rx@ >= 0,
            acc_ry@ >= 0,
        ensures
            final(self).grid_unchanged(old(self)),
            final(self).wf(),
            ({
                let (res, steps2) = spec_pool_add_at_steps(
                    old(self).spec_steps(),
                    stakes_view(position.entries()),
                    old(self).spec_current_step(),
                    old(self).spec_min_rate(),
                    old(self).spec_rate_step(),
                    per_x@,
                    per_y@,
                    i,
                    stop,
                    acc_rx@,
                    acc_ry@,
                );
                final(self).spec_steps() == steps2 && match r {
                    Ok((arx, ary, pos2)) => res == Ok::<_, EngineError>(
                        (arx@, ary@, stakes_view(pos2.entries())),
                    ) && pos2.token == position.token && pos2.wf() && arx@ >= 0 && ary@ >= 0,
                    Err(e) => res == Err::<(int, int, Seq<(u16, StakeV)>), EngineError>(e),
                }
            }),
        decreases stop - i,
    {
        let sc = AssetContainer::with_amount(self.stable_asset, per_x);
        let oc = AssetContainer::with_amount(self.other_asset, per_y);
        let (ret_s, ret_o, pos2) = match self.add_liquidity_at_step(sc, oc, position, i) {
            Ok(v) => v,
            Err(e) => {
                return Err(e);
            },
        };
        let arx = match acc_rx.checked_add(&ret_s.amount()) {
            Ok(v) => v,
            Err(e) => {
                return Err(e);
            },
        };
        let ary = match acc_ry.checked_add(&ret_o.amount()) {
            Ok(v) => v,
            Err(e) => {
                return Err(e);
            },
        };
        if i == stop {
            return Ok((arx, ary, pos2));
        }
        self.add_steps_from(per_x, per_y, pos2, i + 1, stop, arx, ary)
    }

    /// Withdraws at every step of the inclusive range in turn; exactly
    /// [`spec_pool_remove_at_steps`]. On an error part of the range may
    /// already be withdrawn: callers that need all-or-nothing behaviour
    /// stage the call against a copy of the pool.
    pub fn remove_liquidity_at_steps(
        &mut self,
        position: Position,
        start_step: u16,
        stop_step: u16,
    ) -> (r: Result<(AssetContainer, AssetContainer, Position), EngineError>)
        requires
            old(self).wf(),
            position.wf(),
        ensures
            final(self).grid_unchanged(old(self)),
            final(self).wf(),
            ({
                if stop_step < start_step {
                    r == Err::<(AssetContainer, AssetContainer, Position), EngineError>(
                        EngineError::StepOutOfRange,
                    ) && final(self).same_state(old(self))
                } else {
                    let (res, steps2) = spec_pool_remove_at_steps(
                        old(self).spec_steps(),
                        stakes_view(position.entries()),
                        start_step,
                        stop_step,
                        0,
                        0,
                    );
                    final(self).spec_steps() == steps2 && match r {
                        Ok((out_s, out_o, pos2)) => res == Ok::<_, EngineError>(
                            (out_s.amount_of(), out_o.amount_of(), stakes_view(pos2.entries())),
                        ) && pos2.token == position.token && pos2.wf() && out_s.wf() && out_o.wf()
                            && out_s.asset_of() == old(self).spec_stable_asset()
                            && out_o.asset_of() == old(self).spec_other_asset(),
                        Err(e) => res == Err::<(int, int, Seq<(u16, StakeV)>), EngineError>(e),
                    }
                }
            }),
    {
        if stop_step < start_step {
            return Err(EngineError::StepOutOfRange);
        }
        let (ox, oy, pos2) = match self.remove_steps_from(
            position,
            start_step,
            stop_step,
            Decimal::zero(),
            Decimal::zero(),
        ) {
            Ok(v) => v,
            Err(e) => {
                return Err(e);
            },
        };
        let out_s = AssetContainer::with_amount(self.stable_asset, ox);
        let out_o = AssetContainer::with_amount(self.other_asset, oy);
        Ok((out_s, out_o, pos2))
    }

    /// The tail of a ranged withdrawal; exactly
    /// [`spec_pool_remove_at_steps`].
    fn remove_steps_from(
        &mut self,
        position: Position,
        i: u16,
        stop: u16,
        acc_x: Decimal,
        acc_y: Decimal,
    ) -> (r: Result<(Decimal, Decimal, Position), EngineError>)
        requires
            old(self).wf(),
            position.wf(),
            i <= stop,
            acc_x@ >= 0,
            acc_y@ >= 0,
        ensures
            final(self).grid_unchanged(old(self)),
            final(self).wf(),
            ({
                let (res, steps2) = spec_pool_remove_at_steps(
                    old(self).spec_steps(),
                    stakes_view(position.entries()),
                    i,
                    stop,
                    acc_x@,
                    acc_y@,
                );
                final(self).spec_steps() == steps2 && match r {
                    Ok((ax, ay, pos2)) => res == Ok::<_, EngineError>(
                        (ax@, ay@, stakes_view(pos2.entries())),
                    ) && pos2.token == position.token && pos2.wf() && ax@ >= 0 && ay@ >= 0,
                    Err(e) => res == Err::<(int, int, Seq<(u16, StakeV)>), EngineError>(e),
                }
            }),
        decreases stop - i,
    {
        let (out_s, out_o, pos2) = match self.remove_liquidity_at_step(position, i) {
            Ok(v) => v,
            Err(e) => {
                return Err(e);
            },
        };
        let ax2 = match acc_x.checked_add(&out_s.amount()) {
            Ok(v) => v,
            Err(e) => {
                return Err(e);
            },
        };
        let ay2 = match acc_y.checked_add(&out_o.amount()) {
            Ok(v) => v,
            Err(e) => {
                return Err(e);
            },
        };
        if i == stop {
            return Ok((ax2, ay2, pos2));
        }
        self.remove_steps_from(pos2, i + 1, stop, ax2, ay2)
    }

    /// Withdraws a position's whole stake at every step it touches and
    /// consumes the position; exactly [`spec_pool_remove_all`]. On an
    /// error part of the table may already be withdrawn: callers that
    /// need all-or-nothing behaviour stage the call against a copy.
    pub fn remove_all_liquidity(&mut self, position: Position) -> (r: Result<
        (AssetContainer, AssetContainer),
        EngineError,
    >)
        requires
            old(self).wf(),
            position.wf(),
        ensures
            final(self).grid_unchanged(old(self)),
            final(self).wf(),
            ({
                let (res, steps2) = spec_pool_remove_all(
                    old(self).spec_steps(),
                    stakes_view(position.entries()),
                    0,
                    0,
                );
                final(self).spec_steps() == steps2 && match r {
                    Ok((out_s, out_o)) => res == Ok::<_, EngineError>(
                        (out_s.amount_of(), out_o.amount_of()),
                    ) && out_s.wf() && out_o.wf() && out_s.asset_of() == old(
                        self,
                    ).spec_stable_asset() && out_o.asset_of() == old(self).spec_other_asset(),
                    Err(e) => res == Err::<(int, int), EngineError>(e),
                }
            }),
    {
        let (ox, oy) = match self.remove_all_from(position, Decimal::zero(), Decimal::zero()) {
            Ok(v) => v,
            Err(e) => {
                return Err(e);
            },
        };
        let out_s = AssetContainer::with_amount(self.stable_asset, ox);
        let out_o = AssetContainer::with_amount(self.other_asset, oy);
        Ok((out_s, out_o))
    }

    /// The tail of a whole-position withdrawal; exactly
    /// [`spec_pool_remove_all`].
    fn remove_all_from(&mut self, position: Position, acc_x: Decimal, acc_y: Decimal) -> (r: Result<
        (Decimal, Decimal),
        EngineError,
    >)
        requires
            old(self).wf(),
            position.wf(),
            acc_x@ >= 0,
            acc_y@ >= 0,
        ensures
            final(self).grid_unchanged(old(self)),
            final(self).wf(),
            ({
                let (res, steps2) = spec_pool_remove_all(
                    old(self).spec_steps(),
                    stakes_view(position.entries()),
                    acc_x@,
                    acc_y@,
                );
                final(self).spec_steps() == steps2 && match r {
                    Ok((ax, ay)) => res == Ok::<_, EngineError>((ax@, ay@)) && ax@ >= 0 && ay@
                        >= 0,
                    Err(e) => res == Err::<(int, int), EngineError>(e),
                }
            }),
        decreases position.entries().len(),
    {
        let ghost steps0 = self.spec_steps();
        let ghost stakes0 = stakes_view(position.entries());
        let n = position.step_count();
        if n == 0 {
            return Ok((acc_x, acc_y));
        }
        let (step, sp) = position.entry_at(0);
        let mut pos2 = position;
        proof {
            lemma_key_index_converse(pos2.entries(), step, 0);
            assert((#[trigger] pos2.entries()[0]).1.wf());
        }
        let removed = pos2.remove_step(step);
        proof {
            assert(stakes_view(pos2.entries()) =~= stakes0.skip(1));
        }
        let idx = self.find_step(step);
        if idx == self.steps.len() {
            return Err(EngineError::NoSuchStep);
        }
        let saved = self.steps[idx].1;
        let mut st = saved;
        let (ox, oy, _sp2) = match st.remove_liquidity(removed) {
            Ok(v) => v,
            Err(e) => {
                return Err(e);
            },
        };
        let ax2 = match acc_x.checked_add(&ox) {
            Ok(v) => v,
            Err(e) => {
                return Err(e);
            },
        };
        let ay2 = match acc_y.checked_add(&oy) {
            Ok(v) => v,
            Err(e) => {
                return Err(e);
            },
        };
        self.steps[idx] = (step, st);
        proof {
            lemma_key_index(steps0, step);
            assert(steps0[idx as int].0 == step);
            assert(self.spec_steps() =~= steps0.update(idx as int, (step, st@)));
            lemma_pool_wf_update(old(self).spec_steps(), self.spec_steps(), idx as int);
        }
        self.remove_all_from(pos2, ax2, ay2)
    }

    /// Deposits evenly over the steps whose rate brackets hold the two
    /// rates: the composition of [`Pool::step_at_rate`] on both bounds
    /// and [`Pool::add_liquidity_at_steps`].
    pub fn add_liquidity_between_rates(
        &mut self,
        bucket_stable: AssetContainer,
        bucket_other: AssetContainer,
        position: Position,
        min_rate: Decimal,
        max_rate: Decimal,
    ) -> (r: Result<(AssetContainer, AssetContainer, Position), EngineError>)
        requires
            old(self).wf(),
            position.wf(),
            bucket_stable.wf(),
            bucket_other.wf(),
        ensures
            final(self).grid_unchanged(old(self)),
            final(self).wf(),
            match spec_step_at_rate(
                old(self).spec_min_rate(),
                old(self).spec_rate_step(),
                min_rate@,
            ) {
                Err(e) => r == Err::<(AssetContainer, AssetContainer, Position), EngineError>(e)
                    && final(self).same_state(old(self)),
                Ok(min_step) => match spec_step_at_rate(
                    old(self).spec_min_rate(),
                    old(self).spec_rate_step(),
                    max_rate@,
                ) {
                    Err(e) => r == Err::<(AssetContainer, AssetContainer, Position), EngineError>(
                        e,
                    ) && final(self).same_state(old(self)),
                    Ok(max_step) => ({
                        let (res, steps2) = spec_pool_add_range(
                            old(self).spec_steps(),
                            stakes_view(position.entries()),
                            old(self).spec_current_step(),
                            old(self).spec_min_rate(),
                            old(self).spec_rate_step(),
                            bucket_stable.amount_of(),
                            bucket_other.amount_of(),
                            min_step,
                            max_step,
                        );
                        if bucket_stable.asset_of() != old(self).spec_stable_asset()
                            || bucket_other.asset_of() != old(self).spec_other_asset() {
                            r == Err::<(AssetContainer, AssetContainer, Position), EngineError>(
                                EngineError::AssetMismatch,
                            ) && final(self).same_state(old(self))
                        } else {
                            final(self).spec_steps() == steps2 && match r {
                                Ok((ret_s, ret_o, pos2)) => res == Ok::<_, EngineError>(
                                    (
                                        ret_s.amount_of(),
                                        ret_o.amount_of(),
                                        stakes_view(pos2.entries()),
                                    ),
                                ) && pos2.token == position.token && pos2.wf() && ret_s.wf()
                                    && ret_o.wf() && ret_s.asset_of() == old(
                                    self,
                                ).spec_stable_asset() && ret_o.asset_of() == old(
                                    self,
                                ).spec_other_asset(),
                                Err(e) => res == Err::<
                                    (int, int, Seq<(u16, StakeV)>),
                                    EngineError,
                                >(e),
                            }
                        }
                    }),
                },
            },
    {
        let min_step = match self.step_at_rate(min_rate) {
            Ok(v) => v,
            Err(e) => {
                return Err(e);
            },
        };
        let max_step = match self.step_at_rate(max_rate) {
            Ok(v) => v,
            Err(e) => {
                return Err(e);
            },
        };
        self.add_liquidity_at_steps(bucket_stable, bucket_other, position, min_step, max_step)
    }

    /// Whether every observable part of the pool equals that of `other`.
    pub open spec fn same_state(&self, other: &Pool) -> bool {
        self.spec_steps() == other.spec_steps() && self.spec_current_step()
            == other.spec_current_step() && self.grid_except_current_unchanged(other)
    }

    /// Whether the pool's grid, reserves and asset pair are those of
    /// `other` (the step table and current step may differ).
    pub open spec fn grid_except_current_unchanged(&self, other: &Pool) -> bool {
        self.spec_rate_step() == other.spec_rate_step() && self.spec_min_rate()
            == other.spec_min_rate() && self.spec_stable_protocol_fees()
            == other.spec_stable_protocol_fees() && self.spec_other_protocol_fees()
            == other.spec_other_protocol_fees() && self.spec_stable_asset()
            == other.spec_stable_asset() && self.spec_other_asset() == other.spec_other_asset()
    }

    /// Whether the pool's grid, reserves, current step and asset pair are
    /// those of `other` (only the step table may differ).
    pub open spec fn grid_unchanged(&self, other: &Pool) -> bool {
        self.spec_rate_step() == other.spec_rate_step() && self.spec_min_rate()
            == other.spec_min_rate() && self.spec_current_step() == other.spec_current_step()
            && self.spec_stable_protocol_fees() == other.spec_stable_protocol_fees()
            && self.spec_other_protocol_fees() == other.spec_other_protocol_fees()
            && self.spec_stable_asset() == other.spec_stable_asset() && self.spec_other_asset()
            == other.spec_other_asset()
    }
}

/// Multiplying by a whole number of units is exact in fixed point:
/// `trunc(a * (n * S) / S) == a * n`.
proof fn lemma_mul_by_whole(a: int, n: int)
    ensures
        trunc_div(a * (n * SCALE as int), SCALE as int) == a * n,
{
    let s = SCALE as int;
    assert(a * (n * s) == (a * n) * s) by (nonlinear_arith) {
    }
    if a * n >= 0 {
        crate::decimal_maths::lemma_trunc_div_nonneg((a * n) * s, s);
        assert((a * n) * s >= 0) by (nonlinear_arith)
            requires
                a * n >= 0,
                s > 0,
        {
        }
        vstd::arithmetic::div_mod::lemma_div_multiples_vanish(a * n, s);
        assert((s * (a * n)) == (a * n) * s) by (nonlinear_arith) {
        }
    } else {
        assert(trunc_div((a * n) * s, s) == -((-((a * n) * s)) / s));
        assert(-((a * n) * s) == (-(a * n)) * s) by (nonlinear_arith) {
        }
        assert((-(a * n)) * s >= 0) by (nonlinear_arith)
            requires
                -(a * n) >= 0,
                s > 0,
        {
        }
        vstd::arithmetic::div_mod::lemma_div_multiples_vanish(-(a * n), s);
        assert((s * (-(a * n))) == (-(a * n)) * s) by (nonlinear_arith) {
        }
    }
}

/// Updating one table entry with a well-formed step keeps the table's
/// keys unique.
proof fn lemma_pool_wf_update(s0: Seq<(u16, StepV)>, s1: Seq<(u16, StepV)>, i: int)
    requires
        keys_unique(s0),
        0 <= i < s0.len(),
        s1.len() == s0.len(),
        forall|m: int| 0 <= m < s1.len() ==> (#[trigger] s1[m]).0 == s0[m].0,
    ensures
        keys_unique(s1),
{
}

/// Appending an entry with a key the table lacks keeps the keys unique.
proof fn lemma_pool_wf_push(s0: Seq<(u16, StepV)>, s1: Seq<(u16, StepV)>, k: u16)
    requires
        keys_unique(s0),
        key_index(s0, k) == -1,
        s1 == s0.push((k, arbitrary::<StepV>())) || (s1.len() == s0.len() + 1 && (forall|m: int|
            0 <= m < s0.len() ==> (#[trigger] s1[m]).0 == s0[m].0) && s1[s0.len() as int].0 == k),
    ensures
        keys_unique(s1),
{
    lemma_key_index(s0, k);
    assert forall|a: int, b: int| 0 <= a < b < s1.len() implies s1[a].0 != s1[b].0 by {
        if b == s0.len() {
            assert(s1[a].0 == s0[a].0);
            assert(s0[a].0 != k);
        }
    }
}

} // verus!
