//! The router: owns one pool per stablecoin/other pair, keyed by the
//! pair's other asset, and forwards every call to the pool that trades
//! the pair. The routing itself is verified here — which pool is chosen,
//! when [`EngineError::NoPoolForPair`] is returned, and that every pool
//! stays well formed on its key — while each forwarded operation's exact
//! arithmetic contract lives on [`Pool`]. Positions are plain values
//! handed back to the caller; persisting them is the caller's concern.

use crate::asset::AssetContainer;
use crate::decimal::{spec_add, spec_div, Decimal, SCALE};
use crate::errors::EngineError;
use crate::pool::{
    spec_pool_add_at_step, spec_pool_add_range, spec_pool_claim, spec_pool_remove_all,
    spec_pool_remove_at_step, spec_pool_remove_at_steps, spec_pool_swap, spec_rate_grid,
    spec_step_at_rate, stakes_view, Pool,
};
use crate::pool_step::{StakeV, StepV};
use crate::position::Position;
use vstd::prelude::*;

verus! {

broadcast use crate::decimal::lemma_decimal_view_range;

/// Index of the pool keyed by `k`, or `-1`.
pub open spec fn pool_index(s: Seq<(u64, Pool)>, k: u64) -> int
    decreases s.len(),
{
    if s.len() == 0 {
        -1
    } else if s[0].0 == k {
        0
    } else {
        let r = pool_index(s.skip(1), k);
        if r < 0 {
            -1
        } else {
            r + 1
        }
    }
}

/// What [`pool_index`] says about its table.
pub proof fn lemma_pool_index(s: Seq<(u64, Pool)>, k: u64)
    ensures
        -1 <= pool_index(s, k) < s.len(),
        pool_index(s, k) >= 0 ==> s[pool_index(s, k)].0 == k,
        pool_index(s, k) == -1 ==> forall|m: int| 0 <= m < s.len() ==> s[m].0 != k,
    decreases s.len(),
{
    if s.len() > 0 && s[0].0 != k {
        lemma_pool_index(s.skip(1), k);
        if pool_index(s, k) == -1 {
            assert forall|m: int| 0 <= m < s.len() implies s[m].0 != k by {
                if m > 0 {
                    assert(s.skip(1)[m - 1] == s[m]);
                }
            }
        }
    }
}

/// The converse: a scan pins [`pool_index`].
pub proof fn lemma_pool_index_converse(s: Seq<(u64, Pool)>, k: u64, i: int)
    requires
        0 <= i <= s.len(),
        forall|m: int| 0 <= m < i ==> s[m].0 != k,
        i < s.len() ==> s[i].0 == k,
    ensures
        i < s.len() ==> pool_index(s, k) == i,
        i == s.len() ==> pool_index(s, k) == -1,
    decreases s.len(),
{
    if s.len() > 0 {
        if i == 0 {
        } else {
            assert(s[0].0 != k);
            assert forall|m: int| 0 <= m < i - 1 implies s.skip(1)[m].0 != k by {
                assert(s.skip(1)[m] == s[m + 1]);
            }
            if i - 1 < s.skip(1).len() {
                assert(s.skip(1)[i - 1] == s[i]);
            }
            lemma_pool_index_converse(s.skip(1), k, i - 1);
        }
    }
}

/// Every entry of a pool table is a well-formed pool trading its key
/// asset against the stablecoin.
pub open spec fn pools_wf(s: Seq<(u64, Pool)>, stablecoin: u64) -> bool {
    (forall|i: int, j: int|
        0 <= i < j < s.len() ==> (#[trigger] s[i]).0 != (#[trigger] s[j]).0) && forall|i: int|
        0 <= i < s.len() ==> (#[trigger] s[i]).1.wf() && s[i].1.spec_stable_asset() == stablecoin
            && s[i].1.spec_other_asset() == s[i].0
}

/// The table after a forwarded call: the entry at `ki` is `(key, p2)`
/// and every other entry is as it was.
pub open spec fn table_updated(
    s0: Seq<(u64, Pool)>,
    s1: Seq<(u64, Pool)>,
    ki: int,
    key: u64,
    p2: Pool,
) -> bool {
    s1.len() == s0.len() && 0 <= ki < s0.len() && s1[ki] == (key, p2) && forall|m: int|
        0 <= m < s0.len() && m != ki ==> s1[m] == s0[m]
}

/// The stake table a forwarded deposit starts from: the given position's,
/// or empty when none was supplied.
pub open spec fn opt_stakes(opt_position: Option<Position>) -> Seq<(u16, StakeV)> {
    match opt_position {
        Some(p) => stakes_view(p.entries()),
        None => Seq::<(u16, StakeV)>::empty(),
    }
}

/// The token of the position a forwarded deposit uses: the given one's,
/// or the pair's other asset for a fresh position.
pub open spec fn opt_token(opt_position: Option<Position>, key: u64) -> u64 {
    match opt_position {
        Some(p) => p.token,
        None => key,
    }
}

/// The three rates handed to a new pool: unchanged when the stablecoin's
/// container came first, else inverted (`1/initial, 1/max, 1/min`) so
/// that the stored rates read stable per other.
pub open spec fn spec_sorted_rates(a_is_stable: bool, initial: int, mn: int, mx: int) -> Result<
    (int, int, int),
    EngineError,
> {
    if a_is_stable {
        Ok((initial, mn, mx))
    } else {
        match spec_div(SCALE as int, initial) {
            Err(e) => Err(e),
            Ok(i2) => match spec_div(SCALE as int, mx) {
                Err(e) => Err(e),
                Ok(mn2) => match spec_div(SCALE as int, mn) {
                    Err(e) => Err(e),
                    Ok(mx2) => Ok((i2, mn2, mx2)),
                },
            },
        }
    }
}

/// The stablecoin reserves of the pools summed in table order.
pub open spec fn spec_reserve_total(s: Seq<(u64, Pool)>, i: int, acc: int) -> Result<
    int,
    EngineError,
>
    decreases s.len() - i,
    when 0 <= i <= s.len()
{
    if i == s.len() {
        Ok(acc)
    } else {
        match spec_add(acc, s[i].1.spec_stable_protocol_fees()) {
            Err(e) => Err(e),
            Ok(a2) => spec_reserve_total(s, i + 1, a2),
        }
    }
}

/// Removing an entry and inserting another at the same index is an
/// update of that index.
proof fn lemma_remove_insert_is_update(s0: Seq<(u64, Pool)>, i: int, e: (u64, Pool))
    requires
        0 <= i < s0.len(),
    ensures
        s0.remove(i).insert(i, e) =~= s0.update(i, e),
{
}

/// Thin dispatch over one pool per asset pair, each pool trading the
/// stablecoin against the pool's key asset.
pub struct Router {
    stablecoin_address: u64,
    pools: Vec<(u64, Pool)>,
}

impl Router {
    /// The stablecoin every pool trades against.
    pub closed spec fn spec_stablecoin(&self) -> u64 {
        self.stablecoin_address
    }

    /// The pool table.
    pub closed spec fn spec_pools(&self) -> Seq<(u64, Pool)> {
        self.pools@
    }

    /// A router is well formed when its pool table is.
    pub open spec fn wf(&self) -> bool {
        pools_wf(self.spec_pools(), self.spec_stablecoin())
    }

    /// A new router over the given stablecoin, with no pools.
    pub fn new(stablecoin_address: u64) -> (r: Router)
        ensures
            r.spec_stablecoin() == stablecoin_address,
            r.spec_pools() =~= Seq::<(u64, Pool)>::empty(),
            r.wf(),
    {
        Router { stablecoin_address, pools: Vec::new() }
    }

    /// Index of the pool keyed by `other`, or the table's length.
    fn find_pool(&self, other: u64) -> (r: usize)
        ensures
            r <= self.spec_pools().len(),
            r < self.spec_pools().len() ==> pool_index(self.spec_pools(), other) == r,
            r == self.spec_pools().len() ==> pool_index(self.spec_pools(), other) == -1,
    {
        let ghost s = self.spec_pools();
        let n = self.pools.len();
        let mut i: usize = 0;
        while i < n
            invariant
                n == s.len(),
                s == self.spec_pools(),
                0 <= i <= n,
                forall|m: int| 0 <= m < i ==> s[m].0 != other,
            decreases n - i,
        {
            if self.pools[i].0 == other {
                proof {
                    lemma_pool_index_converse(s, other, i as int);
                }
                return i;
            }
            i = i + 1;
        }
        proof {
            lemma_pool_index_converse(s, other, n as int);
        }
        n
    }

    /// Removes the pool trading `other` from the table for a forwarded
    /// call, or fails with [`EngineError::NoPoolForPair`] if and only if
    /// no pool has that key.
    fn take_pool(&mut self, other: u64) -> (r: Result<(usize, Pool), EngineError>)
        requires
            old(self).wf(),
        ensures
            final(self).spec_stablecoin() == old(self).spec_stablecoin(),
            match r {
                Ok((idx, p)) => pool_index(old(self).spec_pools(), other) == idx
                    && idx < old(self).spec_pools().len() && p == old(
                    self,
                ).spec_pools()[idx as int].1 && final(self).spec_pools() == old(
                    self,
                ).spec_pools().remove(idx as int) && p.wf() && p.spec_stable_asset() == old(
                    self,
                ).spec_stablecoin() && p.spec_other_asset() == other && ({
                    let ps = final(self).spec_pools();
                    forall|m: int| 0 <= m < ps.len() ==> (#[trigger] ps[m]).0 != other
                }) && pools_wf(final(self).spec_pools(), final(self).spec_stablecoin()),
                Err(e) => e == EngineError::NoPoolForPair && *final(self) == *old(self)
                    && pool_index(old(self).spec_pools(), other) == -1,
            },
    {
        let ghost s0 = self.spec_pools();
        let idx = self.find_pool(other);
        if idx == self.pools.len() {
            return Err(EngineError::NoPoolForPair);
        }
        proof {
            lemma_pool_index(s0, other);
        }
        let entry = self.pools.remove(idx);
        proof {
            assert forall|m: int| 0 <= m < self.spec_pools().len() implies (#[trigger] self.spec_pools()[m]).0
                != other by {
                let sm = if m < idx as int {
                    m
                } else {
                    m + 1
                };
                assert(self.spec_pools()[m] == s0[sm]);
            }
            assert forall|a: int, b: int|
                0 <= a < b < self.spec_pools().len() implies (#[trigger] self.spec_pools()[a]).0
                != (#[trigger] self.spec_pools()[b]).0 by {
                let sa = if a < idx as int {
                    a
                } else {
                    a + 1
                };
                let sb = if b < idx as int {
                    b
                } else {
                    b + 1
                };
                assert(self.spec_pools()[a] == s0[sa] && self.spec_pools()[b] == s0[sb]);
            }
            assert forall|m: int| 0 <= m < self.spec_pools().len() implies (#[trigger] self.spec_pools()[m]).1.wf()
                && self.spec_pools()[m].1.spec_stable_asset() == self.spec_stablecoin()
                && self.spec_pools()[m].1.spec_other_asset() == self.spec_pools()[m].0 by {
                let sm = if m < idx as int {
                    m
                } else {
                    m + 1
                };
                assert(self.spec_pools()[m] == s0[sm]);
            }
        }
        Ok((idx, entry.1))
    }

    /// Reinserts a pool at its key after a forwarded call; the table is
    /// the old one with the pool back in its place.
    fn put_pool(&mut self, idx: usize, other: u64, pool: Pool)
        requires
            idx <= old(self).spec_pools().len(),
            pools_wf(old(self).spec_pools(), old(self).spec_stablecoin()),
            forall|m: int|
                0 <= m < old(self).spec_pools().len() ==> (#[trigger] old(self).spec_pools()[m]).0
                    != other,
            pool.wf(),
            pool.spec_stable_asset() == old(self).spec_stablecoin(),
            pool.spec_other_asset() == other,
        ensures
            final(self).spec_stablecoin() == old(self).spec_stablecoin(),
            final(self).spec_pools() == old(self).spec_pools().insert(idx as int, (other, pool)),
            final(self).wf(),
    {
        let ghost s0 = self.spec_pools();
        self.pools.insert(idx, (other, pool));
        proof {
            assert forall|a: int, b: int|
                0 <= a < b < self.spec_pools().len() implies (#[trigger] self.spec_pools()[a]).0
                != (#[trigger] self.spec_pools()[b]).0 by {
                let sa = if a < idx as int {
                    a
                } else {
                    a - 1
                };
                let sb = if b < idx as int {
                    b
                } else {
                    b - 1
                };
                if a != idx as int && b != idx as int {
                    assert(self.spec_pools()[a] == s0[sa] && self.spec_pools()[b] == s0[sb]);
                } else if a == idx as int {
                    assert(self.spec_pools()[b] == s0[sb]);
                } else {
                    assert(self.spec_pools()[a] == s0[sa]);
                }
            }
            assert forall|m: int| 0 <= m < self.spec_pools().len() implies (#[trigger] self.spec_pools()[m]).1.wf()
                && self.spec_pools()[m].1.spec_stable_asset() == self.spec_stablecoin()
                && self.spec_pools()[m].1.spec_other_asset() == self.spec_pools()[m].0 by {
                if m != idx as int {
                    let sm = if m < idx as int {
                        m
                    } else {
                        m - 1
                    };
                    assert(self.spec_pools()[m] == s0[sm]);
                }
            }
        }
    }

    /// Creates the pool for a new pair. The stablecoin's container and
    /// the other asset's container may come in either order; when the
    /// other asset's comes first, the three rates are inverted
    /// (`1/initial, 1/max, 1/min`) so that every stored rate is stable
    /// per other. Fails with [`EngineError::SameToken`],
    /// [`EngineError::NoStablecoin`] or [`EngineError::PoolAlreadyExists`]
    /// exactly on those configurations, and otherwise per [`Pool::new`]'s
    /// model on the sorted pair: the stored pool carries the grid of
    /// [`spec_rate_grid`] over the sorted rates and the seeded deposit,
    /// whose leftovers and position come back to the caller.
    pub fn create_pool(
        &mut self,
        bucket_a: AssetContainer,
        bucket_b: AssetContainer,
        initial_rate: Decimal,
        min_rate: Decimal,
        max_rate: Decimal,
    ) -> (r: Result<(AssetContainer, AssetContainer, Position), EngineError>)
        requires
            old(self).wf(),
            bucket_a.wf(),
            bucket_b.wf(),
        ensures
            final(self).spec_stablecoin() == old(self).spec_stablecoin(),
            ({
                let stable = old(self).spec_stablecoin();
                let a_is_stable = bucket_a.asset_of() == stable;
                let bs = if a_is_stable {
                    bucket_a
                } else {
                    bucket_b
                };
                let bo = if a_is_stable {
                    bucket_b
                } else {
                    bucket_a
                };
                let key = bo.asset_of();
                match r {
                    Ok((ret_s, ret_o, pos)) => bucket_a.asset_of() != bucket_b.asset_of() && (
                    a_is_stable || bucket_b.asset_of() == stable) && pool_index(
                        old(self).spec_pools(),
                        key,
                    ) == -1 && final(self).spec_pools().len() == old(self).spec_pools().len() + 1
                        && final(self).spec_pools()[old(self).spec_pools().len() as int].0 == key
                        && ({
                        let ps0 = old(self).spec_pools();
                        let ps1 = final(self).spec_pools();
                        forall|m: int| 0 <= m < ps0.len() ==> #[trigger] ps1[m] == ps0[m]
                    }) && ({
                        let p = final(self).spec_pools()[old(self).spec_pools().len() as int].1;
                        match spec_sorted_rates(a_is_stable, initial_rate@, min_rate@, max_rate@) {
                            Err(_) => false,
                            Ok((init2, mn2, mx2)) => spec_rate_grid(init2, mn2, mx2) == Ok::<
                                (int, u16),
                                EngineError,
                            >((p.spec_rate_step(), p.spec_current_step())) && p.spec_min_rate()
                                == mn2 && p.spec_stable_asset() == stable && p.spec_other_asset()
                                == key && p.spec_stable_protocol_fees() == 0
                                && p.spec_other_protocol_fees() == 0 && if bs.amount_of() == 0
                                && bo.amount_of() == 0 {
                                p.spec_steps() =~= Seq::<(u16, StepV)>::empty() && stakes_view(
                                    pos.entries(),
                                ) =~= Seq::<(u16, StakeV)>::empty() && ret_s.amount_of() == 0
                                    && ret_o.amount_of() == 0
                            } else {
                                spec_pool_add_at_step(
                                    Seq::<(u16, StepV)>::empty(),
                                    Seq::<(u16, StakeV)>::empty(),
                                    p.spec_current_step(),
                                    mn2,
                                    p.spec_rate_step(),
                                    bs.amount_of(),
                                    bo.amount_of(),
                                    p.spec_current_step(),
                                ) == Ok::<_, EngineError>(
                                    (
                                        ret_s.amount_of(),
                                        ret_o.amount_of(),
                                        p.spec_steps(),
                                        stakes_view(pos.entries()),
                                    ),
                                )
                            },
                        }
                    }) && pos.token == key && final(self).wf() && pos.wf() && ret_s.wf()
                        && ret_o.wf() && ret_s.asset_of() == stable && ret_o.asset_of() == key,
                    Err(e) => *final(self) == *old(self) && if bucket_a.asset_of()
                        == bucket_b.asset_of() {
                        e == EngineError::SameToken
                    } else if !a_is_stable && bucket_b.asset_of() != stable {
                        e == EngineError::NoStablecoin
                    } else {
                        match spec_sorted_rates(a_is_stable, initial_rate@, min_rate@, max_rate@) {
                            Err(ie) => e == ie,
                            Ok((init2, mn2, mx2)) => if pool_index(old(self).spec_pools(), key)
                                >= 0 {
                                e == EngineError::PoolAlreadyExists
                            } else {
                                match spec_rate_grid(init2, mn2, mx2) {
                                    Err(ge) => e == ge,
                                    Ok((rs, cur)) => !(bs.amount_of() == 0 && bo.amount_of() == 0)
                                        && spec_pool_add_at_step(
                                        Seq::<(u16, StepV)>::empty(),
                                        Seq::<(u16, StakeV)>::empty(),
                                        cur,
                                        mn2,
                                        rs,
                                        bs.amount_of(),
                                        bo.amount_of(),
                                        cur,
                                    ) == Err::<
                                        (int, int, Seq<(u16, StepV)>, Seq<(u16, StakeV)>),
                                        EngineError,
                                    >(e),
                                }
                            },
                        }
                    },
                }
            }),
    {
        if bucket_a.asset_id() == bucket_b.asset_id() {
            return Err(EngineError::SameToken);
        }
        if bucket_a.asset_id() != self.stablecoin_address && bucket_b.asset_id()
            != self.stablecoin_address {
            return Err(EngineError::NoStablecoin);
        }
        let one = Decimal::one();
        let (bucket_stable, bucket_other, rate_init, rate_min, rate_max) = if bucket_a.asset_id()
            == self.stablecoin_address {
            (bucket_a, bucket_b, initial_rate, min_rate, max_rate)
        } else {
            let inv_init = match one.checked_div(&initial_rate) {
                Ok(v) => v,
                Err(e) => {
                    return Err(e);
                },
            };
            let inv_min = match one.checked_div(&max_rate) {
                Ok(v) => v,
                Err(e) => {
                    return Err(e);
                },
            };
            let inv_max = match one.checked_div(&min_rate) {
                Ok(v) => v,
                Err(e) => {
                    return Err(e);
                },
            };
            (bucket_b, bucket_a, inv_init, inv_min, inv_max)
        };
        let other = bucket_other.asset_id();
        let idx = self.find_pool(other);
        if idx < self.pools.len() {
            return Err(EngineError::PoolAlreadyExists);
        }
        let (pool, ret_s, ret_o, pos) = match Pool::new(
            bucket_stable,
            bucket_other,
            rate_init,
            rate_min,
            rate_max,
        ) {
            Ok(v) => v,
            Err(e) => {
                return Err(e);
            },
        };
        let ghost pools0 = self.spec_pools();
        self.pools.push((other, pool));
        proof {
            lemma_pool_index(pools0, other);
            assert forall|a: int, b: int|
                0 <= a < b < self.spec_pools().len() implies (#[trigger] self.spec_pools()[a]).0
                != (#[trigger] self.spec_pools()[b]).0 by {
                if b == pools0.len() {
                    assert(self.spec_pools()[a] == pools0[a]);
                }
            }
            assert forall|m: int| 0 <= m < self.spec_pools().len() implies (#[trigger] self.spec_pools()[m]).1.wf()
                && self.spec_pools()[m].1.spec_stable_asset() == self.spec_stablecoin()
                && self.spec_pools()[m].1.spec_other_asset() == self.spec_pools()[m].0 by {
                if m < pools0.len() {
                    assert(self.spec_pools()[m] == pools0[m]);
                }
            }
        }
        Ok((ret_s, ret_o, pos))
    }

    /// Deposits at the rate's step in the pool of the pair (the
    /// stablecoin and the non-stable container's asset), starting from
    /// the supplied position or a fresh one; routed per
    /// [`Pool::add_liquidity`], whose model the results and the updated
    /// pool satisfy exactly. Fails with [`EngineError::NoPoolForPair`] if
    /// and only if no pool trades the pair.
    pub fn add_liquidity(
        &mut self,
        bucket_a: AssetContainer,
        bucket_b: AssetContainer,
        rate: Decimal,
        opt_position: Option<Position>,
    ) -> (r: Result<(AssetContainer, AssetContainer, Position), EngineError>)
        requires
            old(self).wf(),
            bucket_a.wf(),
            bucket_b.wf(),
            match opt_position {
                Some(p) => p.wf(),
                None => true,
            },
        ensures
            final(self).spec_stablecoin() == old(self).spec_stablecoin(),
            final(self).wf(),
            ({
                let stable = old(self).spec_stablecoin();
                let bs = if bucket_a.asset_of() == stable {
                    bucket_a
                } else {
                    bucket_b
                };
                let bo = if bucket_a.asset_of() == stable {
                    bucket_b
                } else {
                    bucket_a
                };
                let key = bo.asset_of();
                let ki = pool_index(old(self).spec_pools(), key);
                if ki < 0 {
                    r == Err::<(AssetContainer, AssetContainer, Position), EngineError>(
                        EngineError::NoPoolForPair,
                    ) && *final(self) == *old(self)
                } else {
                    let p0 = old(self).spec_pools()[ki].1;
                    let p2 = final(self).spec_pools()[ki].1;
                    table_updated(old(self).spec_pools(), final(self).spec_pools(), ki, key, p2)
                        && p2.grid_unchanged(&p0) && match spec_step_at_rate(
                        p0.spec_min_rate(),
                        p0.spec_rate_step(),
                        rate@,
                    ) {
                        Err(e0) => r == Err::<
                            (AssetContainer, AssetContainer, Position),
                            EngineError,
                        >(e0) && p2.same_state(&p0),
                        Ok(step) => match r {
                            Ok((ret_s, ret_o, pos2)) => spec_pool_add_at_step(
                                p0.spec_steps(),
                                opt_stakes(opt_position),
                                p0.spec_current_step(),
                                p0.spec_min_rate(),
                                p0.spec_rate_step(),
                                bs.amount_of(),
                                bo.amount_of(),
                                step,
                            ) == Ok::<_, EngineError>(
                                (
                                    ret_s.amount_of(),
                                    ret_o.amount_of(),
                                    p2.spec_steps(),
                                    stakes_view(pos2.entries()),
                                ),
                            ) && pos2.token == opt_token(opt_position, key) && pos2.wf()
                                && ret_s.wf() && ret_o.wf() && ret_s.asset_of() == stable
                                && ret_o.asset_of() == key,
                            Err(e) => p2.same_state(&p0) && if bs.asset_of() != stable {
                                e == EngineError::AssetMismatch
                            } else {
                                spec_pool_add_at_step(
                                    p0.spec_steps(),
                                    opt_stakes(opt_position),
                                    p0.spec_current_step(),
                                    p0.spec_min_rate(),
                                    p0.spec_rate_step(),
                                    bs.amount_of(),
                                    bo.amount_of(),
                                    step,
                                ) == Err::<
                                    (int, int, Seq<(u16, StepV)>, Seq<(u16, StakeV)>),
                                    EngineError,
                                >(e)
                            },
                        },
                    }
                }
            }),
    {
        let (bucket_stable, bucket_other) = self.sort_buckets(bucket_a, bucket_b);
        let other = bucket_other.asset_id();
        let position = match opt_position {
            Some(p) => p,
            None => Position::from(other),
        };
        proof {
            assert(stakes_view(position.entries()) =~= opt_stakes(opt_position));
        }
        let (idx, mut pool) = match self.take_pool(other) {
            Ok(v) => v,
            Err(e) => {
                return Err(e);
            },
        };
        let out = pool.add_liquidity(bucket_stable, bucket_other, rate, position);
        self.put_pool(idx, other, pool);
        proof {
            lemma_pool_index(old(self).spec_pools(), other);
            lemma_remove_insert_is_update(old(self).spec_pools(), idx as int, (other, pool));
            assert(final(self).spec_pools() =~= old(self).spec_pools().update(
                idx as int,
                (other, pool),
            )) by {
                assert(final(self).spec_pools() == old(self).spec_pools().remove(
                    idx as int,
                ).insert(idx as int, (other, pool)));
            }
        }
        out
    }

    /// Deposits at one step in the pool of the pair (the stablecoin and
    /// the non-stable container's asset), starting from the supplied
    /// position or a fresh one; routed per
    /// [`Pool::add_liquidity_at_step`], whose model the results and the
    /// updated pool satisfy exactly. Fails with
    /// [`EngineError::NoPoolForPair`] if and only if no pool trades the
    /// pair.
    pub fn add_liquidity_at_step(
        &mut self,
        bucket_a: AssetContainer,
        bucket_b: AssetContainer,
        step_id: u16,
        opt_position: Option<Position>,
    ) -> (r: Result<(AssetContainer, AssetContainer, Position), EngineError>)
        requires
            old(self).wf(),
            bucket_a.wf(),
            bucket_b.wf(),
            match opt_position {
                Some(p) => p.wf(),
                None => true,
            },
        ensures
            final(self).spec_stablecoin() == old(self).spec_stablecoin(),
            final(self).wf(),
            ({
                let stable = old(self).spec_stablecoin();
                let bs = if bucket_a.asset_of() == stable {
                    bucket_a
                } else {
                    bucket_b
                };
                let bo = if bucket_a.asset_of() == stable {
                    bucket_b
                } else {
                    bucket_a
                };
                let key = bo.asset_of();
                let ki = pool_index(old(self).spec_pools(), key);
                if ki < 0 {
                    r == Err::<(AssetContainer, AssetContainer, Position), EngineError>(
                        EngineError::NoPoolForPair,
                    ) && *final(self) == *old(self)
                } else {
                    let p0 = old(self).spec_pools()[ki].1;
                    let p2 = final(self).spec_pools()[ki].1;
                    table_updated(old(self).spec_pools(), final(self).spec_pools(), ki, key, p2)
                        && p2.grid_unchanged(&p0) && match r {
                        Ok((ret_s, ret_o, pos2)) => spec_pool_add_at_step(
                            p0.spec_steps(),
                            opt_stakes(opt_position),
                            p0.spec_current_step(),
                            p0.spec_min_rate(),
                            p0.spec_rate_step(),
                            bs.amount_of(),
                            bo.amount_of(),
                            step_id,
                        ) == Ok::<_, EngineError>(
                            (
                                ret_s.amount_of(),
                                ret_o.amount_of(),
                                p2.spec_steps(),
                                stakes_view(pos2.entries()),
                            ),
                        ) && pos2.token == opt_token(opt_position, key) && pos2.wf() && ret_s.wf()
                            && ret_o.wf() && ret_s.asset_of() == stable && ret_o.asset_of()
                            == key,
                        Err(e) => p2.same_state(&p0) && if bs.asset_of() != stable {
                            e == EngineError::AssetMismatch
                        } else {
                            spec_pool_add_at_step(
                                p0.spec_steps(),
                                opt_stakes(opt_position),
                                p0.spec_current_step(),
                                p0.spec_min_rate(),
                                p0.spec_rate_step(),
                                bs.amount_of(),
                                bo.amount_of(),
                                step_id,
                            ) == Err::<
                                (int, int, Seq<(u16, StepV)>, Seq<(u16, StakeV)>),
                                EngineError,
                            >(e)
                        },
                    }
                }
            }),
    {
        let (bucket_stable, bucket_other) = self.sort_buckets(bucket_a, bucket_b);
        let other = bucket_other.asset_id();
        let position = match opt_position {
            Some(p) => p,
            None => Position::from(other),
        };
        proof {
            assert(stakes_view(position.entries()) =~= opt_stakes(opt_position));
        }
        let (idx, mut pool) = match self.take_pool(other) {
            Ok(v) => v,
            Err(e) => {
                return Err(e);
            },
        };
        let out = pool.add_liquidity_at_step(bucket_stable, bucket_other, position, step_id);
        self.put_pool(idx, other, pool);
        proof {
            lemma_pool_index(old(self).spec_pools(), other);
            lemma_remove_insert_is_update(old(self).spec_pools(), idx as int, (other, pool));
            assert(final(self).spec_pools() =~= old(self).spec_pools().update(
                idx as int,
                (other, pool),
            )) by {
                assert(final(self).spec_pools() == old(self).spec_pools().remove(
                    idx as int,
                ).insert(idx as int, (other, pool)));
            }
        }
        out
    }

    /// Deposits evenly over a step range in the pool of the pair,
    /// starting from the supplied position or a fresh one; routed per
    /// [`Pool::add_liquidity_at_steps`], whose model the results and the
    /// updated pool satisfy exactly (including the partial state its
    /// model gives an error). Fails with [`EngineError::NoPoolForPair`]
    /// if and only if no pool trades the pair.
    pub fn add_liquidity_at_steps(
        &mut self,
        bucket_a: AssetContainer,
        bucket_b: AssetContainer,
        start_step: u16,
        stop_step: u16,
        opt_position: Option<Position>,
    ) -> (r: Result<(AssetContainer, AssetContainer, Position), EngineError>)
        requires
            old(self).wf(),
            bucket_a.wf(),
            bucket_b.wf(),
            match opt_position {
                Some(p) => p.wf(),
                None => true,
            },
        ensures
            final(self).spec_stablecoin() == old(self).spec_stablecoin(),
            final(self).wf(),
            ({
                let stable = old(self).spec_stablecoin();
                let bs = if bucket_a.asset_of() == stable {
                    bucket_a
                } else {
                    bucket_b
                };
                let bo = if bucket_a.asset_of() == stable {
                    bucket_b
                } else {
                    bucket_a
                };
                let key = bo.asset_of();
                let ki = pool_index(old(self).spec_pools(), key);
                if ki < 0 {
                    r == Err::<(AssetContainer, AssetContainer, Position), EngineError>(
                        EngineError::NoPoolForPair,
                    ) && *final(self) == *old(self)
                } else {
                    let p0 = old(self).spec_pools()[ki].1;
                    let p2 = final(self).spec_pools()[ki].1;
                    let (res, steps2) = spec_pool_add_range(
                        p0.spec_steps(),
                        opt_stakes(opt_position),
                        p0.spec_current_step(),
                        p0.spec_min_rate(),
                        p0.spec_rate_step(),
                        bs.amount_of(),
                        bo.amount_of(),
                        start_step,
                        stop_step,
                    );
                    table_updated(old(self).spec_pools(), final(self).spec_pools(), ki, key, p2)
                        && p2.grid_unchanged(&p0) && if bs.asset_of() != stable {
                        r == Err::<(AssetContainer, AssetContainer, Position), EngineError>(
                            EngineError::AssetMismatch,
                        ) && p2.same_state(&p0)
                    } else {
                        p2.spec_steps() == steps2 && match r {
                            Ok((ret_s, ret_o, pos2)) => res == Ok::<_, EngineError>(
                                (
                                    ret_s.amount_of(),
                                    ret_o.amount_of(),
                                    stakes_view(pos2.entries()),
                                ),
                            ) && pos2.token == opt_token(opt_position, key) && pos2.wf()
                                && ret_s.wf() && ret_o.wf() && ret_s.asset_of() == stable
                                && ret_o.asset_of() == key,
                            Err(e) => res == Err::<(int, int, Seq<(u16, StakeV)>), EngineError>(
                                e,
                            ),
                        }
                    }
                }
            }),
    {
        let (bucket_stable, bucket_other) = self.sort_buckets(bucket_a, bucket_b);
        let other = bucket_other.asset_id();
        let position = match opt_position {
            Some(p) => p,
            None => Position::from(other),
        };
        proof {
            assert(stakes_view(position.entries()) =~= opt_stakes(opt_position));
        }
        let (idx, mut pool) = match self.take_pool(other) {
            Ok(v) => v,
            Err(e) => {
                return Err(e);
            },
        };
        let out = pool.add_liquidity_at_steps(
            bucket_stable,
            bucket_other,
            position,
            start_step,
            stop_step,
        );
        self.put_pool(idx, other, pool);
        proof {
            lemma_pool_index(old(self).spec_pools(), other);
            lemma_remove_insert_is_update(old(self).spec_pools(), idx as int, (other, pool));
            assert(final(self).spec_pools() =~= old(self).spec_pools().update(
                idx as int,
                (other, pool),
            )) by {
                assert(final(self).spec_pools() == old(self).spec_pools().remove(
                    idx as int,
                ).insert(idx as int, (other, pool)));
            }
        }
        out
    }

    /// Deposits evenly over the steps bracketing the two rates in the
    /// pool of the pair, starting from the supplied position or a fresh
    /// one; routed per [`Pool::add_liquidity_between_rates`]: the two
    /// rates become steps on the pool's grid and the deposit follows the
    /// ranged model exactly. Fails with [`EngineError::NoPoolForPair`] if
    /// and only if no pool trades the pair.
    pub fn add_liquidity_between_rates(
        &mut self,
        bucket_a: AssetContainer,
        bucket_b: AssetContainer,
        min_rate: Decimal,
        max_rate: Decimal,
        opt_position: Option<Position>,
    ) -> (r: Result<(AssetContainer, AssetContainer, Position), EngineError>)
        requires
            old(self).wf(),
            bucket_a.wf(),
            bucket_b.wf(),
            match opt_position {
                Some(p) => p.wf(),
                None => true,
            },
        ensures
            final(self).spec_stablecoin() == old(self).spec_stablecoin(),
            final(self).wf(),
            ({
                let stable = old(self).spec_stablecoin();
                let bs = if bucket_a.asset_of() == stable {
                    bucket_a
                } else {
                    bucket_b
                };
                let bo = if bucket_a.asset_of() == stable {
                    bucket_b
                } else {
                    bucket_a
                };
                let key = bo.asset_of();
                let ki = pool_index(old(self).spec_pools(), key);
                if ki < 0 {
                    r == Err::<(AssetContainer, AssetContainer, Position), EngineError>(
                        EngineError::NoPoolForPair,
                    ) && *final(self) == *old(self)
                } else {
                    let p0 = old(self).spec_pools()[ki].1;
                    let p2 = final(self).spec_pools()[ki].1;
                    table_updated(old(self).spec_pools(), final(self).spec_pools(), ki, key, p2)
                        && p2.grid_unchanged(&p0) && match spec_step_at_rate(
                        p0.spec_min_rate(),
                        p0.spec_rate_step(),
                        min_rate@,
                    ) {
                        Err(e0) => r == Err::<
                            (AssetContainer, AssetContainer, Position),
                            EngineError,
                        >(e0) && p2.same_state(&p0),
                        Ok(min_step) => match spec_step_at_rate(
                            p0.spec_min_rate(),
                            p0.spec_rate_step(),
                            max_rate@,
                        ) {
                            Err(e0) => r == Err::<
                                (AssetContainer, AssetContainer, Position),
                                EngineError,
                            >(e0) && p2.same_state(&p0),
                            Ok(max_step) => ({
                                let (res, steps2) = spec_pool_add_range(
                                    p0.spec_steps(),
                                    opt_stakes(opt_position),
                                    p0.spec_current_step(),
                                    p0.spec_min_rate(),
                                    p0.spec_rate_step(),
                                    bs.amount_of(),
                                    bo.amount_of(),
                                    min_step,
                                    max_step,
                                );
                                if bs.asset_of() != stable {
                                    r == Err::<
                                        (AssetContainer, AssetContainer, Position),
                                        EngineError,
                                    >(EngineError::AssetMismatch) && p2.same_state(&p0)
                                } else {
                                    p2.spec_steps() == steps2 && match r {
                                        Ok((ret_s, ret_o, pos2)) => res == Ok::<_, EngineError>(
                                            (
                                                ret_s.amount_of(),
                                                ret_o.amount_of(),
                                                stakes_view(pos2.entries()),
                                            ),
                                        ) && pos2.token == opt_token(opt_position, key)
                                            && pos2.wf() && ret_s.wf() && ret_o.wf()
                                            && ret_s.asset_of() == stable && ret_o.asset_of()
                                            == key,
                                        Err(e) => res == Err::<
                                            (int, int, Seq<(u16, StakeV)>),
                                            EngineError,
                                        >(e),
                                    }
                                }
                            }),
                        },
                    }
                }
            }),
    {
        let (bucket_stable, bucket_other) = self.sort_buckets(bucket_a, bucket_b);
        let other = bucket_other.asset_id();
        let position = match opt_position {
            Some(p) => p,
            None => Position::from(other),
        };
        proof {
            assert(stakes_view(position.entries()) =~= opt_stakes(opt_position));
        }
        let (idx, mut pool) = match self.take_pool(other) {
            Ok(v) => v,
            Err(e) => {
                return Err(e);
            },
        };
        let out = pool.add_liquidity_between_rates(
            bucket_stable,
            bucket_other,
            position,
            min_rate,
            max_rate,
        );
        self.put_pool(idx, other, pool);
        proof {
            lemma_pool_index(old(self).spec_pools(), other);
            lemma_remove_insert_is_update(old(self).spec_pools(), idx as int, (other, pool));
            assert(final(self).spec_pools() =~= old(self).spec_pools().update(
                idx as int,
                (other, pool),
            )) by {
                assert(final(self).spec_pools() == old(self).spec_pools().remove(
                    idx as int,
                ).insert(idx as int, (other, pool)));
            }
        }
        out
    }

    /// Withdraws a position's whole stake at one step from its pair's
    /// pool; routed per [`Pool::remove_liquidity_at_step`], whose model
    /// the payouts and the updated pool satisfy exactly. Fails with
    /// [`EngineError::NoPoolForPair`] if and only if no pool trades the
    /// position's pair.
    pub fn remove_liquidity_at_step(&mut self, position: Position, step: u16) -> (r: Result<
        (AssetContainer, AssetContainer, Position),
        EngineError,
    >)
        requires
            old(self).wf(),
            position.wf(),
        ensures
            final(self).spec_stablecoin() == old(self).spec_stablecoin(),
            final(self).wf(),
            ({
                let key = position.token;
                let ki = pool_index(old(self).spec_pools(), key);
                if ki < 0 {
                    r == Err::<(AssetContainer, AssetContainer, Position), EngineError>(
                        EngineError::NoPoolForPair,
                    ) && *final(self) == *old(self)
                } else {
                    let p0 = old(self).spec_pools()[ki].1;
                    let p2 = final(self).spec_pools()[ki].1;
                    table_updated(old(self).spec_pools(), final(self).spec_pools(), ki, key, p2)
                        && p2.grid_unchanged(&p0) && match r {
                        Ok((out_s, out_o, pos2)) => spec_pool_remove_at_step(
                            p0.spec_steps(),
                            stakes_view(position.entries()),
                            step,
                        ) == Ok::<_, EngineError>(
                            (
                                out_s.amount_of(),
                                out_o.amount_of(),
                                p2.spec_steps(),
                                stakes_view(pos2.entries()),
                            ),
                        ) && pos2.token == position.token && pos2.wf() && out_s.wf() && out_o.wf()
                            && out_s.asset_of() == old(self).spec_stablecoin() && out_o.asset_of()
                            == key,
                        Err(e) => p2.same_state(&p0) && spec_pool_remove_at_step(
                            p0.spec_steps(),
                            stakes_view(position.entries()),
                            step,
                        ) == Err::<
                            (int, int, Seq<(u16, StepV)>, Seq<(u16, StakeV)>),
                            EngineError,
                        >(e),
                    }
                }
            }),
    {
        let other = position.token;
        let (idx, mut pool) = match self.take_pool(other) {
            Ok(v) => v,
            Err(e) => {
                return Err(e);
            },
        };
        let out = pool.remove_liquidity_at_step(position, step);
        self.put_pool(idx, other, pool);
        proof {
            lemma_pool_index(old(self).spec_pools(), other);
            lemma_remove_insert_is_update(old(self).spec_pools(), idx as int, (other, pool));
            assert(final(self).spec_pools() =~= old(self).spec_pools().update(
                idx as int,
                (other, pool),
            )) by {
                assert(final(self).spec_pools() == old(self).spec_pools().remove(
                    idx as int,
                ).insert(idx as int, (other, pool)));
            }
        }
        out
    }

    /// Withdraws a position's stakes over a step range from its pair's
    /// pool; routed per [`Pool::remove_liquidity_at_steps`], whose model
    /// the payouts and the updated pool satisfy exactly (including the
    /// partial state when its model gives an error). Fails with
    /// [`EngineError::NoPoolForPair`] if and only if no pool trades the
    /// position's pair.
    pub fn remove_liquidity_at_steps(
        &mut self,
        position: Position,
        start_step: u16,
        stop_step: u16,
    ) -> (r: Result<(AssetContainer, AssetContainer, Position), EngineError>)
        requires
            old(self).wf(),
            position.wf(),
        ensures
            final(self).spec_stablecoin() == old(self).spec_stablecoin(),
            final(self).wf(),
            ({
                let key = position.token;
                let ki = pool_index(old(self).spec_pools(), key);
                if ki < 0 {
                    r == Err::<(AssetContainer, AssetContainer, Position), EngineError>(
                        EngineError::NoPoolForPair,
                    ) && *final(self) == *old(self)
                } else {
                    let p0 = old(self).spec_pools()[ki].1;
                    let p2 = final(self).spec_pools()[ki].1;
                    table_updated(old(self).spec_pools(), final(self).spec_pools(), ki, key, p2)
                        && ({
                        if stop_step < start_step {
                            r == Err::<(AssetContainer, AssetContainer, Position), EngineError>(
                                EngineError::StepOutOfRange,
                            ) && p2.same_state(&p0) && p2.grid_unchanged(&p0)
                        } else {
                            let (res, steps2) = spec_pool_remove_at_steps(
                                p0.spec_steps(),
                                stakes_view(position.entries()),
                                start_step,
                                stop_step,
                                0,
                                0,
                            );
                            p2.grid_unchanged(&p0) && p2.spec_steps() == steps2 && match r {
                                Ok((out_s, out_o, pos2)) => res == Ok::<_, EngineError>(
                                    (
                                        out_s.amount_of(),
                                        out_o.amount_of(),
                                        stakes_view(pos2.entries()),
                                    ),
                                ) && pos2.token == position.token && pos2.wf() && out_s.wf()
                                    && out_o.wf() && out_s.asset_of() == old(
                                    self,
                                ).spec_stablecoin() && out_o.asset_of() == key,
                                Err(e) => res == Err::<
                                    (int, int, Seq<(u16, StakeV)>),
                                    EngineError,
                                >(e),
                            }
                        }
                    })
                }
            }),
    {
        let other = position.token;
        let (idx, mut pool) = match self.take_pool(other) {
            Ok(v) => v,
            Err(e) => {
                return Err(e);
            },
        };
        let out = pool.remove_liquidity_at_steps(position, start_step, stop_step);
        self.put_pool(idx, other, pool);
        proof {
            lemma_pool_index(old(self).spec_pools(), other);
            lemma_remove_insert_is_update(old(self).spec_pools(), idx as int, (other, pool));
            assert(final(self).spec_pools() =~= old(self).spec_pools().update(
                idx as int,
                (other, pool),
            )) by {
                assert(final(self).spec_pools() == old(self).spec_pools().remove(
                    idx as int,
                ).insert(idx as int, (other, pool)));
            }
        }
        out
    }

    /// Withdraws a position's whole stake at the rate's step from its
    /// pair's pool; routed per [`Pool::remove_liquidity_at_rate`], whose
    /// model the payouts and the updated pool satisfy exactly. Fails with
    /// [`EngineError::NoPoolForPair`] if and only if no pool trades the
    /// position's pair.
    pub fn remove_liquidity_at_rate(&mut self, position: Position, rate: Decimal) -> (r: Result<
        (AssetContainer, AssetContainer, Position),
        EngineError,
    >)
        requires
            old(self).wf(),
            position.wf(),
        ensures
            final(self).spec_stablecoin() == old(self).spec_stablecoin(),
            final(self).wf(),
            ({
                let key = position.token;
                let ki = pool_index(old(self).spec_pools(), key);
                if ki < 0 {
                    r == Err::<(AssetContainer, AssetContainer, Position), EngineError>(
                        EngineError::NoPoolForPair,
                    ) && *final(self) == *old(self)
                } else {
                    let p0 = old(self).spec_pools()[ki].1;
                    let p2 = final(self).spec_pools()[ki].1;
                    table_updated(old(self).spec_pools(), final(self).spec_pools(), ki, key, p2)
                        && p2.grid_unchanged(&p0) && match spec_step_at_rate(
                        p0.spec_min_rate(),
                        p0.spec_rate_step(),
                        rate@,
                    ) {
                        Err(e0) => r == Err::<
                            (AssetContainer, AssetContainer, Position),
                            EngineError,
                        >(e0) && p2.same_state(&p0),
                        Ok(step) => match r {
                            Ok((out_s, out_o, pos2)) => spec_pool_remove_at_step(
                                p0.spec_steps(),
                                stakes_view(position.entries()),
                                step,
                            ) == Ok::<_, EngineError>(
                                (
                                    out_s.amount_of(),
                                    out_o.amount_of(),
                                    p2.spec_steps(),
                                    stakes_view(pos2.entries()),
                                ),
                            ) && pos2.token == position.token && pos2.wf() && out_s.wf()
                                && out_o.wf() && out_s.asset_of() == old(
                                self,
                            ).spec_stablecoin() && out_o.asset_of() == key,
                            Err(e) => p2.same_state(&p0) && spec_pool_remove_at_step(
                                p0.spec_steps(),
                                stakes_view(position.entries()),
                                step,
                            ) == Err::<
                                (int, int, Seq<(u16, StepV)>, Seq<(u16, StakeV)>),
                                EngineError,
                            >(e),
                        },
                    }
                }
            }),
    {
        let other = position.token;
        let (idx, mut pool) = match self.take_pool(other) {
            Ok(v) => v,
            Err(e) => {
                return Err(e);
            },
        };
        let out = pool.remove_liquidity_at_rate(position, rate);
        self.put_pool(idx, other, pool);
        proof {
            lemma_pool_index(old(self).spec_pools(), other);
            lemma_remove_insert_is_update(old(self).spec_pools(), idx as int, (other, pool));
            assert(final(self).spec_pools() =~= old(self).spec_pools().update(
                idx as int,
                (other, pool),
            )) by {
                assert(final(self).spec_pools() == old(self).spec_pools().remove(
                    idx as int,
                ).insert(idx as int, (other, pool)));
            }
        }
        out
    }

    /// Withdraws a position's whole stake at every step it touches,
    /// consuming it; routed per [`Pool::remove_all_liquidity`], whose
    /// model the payouts and the updated pool satisfy exactly (including
    /// the partial state when its model gives an error). Fails with
    /// [`EngineError::NoPoolForPair`] if and only if no pool trades the
    /// position's pair.
    pub fn remove_all_liquidity(&mut self, position: Position) -> (r: Result<
        (AssetContainer, AssetContainer),
        EngineError,
    >)
        requires
            old(self).wf(),
            position.wf(),
        ensures
            final(self).spec_stablecoin() == old(self).spec_stablecoin(),
            final(self).wf(),
            ({
                let key = position.token;
                let ki = pool_index(old(self).spec_pools(), key);
                if ki < 0 {
                    r == Err::<(AssetContainer, AssetContainer), EngineError>(
                        EngineError::NoPoolForPair,
                    ) && *final(self) == *old(self)
                } else {
                    let p0 = old(self).spec_pools()[ki].1;
                    let p2 = final(self).spec_pools()[ki].1;
                    let (res, steps2) = spec_pool_remove_all(
                        p0.spec_steps(),
                        stakes_view(position.entries()),
                        0,
                        0,
                    );
                    table_updated(old(self).spec_pools(), final(self).spec_pools(), ki, key, p2)
                        && p2.grid_unchanged(&p0) && p2.spec_steps() == steps2 && match r {
                        Ok((out_s, out_o)) => res == Ok::<_, EngineError>(
                            (out_s.amount_of(), out_o.amount_of()),
                        ) && out_s.wf() && out_o.wf() && out_s.asset_of() == old(
                            self,
                        ).spec_stablecoin() && out_o.asset_of() == key,
                        Err(e) => res == Err::<(int, int), EngineError>(e),
                    }
                }
            }),
    {
        let other = position.token;
        let (idx, mut pool) = match self.take_pool(other) {
            Ok(v) => v,
            Err(e) => {
                return Err(e);
            },
        };
        let out = pool.remove_all_liquidity(position);
        self.put_pool(idx, other, pool);
        proof {
            lemma_pool_index(old(self).spec_pools(), other);
            lemma_remove_insert_is_update(old(self).spec_pools(), idx as int, (other, pool));
            assert(final(self).spec_pools() =~= old(self).spec_pools().update(
                idx as int,
                (other, pool),
            )) by {
                assert(final(self).spec_pools() == old(self).spec_pools().remove(
                    idx as int,
                ).insert(idx as int, (other, pool)));
            }
        }
        out
    }

    /// Settles a position's accrued fees across every step it touches in
    /// its pair's pool; routed per [`Pool::claim_fees`], whose model the
    /// fee totals, the settled position and the updated pool satisfy
    /// exactly. Fails with [`EngineError::NoPoolForPair`] if and only if
    /// no pool trades the position's pair.
    pub fn claim_fees(&mut self, position: Position) -> (r: Result<
        (AssetContainer, AssetContainer, Position),
        EngineError,
    >)
        requires
            old(self).wf(),
            position.wf(),
        ensures
            final(self).spec_stablecoin() == old(self).spec_stablecoin(),
            final(self).wf(),
            ({
                let key = position.token;
                let ki = pool_index(old(self).spec_pools(), key);
                if ki < 0 {
                    r == Err::<(AssetContainer, AssetContainer, Position), EngineError>(
                        EngineError::NoPoolForPair,
                    ) && *final(self) == *old(self)
                } else {
                    let p0 = old(self).spec_pools()[ki].1;
                    let p2 = final(self).spec_pools()[ki].1;
                    table_updated(old(self).spec_pools(), final(self).spec_pools(), ki, key, p2)
                        && p2.grid_unchanged(&p0) && match r {
                        Ok((fee_s, fee_o, pos2)) => spec_pool_claim(
                            p0.spec_steps(),
                            stakes_view(position.entries()),
                            0,
                            0,
                            0,
                        ) == Ok::<_, EngineError>(
                            (
                                fee_s.amount_of(),
                                fee_o.amount_of(),
                                p2.spec_steps(),
                                stakes_view(pos2.entries()),
                            ),
                        ) && pos2.token == position.token && pos2.wf() && fee_s.wf() && fee_o.wf()
                            && fee_s.asset_of() == old(self).spec_stablecoin() && fee_o.asset_of()
                            == key,
                        Err(e) => p2.same_state(&p0) && spec_pool_claim(
                            p0.spec_steps(),
                            stakes_view(position.entries()),
                            0,
                            0,
                            0,
                        ) == Err::<
                            (int, int, Seq<(u16, StepV)>, Seq<(u16, StakeV)>),
                            EngineError,
                        >(e),
                    }
                }
            }),
    {
        let other = position.token;
        let (idx, mut pool) = match self.take_pool(other) {
            Ok(v) => v,
            Err(e) => {
                return Err(e);
            },
        };
        let out = pool.claim_fees(position);
        self.put_pool(idx, other, pool);
        proof {
            lemma_pool_index(old(self).spec_pools(), other);
            lemma_remove_insert_is_update(old(self).spec_pools(), idx as int, (other, pool));
            assert(final(self).spec_pools() =~= old(self).spec_pools().update(
                idx as int,
                (other, pool),
            )) by {
                assert(final(self).spec_pools() == old(self).spec_pools().remove(
                    idx as int,
                ).insert(idx as int, (other, pool)));
            }
        }
        out
    }

    /// Drains the protocol fee reserves of every pool: one container per
    /// pool holding its other-asset reserve, and last the stablecoin
    /// total summed in table order. Afterwards every pool's reserves read
    /// zero; everything else about every pool is untouched. Fails, with
    /// the table unchanged, if and only if the stablecoin total overflows.
    pub fn claim_protocol_fees(&mut self) -> (r: Result<Vec<AssetContainer>, EngineError>)
        requires
            old(self).wf(),
        ensures
            final(self).spec_stablecoin() == old(self).spec_stablecoin(),
            final(self).wf(),
            match r {
                Ok(out) => ({
                    let ps0 = old(self).spec_pools();
                    let ps1 = final(self).spec_pools();
                    let n = ps0.len();
                    out@.len() == n + 1 && (forall|m: int|
                        0 <= m < n ==> (#[trigger] out@[m]).asset_of() == ps0[m].1.spec_other_asset()
                            && out@[m].amount_of() == ps0[m].1.spec_other_protocol_fees()
                            && out@[m].wf()) && out@[n as int].asset_of() == old(
                        self,
                    ).spec_stablecoin() && spec_reserve_total(ps0, 0, 0) == Ok::<int, EngineError>(
                        out@[n as int].amount_of(),
                    ) && out@[n as int].wf() && ps1.len() == n && forall|m: int|
                        0 <= m < n ==> (#[trigger] ps1[m]).0 == ps0[m].0 && ps1[m].1.spec_steps()
                            == ps0[m].1.spec_steps() && ps1[m].1.spec_current_step()
                            == ps0[m].1.spec_current_step() && ps1[m].1.spec_rate_step()
                            == ps0[m].1.spec_rate_step() && ps1[m].1.spec_min_rate()
                            == ps0[m].1.spec_min_rate() && ps1[m].1.spec_stable_asset()
                            == ps0[m].1.spec_stable_asset() && ps1[m].1.spec_other_asset()
                            == ps0[m].1.spec_other_asset() && ps1[m].1.spec_stable_protocol_fees()
                            == 0 && ps1[m].1.spec_other_protocol_fees() == 0
                }),
                Err(e) => *final(self) == *old(self) && spec_reserve_total(
                    old(self).spec_pools(),
                    0,
                    0,
                ) == Err::<int, EngineError>(e),
            },
    {
        let ghost ps0 = self.spec_pools();
        let n = self.pools.len();
        // first pass: total the stablecoin reserves without touching state
        let mut total = Decimal::zero();
        let mut i: usize = 0;
        while i < n
            invariant
                *self == *old(self),
                self.wf(),
                ps0 == self.spec_pools(),
                n == ps0.len(),
                0 <= i <= n,
                total@ >= 0,
                spec_reserve_total(ps0, 0, 0) == spec_reserve_total(ps0, i as int, total@),
            decreases n - i,
        {
            let (sc, _oc) = self.pools[i].1.protocol_fees();
            total = match total.checked_add(&sc) {
                Ok(v) => v,
                Err(e) => {
                    return Err(e);
                },
            };
            i = i + 1;
        }
        // second pass: drain each pool, collecting its other-asset cut
        let mut out: Vec<AssetContainer> = Vec::new();
        let mut j: usize = 0;
        while j < n
            invariant
                self.spec_stablecoin() == old(self).spec_stablecoin(),
                self.wf(),
                ps0 == old(self).spec_pools(),
                n == ps0.len(),
                self.spec_pools().len() == n,
                0 <= j <= n,
                out@.len() == j,
                forall|m: int|
                    0 <= m < j ==> (#[trigger] out@[m]).asset_of() == ps0[m].1.spec_other_asset()
                        && out@[m].amount_of() == ps0[m].1.spec_other_protocol_fees()
                        && out@[m].wf(),
                forall|m: int|
                    0 <= m < j ==> (#[trigger] self.spec_pools()[m]).0 == ps0[m].0
                        && self.spec_pools()[m].1.spec_steps() == ps0[m].1.spec_steps()
                        && self.spec_pools()[m].1.spec_current_step()
                        == ps0[m].1.spec_current_step() && self.spec_pools()[m].1.spec_rate_step()
                        == ps0[m].1.spec_rate_step() && self.spec_pools()[m].1.spec_min_rate()
                        == ps0[m].1.spec_min_rate() && self.spec_pools()[m].1.spec_stable_asset()
                        == ps0[m].1.spec_stable_asset() && self.spec_pools()[m].1.spec_other_asset()
                        == ps0[m].1.spec_other_asset()
                        && self.spec_pools()[m].1.spec_stable_protocol_fees() == 0
                        && self.spec_pools()[m].1.spec_other_protocol_fees() == 0,
                forall|m: int| j <= m < n ==> (#[trigger] self.spec_pools()[m]) == ps0[m],
            decreases n - j,
        {
            let ghost mid = self.spec_pools();
            let key = self.pools[j].0;
            let entry = self.pools.remove(j);
            let mut pool = entry.1;
            let (_sc, oc) = pool.claim_protocol_fees();
            self.pools.insert(j, (key, pool));
            out.push(oc);
            proof {
                assert(self.spec_pools() =~= mid.update(j as int, (key, pool)));
                assert forall|a: int, b: int|
                    0 <= a < b < self.spec_pools().len() implies (#[trigger] self.spec_pools()[a]).0
                    != (#[trigger] self.spec_pools()[b]).0 by {
                    assert(self.spec_pools()[a].0 == mid[a].0 && self.spec_pools()[b].0
                        == mid[b].0);
                }
            }
            j = j + 1;
        }
        let stable_container = AssetContainer::with_amount(self.stablecoin_address, total);
        out.push(stable_container);
        Ok(out)
    }

    /// The swap routed to the pool of the pair implied by the input and
    /// requested output assets (the non-stable side picks the pool);
    /// exactly [`Pool::swap`]'s model on that pool. Returns the pair
    /// `(other container, stable container)`: output and leftover input,
    /// arranged by asset. Fails with [`EngineError::NoPoolForPair`] if
    /// and only if no pool trades the pair.
    pub fn swap(&mut self, input: AssetContainer, output: u64) -> (r: Result<
        (AssetContainer, AssetContainer),
        EngineError,
    >)
        requires
            old(self).wf(),
            input.wf(),
        ensures
            final(self).spec_stablecoin() == old(self).spec_stablecoin(),
            final(self).wf(),
            ({
                let stable = old(self).spec_stablecoin();
                let key = if output == stable {
                    input.asset_of()
                } else {
                    output
                };
                let ki = pool_index(old(self).spec_pools(), key);
                if ki < 0 {
                    r == Err::<(AssetContainer, AssetContainer), EngineError>(
                        EngineError::NoPoolForPair,
                    ) && *final(self) == *old(self)
                } else {
                    let p0 = old(self).spec_pools()[ki].1;
                    let p2 = final(self).spec_pools()[ki].1;
                    table_updated(old(self).spec_pools(), final(self).spec_pools(), ki, key, p2)
                        && p2.spec_rate_step() == p0.spec_rate_step() && p2.spec_min_rate()
                        == p0.spec_min_rate() && p2.spec_stable_asset() == p0.spec_stable_asset()
                        && p2.spec_other_asset() == p0.spec_other_asset() && match r {
                        Ok((out_o, out_s)) => spec_pool_swap(
                            p0.spec_steps(),
                            p0.spec_current_step(),
                            p0.spec_stable_protocol_fees(),
                            p0.spec_other_protocol_fees(),
                            input.amount_of(),
                            input.asset_of() == stable,
                        ) == Ok::<_, EngineError>(
                            (
                                p2.spec_steps(),
                                p2.spec_current_step(),
                                p2.spec_stable_protocol_fees(),
                                p2.spec_other_protocol_fees(),
                                if input.asset_of() == stable {
                                    out_o.amount_of()
                                } else {
                                    out_s.amount_of()
                                },
                                if input.asset_of() == stable {
                                    out_s.amount_of()
                                } else {
                                    out_o.amount_of()
                                },
                            ),
                        ) && out_o.asset_of() == key && out_s.asset_of() == stable && out_o.wf()
                            && out_s.wf() && (input.asset_of() == stable || input.asset_of()
                            == key),
                        Err(e) => p2.same_state(&p0) && if input.asset_of() != stable
                            && input.asset_of() != key {
                            e == EngineError::AssetMismatch
                        } else {
                            spec_pool_swap(
                                p0.spec_steps(),
                                p0.spec_current_step(),
                                p0.spec_stable_protocol_fees(),
                                p0.spec_other_protocol_fees(),
                                input.amount_of(),
                                input.asset_of() == stable,
                            ) == Err::<
                                (Seq<(u16, StepV)>, u16, int, int, int, int),
                                EngineError,
                            >(e)
                        },
                    }
                }
            }),
    {
        let other = if output == self.stablecoin_address {
            input.asset_id()
        } else {
            output
        };
        let (idx, mut pool) = match self.take_pool(other) {
            Ok(v) => v,
            Err(e) => {
                return Err(e);
            },
        };
        let out = pool.swap(input);
        self.put_pool(idx, other, pool);
        proof {
            lemma_pool_index(old(self).spec_pools(), other);
            lemma_remove_insert_is_update(old(self).spec_pools(), idx as int, (other, pool));
            assert(final(self).spec_pools() =~= old(self).spec_pools().update(
                idx as int,
                (other, pool),
            )) by {
                assert(final(self).spec_pools() == old(self).spec_pools().remove(
                    idx as int,
                ).insert(idx as int, (other, pool)));
            }
        }
        out
    }

    /// The state of the pool trading `token`, exactly as
    /// [`Pool::get_state`] reads it: the grid multiplier, the current
    /// step, the rate of step zero, both protocol reserves, and one entry
    /// per step with its seven state values. Fails with
    /// [`EngineError::NoPoolForPair`] if and only if no pool trades
    /// `token`.
    pub fn get_pool_state(&self, token: u64) -> (r: Result<
        (Decimal, u16, Decimal, (Decimal, Decimal), Vec<(u16, Vec<Decimal>)>),
        EngineError,
    >)
        ensures
            match r {
                Ok(t) => pool_index(self.spec_pools(), token) >= 0 && ({
                    let p = self.spec_pools()[pool_index(self.spec_pools(), token)].1;
                    t.0@ == p.spec_rate_step() && t.1 == p.spec_current_step() && t.2@
                        == p.spec_min_rate() && t.3.0@ == p.spec_stable_protocol_fees() && t.3.1@
                        == p.spec_other_protocol_fees() && t.4@.len() == p.spec_steps().len()
                        && forall|m: int|
                        0 <= m < p.spec_steps().len() ==> (#[trigger] t.4@[m]).0
                            == p.spec_steps()[m].0 && t.4@[m].1@.len() == 7 && t.4@[m].1@[0]@
                            == p.spec_steps()[m].1.stable && t.4@[m].1@[1]@
                            == p.spec_steps()[m].1.other && t.4@[m].1@[2]@
                            == p.spec_steps()[m].1.rate && t.4@[m].1@[3]@
                            == p.spec_steps()[m].1.stable_fees_per_liq && t.4@[m].1@[4]@
                            == p.spec_steps()[m].1.other_fees_per_liq && t.4@[m].1@[5]@
                            == p.spec_steps()[m].1.stable_fees_vault && t.4@[m].1@[6]@
                            == p.spec_steps()[m].1.other_fees_vault
                }),
                Err(e) => e == EngineError::NoPoolForPair && pool_index(self.spec_pools(), token)
                    == -1,
            },
    {
        let idx = self.find_pool(token);
        if idx == self.pools.len() {
            return Err(EngineError::NoPoolForPair);
        }
        Ok(self.pools[idx].1.get_state())
    }

    /// The step whose rate bracket holds `rate` on the grid of the pool
    /// trading `token`; exactly [`Pool::step_at_rate`]'s result on that
    /// pool. Fails with [`EngineError::NoPoolForPair`] if and only if no
    /// pool trades `token`.
    pub fn step_at_rate(&self, token: u64, rate: Decimal) -> (r: Result<u16, EngineError>)
        ensures
            ({
                let ki = pool_index(self.spec_pools(), token);
                if ki < 0 {
                    r == Err::<u16, EngineError>(EngineError::NoPoolForPair)
                } else {
                    let p = self.spec_pools()[ki].1;
                    match r {
                        Ok(step) => spec_step_at_rate(p.spec_min_rate(), p.spec_rate_step(), rate@)
                            == Ok::<u16, EngineError>(step),
                        Err(e) => spec_step_at_rate(p.spec_min_rate(), p.spec_rate_step(), rate@)
                            == Err::<u16, EngineError>(e),
                    }
                }
            }),
    {
        let idx = self.find_pool(token);
        if idx == self.pools.len() {
            return Err(EngineError::NoPoolForPair);
        }
        self.pools[idx].1.step_at_rate(rate)
    }

    /// Orders a pair of containers as (stablecoin, other).
    fn sort_buckets(&self, bucket_a: AssetContainer, bucket_b: AssetContainer) -> (r: (
        AssetContainer,
        AssetContainer,
    ))
        ensures
            r == if bucket_a.asset_of() == self.spec_stablecoin() {
                (bucket_a, bucket_b)
            } else {
                (bucket_b, bucket_a)
            },
    {
        if bucket_a.asset_id() == self.stablecoin_address {
            (bucket_a, bucket_b)
        } else {
            (bucket_b, bucket_a)
        }
    }
}

/// In a key-unique table, no other entry carries the key at `i`.
proof fn lemma_key_unique_at(s: Seq<(u64, Pool)>, i: int)
    requires
        0 <= i < s.len(),
        forall|a: int, b: int| 0 <= a < b < s.len() ==> (#[trigger] s[a]).0 != (#[trigger] s[b]).0,
    ensures
        forall|m: int| 0 <= m < s.len() && m != i ==> (#[trigger] s[m]).0 != s[i].0,
{
}

} // verus!
