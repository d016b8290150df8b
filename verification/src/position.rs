//! A liquidity provider's records: the per-step stake with its fee
//! snapshots, and the position that collects the step stakes of one asset
//! pair.
//!
//! A position's step table is a vector of `(step, stake)` pairs with
//! distinct step keys, looked up by [`key_index`]; the engine reads,
//! inserts and removes entries through the accessors here and never
//! mutates a stake in place.

use crate::decimal::Decimal;
use vstd::prelude::*;

verus! {

/// A provider's stake in a single pool step: the liquidity owned and the
/// step's fee-growth accumulators as of the provider's last settlement.
#[derive(Clone, Copy, Debug, PartialEq, Eq, Structural)]
pub struct StepPosition {
    /// Liquidity of the position, in stable-asset-weighted units.
    pub liquidity: Decimal,
    /// The step's stable-asset fee accumulator at the last settlement.
    pub last_stable_fees_per_liq: Decimal,
    /// The step's other-asset fee accumulator at the last settlement.
    pub last_other_fees_per_liq: Decimal,
}

impl StepPosition {
    /// A fresh zero-valued stake.
    pub fn new() -> (r: StepPosition)
        ensures
            r.liquidity@ == 0,
            r.last_stable_fees_per_liq@ == 0,
            r.last_other_fees_per_liq@ == 0,
    {
        StepPosition {
            liquidity: Decimal::zero(),
            last_stable_fees_per_liq: Decimal::zero(),
            last_other_fees_per_liq: Decimal::zero(),
        }
    }

    /// Overwrites this stake with another.
    pub fn update(&mut self, new_position: StepPosition)
        ensures
            *final(self) == new_position,
    {
        self.liquidity = new_position.liquidity;
        self.last_stable_fees_per_liq = new_position.last_stable_fees_per_liq;
        self.last_other_fees_per_liq = new_position.last_other_fees_per_liq;
    }

    /// Whether a stake is a plain value: no negative liquidity or
    /// snapshots.
    pub open spec fn wf(&self) -> bool {
        self.liquidity@ >= 0 && self.last_stable_fees_per_liq@ >= 0
            && self.last_other_fees_per_liq@ >= 0
    }
}

/// Index of the entry with key `k` in a keyed entry sequence, or `-1`.
pub open spec fn key_index<T>(s: Seq<(u16, T)>, k: u16) -> int
    decreases s.len(),
{
    if s.len() == 0 {
        -1
    } else if s[0].0 == k {
        0
    } else {
        let r = key_index(s.skip(1), k);
        if r < 0 {
            -1
        } else {
            r + 1
        }
    }
}

/// What [`key_index`] says about its sequence: it is a valid index whose
/// entry carries the key, with no earlier entry carrying it, or `-1` when
/// no entry carries it.
pub proof fn lemma_key_index<T>(s: Seq<(u16, T)>, k: u16)
    ensures
        -1 <= key_index(s, k) < s.len(),
        key_index(s, k) >= 0 ==> s[key_index(s, k)].0 == k,
        forall|m: int| 0 <= m < s.len() && m < key_index(s, k) ==> s[m].0 != k,
        key_index(s, k) == -1 ==> forall|m: int| 0 <= m < s.len() ==> s[m].0 != k,
    decreases s.len(),
{
    if s.len() > 0 && s[0].0 != k {
        lemma_key_index(s.skip(1), k);
        assert forall|m: int| 0 <= m < s.len() && m < key_index(s, k) implies s[m].0 != k by {
            if m > 0 {
                assert(s.skip(1)[m - 1] == s[m]);
            }
        }
        if key_index(s, k) == -1 {
            assert forall|m: int| 0 <= m < s.len() implies s[m].0 != k by {
                if m > 0 {
                    assert(s.skip(1)[m - 1] == s[m]);
                }
            }
        }
    }
}

/// The converse: a scan that found `k` first at `i` pins [`key_index`] to
/// `i`, and a scan that never found it pins `-1`.
pub proof fn lemma_key_index_converse<T>(s: Seq<(u16, T)>, k: u16, i: int)
    requires
        0 <= i <= s.len(),
        forall|m: int| 0 <= m < i ==> s[m].0 != k,
        i < s.len() ==> s[i].0 == k,
    ensures
        i < s.len() ==> key_index(s, k) == i,
        i == s.len() ==> key_index(s, k) == -1,
    decreases s.len(),
{
    if s.len() > 0 {
        if i == 0 {
        } else {
            assert(s[0].0 != k);
            assert forall|m: int| 0 <= m < i - 1 implies s.skip(1)[m].0 != k by {
                assert(s.skip(1)[m] == s[m + 1]);
            }
            if i - 1 < s.skip(1).len() {
                assert(s.skip(1)[i - 1] == s[i]);
            }
            lemma_key_index_converse(s.skip(1), k, i - 1);
        }
    }
}

/// A zero-valued stake, as a specification predicate.
pub open spec fn is_fresh_stake(sp: StepPosition) -> bool {
    sp.liquidity@ == 0 && sp.last_stable_fees_per_liq@ == 0 && sp.last_other_fees_per_liq@ == 0
}

/// All step keys of a keyed entry sequence are distinct.
pub open spec fn keys_unique<T>(s: Seq<(u16, T)>) -> bool {
    forall|i: int, j: int| 0 <= i < j < s.len() ==> s[i].0 != s[j].0
}

/// A provider's aggregate stake across the steps of one pool: the pair's
/// non-stable asset and one stake per touched step.
#[derive(Clone, Debug)]
pub struct Position {
    /// Asset id of the pair's non-stable asset.
    pub token: u64,
    /// The per-step stakes, keyed by step index (keys distinct).
    pub step_positions: Vec<(u16, StepPosition)>,
}

impl Position {
    /// The step table, as a sequence of `(step, stake)` entries.
    pub open spec fn entries(&self) -> Seq<(u16, StepPosition)> {
        self.step_positions@
    }

    /// A position is well formed when its step keys are distinct and each
    /// stake is a plain value.
    pub open spec fn wf(&self) -> bool {
        keys_unique(self.entries()) && forall|i: int|
            0 <= i < self.entries().len() ==> (#[trigger] self.entries()[i]).1.wf()
    }

    /// A fresh position over the non-stable asset `token`, with no steps.
    pub fn from(token: u64) -> (r: Position)
        ensures
            r.token == token,
            r.entries() =~= Seq::<(u16, StepPosition)>::empty(),
            r.wf(),
    {
        Position { token, step_positions: Vec::new() }
    }

    /// How many steps the position touches.
    pub fn step_count(&self) -> (r: usize)
        ensures
            r == self.entries().len(),
    {
        self.step_positions.len()
    }

    /// The entry at a table index (for walking the table).
    pub fn entry_at(&self, i: usize) -> (r: (u16, StepPosition))
        requires
            i < self.entries().len(),
        ensures
            r == self.entries()[i as int],
    {
        self.step_positions[i]
    }

    /// The stake at `step`, or a fresh zero stake if the position does not
    /// touch it.
    pub fn get_step(&self, step: u16) -> (r: StepPosition)
        ensures
            ({
                let ki = key_index(self.entries(), step);
                if ki >= 0 {
                    r == self.entries()[ki].1
                } else {
                    is_fresh_stake(r)
                }
            }),
    {
        let ghost s = self.entries();
        let n = self.step_positions.len();
        let mut i: usize = 0;
        while i < n
            invariant
                n == s.len(),
                s == self.entries(),
                0 <= i <= n,
                forall|m: int| 0 <= m < i ==> s[m].0 != step,
            decreases n - i,
        {
            if self.step_positions[i].0 == step {
                proof {
                    lemma_key_index_converse(s, step, i as int);
                }
                return self.step_positions[i].1;
            }
            i = i + 1;
        }
        proof {
            lemma_key_index_converse(s, step, n as int);
        }
        StepPosition::new()
    }

    /// Sets the stake at `step`, replacing an existing entry or appending
    /// a new one.
    pub fn insert_step(&mut self, step: u16, pool_step: StepPosition)
        ensures
            final(self).token == old(self).token,
            ({
                let s = old(self).entries();
                let ki = key_index(s, step);
                final(self).entries() == if ki >= 0 {
                    s.update(ki, (step, pool_step))
                } else {
                    s.push((step, pool_step))
                }
            }),
            old(self).wf() && pool_step.wf() ==> final(self).wf(),
    {
        let ghost s = self.entries();
        let n = self.step_positions.len();
        let mut i: usize = 0;
        while i < n
            invariant
                *self == *old(self),
                n == s.len(),
                s == self.entries(),
                0 <= i <= n,
                forall|m: int| 0 <= m < i ==> s[m].0 != step,
            decreases n - i,
        {
            if self.step_positions[i].0 == step {
                proof {
                    lemma_key_index_converse(s, step, i as int);
                }
                self.step_positions[i] = (step, pool_step);
                proof {
                    lemma_insert_wf_update(s, step, pool_step, i as int, old(self).wf());
                }
                return ;
            }
            i = i + 1;
        }
        proof {
            lemma_key_index_converse(s, step, n as int);
        }
        self.step_positions.push((step, pool_step));
        proof {
            if old(self).wf() && pool_step.wf() {
                lemma_key_index(s, step);
                assert forall|a: int, b: int|
                    0 <= a < b < self.entries().len() implies self.entries()[a].0
                    != self.entries()[b].0 by {
                    if b < s.len() {
                    } else {
                        assert(self.entries()[b] == (step, pool_step));
                        assert(s[a].0 != step);
                    }
                }
            }
        }
    }

    /// Removes and returns the stake at `step`; a fresh zero stake if the
    /// position does not touch it.
    pub fn remove_step(&mut self, step: u16) -> (r: StepPosition)
        ensures
            final(self).token == old(self).token,
            ({
                let s = old(self).entries();
                let ki = key_index(s, step);
                if ki >= 0 {
                    final(self).entries() == s.remove(ki) && r == s[ki].1
                } else {
                    final(self).entries() == s && is_fresh_stake(r)
                }
            }),
            old(self).wf() ==> final(self).wf(),
    {
        let ghost s = self.entries();
        let n = self.step_positions.len();
        let mut i: usize = 0;
        while i < n
            invariant
                *self == *old(self),
                n == s.len(),
                s == self.entries(),
                0 <= i <= n,
                forall|m: int| 0 <= m < i ==> s[m].0 != step,
            decreases n - i,
        {
            if self.step_positions[i].0 == step {
                proof {
                    lemma_key_index_converse(s, step, i as int);
                }
                let entry = self.step_positions.remove(i);
                proof {
                    if old(self).wf() {
                        assert forall|a: int, b: int|
                            0 <= a < b < self.entries().len() implies self.entries()[a].0
                            != self.entries()[b].0 by {
                            let sa = if a < i as int {
                                a
                            } else {
                                a + 1
                            };
                            let sb = if b < i as int {
                                b
                            } else {
                                b + 1
                            };
                            assert(self.entries()[a] == s[sa]);
                            assert(self.entries()[b] == s[sb]);
                        }
                        assert forall|a: int|
                            0 <= a < self.entries().len() implies (#[trigger] self.entries()[a]).1.wf() by {
                            let sa = if a < i as int {
                                a
                            } else {
                                a + 1
                            };
                            assert(self.entries()[a] == s[sa]);
                        }
                    }
                }
                return entry.1;
            }
            i = i + 1;
        }
        proof {
            lemma_key_index_converse(s, step, n as int);
        }
        StepPosition::new()
    }
}

/// Updating an existing entry keeps keys unique and stakes plain.
proof fn lemma_insert_wf_update(
    s: Seq<(u16, StepPosition)>,
    step: u16,
    sp: StepPosition,
    i: int,
    was_wf: bool,
)
    requires
        0 <= i < s.len(),
        s[i].0 == step,
    ensures
        was_wf && keys_unique(s) && sp.wf() && (forall|m: int|
            0 <= m < s.len() ==> (#[trigger] s[m]).1.wf()) ==> keys_unique(
            s.update(i, (step, sp)),
        ) && (forall|m: int|
            0 <= m < s.update(i, (step, sp)).len() ==> (#[trigger] s.update(i, (step, sp))[m]).1.wf()),
{
    let t = s.update(i, (step, sp));
    if keys_unique(s) {
        assert forall|a: int, b: int| 0 <= a < b < t.len() implies t[a].0 != t[b].0 by {
            assert(t[a].0 == s[a].0 && t[b].0 == s[b].0);
        }
    }
}

} // verus!
