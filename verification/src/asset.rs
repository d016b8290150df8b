//! A container of one asset: the custody-layer abstraction the engine
//! consumes and returns. The engine never inspects how custody is
//! enforced; a container is an asset identifier plus a decimal amount.

use crate::decimal::{spec_add, Decimal};
use crate::errors::EngineError;
use vstd::prelude::*;

verus! {

broadcast use crate::decimal::lemma_decimal_view_range;

/// An amount of one asset, identified by a plain asset id.
#[derive(Clone, Copy, Debug)]
pub struct AssetContainer {
    asset: u64,
    amount: Decimal,
}

impl AssetContainer {
    /// An empty container of the given asset.
    pub fn new(asset: u64) -> (r: AssetContainer)
        ensures
            r.asset_of() == asset,
            r.amount_of() == 0,
    {
        AssetContainer { asset, amount: Decimal::zero() }
    }

    /// A container holding `amount` of `asset`.
    pub fn with_amount(asset: u64, amount: Decimal) -> (r: AssetContainer)
        requires
            amount@ >= 0,
        ensures
            r.asset_of() == asset,
            r.amount_of() == amount@,
    {
        AssetContainer { asset, amount }
    }

    /// The asset this container holds.
    pub closed spec fn asset_of(&self) -> u64 {
        self.asset
    }

    /// The amount this container holds (raw).
    pub closed spec fn amount_of(&self) -> int {
        self.amount@
    }

    /// A container is well formed when its amount is not negative.
    pub open spec fn wf(&self) -> bool {
        self.amount_of() >= 0
    }

    /// The amount held.
    pub fn amount(&self) -> (r: Decimal)
        ensures
            r@ == self.amount_of(),
    {
        self.amount
    }

    /// The asset id held.
    pub fn asset_id(&self) -> (r: u64)
        ensures
            r == self.asset_of(),
    {
        self.asset
    }

    /// Splits off `amount`, failing if and only if `amount` is negative or
    /// exceeds what is available; on failure the container is unchanged.
    pub fn take(&mut self, amount: Decimal) -> (r: Result<AssetContainer, EngineError>)
        ensures
            match r {
                Ok(c) => 0 <= amount@ <= old(self).amount_of() && c.asset_of() == old(
                    self,
                ).asset_of() && c.amount_of() == amount@ && final(self).asset_of() == old(
                    self,
                ).asset_of() && final(self).amount_of() == old(self).amount_of() - amount@,
                Err(e) => e == EngineError::InsufficientFunds && !(0 <= amount@ <= old(
                    self,
                ).amount_of()) && *final(self) == *old(self),
            },
    {
        if amount.is_negative() || self.amount.lt(&amount) {
            return Err(EngineError::InsufficientFunds);
        }
        let rest = match self.amount.checked_sub(&amount) {
            Ok(v) => v,
            Err(e) => {
                proof {
                    assert(false);
                }
                return Err(EngineError::InsufficientFunds);
            },
        };
        self.amount = rest;
        Ok(AssetContainer { asset: self.asset, amount })
    }

    /// Merges another container in, failing if and only if the assets
    /// differ or the sum overflows; on failure the container is unchanged.
    pub fn put(&mut self, other: AssetContainer) -> (r: Result<(), EngineError>)
        ensures
            match r {
                Ok(_) => other.asset_of() == old(self).asset_of() && spec_add(
                    old(self).amount_of(),
                    other.amount_of(),
                ) == Ok::<int, EngineError>(final(self).amount_of()) && final(self).asset_of()
                    == old(self).asset_of(),
                Err(e) => *final(self) == *old(self) && if other.asset_of() != old(
                    self,
                ).asset_of() {
                    e == EngineError::AssetMismatch
                } else {
                    spec_add(old(self).amount_of(), other.amount_of()) == Err::<
                        int,
                        EngineError,
                    >(e)
                },
            },
    {
        if other.asset != self.asset {
            return Err(EngineError::AssetMismatch);
        }
        let sum = match self.amount.checked_add(&other.amount) {
            Ok(v) => v,
            Err(e) => {
                return Err(e);
            },
        };
        self.amount = sum;
        Ok(())
    }
}

} // verus!
