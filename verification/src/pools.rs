//! The swap pool of a market: at most one, created by the pool
//! collaborator.

use crate::account::AccountId;
use crate::error::Error;
use crate::ledger::{Refused, Trait};
use crate::market::{Asset, MarketStatus};
use crate::module::Module;
use crate::state::State;
use crate::trading::share_of;
use vstd::prelude::*;

verus! {

/// The assets of the pool of a market: the currency, then the share of
/// each outcome in order.
pub open spec fn pool_assets(market_id: u128, categories: u16) -> Seq<Asset> {
    Seq::new(
        (categories + 1) as nat,
        |i: int|
            if i == 0 {
                Asset::Ztg
            } else {
                share_of(market_id, (i - 1) as u16)
            },
    )
}

/// The assets of the pool of a market.
pub fn assets_of_pool(market_id: u128, categories: u16) -> (assets: Vec<Asset>)
    ensures
        assets@ == pool_assets(market_id, categories),
{
    let mut assets: Vec<Asset> = Vec::new();
    assets.push(Asset::Ztg);
    let mut i: u16 = 0;
    while i < categories
        invariant
            i <= categories,
            assets@.len() == i + 1,
            forall|j: int| 0 <= j < assets@.len() ==> assets@[j] == pool_assets(market_id, categories)[j],
        decreases categories - i,
    {
        assets.push(Asset::PredictionMarketShare(market_id, i));
        i += 1;
    }
    assert(assets@ =~= pool_assets(market_id, categories));
    assets
}

impl State {
    /// Why no pool can be deployed for market `id`, if none can.
    pub open spec fn pool_check(self, id: u128) -> Option<Error> {
        if !self.markets.contains_key(id) {
            Some(Error::MarketNotFound)
        } else if self.markets[id].status != MarketStatus::Active {
            Some(Error::MarketNotActive)
        } else if self.pools.contains_key(id) {
            Some(Error::SwapPoolExists)
        } else {
            None
        }
    }
}

impl<T: Trait> Module<T> {
    /// Puts on record the pool of a market that the pool collaborator was
    /// asked to create: `created` is its answer.
    pub fn record_pool(&mut self, created: Result<u128, Refused>, market_id: u128) -> (r: Result<
        u128,
        Error,
    >)
        requires
            old(self).wf(),
        ensures
            final(self).wf(),
            match created {
                Ok(pool) => r == Ok::<u128, Error>(pool) && final(self)@ == (State {
                    pools: old(self)@.pools.insert(market_id, pool),
                    ..old(self)@
                }),
                Err(_) => r == Err::<u128, Error>(Error::PoolRefused) && final(self)@ == old(self)@,
            },
    {
        match created {
            Ok(pool) => {
                proof {
                    old(self)@.lemma_wf_pools(old(self)@.pools.insert(market_id, pool));
                }
                self.put_pool(market_id, pool);
                Ok(pool)
            },
            Err(_) => Err(Error::PoolRefused),
        }
    }

    /// Deploys the swap pool of an active market that has none, seeded by
    /// `sender`, and returns its identifier. The pool collaborator is
    /// asked for a pool of the currency and the share of every outcome, at
    /// the given weights and without a fee; where it refuses, nothing
    /// changes. Nothing is stated of what creating the pool does to the
    /// ledgers.
    pub fn deploy_swap_pool_for_market(
        &mut self,
        sender: AccountId,
        market_id: u128,
        weights: Vec<u128>,
    ) -> (r: Result<u128, Error>)
        requires
            old(self).wf(),
        ensures
            final(self).wf(),
            match old(self)@.pool_check(market_id) {
                Some(e) => r == Err::<u128, Error>(e) && final(self)@ == old(self)@,
                None => match old(self).chain().pool_answer(
                    sender,
                    pool_assets(market_id, old(self)@.markets[market_id].categories),
                    0,
                    weights@,
                ) {
                    Ok(pool) => r == Ok::<u128, Error>(pool) && final(self)@ == (State {
                        ledgers: final(self)@.ledgers,
                        pools: old(self)@.pools.insert(market_id, pool),
                        ..old(self)@
                    }),
                    Err(_) => r == Err::<u128, Error>(Error::PoolRefused) && final(self)@ == old(self)@,
                },
            },
    {
        let (status, categories) = match self.market_by_id(market_id) {
            Ok(market) => (market.status, market.outcomes()),
            Err(e) => {
                return Err(e);
            },
        };
        if status != MarketStatus::Active {
            return Err(Error::MarketNotActive);
        }
        if self.market_to_swap_pool(market_id).is_some() {
            return Err(Error::SwapPoolExists);
        }
        let assets = assets_of_pool(market_id, categories);
        let created = self.env_mut().create_pool(&sender, assets, 0, weights);
        proof {
            old(self)@.lemma_wf_ledgers(self@.ledgers);
        }
        self.record_pool(created, market_id)
    }
}

} // verus!
