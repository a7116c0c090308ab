//! The engine: the stores it owns, and the chain it runs on.

use crate::config::Config;
use crate::error::Error;
use crate::ledger::Trait;
use crate::market::{Market, MarketDispute};
use crate::state::{is_first, lemma_first_position, without, State, Window};
use std::collections::HashMap;
use vstd::prelude::*;

verus! {

/// The engine that settles prediction markets on the chain `T`.
pub struct Module<T: Trait> {
    env: T,
    config: Config,
    markets: HashMap<u128, Market>,
    market_count: u128,
    disputes: HashMap<u128, Vec<MarketDispute>>,
    report_index: HashMap<u64, Vec<u128>>,
    dispute_index: HashMap<u64, Vec<u128>>,
    pools: HashMap<u128, u128>,
}

/// The buckets of an index, empty where the index has no entry.
pub open spec fn buckets(index: Map<u64, Vec<u128>>) -> Map<u64, Seq<u128>> {
    Map::total(
        |block: u64|
            if index.contains_key(block) {
                index[block]@
            } else {
                Seq::empty()
            },
    )
}

/// The dispute logs of a store, empty where the store has no entry.
pub open spec fn logs(store: Map<u128, Vec<MarketDispute>>) -> Map<u128, Seq<MarketDispute>> {
    Map::total(
        |id: u128|
            if store.contains_key(id) {
                store[id]@
            } else {
                Seq::empty()
            },
    )
}

/// Removes the first occurrence of `item` from `items`, moving the last
/// entry into its place, and says whether there was one.
pub fn remove_item(items: &mut Vec<u128>, item: u128) -> (found: bool)
    ensures
        found == old(items)@.contains(item),
        final(items)@ == without(old(items)@, item),
{
    let mut pos: usize = 0;
    while pos < items.len()
        invariant
            pos <= items.len(),
            items@ == old(items)@,
            forall|j: int| 0 <= j < pos ==> items@[j] != item,
        decreases items.len() - pos,
    {
        if items[pos] == item {
            proof {
                assert(is_first(items@, item, pos as int));
                lemma_first_position(items@, item, pos as int);
            }
            items.swap_remove(pos);
            return true;
        }
        pos += 1;
    }
    false
}

/// Lists `id` in the bucket of `block`.
fn index_push(index: &mut HashMap<u64, Vec<u128>>, block: u64, id: u128)
    ensures
        buckets(final(index)@) == buckets(old(index)@).insert(
            block,
            buckets(old(index)@)[block].push(id),
        ),
{
    broadcast use vstd::std_specs::hash::group_hash_axioms;

    let mut ids = match index.remove(&block) {
        Some(ids) => ids,
        None => Vec::new(),
    };
    ids.push(id);
    index.insert(block, ids);
    assert(buckets(index@) =~= buckets(old(index)@).insert(
        block,
        buckets(old(index)@)[block].push(id),
    ));
}

/// Takes `id` off the bucket of `block`.
fn index_remove(index: &mut HashMap<u64, Vec<u128>>, block: u64, id: u128)
    ensures
        buckets(final(index)@) == buckets(old(index)@).insert(
            block,
            without(buckets(old(index)@)[block], id),
        ),
{
    broadcast use vstd::std_specs::hash::group_hash_axioms;

    match index.remove(&block) {
        Some(mut ids) => {
            remove_item(&mut ids, id);
            index.insert(block, ids);
        },
        None => {
            assert(!Seq::<u128>::empty().contains(id));
        },
    }
    assert(buckets(index@) =~= buckets(old(index)@).insert(
        block,
        without(buckets(old(index)@)[block], id),
    ));
}

/// Empties the bucket of `block` and returns what it listed.
fn index_take(index: &mut HashMap<u64, Vec<u128>>, block: u64) -> (ids: Vec<u128>)
    ensures
        ids@ == buckets(old(index)@)[block],
        buckets(final(index)@) == buckets(old(index)@).insert(block, Seq::empty()),
{
    broadcast use vstd::std_specs::hash::group_hash_axioms;

    let ids = match index.remove(&block) {
        Some(ids) => ids,
        None => Vec::new(),
    };
    assert(buckets(index@) =~= buckets(old(index)@).insert(block, Seq::empty()));
    ids
}

/// A copy of the bucket of `block`.
fn index_get(index: &HashMap<u64, Vec<u128>>, block: u64) -> (ids: Vec<u128>)
    ensures
        ids@ == buckets(index@)[block],
{
    broadcast use vstd::std_specs::hash::group_hash_axioms;

    let mut ids: Vec<u128> = Vec::new();
    match index.get(&block) {
        Some(stored) => {
            let mut i: usize = 0;
            while i < stored.len()
                invariant
                    i <= stored.len(),
                    ids@ == stored@.take(i as int),
                decreases stored.len() - i,
            {
                ids.push(stored[i]);
                assert(stored@.take(i + 1) =~= stored@.take(i as int).push(stored@[i as int]));
                i += 1;
            }
            assert(stored@.take(stored.len() as int) =~= stored@);
        },
        None => {},
    }
    ids
}

impl<T: Trait> View for Module<T> {
    type V = State;

    closed spec fn view(&self) -> State {
        State {
            config: self.config,
            ledgers: self.env.ledgers(),
            markets: self.markets@,
            market_count: self.market_count,
            disputes: logs(self.disputes@),
            report_index: buckets(self.report_index@),
            dispute_index: buckets(self.dispute_index@),
            pools: self.pools@,
        }
    }
}

impl<T: Trait> Module<T> {
    /// What holds of the engine at all times.
    pub open spec fn wf(&self) -> bool {
        self@.wf()
    }

    /// A new engine with no markets, on the chain `env`. None where the
    /// configuration is not valid.
    pub fn new(config: Config, env: T) -> (r: Option<Module<T>>)
        ensures
            match r {
                Some(module) => {
                    &&& config.valid()
                    &&& module@ == State::initial(config, env.ledgers())
                    &&& module.wf()
                },
                None => !config.valid(),
            },
    {
        if !config.is_valid() {
            return None;
        }
        let module = Module {
            env,
            config,
            markets: HashMap::new(),
            market_count: 0,
            disputes: HashMap::new(),
            report_index: HashMap::new(),
            dispute_index: HashMap::new(),
            pools: HashMap::new(),
        };
        proof {
            let s = State::initial(config, env.ledgers());
            env.lemma_ledgers_total();
            assert(module@.disputes =~= s.disputes);
            assert(module@.report_index =~= s.report_index);
            assert(module@.dispute_index =~= s.dispute_index);
            assert(module@.markets =~= s.markets);
            assert(module@.pools =~= s.pools);
            assert forall|window: Window, block: u64| #[trigger] s.bucket_wf(window, block) by {
                assert(s.bucket(window, block) =~= Seq::empty());
            }
            assert forall|id: u128| #[trigger] s.log_wf(id) by {
                assert(s.disputes[id] =~= Seq::empty());
            }
        }
        Some(module)
    }

    /// The constants of the engine.
    pub fn config(&self) -> (config: &Config)
        ensures
            *config == self@.config,
    {
        &self.config
    }

    /// The chain that the engine runs on.
    pub closed spec fn chain(&self) -> T {
        self.env
    }

    /// The ledgers that the contracts speak of are those of the chain.
    pub proof fn lemma_chain_ledgers(&self)
        ensures
            self.chain().ledgers() == self@.ledgers,
    {
    }

    /// The chain that the engine runs on.
    pub fn env(&self) -> (env: &T)
        ensures
            *env == self.chain(),
            env.ledgers() == self@.ledgers,
    {
        &self.env
    }

    /// The chain that the engine runs on, to operate on its ledgers.
    pub(crate) fn env_mut(&mut self) -> (env: &mut T)
        ensures
            *env == old(self).chain(),
            *final(env) == final(self).chain(),
            env.ledgers() == old(self)@.ledgers,
            final(self)@ == (State { ledgers: final(env).ledgers(), ..old(self)@ }),
            final(self)@.ledgers.total(),
    {
        proof {
            assert forall|chain: T| (#[trigger] chain.ledgers()).total() by {
                chain.lemma_ledgers_total();
            }
        }
        &mut self.env
    }

    /// The number of markets created so far.
    pub fn market_count(&self) -> (count: u128)
        ensures
            count == self@.market_count,
    {
        self.market_count
    }

    /// The record of market `market_id`.
    pub fn market_by_id(&self, market_id: u128) -> (r: Result<&Market, Error>)
        ensures
            match r {
                Ok(market) => self@.markets.contains_key(market_id) && *market
                    == self@.markets[market_id],
                Err(e) => e == Error::MarketNotFound && !self@.markets.contains_key(market_id),
            },
    {
        broadcast use vstd::std_specs::hash::group_hash_axioms;

        match self.markets.get(&market_id) {
            Some(market) => Ok(market),
            None => Err(Error::MarketNotFound),
        }
    }

    /// The dispute log of market `market_id`, oldest first.
    pub fn disputes(&self, market_id: u128) -> (log: Vec<MarketDispute>)
        ensures
            log@ == self@.disputes[market_id],
    {
        broadcast use vstd::std_specs::hash::group_hash_axioms;

        let mut log: Vec<MarketDispute> = Vec::new();
        match self.disputes.get(&market_id) {
            Some(stored) => {
                let mut i: usize = 0;
                while i < stored.len()
                    invariant
                        i <= stored.len(),
                        log@ == stored@.take(i as int),
                    decreases stored.len() - i,
                {
                    log.push(stored[i]);
                    assert(stored@.take(i + 1) =~= stored@.take(i as int).push(stored@[i as int]));
                    i += 1;
                }
                assert(stored@.take(stored.len() as int) =~= stored@);
            },
            None => {},
        }
        log
    }

    /// The markets that were reported at `block` and wait there for their
    /// dispute window to close.
    pub fn market_ids_per_report_block(&self, block: u64) -> (ids: Vec<u128>)
        ensures
            ids@ == self@.report_index[block],
    {
        index_get(&self.report_index, block)
    }

    /// The markets whose latest dispute was filed at `block`.
    pub fn market_ids_per_dispute_block(&self, block: u64) -> (ids: Vec<u128>)
        ensures
            ids@ == self@.dispute_index[block],
    {
        index_get(&self.dispute_index, block)
    }

    /// The pool of market `market_id`, where it has one.
    pub fn market_to_swap_pool(&self, market_id: u128) -> (pool: Option<u128>)
        ensures
            pool == (if self@.pools.contains_key(market_id) {
                Some(self@.pools[market_id])
            } else {
                None
            }),
    {
        broadcast use vstd::std_specs::hash::group_hash_axioms;

        match self.pools.get(&market_id) {
            Some(pool) => Some(*pool),
            None => None,
        }
    }

    /// Hands out the next market identifier and advances the counter.
    pub fn get_next_market_id(&mut self) -> (r: Result<u128, Error>)
        requires
            old(self).wf(),
        ensures
            final(self).wf(),
            match r {
                Ok(id) => {
                    &&& id == old(self)@.market_count
                    &&& id < u128::MAX
                    &&& final(self)@ == (State { market_count: (id + 1) as u128, ..old(self)@ })
                },
                Err(e) => {
                    &&& e == Error::MarketIdOverflow
                    &&& old(self)@.market_count == u128::MAX
                    &&& final(self)@ == old(self)@
                },
            },
    {
        let next = self.market_count;
        match next.checked_add(1) {
            Some(inc) => {
                proof {
                    self@.lemma_wf_counter();
                }
                self.market_count = inc;
                Ok(next)
            },
            None => Err(Error::MarketIdOverflow),
        }
    }

    /// Stores `market` under `market_id`.
    pub(crate) fn put_market(&mut self, market_id: u128, market: Market)
        ensures
            final(self)@ == (State {
                markets: old(self)@.markets.insert(market_id, market),
                ..old(self)@
            }),
    {
        broadcast use vstd::std_specs::hash::group_hash_axioms;

        self.markets.insert(market_id, market);
    }

    /// Takes the record of `market_id` out of the store.
    pub(crate) fn take_market(&mut self, market_id: u128) -> (r: Option<Market>)
        ensures
            r == (if old(self)@.markets.contains_key(market_id) {
                Some(old(self)@.markets[market_id])
            } else {
                None
            }),
            final(self)@ == (State {
                markets: old(self)@.markets.remove(market_id),
                ..old(self)@
            }),
    {
        broadcast use vstd::std_specs::hash::group_hash_axioms;

        self.markets.remove(&market_id)
    }

    /// Appends `dispute` to the log of `market_id`.
    pub(crate) fn push_dispute(&mut self, market_id: u128, dispute: MarketDispute)
        ensures
            final(self)@ == (State {
                disputes: old(self)@.disputes.insert(
                    market_id,
                    old(self)@.disputes[market_id].push(dispute),
                ),
                ..old(self)@
            }),
    {
        broadcast use vstd::std_specs::hash::group_hash_axioms;

        let mut log = match self.disputes.remove(&market_id) {
            Some(log) => log,
            None => Vec::new(),
        };
        log.push(dispute);
        self.disputes.insert(market_id, log);
        assert(self@.disputes =~= old(self)@.disputes.insert(
            market_id,
            old(self)@.disputes[market_id].push(dispute),
        ));
    }

    /// Drops the dispute log of `market_id`.
    pub(crate) fn clear_disputes(&mut self, market_id: u128)
        ensures
            final(self)@ == (State {
                disputes: old(self)@.disputes.insert(market_id, Seq::empty()),
                ..old(self)@
            }),
    {
        broadcast use vstd::std_specs::hash::group_hash_axioms;

        self.disputes.remove(&market_id);
        assert(self@.disputes =~= old(self)@.disputes.insert(market_id, Seq::empty()));
    }

    /// Lists `market_id` in the bucket of `block`.
    pub(crate) fn bucket_push(&mut self, window: Window, block: u64, market_id: u128)
        ensures
            final(self)@ == old(self)@.with_bucket(
                window,
                block,
                old(self)@.bucket(window, block).push(market_id),
            ),
    {
        match window {
            Window::Report => index_push(&mut self.report_index, block, market_id),
            Window::Dispute => index_push(&mut self.dispute_index, block, market_id),
        }
    }

    /// Takes `market_id` off the bucket of `block`.
    pub(crate) fn bucket_remove(&mut self, window: Window, block: u64, market_id: u128)
        ensures
            final(self)@ == old(self)@.with_bucket(
                window,
                block,
                without(old(self)@.bucket(window, block), market_id),
            ),
    {
        match window {
            Window::Report => index_remove(&mut self.report_index, block, market_id),
            Window::Dispute => index_remove(&mut self.dispute_index, block, market_id),
        }
    }

    /// Empties the bucket of `block` and returns what it listed.
    pub(crate) fn bucket_take(&mut self, window: Window, block: u64) -> (ids: Vec<u128>)
        ensures
            ids@ == old(self)@.bucket(window, block),
            final(self)@ == old(self)@.with_bucket(window, block, Seq::empty()),
    {
        match window {
            Window::Report => index_take(&mut self.report_index, block),
            Window::Dispute => index_take(&mut self.dispute_index, block),
        }
    }

    /// Records `pool` as the pool of `market_id`.
    pub(crate) fn put_pool(&mut self, market_id: u128, pool: u128)
        ensures
            final(self)@ == (State { pools: old(self)@.pools.insert(market_id, pool), ..old(self)@ }),
    {
        broadcast use vstd::std_specs::hash::group_hash_axioms;

        self.pools.insert(market_id, pool);
    }
}

} // verus!
