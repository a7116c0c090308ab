//! The market registry: creating markets, and what the advisory committee
//! and the creator can do with one that waits for approval.

use crate::account::AccountId;
use crate::error::Error;
use crate::ledger::{Refused, Trait};
use crate::market::{Market, MarketCreation, MarketEnd, MarketStatus, MarketType, Time};
use crate::module::Module;
use crate::resolution::{wipe_others, wipe_shares};
use crate::state::{State, Window};
use vstd::prelude::*;

verus! {

/// The record of a market at its creation.
pub open spec fn new_market(
    creator: AccountId,
    oracle: AccountId,
    end: MarketEnd,
    metadata: Vec<u8>,
    creation: MarketCreation,
    categories: u16,
) -> Market {
    Market {
        creator,
        creation,
        creator_fee: 0,
        oracle,
        end,
        metadata,
        market_type: MarketType::Categorical,
        categories,
        status: match creation {
            MarketCreation::Permissionless => MarketStatus::Active,
            MarketCreation::Advised => MarketStatus::Proposed,
        },
        report: None,
        resolved_outcome: None,
    }
}

impl State {
    /// Why a market cannot be created, if it cannot.
    pub open spec fn create_check(self, end: MarketEnd, categories: u16, now: Time) -> Option<
        Error,
    > {
        if categories > self.config.max_categories {
            Some(Error::InvalidCategoryCount)
        } else if !end.is_open(now) {
            Some(Error::EndTooSoon)
        } else if self.market_count == u128::MAX {
            Some(Error::MarketIdOverflow)
        } else {
            None
        }
    }

    /// The state after `market` was created: its creation bond in escrow,
    /// its record under the next identifier.
    pub open spec fn created(self, market: Market) -> State {
        State {
            ledgers: self.ledgers.escrowed(
                market.creator,
                self.config.creation_bond(market.creation) as u128,
            ),
            ..self.with_new_market(market)
        }
    }

    /// The state after market `id` was approved: the advisory bond back
    /// with the creator, the market active.
    pub open spec fn approved(self, id: u128) -> State {
        let market = self.markets[id];
        State {
            ledgers: self.ledgers.released(market.creator, self.config.advisory_bond),
            markets: self.markets.insert(id, Market { status: MarketStatus::Active, ..market }),
            ..self
        }
    }

    /// The state after market `id` was rejected: the advisory bond taken
    /// from the creator's escrow and paid to the penalty sink, the record
    /// deleted.
    pub open spec fn rejected(self, id: u128) -> State {
        let creator = self.markets[id].creator;
        let bond = self.config.advisory_bond;
        State {
            ledgers: self.ledgers.forfeited(creator, bond).paid(
                self.config.penalty_sink,
                self.ledgers.forfeitable(creator, bond),
            ),
            markets: self.markets.remove(id),
            ..self
        }
    }

    /// The state after market `id` was destroyed: off the scheduling
    /// indices, its record and its dispute log deleted, and every share of
    /// every outcome destroyed.
    pub open spec fn destroyed(self, id: u128) -> State {
        let cleared = self.unscheduled(id);
        State {
            ledgers: wipe_others(
                cleared.ledgers,
                id,
                None,
                self.markets[id].categories as nat,
            ),
            markets: cleared.markets.remove(id),
            disputes: cleared.disputes.insert(id, Seq::empty()),
            ..cleared
        }
    }

    /// The state after market `id` was cancelled: the advisory bond back
    /// with the creator, the record deleted.
    pub open spec fn cancelled(self, id: u128) -> State {
        State {
            ledgers: self.ledgers.released(self.markets[id].creator, self.config.advisory_bond),
            markets: self.markets.remove(id),
            ..self
        }
    }
}

impl<T: Trait> Module<T> {
    /// Records a market whose creation bond the currency ledger was asked
    /// to escrow: `escrowed` is the ledger's answer.
    pub fn record_market(
        &mut self,
        escrowed: Result<(), Refused>,
        sender: AccountId,
        oracle: AccountId,
        end: MarketEnd,
        metadata: Vec<u8>,
        creation: MarketCreation,
        categories: u16,
    ) -> (r: Result<u128, Error>)
        requires
            old(self).wf(),
            categories <= old(self)@.config.max_categories,
            old(self)@.market_count < u128::MAX,
        ensures
            final(self).wf(),
            match escrowed {
                Ok(_) => {
                    &&& r == Ok::<u128, Error>(old(self)@.market_count)
                    &&& final(self)@ == old(self)@.with_new_market(
                        new_market(sender, oracle, end, metadata, creation, categories),
                    )
                },
                Err(_) => r == Err::<u128, Error>(Error::InsufficientFunds) && final(self)@ == old(self)@,
            },
    {
        if escrowed.is_err() {
            return Err(Error::InsufficientFunds);
        }
        let status = match creation {
            MarketCreation::Permissionless => MarketStatus::Active,
            MarketCreation::Advised => MarketStatus::Proposed,
        };
        let market = Market {
            creator: sender,
            creation,
            creator_fee: 0,
            oracle,
            end,
            metadata,
            market_type: MarketType::Categorical,
            categories,
            status,
            report: None,
            resolved_outcome: None,
        };
        proof {
            old(self)@.lemma_wf_new_market(market);
        }
        match self.get_next_market_id() {
            Ok(market_id) => {
                self.put_market(market_id, market);
                Ok(market_id)
            },
            Err(e) => Err(e),
        }
    }

    /// Creates a categorical market for `sender` and returns its
    /// identifier. The creation bond moves into escrow; where the currency
    /// ledger does not accept that, the funds are insufficient and nothing
    /// changes.
    pub fn create_categorical_market(
        &mut self,
        sender: AccountId,
        oracle: AccountId,
        end: MarketEnd,
        metadata: Vec<u8>,
        creation: MarketCreation,
        categories: u16,
        now: Time,
    ) -> (r: Result<u128, Error>)
        requires
            old(self).wf(),
        ensures
            final(self).wf(),
            match old(self)@.create_check(end, categories, now) {
                Some(e) => r == Err::<u128, Error>(e) && final(self)@ == old(self)@,
                None => if old(self).chain().accepts_escrow(
                    sender,
                    old(self)@.config.creation_bond(creation) as u128,
                ) {
                    &&& r == Ok::<u128, Error>(old(self)@.market_count)
                    &&& old(self)@.ledgers.free[sender] >= old(self)@.config.creation_bond(creation)
                    &&& final(self)@ == old(self)@.created(
                        new_market(sender, oracle, end, metadata, creation, categories),
                    )
                } else {
                    r == Err::<u128, Error>(Error::InsufficientFunds) && final(self)@ == old(self)@
                },
            },
    {
        if categories > self.config().max_categories {
            return Err(Error::InvalidCategoryCount);
        }
        if !Self::is_market_active(end, now) {
            return Err(Error::EndTooSoon);
        }
        if self.market_count() == u128::MAX {
            return Err(Error::MarketIdOverflow);
        }
        let bond = self.config().creation_bond_of(creation);
        let escrowed = self.env_mut().escrow(&sender, bond);
        proof {
            old(self)@.lemma_wf_ledgers(self@.ledgers);
        }
        self.record_market(escrowed, sender, oracle, end, metadata, creation, categories)
    }

    /// Whether a market that ends at `end` is open for trading at `now`.
    pub fn is_market_active(end: MarketEnd, now: Time) -> (open: bool)
        ensures
            open == end.is_open(now),
    {
        match end {
            MarketEnd::Block(block) => now.block < block,
            MarketEnd::Timestamp(timestamp) => now.moment < timestamp,
        }
    }

    /// Approves a market that waits for the advisory committee: returns the
    /// advisory bond to its creator and makes the market active.
    pub fn approve_market(&mut self, authorized: bool, market_id: u128) -> (r: Result<(), Error>)
        requires
            old(self).wf(),
        ensures
            final(self).wf(),
            r == (if !authorized {
                Err::<(), Error>(Error::NotAuthorized)
            } else if !old(self)@.markets.contains_key(market_id) {
                Err(Error::MarketNotFound)
            } else if old(self)@.markets[market_id].status != MarketStatus::Proposed {
                Err(Error::MarketNotProposed)
            } else {
                Ok(())
            }),
            final(self)@ == (if r.is_ok() {
                old(self)@.approved(market_id)
            } else {
                old(self)@
            }),
    {
        if !authorized {
            return Err(Error::NotAuthorized);
        }
        let (creator, status) = match self.market_by_id(market_id) {
            Ok(market) => (market.creator, market.status),
            Err(e) => {
                return Err(e);
            },
        };
        if status != MarketStatus::Proposed {
            return Err(Error::MarketNotProposed);
        }
        let bond = self.config().advisory_bond;
        self.env_mut().release(&creator, bond);
        proof {
            old(self)@.lemma_wf_ledgers(self@.ledgers);
            assert(self@.market_wf(market_id));
            let market = self@.markets[market_id];
            self@.lemma_wf_update_market(
                market_id,
                Market { status: MarketStatus::Active, ..market },
            );
        }
        match self.take_market(market_id) {
            Some(mut market) => {
                market.status = MarketStatus::Active;
                self.put_market(market_id, market);
            },
            None => {},
        }
        assert(self@.markets =~= old(self)@.approved(market_id).markets);
        Ok(())
    }

    /// Rejects a market: takes the advisory bond out of the creator's
    /// escrow, pays it to the penalty sink, and deletes the record.
    pub fn reject_market(&mut self, authorized: bool, market_id: u128) -> (r: Result<(), Error>)
        requires
            old(self).wf(),
        ensures
            final(self).wf(),
            r == (if !authorized {
                Err::<(), Error>(Error::NotAuthorized)
            } else if !old(self)@.markets.contains_key(market_id) {
                Err(Error::MarketNotFound)
            } else {
                Ok(())
            }),
            final(self)@ == (if r.is_ok() {
                old(self)@.rejected(market_id)
            } else {
                old(self)@
            }),
    {
        if !authorized {
            return Err(Error::NotAuthorized);
        }
        let creator = match self.market_by_id(market_id) {
            Ok(market) => market.creator,
            Err(e) => {
                return Err(e);
            },
        };
        let bond = self.config().advisory_bond;
        let sink = self.config().penalty_sink;
        let taken = self.env_mut().forfeit(&creator, bond);
        self.env_mut().pay(&sink, taken);
        proof {
            old(self)@.lemma_wf_ledgers(self@.ledgers);
            self@.lemma_wf_remove_market(market_id);
        }
        self.take_market(market_id);
        Ok(())
    }

    /// Destroys a market, whatever its status: takes it off the scheduling
    /// indices, deletes its record and its dispute log, and destroys every
    /// share of every outcome. Bonds still in escrow for it stay there.
    pub fn admin_destroy_market(&mut self, authorized: bool, market_id: u128) -> (r: Result<
        (),
        Error,
    >)
        requires
            old(self).wf(),
        ensures
            final(self).wf(),
            r == (if !authorized {
                Err::<(), Error>(Error::NotAuthorized)
            } else if !old(self)@.markets.contains_key(market_id) {
                Err(Error::MarketNotFound)
            } else {
                Ok(())
            }),
            final(self)@ == (if r.is_ok() {
                old(self)@.destroyed(market_id)
            } else {
                old(self)@
            }),
            r.is_ok() ==> final(self)@.unlisted(market_id),
    {
        if !authorized {
            return Err(Error::NotAuthorized);
        }
        let categories = match self.market_by_id(market_id) {
            Ok(market) => market.outcomes(),
            Err(e) => {
                return Err(e);
            },
        };
        proof {
            old(self)@.lemma_unscheduled(market_id);
        }
        match self.clear_auto_resolve(market_id) {
            Ok(_) => {},
            Err(e) => {
                return Err(e);
            },
        }
        let ghost cleared = self@;
        proof {
            cleared.lemma_wf_remove_market(market_id);
            (State { markets: cleared.markets.remove(market_id), ..cleared }).lemma_wf_clear_log(
                market_id,
            );
        }
        self.take_market(market_id);
        self.clear_disputes(market_id);
        let ghost emptied = self@;
        wipe_shares(self.env_mut(), market_id, None, categories);
        proof {
            emptied.lemma_wf_ledgers(self@.ledgers);
            assert forall|window: Window, block: u64| !(#[trigger] self@.bucket(
                window,
                block,
            )).contains(market_id) by {
                assert(self@.bucket(window, block) == cleared.bucket(window, block));
            }
        }
        Ok(())
    }

    /// Cancels a market that waits for approval, for its creator: returns
    /// the advisory bond and deletes the record.
    pub fn cancel_pending_market(&mut self, sender: AccountId, market_id: u128) -> (r: Result<
        (),
        Error,
    >)
        requires
            old(self).wf(),
        ensures
            final(self).wf(),
            r == (if !old(self)@.markets.contains_key(market_id) {
                Err::<(), Error>(Error::MarketNotFound)
            } else if old(self)@.markets[market_id].creator != sender {
                Err(Error::NotCreator)
            } else if old(self)@.markets[market_id].status != MarketStatus::Proposed {
                Err(Error::MarketNotProposed)
            } else {
                Ok(())
            }),
            final(self)@ == (if r.is_ok() {
                old(self)@.cancelled(market_id)
            } else {
                old(self)@
            }),
    {
        let (creator, status) = match self.market_by_id(market_id) {
            Ok(market) => (market.creator, market.status),
            Err(e) => {
                return Err(e);
            },
        };
        if creator != sender {
            return Err(Error::NotCreator);
        }
        if status != MarketStatus::Proposed {
            return Err(Error::MarketNotProposed);
        }
        let bond = self.config().advisory_bond;
        self.env_mut().release(&creator, bond);
        proof {
            old(self)@.lemma_wf_ledgers(self@.ledgers);
            self@.lemma_wf_remove_market(market_id);
        }
        self.take_market(market_id);
        Ok(())
    }
}

} // verus!
