//! Reporting the outcome of a market, disputing a report, and closing a
//! market by hand.

use crate::account::AccountId;
use crate::config::{Config, MILLISECS_PER_BLOCK};
use crate::error::Error;
use crate::ledger::{Refused, Trait};
use crate::market::{Market, MarketDispute, MarketEnd, MarketStatus, Report, Time};
use crate::module::Module;
use crate::state::{without, State, Window};
use vstd::prelude::*;

verus! {

impl Config {
    /// Whether `now` is within the grace period after `end`, in which only
    /// the oracle may report. The period is counted in blocks; against a
    /// timestamp each block counts for a fixed number of milliseconds.
    pub open spec fn in_grace(self, end: MarketEnd, now: Time) -> bool {
        match end {
            MarketEnd::Block(block) => now.block <= block + self.reporting_period,
            MarketEnd::Timestamp(timestamp) => now.moment <= timestamp + self.reporting_period
                * MILLISECS_PER_BLOCK,
        }
    }

    /// Whether `now` is within the grace period after `end`.
    pub fn is_in_grace(&self, end: MarketEnd, now: Time) -> (r: bool)
        ensures
            r == self.in_grace(end, now),
    {
        match end {
            MarketEnd::Block(block) => (now.block as u128) <= (block as u128) + (
            self.reporting_period as u128),
            MarketEnd::Timestamp(timestamp) => {
                let grace: u128 = (self.reporting_period as u128) * (MILLISECS_PER_BLOCK as u128);
                (now.moment as u128) <= (timestamp as u128) + grace
            },
        }
    }
}

impl State {
    /// Why `sender` cannot report `outcome` for market `id` at `now`, if
    /// they cannot.
    pub open spec fn report_check(self, id: u128, sender: AccountId, outcome: u16, now: Time)
        -> Option<Error> {
        if !self.markets.contains_key(id) {
            Some(Error::MarketNotFound)
        } else {
            let market = self.markets[id];
            if outcome > market.categories {
                Some(Error::OutcomeOutOfRange)
            } else if market.report.is_some() {
                Some(Error::AlreadyReported)
            } else if market.status != MarketStatus::Active {
                Some(Error::MarketNotActive)
            } else if market.end.is_open(now) {
                Some(Error::MarketNotClosed)
            } else if self.config.in_grace(market.end, now) && sender != market.oracle {
                Some(Error::NotOracle)
            } else {
                None
            }
        }
    }

    /// The state after `sender` reported `outcome` for market `id`: the
    /// report on record, the market reported, and listed in the report
    /// index at the current block.
    pub open spec fn reported(self, id: u128, sender: AccountId, outcome: u16, now: Time) -> State {
        let report = Report { at: now.block, by: sender, outcome };
        let recorded = State {
            markets: self.markets.insert(
                id,
                Market {
                    report: Some(report),
                    status: MarketStatus::Reported,
                    ..self.markets[id]
                },
            ),
            ..self
        };
        recorded.with_bucket(
            Window::Report,
            now.block,
            recorded.bucket(Window::Report, now.block).push(id),
        )
    }

    /// Why market `id` cannot be disputed with `outcome`, if it cannot.
    pub open spec fn dispute_check(self, id: u128, outcome: u16) -> Option<Error> {
        if !self.markets.contains_key(id) {
            Some(Error::MarketNotFound)
        } else {
            let market = self.markets[id];
            let log = self.disputes[id];
            if market.report.is_none() {
                Some(Error::NotReported)
            } else if market.status == MarketStatus::Resolved {
                Some(Error::AlreadyResolved)
            } else if outcome >= market.categories {
                Some(Error::OutcomeOutOfRange)
            } else if log.len() >= self.config.max_disputes {
                Some(Error::TooManyDisputes)
            } else if log.len() > 0 && log.last().outcome == outcome {
                Some(Error::DuplicateOutcome)
            } else {
                None
            }
        }
    }

    /// The state after a dispute of market `id` was put on record: the
    /// market moved from the bucket of its previous dispute to that of the
    /// current block, the dispute appended to the log, the market disputed.
    pub open spec fn with_dispute(self, id: u128, sender: AccountId, outcome: u16, now: Time)
        -> State {
        let log = self.disputes[id];
        let moved = if log.len() > 0 {
            self.with_bucket(
                Window::Dispute,
                log.last().at,
                without(self.bucket(Window::Dispute, log.last().at), id),
            )
        } else {
            self
        };
        let logged = State {
            disputes: moved.disputes.insert(
                id,
                log.push(MarketDispute { at: now.block, by: sender, outcome }),
            ),
            markets: moved.markets.insert(
                id,
                Market { status: MarketStatus::Disputed, ..moved.markets[id] },
            ),
            ..moved
        };
        logged.with_bucket(
            Window::Dispute,
            now.block,
            logged.bucket(Window::Dispute, now.block).push(id),
        )
    }

    /// The state after `sender` disputed market `id`: the bond of the
    /// dispute in escrow, the dispute on record.
    pub open spec fn disputed(self, id: u128, sender: AccountId, outcome: u16, now: Time) -> State {
        State {
            ledgers: self.ledgers.escrowed(
                sender,
                self.config.bond_at(self.disputes[id].len()) as u128,
            ),
            ..self.with_dispute(id, sender, outcome, now)
        }
    }

    /// The state after market `id` was closed at `now`.
    pub open spec fn closed(self, id: u128, now: Time) -> State {
        let market = self.markets[id];
        State {
            markets: self.markets.insert(id, Market { end: market.end.closed_at(now), ..market }),
            ..self
        }
    }
}

impl<T: Trait> Module<T> {
    /// Reports the outcome of a market whose trading has ended. Within the
    /// grace period only the oracle may report; after it, anyone.
    pub fn report(&mut self, sender: AccountId, market_id: u128, outcome: u16, now: Time) -> (r:
        Result<(), Error>)
        requires
            old(self).wf(),
        ensures
            final(self).wf(),
            match old(self)@.report_check(market_id, sender, outcome, now) {
                Some(e) => r == Err::<(), Error>(e) && final(self)@ == old(self)@,
                None => r.is_ok() && final(self)@ == old(self)@.reported(
                    market_id,
                    sender,
                    outcome,
                    now,
                ),
            },
    {
        let (categories, reported, status, end, oracle) = match self.market_by_id(market_id) {
            Ok(market) => (
                market.outcomes(),
                market.report.is_some(),
                market.status,
                market.end,
                market.oracle,
            ),
            Err(e) => {
                return Err(e);
            },
        };
        if outcome > categories {
            return Err(Error::OutcomeOutOfRange);
        }
        if reported {
            return Err(Error::AlreadyReported);
        }
        if status != MarketStatus::Active {
            return Err(Error::MarketNotActive);
        }
        if Self::is_market_active(end, now) {
            return Err(Error::MarketNotClosed);
        }
        if self.config().is_in_grace(end, now) && sender != oracle {
            return Err(Error::NotOracle);
        }
        let report = Report { at: now.block, by: sender, outcome };
        proof {
            let s = old(self)@;
            let market = s.markets[market_id];
            let next = Market { report: Some(report), status: MarketStatus::Reported, ..market };
            assert(s.market_wf(market_id));
            assert forall|block: u64| #[trigger]
                s.report_index[block].contains(market_id) implies match next.report {
                Some(report) => report.at == block,
                None => false,
            } by {
                s.lemma_report_entry(market_id, block);
            }
            s.lemma_wf_put_market(market_id, next);
            let recorded = State { markets: s.markets.insert(market_id, next), ..s };
            if recorded.bucket(Window::Report, now.block).contains(market_id) {
                s.lemma_report_entry(market_id, now.block);
            }
            recorded.lemma_wf_bucket_push(Window::Report, now.block, market_id);
        }
        match self.take_market(market_id) {
            Some(mut market) => {
                market.report = Some(report);
                market.status = MarketStatus::Reported;
                self.put_market(market_id, market);
            },
            None => {},
        }
        assert(self@.markets =~= old(self)@.markets.insert(
            market_id,
            Market {
                report: Some(report),
                status: MarketStatus::Reported,
                ..old(self)@.markets[market_id]
            },
        ));
        self.bucket_push(Window::Report, now.block, market_id);
        Ok(())
    }

    /// Puts on record a dispute whose bond the currency ledger was asked to
    /// escrow: `escrowed` is the ledger's answer.
    pub fn record_dispute(
        &mut self,
        escrowed: Result<(), Refused>,
        sender: AccountId,
        market_id: u128,
        outcome: u16,
        now: Time,
    ) -> (r: Result<(), Error>)
        requires
            old(self).wf(),
            old(self)@.dispute_check(market_id, outcome).is_none(),
        ensures
            final(self).wf(),
            match escrowed {
                Ok(_) => r.is_ok() && final(self)@ == old(self)@.with_dispute(
                    market_id,
                    sender,
                    outcome,
                    now,
                ),
                Err(_) => r == Err::<(), Error>(Error::InsufficientFunds) && final(self)@ == old(self)@,
            },
    {
        if escrowed.is_err() {
            return Err(Error::InsufficientFunds);
        }
        let log = self.disputes(market_id);
        let n = log.len();
        let dispute = MarketDispute { at: now.block, by: sender, outcome };
        proof {
            let s = old(self)@;
            assert(s.market_wf(market_id));
            assert(s.log_wf(market_id));
            let moved = if n > 0 {
                s.with_bucket(
                    Window::Dispute,
                    log@.last().at,
                    without(s.bucket(Window::Dispute, log@.last().at), market_id),
                )
            } else {
                s
            };
            if n > 0 {
                s.lemma_wf_bucket_remove(Window::Dispute, log@.last().at, market_id);
            }
            moved.lemma_dispute_unlisted(market_id);
            moved.lemma_wf_dispute_logged(market_id, dispute);
            let logged = State {
                disputes: moved.disputes.insert(market_id, log@.push(dispute)),
                markets: moved.markets.insert(
                    market_id,
                    Market { status: MarketStatus::Disputed, ..moved.markets[market_id] },
                ),
                ..moved
            };
            logged.lemma_wf_bucket_push(Window::Dispute, now.block, market_id);
        }
        if n > 0 {
            let at = log[n - 1].at;
            self.bucket_remove(Window::Dispute, at, market_id);
        }
        self.push_dispute(market_id, dispute);
        match self.take_market(market_id) {
            Some(mut market) => {
                market.status = MarketStatus::Disputed;
                self.put_market(market_id, market);
            },
            None => {},
        }
        assert(self@.markets =~= old(self)@.markets.insert(
            market_id,
            Market { status: MarketStatus::Disputed, ..old(self)@.markets[market_id] },
        ));
        self.bucket_push(Window::Dispute, now.block, market_id);
        Ok(())
    }

    /// Disputes the reported outcome of a market, against a bond that grows
    /// with the number of disputes before it. Where the currency ledger
    /// does not accept the bond, the funds are insufficient and nothing
    /// changes.
    pub fn dispute(&mut self, sender: AccountId, market_id: u128, outcome: u16, now: Time) -> (r:
        Result<(), Error>)
        requires
            old(self).wf(),
        ensures
            final(self).wf(),
            match old(self)@.dispute_check(market_id, outcome) {
                Some(e) => r == Err::<(), Error>(e) && final(self)@ == old(self)@,
                None => if old(self).chain().accepts_escrow(
                    sender,
                    old(self)@.config.bond_at(old(self)@.disputes[market_id].len()) as u128,
                ) {
                    &&& r.is_ok()
                    &&& old(self)@.ledgers.free[sender] >= old(self)@.config.bond_at(
                        old(self)@.disputes[market_id].len(),
                    )
                    &&& final(self)@ == old(self)@.disputed(market_id, sender, outcome, now)
                } else {
                    r == Err::<(), Error>(Error::InsufficientFunds) && final(self)@ == old(self)@
                },
            },
    {
        let (reported, status, categories) = match self.market_by_id(market_id) {
            Ok(market) => (market.report.is_some(), market.status, market.outcomes()),
            Err(e) => {
                return Err(e);
            },
        };
        if !reported {
            return Err(Error::NotReported);
        }
        if status == MarketStatus::Resolved {
            return Err(Error::AlreadyResolved);
        }
        if outcome >= categories {
            return Err(Error::OutcomeOutOfRange);
        }
        let log = self.disputes(market_id);
        let n = log.len();
        proof {
            assert(old(self)@.log_wf(market_id));
        }
        if n >= self.config().max_disputes as usize {
            return Err(Error::TooManyDisputes);
        }
        if n > 0 && log[n - 1].outcome == outcome {
            return Err(Error::DuplicateOutcome);
        }
        let bond = self.config().dispute_bond_at(n as u16);
        let escrowed = self.env_mut().escrow(&sender, bond);
        proof {
            old(self)@.lemma_wf_ledgers(self@.ledgers);
        }
        self.record_dispute(escrowed, sender, market_id, outcome, now)
    }

    /// Closes a market at the current time, whatever its end was.
    pub fn admin_move_market_to_closed(&mut self, authorized: bool, market_id: u128, now: Time)
        -> (r: Result<(), Error>)
        requires
            old(self).wf(),
        ensures
            final(self).wf(),
            r == (if !authorized {
                Err::<(), Error>(Error::NotAuthorized)
            } else if !old(self)@.markets.contains_key(market_id) {
                Err(Error::MarketNotFound)
            } else {
                Ok(())
            }),
            final(self)@ == (if r.is_ok() {
                old(self)@.closed(market_id, now)
            } else {
                old(self)@
            }),
    {
        if !authorized {
            return Err(Error::NotAuthorized);
        }
        let end = match self.market_by_id(market_id) {
            Ok(market) => market.end,
            Err(e) => {
                return Err(e);
            },
        };
        let new_end = match end {
            MarketEnd::Block(_) => MarketEnd::Block(now.block),
            MarketEnd::Timestamp(_) => MarketEnd::Timestamp(now.moment),
        };
        proof {
            let s = old(self)@;
            assert(s.market_wf(market_id));
            s.lemma_wf_update_market(market_id, Market { end: new_end, ..s.markets[market_id] });
        }
        match self.take_market(market_id) {
            Some(mut market) => {
                market.end = new_end;
                self.put_market(market_id, market);
            },
            None => {},
        }
        assert(self@.markets =~= old(self)@.closed(market_id, now).markets);
        Ok(())
    }
}

} // verus!
