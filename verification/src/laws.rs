//! What holds of the engine whatever is asked of it.

use crate::account::{lemma_market_accounts_distinct, AccountId};
use crate::market::{Asset, Market, MarketCreation, MarketStatus, Time};
use crate::config::Config;
use crate::ledger::{Ledgers, Trait};
use crate::market::MarketDispute;
use crate::resolution::{
    lemma_bond_moves_credit, lemma_pool_bounded, lemma_wipe_others, pay_rewards, settle_disputes,
    Settlement,
};
use crate::state::{disputes_ordered, State, Window};
use crate::trading::{
    has_sets, is_share_below, lemma_burned_sets, lemma_minted_sets, mint_fits, share_of,
};
use vstd::prelude::*;

verus! {

impl State {
    /// Going through a bucket leaves the market counter as it is.
    pub proof fn lemma_resolve_each_counter(self, ids: Seq<u128>, window: Window, k: nat)
        ensures
            self.resolve_each(ids, window, k).market_count == self.market_count,
        decreases k,
    {
        if k > 0 {
            self.lemma_resolve_each_counter(ids, window, (k - 1) as nat);
        }
    }

    /// Market identifiers are never reused: in an engine in order the next
    /// identifier has no record, no dispute log and no place in any bucket,
    /// and every record stands under an identifier below it.
    pub proof fn lemma_next_id_is_fresh(self)
        requires
            self.wf(),
        ensures
            !self.markets.contains_key(self.market_count),
            self.disputes[self.market_count].len() == 0,
            self.unlisted(self.market_count),
            forall|id: u128| self.markets.contains_key(id) ==> id < self.market_count,
    {
        let next = self.market_count;
        if self.markets.contains_key(next) {
            assert(self.market_wf(next));
        }
        assert(self.log_wf(next));
        assert forall|window: Window, block: u64| !(#[trigger] self.bucket(window, block)).contains(
            next,
        ) by {
            if self.bucket(window, block).contains(next) {
                self.lemma_entry(window, block, next);
            }
        }
        assert forall|id: u128| self.markets.contains_key(id) implies id < self.market_count by {
            assert(self.market_wf(id));
        }
    }

    /// Market identifiers are strictly increasing: creating a market hands
    /// out the counter and advances it by one, and nothing else that the
    /// engine does changes the counter, deleting a market included.
    pub proof fn lemma_counter_only_grows(
        self,
        market: Market,
        id: u128,
        who: AccountId,
        outcome: u16,
        amount: u128,
        now: Time,
    )
        requires
            self.market_count < u128::MAX,
        ensures
            self.created(market).market_count == self.market_count + 1,
            self.created(market).markets.contains_key(self.market_count),
            self.approved(id).market_count == self.market_count,
            self.rejected(id).market_count == self.market_count,
            self.cancelled(id).market_count == self.market_count,
            self.destroyed(id).market_count == self.market_count,
            self.bought(who, id, amount).market_count == self.market_count,
            self.sold(who, id, amount).market_count == self.market_count,
            self.reported(id, who, outcome, now).market_count == self.market_count,
            self.disputed(id, who, outcome, now).market_count == self.market_count,
            self.closed(id, now).market_count == self.market_count,
            self.unscheduled(id).market_count == self.market_count,
            self.resolved(id).market_count == self.market_count,
            self.redeemed(who, id).market_count == self.market_count,
            self.finalized(now.block).market_count == self.market_count,
    {
        if now.block > self.config.dispute_period {
            let block = (now.block - self.config.dispute_period) as u64;
            let reports = self.bucket(Window::Report, block);
            let emptied = self.with_bucket(Window::Report, block, Seq::empty());
            emptied.lemma_resolve_each_counter(reports, Window::Report, reports.len());
            let first = emptied.resolve_each(reports, Window::Report, reports.len());
            let disputes = first.bucket(Window::Dispute, block);
            first.with_bucket(Window::Dispute, block, Seq::empty()).lemma_resolve_each_counter(
                disputes,
                Window::Dispute,
                disputes.len(),
            );
        }
    }

    /// The dispute ordering rule: in an engine in order no two adjacent
    /// entries of a dispute log claim the same outcome, and no log is
    /// longer than the configured maximum.
    pub proof fn lemma_dispute_ordering(self, id: u128)
        requires
            self.wf(),
        ensures
            disputes_ordered(self.disputes[id]),
            self.disputes[id].len() <= self.config.max_disputes,
    {
        assert(self.log_wf(id));
    }

    /// A disputed market has a dispute, so that the one who filed the
    /// latest is always among those who were right.
    pub proof fn lemma_disputed_has_dispute(self, id: u128)
        requires
            self.wf(),
            self.markets.contains_key(id),
            self.markets[id].status == MarketStatus::Disputed,
        ensures
            self.disputes[id].len() > 0,
            self.winning_outcome(id) == self.disputes[id].last().outcome,
    {
        assert(self.market_wf(id));
    }
}

impl State {
    /// Whether the shares of market `id` that can still be redeemed are
    /// backed: the custodial account holds at least the outstanding amount
    /// of the winning share once the market is resolved, and of the share
    /// of each outcome until then; and no share of an outcome that the
    /// market does not have is outstanding.
    pub open spec fn backed(self, id: u128) -> bool {
        let market = self.markets[id];
        let cash = self.ledgers.free[self.account_of(id)];
        &&& forall|outcome: u16|
            outcome >= market.categories ==> self.ledgers.issued[#[trigger] share_of(id, outcome)]
                == 0
        &&& match market.resolved_outcome {
            Some(winner) => cash >= self.ledgers.issued[share_of(id, winner)],
            None => forall|outcome: u16|
                outcome < market.categories ==> cash >= self.ledgers.issued[#[trigger] share_of(
                    id,
                    outcome,
                )],
        }
    }

    /// The backing of a market is kept by whatever leaves its record, takes
    /// nothing out of its custodial account and adds nothing to the
    /// outstanding amount of its shares.
    pub proof fn lemma_backing_kept(self, after: State, id: u128)
        requires
            self.backed(id),
            after.config.module_id == self.config.module_id,
            after.markets[id].categories == self.markets[id].categories,
            after.markets[id].resolved_outcome == self.markets[id].resolved_outcome,
            after.ledgers.free[self.account_of(id)] >= self.ledgers.free[self.account_of(id)],
            forall|outcome: u16| #[trigger]
                after.ledgers.issued[share_of(id, outcome)] <= self.ledgers.issued[share_of(
                    id,
                    outcome,
                )],
        ensures
            after.backed(id),
    {
        assert forall|outcome: u16|
            outcome >= after.markets[id].categories implies after.ledgers.issued[#[trigger] share_of(
            id,
            outcome,
        )] == 0 by {
            assert(after.ledgers.issued[share_of(id, outcome)] <= self.ledgers.issued[share_of(
                id,
                outcome,
            )]);
        }
        match self.markets[id].resolved_outcome {
            Some(winner) => {
                assert(after.ledgers.issued[share_of(id, winner)] <= self.ledgers.issued[share_of(
                    id,
                    winner,
                )]);
            },
            None => {
                assert forall|outcome: u16|
                    outcome < after.markets[id].categories implies after.ledgers.free[after.account_of(
                    id,
                )] >= after.ledgers.issued[#[trigger] share_of(id, outcome)] by {
                    assert(after.ledgers.issued[share_of(id, outcome)]
                        <= self.ledgers.issued[share_of(id, outcome)]);
                }
            },
        }
    }

    /// Buying complete sets keeps every market backed, as long as the buyer
    /// is not the custodial account of the market in question.
    pub proof fn lemma_backing_bought(self, who: AccountId, id: u128, amount: u128, other: u128)
        requires
            self.wf(),
            self.markets.contains_key(id),
            self.markets.contains_key(other),
            self.buy_fits(who, id, amount),
            who != self.account_of(other),
            self.backed(other),
        ensures
            self.bought(who, id, amount).backed(other),
    {
        let n = self.markets[id].categories as nat;
        let paid = self.ledgers.transferred(who, self.account_of(id), amount);
        lemma_minted_sets(paid, id, who, amount, n);
        let after = self.bought(who, id, amount);
        if other != id {
            lemma_market_accounts_distinct(self.config.module_id, id, other);
            assert forall|outcome: u16| #[trigger]
                after.ledgers.issued[share_of(other, outcome)] <= self.ledgers.issued[share_of(
                    other,
                    outcome,
                )] by {
                assert(!is_share_below(share_of(other, outcome), id, n));
            }
            self.lemma_backing_kept(after, other);
        } else {
            let cash = self.ledgers.free[self.account_of(id)];
            assert(after.ledgers.free[self.account_of(id)] == cash + amount);
            assert forall|outcome: u16|
                outcome >= self.markets[id].categories implies after.ledgers.issued[#[trigger] share_of(
                id,
                outcome,
            )] == 0 by {
                assert(!is_share_below(share_of(id, outcome), id, n));
            }
            assert forall|outcome: u16| #[trigger]
                after.ledgers.issued[share_of(id, outcome)] <= self.ledgers.issued[share_of(
                    id,
                    outcome,
                )] + amount by {
                if is_share_below(share_of(id, outcome), id, n) {
                    assert(self.ledgers.issued[share_of(id, outcome)] + amount
                        <= u128::MAX);
                }
            }
            match self.markets[id].resolved_outcome {
                Some(winner) => {
                    assert(after.ledgers.issued[share_of(id, winner)]
                        <= self.ledgers.issued[share_of(id, winner)] + amount);
                },
                None => {
                    assert forall|outcome: u16|
                        outcome < self.markets[id].categories implies after.ledgers.free[after.account_of(
                        id,
                    )] >= after.ledgers.issued[#[trigger] share_of(id, outcome)] by {
                        assert(after.ledgers.issued[share_of(id, outcome)]
                            <= self.ledgers.issued[share_of(id, outcome)] + amount);
                    }
                },
            }
        }
    }

    /// Selling complete sets keeps every market backed.
    pub proof fn lemma_backing_sold(self, who: AccountId, id: u128, amount: u128, other: u128)
        requires
            self.wf(),
            self.markets.contains_key(id),
            self.markets.contains_key(other),
            self.ledgers.free[self.account_of(id)] >= amount,
            has_sets(self.ledgers, id, who, amount, self.markets[id].categories as nat),
            self.sell_fits(who, id, amount),
            self.backed(other),
        ensures
            self.sold(who, id, amount).backed(other),
    {
        let n = self.markets[id].categories as nat;
        let paid = self.ledgers.transferred(self.account_of(id), who, amount);
        lemma_burned_sets(paid, id, who, amount, n);
        let after = self.sold(who, id, amount);
        if other != id {
            lemma_market_accounts_distinct(self.config.module_id, id, other);
            assert forall|outcome: u16| #[trigger]
                after.ledgers.issued[share_of(other, outcome)] <= self.ledgers.issued[share_of(
                    other,
                    outcome,
                )] by {
                assert(!is_share_below(share_of(other, outcome), id, n));
            }
            self.lemma_backing_kept(after, other);
        } else {
            let cash = self.ledgers.free[self.account_of(id)];
            assert(after.ledgers.free[self.account_of(id)] >= cash - amount);
            assert forall|outcome: u16|
                outcome >= self.markets[id].categories implies after.ledgers.issued[#[trigger] share_of(
                id,
                outcome,
            )] == 0 by {
                assert(!is_share_below(share_of(id, outcome), id, n));
            }
            assert forall|outcome: u16|
                outcome < self.markets[id].categories implies after.ledgers.issued[#[trigger] share_of(
                id,
                outcome,
            )] + amount <= self.ledgers.issued[share_of(id, outcome)]
                || after.ledgers.issued[share_of(id, outcome)] == 0 by {
                assert(is_share_below(share_of(id, outcome), id, n));
                assert(self.ledgers.shares[(share_of(id, outcome), who)] >= amount);
            }
            match self.markets[id].resolved_outcome {
                Some(winner) => {
                    if winner < self.markets[id].categories {
                        assert(after.ledgers.issued[share_of(id, winner)] + amount
                            <= self.ledgers.issued[share_of(id, winner)]
                            || after.ledgers.issued[share_of(id, winner)] == 0);
                    } else {
                        assert(self.ledgers.issued[share_of(id, winner)] == 0);
                        assert(!is_share_below(share_of(id, winner), id, n));
                    }
                },
                None => {
                    assert forall|outcome: u16|
                        outcome < self.markets[id].categories implies after.ledgers.free[after.account_of(
                        id,
                    )] >= after.ledgers.issued[#[trigger] share_of(id, outcome)] by {
                        assert(after.ledgers.issued[share_of(id, outcome)] + amount
                            <= self.ledgers.issued[share_of(id, outcome)]
                            || after.ledgers.issued[share_of(id, outcome)] == 0);
                    }
                },
            }
        }
    }

    /// Redeeming winning shares keeps every market backed.
    pub proof fn lemma_backing_redeemed(self, who: AccountId, id: u128, other: u128)
        requires
            self.wf(),
            self.redeem_check(who, id).is_none(),
            self.markets.contains_key(other),
            self.sell_fits(who, id, self.winnings(who, id)),
            self.backed(other),
        ensures
            self.redeemed(who, id).backed(other),
    {
        let after = self.redeemed(who, id);
        assert(self.market_wf(id));
        if other != id {
            lemma_market_accounts_distinct(self.config.module_id, id, other);
            self.lemma_backing_kept(after, other);
        } else {
        }
    }

    /// Resolving a market keeps every market backed.
    pub proof fn lemma_backing_resolved(self, id: u128, other: u128)
        requires
            self.wf(),
            self.resolvable(id),
            self.markets.contains_key(other),
            self.backed(other),
        ensures
            self.resolved(id).backed(other),
    {
        let after = self.resolved(id);
        let winner = self.winning_outcome(id);
        let n = self.markets[id].categories as nat;
        self.lemma_settled_credits(id);
        lemma_wipe_others(self.settled(id), id, Some(winner), n);
        assert(self.market_wf(id));
        assert(after.ledgers.free[self.account_of(other)] >= self.ledgers.free[self.account_of(
            other,
        )]);
        if other != id {
            self.lemma_backing_kept(after, other);
        } else {
            assert forall|outcome: u16|
                outcome >= after.markets[id].categories implies after.ledgers.issued[#[trigger] share_of(
                id,
                outcome,
            )] == 0 by {
                assert(self.ledgers.issued[share_of(id, outcome)] == 0);
            }
            assert(after.ledgers.issued[share_of(id, winner)] == self.ledgers.issued[share_of(
                id,
                winner,
            )]);
            if winner >= self.markets[id].categories {
                assert(self.ledgers.issued[share_of(id, winner)] == 0);
            }
        }
    }

    /// Going through a bucket keeps the engine in order and every market
    /// backed.
    pub proof fn lemma_backing_resolve_each(self, ids: Seq<u128>, window: Window, k: nat, other: u128)
        requires
            self.wf(),
            self.markets.contains_key(other),
            self.backed(other),
        ensures
            self.resolve_each(ids, window, k).wf(),
            self.resolve_each(ids, window, k).markets.contains_key(other),
            self.resolve_each(ids, window, k).backed(other),
        decreases k,
    {
        if k > 0 {
            self.lemma_backing_resolve_each(ids, window, (k - 1) as nat, other);
            let prev = self.resolve_each(ids, window, (k - 1) as nat);
            if prev.due(window, ids[k - 1]) {
                prev.lemma_resolved_wf(ids[k - 1]);
                prev.lemma_backing_resolved(ids[k - 1], other);
            }
        }
    }

    /// The tick of a block keeps every market backed.
    pub proof fn lemma_backing_finalized(self, now: u64, other: u128)
        requires
            self.wf(),
            self.markets.contains_key(other),
            self.backed(other),
        ensures
            self.finalized(now).backed(other),
    {
        if now > self.config.dispute_period {
            let block = (now - self.config.dispute_period) as u64;
            let reports = self.bucket(Window::Report, block);
            let emptied = self.with_bucket(Window::Report, block, Seq::empty());
            self.lemma_wf_bucket_shrunk(Window::Report, block, Seq::empty());
            self.lemma_backing_kept(emptied, other);
            emptied.lemma_backing_resolve_each(reports, Window::Report, reports.len(), other);
            let first = emptied.resolve_each(reports, Window::Report, reports.len());
            let disputes = first.bucket(Window::Dispute, block);
            let cleared = first.with_bucket(Window::Dispute, block, Seq::empty());
            first.lemma_wf_bucket_shrunk(Window::Dispute, block, Seq::empty());
            first.lemma_backing_kept(cleared, other);
            cleared.lemma_backing_resolve_each(disputes, Window::Dispute, disputes.len(), other);
        }
    }

    /// Creating a market keeps every market backed, as long as the creator
    /// is not the custodial account of the market in question; and the new
    /// market is backed where none of its shares is outstanding yet.
    pub proof fn lemma_backing_created(self, market: Market, other: u128)
        requires
            self.wf(),
            self.market_count < u128::MAX,
            market.resolved_outcome.is_none(),
            self.markets.contains_key(other) ==> market.creator != self.account_of(other)
                && self.backed(other),
            forall|outcome: u16| self.ledgers.issued[#[trigger] share_of(self.market_count, outcome)] == 0,
        ensures
            self.markets.contains_key(other) ==> self.created(market).backed(other),
            self.created(market).backed(self.market_count),
    {
        let after = self.created(market);
        self.lemma_next_id_is_fresh();
        if self.markets.contains_key(other) {
            self.lemma_backing_kept(after, other);
        }
    }

    /// Disputing a market keeps every market backed, as long as the one who
    /// disputes is not the custodial account of the market in question.
    pub proof fn lemma_backing_disputed(
        self,
        id: u128,
        who: AccountId,
        outcome: u16,
        now: Time,
        other: u128,
    )
        requires
            self.wf(),
            self.markets.contains_key(id),
            self.markets.contains_key(other),
            who != self.account_of(other),
            self.backed(other),
        ensures
            self.disputed(id, who, outcome, now).backed(other),
    {
        let after = self.disputed(id, who, outcome, now);
        self.lemma_backing_kept(after, other);
    }

    /// Reporting, and what the advisory committee and the administrator
    /// do, keeps every market that stays on record backed.
    pub proof fn lemma_backing_administered(
        self,
        id: u128,
        who: AccountId,
        outcome: u16,
        now: Time,
        other: u128,
    )
        requires
            self.wf(),
            self.markets.contains_key(id),
            self.markets.contains_key(other),
            self.backed(other),
        ensures
            self.reported(id, who, outcome, now).backed(other),
            self.unscheduled(id).backed(other),
            self.approved(id).backed(other),
            self.closed(id, now).backed(other),
            other != id ==> self.rejected(id).backed(other),
            other != id ==> self.cancelled(id).backed(other),
            other != id ==> self.destroyed(id).backed(other),
    {
        let creator = self.markets[id].creator;
        let bond = self.config.advisory_bond;
        lemma_bond_moves_credit(self.ledgers, creator, bond);
        lemma_bond_moves_credit(
            self.ledgers.forfeited(creator, bond),
            self.config.penalty_sink,
            self.ledgers.forfeitable(creator, bond),
        );
        self.lemma_unscheduled(id);
        self.lemma_backing_kept(self.reported(id, who, outcome, now), other);
        self.lemma_backing_kept(self.unscheduled(id), other);
        self.lemma_backing_kept(self.approved(id), other);
        self.lemma_backing_kept(self.closed(id, now), other);
        if other != id {
            self.lemma_backing_kept(self.rejected(id), other);
            self.lemma_backing_kept(self.cancelled(id), other);
            lemma_wipe_others(
                self.unscheduled(id).ledgers,
                id,
                None,
                self.markets[id].categories as nat,
            );
            self.lemma_backing_kept(self.destroyed(id), other);
        }
    }

    /// The round trip: buying complete sets and selling them again at once
    /// leaves every balance as it was, of currency and of shares. After the
    /// purchase nothing stands in the way of the sale.
    pub proof fn lemma_round_trip<T: Trait>(self, who: AccountId, id: u128, amount: u128, now: Time)
        requires
            self.wf(),
            self.buy_check::<T>(who, id, amount, now).is_none(),
            self.buy_fits(who, id, amount),
        ensures
            self.bought(who, id, amount).sell_check(who, id, amount, now).is_none(),
            self.bought(who, id, amount).sell_fits(who, id, amount),
            self.bought(who, id, amount).sold(who, id, amount) == self,
    {
        let n = self.markets[id].categories as nat;
        let account = self.account_of(id);
        let start = self.ledgers;
        let paid = start.transferred(who, account, amount);
        lemma_minted_sets(paid, id, who, amount, n);
        let held = self.bought(who, id, amount).ledgers;
        let back = held.transferred(account, who, amount);
        lemma_burned_sets(back, id, who, amount, n);
        let end = self.bought(who, id, amount).sold(who, id, amount).ledgers;
        assert forall|outcome: u16| outcome < n implies held.shares[(
            #[trigger] share_of(id, outcome),
            who,
        )] >= amount by {
            assert(is_share_below(share_of(id, outcome), id, n));
            assert(start.shares[(share_of(id, outcome), who)] + amount <= u128::MAX);
        }
        assert forall|asset: Asset, w: AccountId| #[trigger]
            end.shares[(asset, w)] == start.shares[(asset, w)] by {
            if w == who && is_share_below(asset, id, n) {
                let outcome = asset->PredictionMarketShare_1;
                assert(asset == share_of(id, outcome));
                assert(start.shares[(share_of(id, outcome), who)] + amount
                    <= u128::MAX);
            }
        }
        assert forall|asset: Asset| #[trigger] end.issued[asset] == start.issued[asset] by {
            if is_share_below(asset, id, n) {
                let outcome = asset->PredictionMarketShare_1;
                assert(asset == share_of(id, outcome));
                assert(start.issued[share_of(id, outcome)] + amount <= u128::MAX);
                assert(start.shares[(share_of(id, outcome), who)] + amount
                    <= u128::MAX);
            }
        }
        assert forall|k: (Asset, AccountId)| #[trigger] end.shares[k] == start.shares[k] by {
            assert(end.shares[(k.0, k.1)] == start.shares[(k.0, k.1)]);
        }
        assert(end.free =~= start.free);
        assert(end.held =~= start.held);
        assert(end.shares =~= start.shares);
        assert(end.issued =~= start.issued);
    }
}

impl State {
    /// The bonds that were escrowed for market `id` since its creation:
    /// the creation bond, and the bond of each dispute on its log.
    pub open spec fn bonds_escrowed(self, id: u128) -> nat {
        self.config.creation_bond(self.markets[id].creation) + self.config.bonds_sum(
            self.disputes[id].len(),
        )
    }

    /// How the bonds of the disputes of a resolved market `id` were
    /// settled: the sums that the ledger was asked to release and to
    /// forfeit.
    pub open spec fn dispute_tally(self, id: u128) -> Settlement {
        let winner = match self.markets[id].resolved_outcome {
            Some(outcome) => outcome,
            None => 0,
        };
        settle_disputes(self.ledgers, self.config, self.disputes[id], winner, self.disputes[id].len())
    }

    /// Whether the oracle bond of a resolved market `id` went back to the
    /// creator: where nobody disputed, the oracle itself reported; where
    /// somebody did, the report claimed the winning outcome.
    pub open spec fn oracle_bond_returned(self, id: u128) -> bool {
        let market = self.markets[id];
        match market.report {
            Some(report) => if self.disputes[id].len() == 0 {
                report.by == market.oracle
            } else {
                Some(report.outcome) == market.resolved_outcome
            },
            None => false,
        }
    }

    /// The bonds of market `id` that the ledger was asked to release so
    /// far: the advisory bond at the approval, and at the resolution the
    /// validity bond, the oracle bond where it went back, and the bond of
    /// each dispute that was right.
    pub open spec fn bonds_released(self, id: u128) -> nat {
        let market = self.markets[id];
        let at_approval: nat = if market.creation == MarketCreation::Advised && market.status
            != MarketStatus::Proposed {
            self.config.advisory_bond as nat
        } else {
            0
        };
        if market.status == MarketStatus::Resolved {
            at_approval + self.config.validity_bond as nat + (if self.oracle_bond_returned(id) {
                self.config.oracle_bond as nat
            } else {
                0
            }) + self.dispute_tally(id).released
        } else {
            at_approval
        }
    }

    /// The bonds of market `id` that the ledger was asked to forfeit so
    /// far: at the resolution, the oracle bond where it did not go back,
    /// and the bond of each dispute that was wrong.
    pub open spec fn bonds_forfeited(self, id: u128) -> nat {
        if self.markets[id].status == MarketStatus::Resolved {
            (if self.oracle_bond_returned(id) {
                0
            } else {
                self.config.oracle_bond as nat
            }) + self.dispute_tally(id).forfeited
        } else {
            0
        }
    }

    /// The bonds of market `id` that the engine still counts as escrowed:
    /// none once the market is resolved; before that the oracle bond, the
    /// bond of each dispute, and the advisory bond until the approval or
    /// the validity bond of a permissionless market.
    pub open spec fn bonds_held(self, id: u128) -> nat {
        let market = self.markets[id];
        match market.status {
            MarketStatus::Resolved => 0,
            MarketStatus::Proposed => self.config.advisory_bond as nat
                + self.config.oracle_bond as nat,
            _ => (match market.creation {
                MarketCreation::Permissionless => self.config.validity_bond as nat,
                MarketCreation::Advised => 0,
            }) + self.config.oracle_bond as nat + self.config.bonds_sum(self.disputes[id].len()),
        }
    }

    /// Bond conservation: for every market on record, what is still
    /// escrowed, what was released and what was forfeited add up to what
    /// was escrowed. The amounts are those that the engine asks the ledger
    /// to move. A resolved market that was created through the advisory
    /// committee is left out where the validity bond is not zero: its
    /// resolution releases a validity bond that it never escrowed.
    pub proof fn lemma_bond_conservation(self, id: u128)
        requires
            self.wf(),
            self.markets.contains_key(id),
            !(self.markets[id].creation == MarketCreation::Advised && self.markets[id].status
                == MarketStatus::Resolved && self.config.validity_bond > 0),
        ensures
            self.bonds_held(id) + self.bonds_released(id) + self.bonds_forfeited(id)
                == self.bonds_escrowed(id),
    {
        assert(self.market_wf(id));
        assert(self.log_wf(id));
        let winner = match self.markets[id].resolved_outcome {
            Some(outcome) => outcome,
            None => 0,
        };
        lemma_pool_bounded(
            self.ledgers,
            self.config,
            self.disputes[id],
            winner,
            self.disputes[id].len(),
        );
    }

    /// Each step of a market's life moves the bonds that the engine counts
    /// as escrowed by what the ledger is asked to move: creating a market
    /// escrows its creation bond, a dispute its own bond, an approval
    /// releases the advisory bond, and the resolution settles all that is
    /// left.
    pub proof fn lemma_bond_steps(
        self,
        market: Market,
        id: u128,
        who: AccountId,
        outcome: u16,
        now: Time,
    )
        requires
            self.wf(),
            self.markets.contains_key(id),
        ensures
            self.market_count < u128::MAX && market.status != MarketStatus::Resolved
                && market.status == (match market.creation {
                MarketCreation::Permissionless => MarketStatus::Active,
                MarketCreation::Advised => MarketStatus::Proposed,
            }) ==> self.created(market).bonds_held(self.market_count)
                == self.config.creation_bond(market.creation),
            self.markets[id].status == MarketStatus::Proposed ==> self.approved(id).bonds_held(id)
                + self.config.advisory_bond == self.bonds_held(id),
            self.dispute_check(id, outcome).is_none() ==> self.disputed(
                id,
                who,
                outcome,
                now,
            ).bonds_held(id) == self.bonds_held(id) + self.config.bond_at(self.disputes[id].len()),
            self.resolvable(id) ==> self.resolved(id).bonds_held(id) == 0,
    {
        assert(self.market_wf(id));
        assert(self.log_wf(id));
        self.lemma_next_id_is_fresh();
        if self.dispute_check(id, outcome).is_none() {
            let after = self.disputed(id, who, outcome, now);
            assert(after.disputes[id].len() == self.disputes[id].len() + 1);
            assert(self.config.bonds_sum((self.disputes[id].len() + 1) as nat)
                == self.config.bonds_sum(self.disputes[id].len()) + self.config.bond_at(
                self.disputes[id].len(),
            ));
        }
    }
}

/// The bonds of the first `k` disputes of `log` that `who` filed.
pub open spec fn stake(config: Config, log: Seq<MarketDispute>, who: AccountId, k: nat) -> nat
    decreases k,
{
    if k == 0 {
        0
    } else {
        stake(config, log, who, (k - 1) as nat) + (if log[k - 1].by == who {
            config.bond_at((k - 1) as nat)
        } else {
            0
        })
    }
}

/// The stake of an account grows with the number of disputes counted.
pub proof fn lemma_stake_monotone(
    config: Config,
    log: Seq<MarketDispute>,
    who: AccountId,
    m: nat,
    n: nat,
)
    requires
        m <= n,
    ensures
        stake(config, log, who, m) <= stake(config, log, who, n),
    decreases n,
{
    if m < n {
        lemma_stake_monotone(config, log, who, m, (n - 1) as nat);
    }
}

/// Whether the escrow of every account covers `due` of it, and what an
/// account has free and in escrow fits the balance type together.
pub open spec fn escrow_covers(ledgers: Ledgers, due: spec_fn(AccountId) -> nat) -> bool {
    forall|who: AccountId|
        {
            &&& #[trigger] ledgers.held[who] >= due(who)
            &&& ledgers.free[who] + ledgers.held[who] <= u128::MAX
        }
}

/// Settling the bonds of a dispute log takes out of the escrow of each
/// account exactly its stake, where the escrow covers it.
pub proof fn lemma_settle_disputes_takes_stakes(
    ledgers: Ledgers,
    config: Config,
    log: Seq<MarketDispute>,
    outcome: u16,
    k: nat,
)
    requires
        ledgers.total(),
        config.valid(),
        log.len() <= config.max_disputes,
        k <= log.len(),
        escrow_covers(ledgers, |who: AccountId| stake(config, log, who, log.len())),
    ensures
        forall|who: AccountId| #[trigger]
            settle_disputes(ledgers, config, log, outcome, k).ledgers.held[who] + stake(
                config,
                log,
                who,
                k,
            ) == ledgers.held[who],
        forall|who: AccountId| #[trigger]
            settle_disputes(ledgers, config, log, outcome, k).ledgers.free[who]
                + settle_disputes(ledgers, config, log, outcome, k).ledgers.held[who]
                <= ledgers.free[who] + ledgers.held[who],
        settle_disputes(ledgers, config, log, outcome, k).ledgers.total(),
    decreases k,
{
    if k > 0 {
        lemma_settle_disputes_takes_stakes(ledgers, config, log, outcome, (k - 1) as nat);
        let prev = settle_disputes(ledgers, config, log, outcome, (k - 1) as nat).ledgers;
        let by = log[k - 1].by;
        config.lemma_bond_fits((k - 1) as nat);
        lemma_stake_monotone(config, log, by, k, log.len());
        assert(ledgers.held[by] >= stake(config, log, by, log.len()));
        assert(prev.held[by] + stake(config, log, by, (k - 1) as nat) == ledgers.held[by]);
        assert(prev.free[by] + prev.held[by] <= ledgers.free[by] + ledgers.held[by]);
        assert(ledgers.free[by] + ledgers.held[by] <= u128::MAX);
    }
}

/// Paying rewards leaves every escrow as it is.
pub proof fn lemma_pay_rewards_keeps_escrow(
    ledgers: Ledgers,
    correct: Seq<AccountId>,
    reward: u128,
    k: nat,
)
    ensures
        pay_rewards(ledgers, correct, reward, k).held == ledgers.held,
    decreases k,
{
    if k > 0 {
        lemma_pay_rewards_keeps_escrow(ledgers, correct, reward, (k - 1) as nat);
    }
}

impl State {
    /// What the engine counts as escrowed against `who` for market `id`:
    /// for the creator the creation bond, less the advisory bond once the
    /// market is approved; for everyone the bonds of the disputes they
    /// filed; and nothing once the market is resolved.
    pub open spec fn owed(self, id: u128, who: AccountId) -> nat {
        let market = self.markets[id];
        let log = self.disputes[id];
        match market.status {
            MarketStatus::Resolved => 0,
            MarketStatus::Proposed => if who == market.creator {
                self.config.advisory_bond as nat + self.config.oracle_bond as nat
            } else {
                0
            },
            _ => (if who == market.creator {
                (match market.creation {
                    MarketCreation::Permissionless => self.config.validity_bond as nat,
                    MarketCreation::Advised => 0,
                }) + self.config.oracle_bond as nat
            } else {
                0
            }) + stake(self.config, log, who, log.len()),
        }
    }

    /// Resolution takes out of the escrow of every account exactly what
    /// the engine counts as escrowed against it for the market, where the
    /// escrow covers it: nothing is left behind and nothing else is
    /// touched. A market created through the advisory committee is left
    /// out where the validity bond is not zero: its resolution releases a
    /// validity bond that it never escrowed.
    pub proof fn lemma_resolution_takes_what_is_owed(self, id: u128)
        requires
            self.wf(),
            self.resolvable(id),
            self.markets[id].creation == MarketCreation::Permissionless
                || self.config.validity_bond == 0,
            escrow_covers(self.ledgers, |who: AccountId| self.owed(id, who)),
        ensures
            forall|who: AccountId| #[trigger]
                self.resolved(id).ledgers.held[who] + self.owed(id, who) == self.ledgers.held[who],
            forall|who: AccountId| #[trigger] self.resolved(id).owed(id, who) == 0,
    {
        let market = self.markets[id];
        let log = self.disputes[id];
        let config = self.config;
        let creator = market.creator;
        let winner = self.winning_outcome(id);
        assert(self.market_wf(id));
        assert(self.log_wf(id));
        let freed = self.ledgers.released(creator, config.validity_bond);
        assert(self.ledgers.held[creator] >= self.owed(id, creator));
        assert(self.ledgers.free[creator] + self.ledgers.held[creator] <= u128::MAX);
        assert(freed.held[creator] + config.validity_bond == self.ledgers.held[creator]);
        self.lemma_settled_credits(id);
        lemma_wipe_others(self.settled(id), id, Some(winner), market.categories as nat);
        if market.status == MarketStatus::Disputed {
            let base = if self.oracle_was_right(id) {
                freed.released(creator, config.oracle_bond)
            } else {
                freed.forfeited(creator, config.oracle_bond)
            };
            assert(base.held[creator] + config.validity_bond + config.oracle_bond
                == self.ledgers.held[creator]);
            assert forall|who: AccountId|
                {
                    &&& #[trigger] base.held[who] >= stake(config, log, who, log.len())
                    &&& base.free[who] + base.held[who] <= u128::MAX
                } by {
                assert(self.ledgers.held[who] >= self.owed(id, who));
                assert(self.ledgers.free[who] + self.ledgers.held[who] <= u128::MAX);
            }
            lemma_bond_moves_credit(self.ledgers, creator, config.validity_bond);
            lemma_bond_moves_credit(freed, creator, config.oracle_bond);
            lemma_settle_disputes_takes_stakes(base, config, log, winner, log.len());
            let s = settle_disputes(base, config, log, winner, log.len());
            let base_pool: nat = if self.oracle_was_right(id) {
                0
            } else {
                freed.forfeitable(creator, config.oracle_bond) as nat
            };
            if s.correct.len() > 0 {
                lemma_pay_rewards_keeps_escrow(
                    s.ledgers,
                    s.correct,
                    ((base_pool + s.pool) / s.correct.len()) as u128,
                    s.correct.len(),
                );
            }
            assert forall|who: AccountId| #[trigger]
                self.resolved(id).ledgers.held[who] + self.owed(id, who)
                    == self.ledgers.held[who] by {
                assert(s.ledgers.held[who] + stake(config, log, who, log.len()) == base.held[who]);
            }
        } else {
            assert(log.len() == 0);
            assert forall|who: AccountId| #[trigger]
                self.resolved(id).ledgers.held[who] + self.owed(id, who)
                    == self.ledgers.held[who] by {
                assert(self.ledgers.held[who] >= self.owed(id, who));
            }
        }
    }

    /// Creating a market and disputing one put into escrow exactly what
    /// the engine counts as escrowed against the one who pays, where the
    /// ledger has it and has room for it.
    pub proof fn lemma_escrow_adds_what_is_owed(
        self,
        market: Market,
        id: u128,
        who: AccountId,
        outcome: u16,
        now: Time,
    )
        requires
            self.wf(),
        ensures
            self.market_count < u128::MAX && market.creator == who && market.status == (
            match market.creation {
                MarketCreation::Permissionless => MarketStatus::Active,
                MarketCreation::Advised => MarketStatus::Proposed,
            }) && self.ledgers.free[who] >= self.config.creation_bond(market.creation)
                && self.ledgers.held[who] + self.config.creation_bond(market.creation)
                <= u128::MAX ==> self.created(market).ledgers.held[who] == self.ledgers.held[who]
                + self.created(market).owed(self.market_count, who),
            self.dispute_check(id, outcome).is_none() && self.ledgers.free[who]
                >= self.config.bond_at(self.disputes[id].len()) && self.ledgers.held[who]
                + self.config.bond_at(self.disputes[id].len()) <= u128::MAX ==> self.disputed(
                id,
                who,
                outcome,
                now,
            ).ledgers.held[who] + self.owed(id, who) == self.ledgers.held[who] + self.disputed(
                id,
                who,
                outcome,
                now,
            ).owed(id, who),
    {
        self.lemma_next_id_is_fresh();
        assert(self.log_wf(self.market_count));
        if self.dispute_check(id, outcome).is_none() {
            assert(self.market_wf(id));
            assert(self.log_wf(id));
            let log = self.disputes[id];
            let after = self.disputed(id, who, outcome, now);
            let grown = after.disputes[id];
            assert(grown.len() == log.len() + 1);
            self.config.lemma_bond_fits(log.len());
            lemma_stake_prefix(self.config, log, grown, who, log.len());
        }
    }
}

/// The stake of an account over the first `k` disputes depends on those
/// disputes only.
pub proof fn lemma_stake_prefix(
    config: Config,
    log: Seq<MarketDispute>,
    grown: Seq<MarketDispute>,
    who: AccountId,
    k: nat,
)
    requires
        k <= log.len(),
        k <= grown.len(),
        forall|i: int| 0 <= i < k ==> log[i] == grown[i],
    ensures
        stake(config, log, who, k) == stake(config, grown, who, k),
    decreases k,
{
    if k > 0 {
        lemma_stake_prefix(config, log, grown, who, (k - 1) as nat);
    }
}

impl State {
    /// Resolution of a market that its oracle reported and nobody disputed
    /// returns the validity bond and the oracle bond to the creator and
    /// takes nothing from anyone else, where both bonds are in the
    /// creator's escrow and what the creator has free and in escrow fits
    /// the balance type together.
    pub proof fn lemma_resolution_of_oracle_report(self, id: u128)
        requires
            self.wf(),
            self.markets.contains_key(id),
            self.markets[id].status == MarketStatus::Reported,
            match self.markets[id].report {
                Some(report) => report.by == self.markets[id].oracle,
                None => false,
            },
            self.ledgers.held[self.markets[id].creator] >= self.config.validity_bond
                + self.config.oracle_bond,
            self.ledgers.free[self.markets[id].creator] + self.ledgers.held[self.markets[id].creator]
                <= u128::MAX,
        ensures
            self.resolved(id).markets[id].status == MarketStatus::Resolved,
            match self.markets[id].report {
                Some(report) => self.resolved(id).markets[id].resolved_outcome == Some(
                    report.outcome,
                ),
                None => false,
            },
            self.resolved(id).ledgers.held[self.markets[id].creator]
                == self.ledgers.held[self.markets[id].creator] - self.config.validity_bond
                - self.config.oracle_bond,
            self.resolved(id).ledgers.free[self.markets[id].creator]
                == self.ledgers.free[self.markets[id].creator] + self.config.validity_bond
                + self.config.oracle_bond,
            forall|who: AccountId|
                who != self.markets[id].creator ==> {
                    &&& #[trigger] self.resolved(id).ledgers.free[who] == self.ledgers.free[who]
                    &&& self.resolved(id).ledgers.held[who] == self.ledgers.held[who]
                },
    {
        assert(self.market_wf(id));
        self.lemma_settled_credits(id);
        lemma_wipe_others(
            self.settled(id),
            id,
            Some(self.winning_outcome(id)),
            self.markets[id].categories as nat,
        );
    }

    /// Resolution of a market that someone other than its oracle reported
    /// and nobody disputed returns the validity bond to the creator, takes
    /// the oracle bond out of the creator's escrow and pays it to the
    /// reporter, and touches nobody else, where both bonds are in the
    /// creator's escrow, the reporter is not the creator, and the balances
    /// of both have room for what they receive.
    pub proof fn lemma_resolution_of_other_report(self, id: u128)
        requires
            self.wf(),
            self.markets.contains_key(id),
            self.markets[id].status == MarketStatus::Reported,
            match self.markets[id].report {
                Some(report) => {
                    &&& report.by != self.markets[id].oracle
                    &&& report.by != self.markets[id].creator
                    &&& self.ledgers.free[report.by] + self.config.oracle_bond <= u128::MAX
                },
                None => false,
            },
            self.ledgers.held[self.markets[id].creator] >= self.config.validity_bond
                + self.config.oracle_bond,
            self.ledgers.free[self.markets[id].creator] + self.ledgers.held[self.markets[id].creator]
                <= u128::MAX,
        ensures
            self.resolved(id).markets[id].status == MarketStatus::Resolved,
            match self.markets[id].report {
                Some(report) => {
                    &&& self.resolved(id).markets[id].resolved_outcome == Some(report.outcome)
                    &&& self.resolved(id).ledgers.free[report.by] == self.ledgers.free[report.by]
                        + self.config.oracle_bond
                    &&& self.resolved(id).ledgers.held[report.by] == self.ledgers.held[report.by]
                    &&& forall|who: AccountId|
                        who != self.markets[id].creator && who != report.by ==> {
                            &&& #[trigger] self.resolved(id).ledgers.free[who]
                                == self.ledgers.free[who]
                            &&& self.resolved(id).ledgers.held[who] == self.ledgers.held[who]
                        }
                },
                None => false,
            },
            self.resolved(id).ledgers.held[self.markets[id].creator]
                == self.ledgers.held[self.markets[id].creator] - self.config.validity_bond
                - self.config.oracle_bond,
            self.resolved(id).ledgers.free[self.markets[id].creator]
                == self.ledgers.free[self.markets[id].creator] + self.config.validity_bond,
    {
        assert(self.market_wf(id));
        self.lemma_settled_credits(id);
        lemma_wipe_others(
            self.settled(id),
            id,
            Some(self.winning_outcome(id)),
            self.markets[id].categories as nat,
        );
    }

    /// Resolution destroys every share of every outcome of the market but
    /// the winning one, for every account, and leaves the winning shares
    /// and the shares of every other market as they were. It takes
    /// currency out of no free balance; where the market was reported and
    /// not disputed, it changes the currency of the creator and the
    /// reporter alone.
    pub proof fn lemma_resolution_shares(self, id: u128)
        requires
            self.wf(),
            self.resolvable(id),
        ensures
            forall|asset: Asset, who: AccountId| #[trigger]
                self.resolved(id).ledgers.shares[(asset, who)] == (if is_share_below(
                    asset,
                    id,
                    self.markets[id].categories as nat,
                ) && asset != share_of(id, self.winning_outcome(id)) {
                    0
                } else {
                    self.ledgers.shares[(asset, who)]
                }),
            forall|asset: Asset| #[trigger]
                self.resolved(id).ledgers.issued[asset] == (if is_share_below(
                    asset,
                    id,
                    self.markets[id].categories as nat,
                ) && asset != share_of(id, self.winning_outcome(id)) {
                    0
                } else {
                    self.ledgers.issued[asset]
                }),
            forall|who: AccountId| #[trigger]
                self.resolved(id).ledgers.free[who] >= self.ledgers.free[who],
            self.markets[id].status == MarketStatus::Reported ==> match self.markets[id].report {
                Some(report) => forall|who: AccountId|
                    who != self.markets[id].creator && who != report.by ==> {
                        &&& #[trigger] self.resolved(id).ledgers.free[who] == self.ledgers.free[who]
                        &&& self.resolved(id).ledgers.held[who] == self.ledgers.held[who]
                    },
                None => false,
            },
    {
        assert(self.market_wf(id));
        self.lemma_settled_credits(id);
        lemma_wipe_others(
            self.settled(id),
            id,
            Some(self.winning_outcome(id)),
            self.markets[id].categories as nat,
        );
    }
}

} // verus!
