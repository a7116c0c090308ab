//! Resolution: fixing the winning outcome of a market, settling the bonds
//! of its creator, reporter and disputers, destroying the shares of the
//! outcomes that lost, and paying out the shares of the one that won.

use crate::account::AccountId;
use crate::config::Config;
use crate::error::Error;
use crate::ledger::{Ledgers, Refused, Trait};
use crate::market::{Asset, Market, MarketDispute, MarketStatus};
use crate::module::Module;
use crate::state::{State, Window};
use crate::trading::{is_share_below, share_of};
use vstd::prelude::*;

verus! {

/// What settling the bonds of a dispute log leaves behind.
pub struct Settlement {
    /// The ledgers after the bonds were released or forfeited.
    pub ledgers: Ledgers,
    /// What was taken out of the escrow of those whose claim was wrong.
    pub pool: nat,
    /// Those whose claim was right, in the order of their disputes.
    pub correct: Seq<AccountId>,
    /// The sum of the bonds that the ledger was asked to release.
    pub released: nat,
    /// The sum of the bonds that the ledger was asked to forfeit.
    pub forfeited: nat,
}

/// Settles the bonds of the first `k` disputes of `log` against the
/// winning `outcome`: the bond of a dispute that claimed it goes back to
/// the disputer, the bond of any other is forfeited into the pool.
pub open spec fn settle_disputes(
    ledgers: Ledgers,
    config: Config,
    log: Seq<MarketDispute>,
    outcome: u16,
    k: nat,
) -> Settlement
    decreases k,
{
    if k == 0 {
        Settlement { ledgers, pool: 0, correct: Seq::empty(), released: 0, forfeited: 0 }
    } else {
        let prev = settle_disputes(ledgers, config, log, outcome, (k - 1) as nat);
        let dispute = log[k - 1];
        let bond = config.bond_at((k - 1) as nat) as u128;
        if dispute.outcome == outcome {
            Settlement {
                ledgers: prev.ledgers.released(dispute.by, bond),
                pool: prev.pool,
                correct: prev.correct.push(dispute.by),
                released: prev.released + bond as nat,
                forfeited: prev.forfeited,
            }
        } else {
            Settlement {
                ledgers: prev.ledgers.forfeited(dispute.by, bond),
                pool: prev.pool + prev.ledgers.forfeitable(dispute.by, bond) as nat,
                correct: prev.correct,
                released: prev.released,
                forfeited: prev.forfeited + bond as nat,
            }
        }
    }
}

/// The ledgers after `reward` was paid to each of the first `k` of
/// `correct`.
pub open spec fn pay_rewards(ledgers: Ledgers, correct: Seq<AccountId>, reward: u128, k: nat)
    -> Ledgers
    decreases k,
{
    if k == 0 {
        ledgers
    } else {
        pay_rewards(ledgers, correct, reward, (k - 1) as nat).paid(correct[k - 1], reward)
    }
}

/// The ledgers after the shares of the first `k` outcomes of market `id`
/// were destroyed, but for those of the outcome to keep.
pub open spec fn wipe_others(ledgers: Ledgers, id: u128, keep: Option<u16>, k: nat) -> Ledgers
    decreases k,
{
    if k == 0 {
        ledgers
    } else {
        let prev = wipe_others(ledgers, id, keep, (k - 1) as nat);
        if keep == Some((k - 1) as u16) {
            prev
        } else {
            prev.destroyed(share_of(id, (k - 1) as u16))
        }
    }
}

/// What is forfeited into the pool never exceeds the bonds of the
/// disputes settled.
pub proof fn lemma_pool_bounded(
    ledgers: Ledgers,
    config: Config,
    log: Seq<MarketDispute>,
    outcome: u16,
    k: nat,
)
    requires
        config.valid(),
        k <= config.max_disputes,
    ensures
        settle_disputes(ledgers, config, log, outcome, k).pool <= settle_disputes(
            ledgers,
            config,
            log,
            outcome,
            k,
        ).forfeited,
        settle_disputes(ledgers, config, log, outcome, k).released + settle_disputes(
            ledgers,
            config,
            log,
            outcome,
            k,
        ).forfeited == config.bonds_sum(k),
        settle_disputes(ledgers, config, log, outcome, k).pool <= config.bonds_sum(k),
        settle_disputes(ledgers, config, log, outcome, k).correct.len() <= k,
    decreases k,
{
    if k > 0 {
        lemma_pool_bounded(ledgers, config, log, outcome, (k - 1) as nat);
        config.lemma_bond_fits((k - 1) as nat);
    }
}

/// Whether the free balances of `after` are at least those of `before`,
/// and the shares and their outstanding amounts the same.
pub open spec fn only_credits(before: Ledgers, after: Ledgers) -> bool {
    &&& after.total()
    &&& forall|who: AccountId| #[trigger] after.free[who] >= before.free[who]
    &&& after.shares == before.shares
    &&& after.issued == before.issued
}

/// Releasing, forfeiting and paying take nothing out of a free balance and
/// leave the shares alone.
pub proof fn lemma_bond_moves_credit(ledgers: Ledgers, who: AccountId, amount: u128)
    requires
        ledgers.total(),
    ensures
        only_credits(ledgers, ledgers.released(who, amount)),
        only_credits(ledgers, ledgers.forfeited(who, amount)),
        only_credits(ledgers, ledgers.paid(who, amount)),
{
}

/// Settling the bonds of a dispute log takes nothing out of a free balance
/// and leaves the shares alone.
pub proof fn lemma_settle_disputes_credits(
    ledgers: Ledgers,
    config: Config,
    log: Seq<MarketDispute>,
    outcome: u16,
    k: nat,
)
    requires
        ledgers.total(),
    ensures
        only_credits(ledgers, settle_disputes(ledgers, config, log, outcome, k).ledgers),
    decreases k,
{
    if k > 0 {
        lemma_settle_disputes_credits(ledgers, config, log, outcome, (k - 1) as nat);
        let prev = settle_disputes(ledgers, config, log, outcome, (k - 1) as nat);
        lemma_bond_moves_credit(prev.ledgers, log[k - 1].by, config.bond_at((k - 1) as nat) as u128);
    }
}

/// Paying rewards takes nothing out of a free balance and leaves the
/// shares alone.
pub proof fn lemma_pay_rewards_credits(
    ledgers: Ledgers,
    correct: Seq<AccountId>,
    reward: u128,
    k: nat,
)
    requires
        ledgers.total(),
    ensures
        only_credits(ledgers, pay_rewards(ledgers, correct, reward, k)),
    decreases k,
{
    if k > 0 {
        lemma_pay_rewards_credits(ledgers, correct, reward, (k - 1) as nat);
        lemma_bond_moves_credit(
            pay_rewards(ledgers, correct, reward, (k - 1) as nat),
            correct[k - 1],
            reward,
        );
    }
}

/// What destroying the shares of a market does to each balance: the
/// shares of the first `k` outcomes are gone, but for those of the outcome
/// to keep, and nothing else changes.
pub proof fn lemma_wipe_others(ledgers: Ledgers, id: u128, keep: Option<u16>, k: nat)
    requires
        ledgers.total(),
        k <= 65536,
    ensures
        wipe_others(ledgers, id, keep, k).total(),
        wipe_others(ledgers, id, keep, k).free == ledgers.free,
        wipe_others(ledgers, id, keep, k).held == ledgers.held,
        forall|asset: Asset, who: AccountId| #[trigger]
            wipe_others(ledgers, id, keep, k).shares[(asset, who)] == (if is_share_below(
                asset,
                id,
                k,
            ) && Some(asset) != kept_share(id, keep) {
                0
            } else {
                ledgers.shares[(asset, who)]
            }),
        forall|asset: Asset| #[trigger]
            wipe_others(ledgers, id, keep, k).issued[asset] == (if is_share_below(asset, id, k)
                && Some(asset) != kept_share(id, keep) {
                0
            } else {
                ledgers.issued[asset]
            }),
    decreases k,
{
    if k > 0 {
        lemma_wipe_others(ledgers, id, keep, (k - 1) as nat);
    }
}

/// The share that a wipe keeps, if it keeps one.
pub open spec fn kept_share(id: u128, keep: Option<u16>) -> Option<Asset> {
    match keep {
        Some(outcome) => Some(share_of(id, outcome)),
        None => None,
    }
}

impl State {
    /// The outcome that market `id` resolves to: that of its latest
    /// dispute where it is disputed, else that of its report.
    pub open spec fn winning_outcome(self, id: u128) -> u16 {
        let market = self.markets[id];
        let log = self.disputes[id];
        if market.status == MarketStatus::Disputed && log.len() > 0 {
            log.last().outcome
        } else {
            match market.report {
                Some(report) => report.outcome,
                None => 0,
            }
        }
    }

    /// The ledgers after the oracle bond of a reported market `id` was
    /// settled: back to the creator where the oracle itself reported, else
    /// forfeited and paid to the reporter.
    pub open spec fn settled_reported(self, ledgers: Ledgers, id: u128) -> Ledgers {
        let market = self.markets[id];
        let bond = self.config.oracle_bond;
        match market.report {
            Some(report) => if report.by == market.oracle {
                ledgers.released(market.creator, bond)
            } else {
                ledgers.forfeited(market.creator, bond).paid(
                    report.by,
                    ledgers.forfeitable(market.creator, bond),
                )
            },
            None => ledgers,
        }
    }

    /// Whether the report of market `id` claimed the winning outcome.
    pub open spec fn oracle_was_right(self, id: u128) -> bool {
        match self.markets[id].report {
            Some(report) => report.outcome == self.winning_outcome(id),
            None => false,
        }
    }

    /// The ledgers after the bonds of a disputed market `id` were settled:
    /// the oracle bond back to the creator where the report was right, else
    /// forfeited into the pool; the bond of each dispute released or
    /// forfeited; and the pool divided evenly, rounding down, among those
    /// whose dispute was right.
    pub open spec fn settled_disputed(self, ledgers: Ledgers, id: u128) -> Ledgers {
        let market = self.markets[id];
        let log = self.disputes[id];
        let bond = self.config.oracle_bond;
        let base = if self.oracle_was_right(id) {
            ledgers.released(market.creator, bond)
        } else {
            ledgers.forfeited(market.creator, bond)
        };
        let base_pool: nat = if self.oracle_was_right(id) {
            0
        } else {
            ledgers.forfeitable(market.creator, bond) as nat
        };
        let s = settle_disputes(base, self.config, log, self.winning_outcome(id), log.len());
        if s.correct.len() > 0 {
            pay_rewards(
                s.ledgers,
                s.correct,
                ((base_pool + s.pool) / s.correct.len()) as u128,
                s.correct.len(),
            )
        } else {
            s.ledgers
        }
    }

    /// The ledgers after every bond of market `id` was settled: first the
    /// validity bond goes back to the creator, then the oracle bond and the
    /// bonds of the disputes are settled.
    pub open spec fn settled(self, id: u128) -> Ledgers {
        let market = self.markets[id];
        let freed = self.ledgers.released(market.creator, self.config.validity_bond);
        if market.status == MarketStatus::Disputed {
            self.settled_disputed(freed, id)
        } else {
            self.settled_reported(freed, id)
        }
    }

    /// The state after market `id` was resolved: its bonds settled, the
    /// shares of every outcome but the winning one destroyed, the winning
    /// outcome on record.
    pub open spec fn resolved(self, id: u128) -> State {
        let market = self.markets[id];
        let outcome = self.winning_outcome(id);
        State {
            ledgers: wipe_others(self.settled(id), id, Some(outcome), market.categories as nat),
            markets: self.markets.insert(
                id,
                Market {
                    status: MarketStatus::Resolved,
                    resolved_outcome: Some(outcome),
                    ..market
                },
            ),
            ..self
        }
    }

    /// Settling the bonds of a market takes nothing out of a free balance
    /// and leaves the shares alone.
    pub proof fn lemma_settled_credits(self, id: u128)
        requires
            self.ledgers.total(),
        ensures
            only_credits(self.ledgers, self.settled(id)),
    {
        let market = self.markets[id];
        let log = self.disputes[id];
        let bond = self.config.oracle_bond;
        let freed = self.ledgers.released(market.creator, self.config.validity_bond);
        lemma_bond_moves_credit(self.ledgers, market.creator, self.config.validity_bond);
        lemma_bond_moves_credit(freed, market.creator, bond);
        if market.status == MarketStatus::Disputed {
            let base = if self.oracle_was_right(id) {
                freed.released(market.creator, bond)
            } else {
                freed.forfeited(market.creator, bond)
            };
            lemma_settle_disputes_credits(
                base,
                self.config,
                log,
                self.winning_outcome(id),
                log.len(),
            );
            let s = settle_disputes(base, self.config, log, self.winning_outcome(id), log.len());
            let base_pool: nat = if self.oracle_was_right(id) {
                0
            } else {
                freed.forfeitable(market.creator, bond) as nat
            };
            if s.correct.len() > 0 {
                lemma_pay_rewards_credits(
                    s.ledgers,
                    s.correct,
                    ((base_pool + s.pool) / s.correct.len()) as u128,
                    s.correct.len(),
                );
            }
        } else {
            match market.report {
                Some(report) => {
                    lemma_bond_moves_credit(
                        freed.forfeited(market.creator, bond),
                        report.by,
                        freed.forfeitable(market.creator, bond),
                    );
                },
                None => {},
            }
        }
    }

    /// Whether market `id` can be resolved: it is there, and reported or
    /// disputed.
    pub open spec fn resolvable(self, id: u128) -> bool {
        &&& self.markets.contains_key(id)
        &&& self.markets[id].status == MarketStatus::Reported || self.markets[id].status
            == MarketStatus::Disputed
    }

    /// Resolving a market keeps the engine in order.
    pub proof fn lemma_wf_resolved(self, id: u128)
        requires
            self.wf(),
            self.resolvable(id),
        ensures
            (State {
                markets: self.markets.insert(
                    id,
                    Market {
                        status: MarketStatus::Resolved,
                        resolved_outcome: Some(self.winning_outcome(id)),
                        ..self.markets[id]
                    },
                ),
                ..self
            }).wf(),
    {
        assert(self.market_wf(id));
        self.lemma_wf_update_market(
            id,
            Market {
                status: MarketStatus::Resolved,
                resolved_outcome: Some(self.winning_outcome(id)),
                ..self.markets[id]
            },
        );
    }

    /// Resolving a market leaves the engine in order, its indices and logs
    /// as they were, and every other record as it was.
    pub proof fn lemma_resolved_wf(self, id: u128)
        requires
            self.wf(),
            self.resolvable(id),
        ensures
            self.resolved(id).wf(),
            self.resolved(id).config == self.config,
            self.resolved(id).disputes == self.disputes,
            self.resolved(id).report_index == self.report_index,
            self.resolved(id).dispute_index == self.dispute_index,
            self.resolved(id).markets.dom() == self.markets.dom(),
            forall|other: u128| other != id ==> self.resolved(id).markets[other] == self.markets[other],
            self.resolved(id).markets[id].categories == self.markets[id].categories,
            self.resolved(id).markets[id].resolved_outcome == Some(self.winning_outcome(id)),
    {
        self.lemma_settled_credits(id);
        lemma_wipe_others(
            self.settled(id),
            id,
            Some(self.winning_outcome(id)),
            self.markets[id].categories as nat,
        );
        self.lemma_wf_resolved(id);
        let recorded = State {
            markets: self.markets.insert(
                id,
                Market {
                    status: MarketStatus::Resolved,
                    resolved_outcome: Some(self.winning_outcome(id)),
                    ..self.markets[id]
                },
            ),
            ..self
        };
        recorded.lemma_wf_ledgers(self.resolved(id).ledgers);
        assert(self.resolved(id).markets.dom() =~= self.markets.dom());
    }

    /// Why `sender` cannot redeem the winning shares of market `id`, if
    /// they cannot.
    pub open spec fn redeem_check(self, sender: AccountId, id: u128) -> Option<Error> {
        if !self.markets.contains_key(id) {
            Some(Error::MarketNotFound)
        } else if self.markets[id].status != MarketStatus::Resolved {
            Some(Error::MarketNotResolved)
        } else if self.ledgers.free[self.account_of(id)] < self.winnings(sender, id) {
            Some(Error::InsufficientFundsInMarketAccount)
        } else {
            None
        }
    }

    /// The asset that stands for the winning outcome of a resolved market.
    pub open spec fn winning_share(self, id: u128) -> Asset {
        match self.markets[id].resolved_outcome {
            Some(outcome) => share_of(id, outcome),
            None => share_of(id, 0),
        }
    }

    /// What `sender` holds of the winning share of market `id`.
    pub open spec fn winnings(self, sender: AccountId, id: u128) -> u128 {
        self.ledgers.shares[(self.winning_share(id), sender)]
    }

    /// The state after `sender` redeemed the winning shares of market
    /// `id`: one unit of currency out of the custodial account for each
    /// share, and the shares destroyed.
    pub open spec fn redeemed(self, sender: AccountId, id: u128) -> State {
        let winnings = self.winnings(sender, id);
        State {
            ledgers: self.ledgers.transferred(self.account_of(id), sender, winnings).burned(
                self.winning_share(id),
                sender,
                winnings,
            ),
            ..self
        }
    }
}

/// Releases or forfeits the bond of every dispute of `log`, and returns
/// what was forfeited and who was right.
fn settle_bonds<T: Trait>(env: &mut T, config: &Config, log: &Vec<MarketDispute>, outcome: u16)
    -> (r: (u128, Vec<AccountId>))
    requires
        config.valid(),
        log.len() <= config.max_disputes,
    ensures
        final(env).ledgers() == settle_disputes(
            old(env).ledgers(),
            *config,
            log@,
            outcome,
            log@.len(),
        ).ledgers,
        r.0 == settle_disputes(old(env).ledgers(), *config, log@, outcome, log@.len()).pool,
        r.1@ == settle_disputes(old(env).ledgers(), *config, log@, outcome, log@.len()).correct,
{
    let mut pool: u128 = 0;
    let mut correct: Vec<AccountId> = Vec::new();
    let mut k: usize = 0;
    while k < log.len()
        invariant
            k <= log.len(),
            config.valid(),
            log.len() <= config.max_disputes,
            env.ledgers() == settle_disputes(
                old(env).ledgers(),
                *config,
                log@,
                outcome,
                k as nat,
            ).ledgers,
            pool == settle_disputes(old(env).ledgers(), *config, log@, outcome, k as nat).pool,
            correct@ == settle_disputes(
                old(env).ledgers(),
                *config,
                log@,
                outcome,
                k as nat,
            ).correct,
        decreases log.len() - k,
    {
        proof {
            lemma_pool_bounded(old(env).ledgers(), *config, log@, outcome, k as nat);
            config.lemma_bond_fits(k as nat);
        }
        let dispute = log[k];
        let bond = config.dispute_bond_at(k as u16);
        if dispute.outcome == outcome {
            env.release(&dispute.by, bond);
            correct.push(dispute.by);
        } else {
            let taken = env.forfeit(&dispute.by, bond);
            pool = pool + taken;
        }
        k += 1;
    }
    (pool, correct)
}

/// Pays `reward` to each of `correct`.
fn pay_each<T: Trait>(env: &mut T, correct: &Vec<AccountId>, reward: u128)
    ensures
        final(env).ledgers() == pay_rewards(old(env).ledgers(), correct@, reward, correct@.len()),
{
    let mut k: usize = 0;
    while k < correct.len()
        invariant
            k <= correct.len(),
            env.ledgers() == pay_rewards(old(env).ledgers(), correct@, reward, k as nat),
        decreases correct.len() - k,
    {
        env.pay(&correct[k], reward);
        k += 1;
    }
}

/// Destroys the shares of every outcome of market `market_id` but the one
/// to keep.
pub(crate) fn wipe_shares<T: Trait>(env: &mut T, market_id: u128, keep: Option<u16>, categories: u16)
    ensures
        final(env).ledgers() == wipe_others(
            old(env).ledgers(),
            market_id,
            keep,
            categories as nat,
        ),
{
    let mut i: u16 = 0;
    while i < categories
        invariant
            i <= categories,
            env.ledgers() == wipe_others(old(env).ledgers(), market_id, keep, i as nat),
        decreases categories - i,
    {
        let kept = match keep {
            Some(outcome) => outcome == i,
            None => false,
        };
        if !kept {
            env.destroy_all(Asset::PredictionMarketShare(market_id, i));
        }
        i += 1;
    }
}

impl<T: Trait> Module<T> {
    /// Resolves a reported or disputed market and returns the winning
    /// outcome: settles every bond, rewards those whose dispute was right,
    /// destroys the shares of the outcomes that lost, and marks the market
    /// resolved.
    pub fn internal_resolve(&mut self, market_id: u128) -> (outcome: u16)
        requires
            old(self).wf(),
            old(self)@.resolvable(market_id),
        ensures
            final(self).wf(),
            outcome == old(self)@.winning_outcome(market_id),
            final(self)@ == old(self)@.resolved(market_id),
    {
        let config = *self.config();
        let (creator, oracle, status, report, categories) = match self.market_by_id(market_id) {
            Ok(market) => (
                market.creator,
                market.oracle,
                market.status,
                market.report,
                market.outcomes(),
            ),
            Err(_) => {
                return 0;
            },
        };
        proof {
            assert(old(self)@.market_wf(market_id));
            assert(old(self)@.log_wf(market_id));
        }
        let report = match report {
            Some(report) => report,
            None => {
                return 0;
            },
        };
        let log = self.disputes(market_id);
        let n = log.len();
        let disputed = status == MarketStatus::Disputed && n > 0;
        let outcome = if disputed {
            log[n - 1].outcome
        } else {
            report.outcome
        };
        let env = self.env_mut();
        env.release(&creator, config.validity_bond);
        if disputed {
            let mut pool: u128 = 0;
            if report.outcome == outcome {
                env.release(&creator, config.oracle_bond);
            } else {
                pool = env.forfeit(&creator, config.oracle_bond);
            }
            let ghost base = env.ledgers();
            let (forfeited, correct) = settle_bonds(env, &config, &log, outcome);
            proof {
                lemma_pool_bounded(base, config, log@, outcome, n as nat);
                config.lemma_bonds_sum_monotone(n as nat, config.max_disputes as nat);
            }
            let winners = correct.len();
            if winners > 0 {
                let reward = (pool + forfeited) / (winners as u128);
                pay_each(env, &correct, reward);
            }
        } else {
            if report.by == oracle {
                env.release(&creator, config.oracle_bond);
            } else {
                let taken = env.forfeit(&creator, config.oracle_bond);
                env.pay(&report.by, taken);
            }
        }
        wipe_shares(env, market_id, Some(outcome), categories);
        proof {
            old(self)@.lemma_wf_ledgers(self@.ledgers);
            self@.lemma_wf_resolved(market_id);
        }
        match self.take_market(market_id) {
            Some(mut market) => {
                market.status = MarketStatus::Resolved;
                market.resolved_outcome = Some(outcome);
                self.put_market(market_id, market);
            },
            None => {},
        }
        assert(self@.markets =~= old(self)@.resolved(market_id).markets);
        outcome
    }

    /// Resolves a reported or disputed market at once, taking it off the
    /// scheduling indices first.
    pub fn admin_move_market_to_resolved(&mut self, authorized: bool, market_id: u128) -> (r:
        Result<(), Error>)
        requires
            old(self).wf(),
        ensures
            final(self).wf(),
            r == (if !authorized {
                Err::<(), Error>(Error::NotAuthorized)
            } else if !old(self)@.markets.contains_key(market_id) {
                Err(Error::MarketNotFound)
            } else if !old(self)@.resolvable(market_id) {
                Err(Error::NotReportedNorDisputed)
            } else {
                Ok(())
            }),
            final(self)@ == (if r.is_ok() {
                old(self)@.unscheduled(market_id).resolved(market_id)
            } else {
                old(self)@
            }),
            r.is_ok() ==> final(self)@.unlisted(market_id),
    {
        if !authorized {
            return Err(Error::NotAuthorized);
        }
        let status = match self.market_by_id(market_id) {
            Ok(market) => market.status,
            Err(e) => {
                return Err(e);
            },
        };
        if status != MarketStatus::Reported && status != MarketStatus::Disputed {
            return Err(Error::NotReportedNorDisputed);
        }
        proof {
            old(self)@.lemma_unscheduled(market_id);
        }
        match self.clear_auto_resolve(market_id) {
            Ok(_) => {},
            Err(e) => {
                return Err(e);
            },
        }
        let ghost cleared = self@;
        self.internal_resolve(market_id);
        proof {
            assert forall|window: Window, block: u64| !(#[trigger] self@.bucket(
                window,
                block,
            )).contains(market_id) by {
                assert(self@.bucket(window, block) == cleared.bucket(window, block));
            }
        }
        Ok(())
    }

    /// Pays out a redemption whose payment the currency ledger was asked to
    /// transfer: `transferred` is the ledger's answer. On success the
    /// winning shares of `sender` are destroyed.
    pub fn settle_redemption(
        &mut self,
        transferred: Result<(), Refused>,
        sender: AccountId,
        market_id: u128,
    ) -> (r: Result<(), Error>)
        requires
            old(self).wf(),
            old(self)@.markets.contains_key(market_id),
            old(self)@.markets[market_id].status == MarketStatus::Resolved,
        ensures
            final(self).wf(),
            match transferred {
                Ok(_) => r.is_ok() && final(self)@ == (State {
                    ledgers: old(self)@.ledgers.burned(
                        old(self)@.winning_share(market_id),
                        sender,
                        old(self)@.winnings(sender, market_id),
                    ),
                    ..old(self)@
                }),
                Err(_) => r == Err::<(), Error>(Error::InsufficientFundsInMarketAccount) && final(self)@
                    == old(self)@,
            },
    {
        if transferred.is_err() {
            return Err(Error::InsufficientFundsInMarketAccount);
        }
        proof {
            assert(old(self)@.market_wf(market_id));
        }
        let outcome = match self.market_by_id(market_id) {
            Ok(market) => match market.resolved_outcome {
                Some(outcome) => outcome,
                None => {
                    return Err(Error::MarketNotResolved);
                },
            },
            Err(e) => {
                return Err(e);
            },
        };
        let share = Self::market_outcome_share_id(market_id, outcome);
        let winnings = self.env().share_balance(share, &sender);
        self.env_mut().burn(share, &sender, winnings);
        proof {
            old(self)@.lemma_wf_ledgers(self@.ledgers);
        }
        Ok(())
    }

    /// Redeems the winning shares of a resolved market for `sender`: one
    /// unit of currency out of the market's custodial account for each
    /// share, and the shares destroyed. The payment may drain the custodial
    /// account; where the currency ledger does not accept it, nothing
    /// changes.
    pub fn redeem_shares(&mut self, sender: AccountId, market_id: u128) -> (r: Result<(), Error>)
        requires
            old(self).wf(),
        ensures
            final(self).wf(),
            match old(self)@.redeem_check(sender, market_id) {
                Some(e) => r == Err::<(), Error>(e) && final(self)@ == old(self)@,
                None => if old(self).chain().accepts_transfer(
                    old(self)@.account_of(market_id),
                    sender,
                    old(self)@.winnings(sender, market_id),
                    true,
                ) {
                    &&& r.is_ok()
                    &&& old(self)@.sell_fits(
                        sender,
                        market_id,
                        old(self)@.winnings(sender, market_id),
                    )
                    &&& final(self)@ == old(self)@.redeemed(sender, market_id)
                } else {
                    r == Err::<(), Error>(Error::InsufficientFundsInMarketAccount) && final(self)@
                        == old(self)@
                },
            },
    {
        let (status, resolved) = match self.market_by_id(market_id) {
            Ok(market) => (market.status, market.resolved_outcome),
            Err(e) => {
                return Err(e);
            },
        };
        if status != MarketStatus::Resolved {
            return Err(Error::MarketNotResolved);
        }
        proof {
            assert(old(self)@.market_wf(market_id));
        }
        let outcome = match resolved {
            Some(outcome) => outcome,
            None => {
                return Err(Error::MarketNotResolved);
            },
        };
        let share = Self::market_outcome_share_id(market_id, outcome);
        let winnings = self.env().share_balance(share, &sender);
        let account = self.market_account(market_id);
        if self.env().balance(&account) < winnings {
            return Err(Error::InsufficientFundsInMarketAccount);
        }
        let transferred = self.env_mut().transfer(&account, &sender, winnings, true);
        proof {
            old(self)@.lemma_wf_ledgers(self@.ledgers);
        }
        self.settle_redemption(transferred, sender, market_id)
    }
}

} // verus!
