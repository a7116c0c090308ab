//! Complete sets: one share of every outcome of a market, bought for and
//! sold back into one unit of currency held in the market's custodial
//! account.

use crate::account::{derive_market_account, spec_market_account, AccountId};
use crate::error::Error;
use crate::ledger::{least, Ledgers, Refused, Trait};
use crate::market::{Asset, Time};
use crate::module::Module;
use crate::state::State;
use vstd::prelude::*;

verus! {

/// The asset that stands for one outcome of one market.
pub open spec fn share_of(market_id: u128, outcome: u16) -> Asset {
    Asset::PredictionMarketShare(market_id, outcome)
}

/// The ledgers after `amount` of the shares of the first `k` outcomes of
/// market `id` was created for `who`.
pub open spec fn minted_sets(ledgers: Ledgers, id: u128, who: AccountId, amount: u128, k: nat)
    -> Ledgers
    decreases k,
{
    if k == 0 {
        ledgers
    } else {
        minted_sets(ledgers, id, who, amount, (k - 1) as nat).minted(
            share_of(id, (k - 1) as u16),
            who,
            amount,
        )
    }
}

/// The ledgers after up to `amount` of the shares of the first `k`
/// outcomes of market `id` was destroyed in the balance of `who`.
pub open spec fn burned_sets(ledgers: Ledgers, id: u128, who: AccountId, amount: u128, k: nat)
    -> Ledgers
    decreases k,
{
    if k == 0 {
        ledgers
    } else {
        burned_sets(ledgers, id, who, amount, (k - 1) as nat).burned(
            share_of(id, (k - 1) as u16),
            who,
            amount,
        )
    }
}

/// Whether `who` has at least `amount` of the share of each of the first
/// `k` outcomes of market `id`.
pub open spec fn has_sets(ledgers: Ledgers, id: u128, who: AccountId, amount: u128, k: nat)
    -> bool {
    forall|outcome: u16|
        outcome < k ==> ledgers.shares[(#[trigger] share_of(id, outcome), who)] >= amount
}

/// The first of the first `k` outcomes of market `id` whose share the share
/// ledger would not mint for `who`, as the ledgers stand; none where it
/// would mint them all.
pub open spec fn first_refused<T: Trait>(
    ledgers: Ledgers,
    id: u128,
    who: AccountId,
    amount: u128,
    k: nat,
) -> Option<u16>
    decreases k,
{
    if k == 0 {
        None
    } else {
        match first_refused::<T>(ledgers, id, who, amount, (k - 1) as nat) {
            Some(outcome) => Some(outcome),
            None => if T::mint_accepted(ledgers, share_of(id, (k - 1) as u16), who, amount) {
                None
            } else {
                Some((k - 1) as u16)
            },
        }
    }
}

/// Where the share ledger would refuse none of the first `k` outcomes, it
/// accepts the mint of each of them.
pub proof fn lemma_none_refused<T: Trait>(
    ledgers: Ledgers,
    id: u128,
    who: AccountId,
    amount: u128,
    k: nat,
)
    requires
        first_refused::<T>(ledgers, id, who, amount, k).is_none(),
    ensures
        forall|outcome: u16|
            outcome < k ==> T::mint_accepted(ledgers, #[trigger] share_of(id, outcome), who, amount),
    decreases k,
{
    if k > 0 {
        lemma_none_refused::<T>(ledgers, id, who, amount, (k - 1) as nat);
    }
}

/// Which outcome the share ledger would refuse first depends on the shares
/// and their outstanding amounts alone.
pub proof fn lemma_first_refused_agrees<T: Trait>(
    a: Ledgers,
    b: Ledgers,
    id: u128,
    who: AccountId,
    amount: u128,
    k: nat,
)
    requires
        a.shares == b.shares,
        a.issued == b.issued,
    ensures
        first_refused::<T>(a, id, who, amount, k) == first_refused::<T>(b, id, who, amount, k),
    decreases k,
{
    if k > 0 {
        lemma_first_refused_agrees::<T>(a, b, id, who, amount, (k - 1) as nat);
        T::lemma_mint_accepted(a, b, share_of(id, (k - 1) as u16), who, amount);
    }
}

impl State {
    /// The custodial account of market `id`.
    pub open spec fn account_of(self, id: u128) -> AccountId {
        spec_market_account(self.config.module_id, id)
    }

    /// Why `who` cannot buy `amount` complete sets of market `id` at `now`,
    /// if they cannot. The last reason is an outcome whose share the share
    /// ledger of the chain `T` would not mint: the first such outcome is
    /// named.
    pub open spec fn buy_check<T: Trait>(
        self,
        who: AccountId,
        id: u128,
        amount: u128,
        now: Time,
    ) -> Option<Error> {
        if self.ledgers.free[who] < amount {
            Some(Error::InsufficientFunds)
        } else if !self.markets.contains_key(id) {
            Some(Error::MarketNotFound)
        } else if !self.markets[id].end.is_open(now) {
            Some(Error::MarketNotActive)
        } else {
            match first_refused::<T>(
                self.ledgers,
                id,
                who,
                amount,
                self.markets[id].categories as nat,
            ) {
                Some(outcome) => Some(Error::MintRefused(outcome)),
                None => None,
            }
        }
    }

    /// Whether the ledgers have room for `who` buying `amount` complete
    /// sets of market `id`: the payment is covered and fits the custodial
    /// account, and the shares fit the balances of `who` and the
    /// outstanding amounts.
    pub open spec fn buy_fits(self, who: AccountId, id: u128, amount: u128) -> bool {
        &&& self.ledgers.free[who] >= amount
        &&& who != self.account_of(id) ==> self.ledgers.free[self.account_of(id)] + amount
            <= u128::MAX
        &&& mint_fits(self.ledgers, id, who, amount, self.markets[id].categories as nat)
    }

    /// The ledgers after `who` paid `amount` into the custodial account of
    /// market `id` and received the shares of its first `k` outcomes.
    pub open spec fn bought_upto(self, who: AccountId, id: u128, amount: u128, k: nat) -> Ledgers {
        minted_sets(
            self.ledgers.transferred(who, self.account_of(id), amount),
            id,
            who,
            amount,
            k,
        )
    }

    /// The state after `who` bought `amount` complete sets of market `id`.
    pub open spec fn bought(self, who: AccountId, id: u128, amount: u128) -> State {
        State {
            ledgers: self.bought_upto(who, id, amount, self.markets[id].categories as nat),
            ..self
        }
    }

    /// Why `who` cannot sell `amount` complete sets of market `id` at
    /// `now`, if they cannot.
    pub open spec fn sell_check(self, who: AccountId, id: u128, amount: u128, now: Time) -> Option<
        Error,
    > {
        if !self.markets.contains_key(id) {
            Some(Error::MarketNotFound)
        } else if !self.markets[id].end.is_open(now) {
            Some(Error::MarketNotActive)
        } else if self.ledgers.free[self.account_of(id)] < amount {
            Some(Error::InsufficientFundsInMarketAccount)
        } else if !has_sets(self.ledgers, id, who, amount, self.markets[id].categories as nat) {
            Some(Error::InsufficientShareBalance)
        } else {
            None
        }
    }

    /// Whether the free balance of `who` has room for the proceeds of
    /// selling `amount` complete sets of market `id`.
    pub open spec fn sell_fits(self, who: AccountId, id: u128, amount: u128) -> bool {
        who != self.account_of(id) ==> self.ledgers.free[who] + amount <= u128::MAX
    }

    /// The state after `who` sold `amount` complete sets of market `id`.
    pub open spec fn sold(self, who: AccountId, id: u128, amount: u128) -> State {
        State {
            ledgers: burned_sets(
                self.ledgers.transferred(self.account_of(id), who, amount),
                id,
                who,
                amount,
                self.markets[id].categories as nat,
            ),
            ..self
        }
    }
}

/// Whether `asset` is the share of one of the first `k` outcomes of market
/// `id`.
pub open spec fn is_share_below(asset: Asset, id: u128, k: nat) -> bool {
    match asset {
        Asset::PredictionMarketShare(market, outcome) => market == id && outcome < k,
        Asset::Ztg => false,
    }
}

/// Whether the balances of `who` and the outstanding amounts have room for
/// `amount` more of the share of each of the first `k` outcomes of market
/// `id`.
pub open spec fn mint_fits(ledgers: Ledgers, id: u128, who: AccountId, amount: u128, k: nat)
    -> bool {
    forall|outcome: u16|
        outcome < k ==> {
            &&& ledgers.shares[(#[trigger] share_of(id, outcome), who)] + amount <= u128::MAX
            &&& ledgers.issued[share_of(id, outcome)] + amount <= u128::MAX
        }
}

/// What minting complete sets does to each balance: the share of each of
/// the first `k` outcomes grows by `amount` for `who` and in the
/// outstanding amount, and nothing else changes.
pub proof fn lemma_minted_sets(ledgers: Ledgers, id: u128, who: AccountId, amount: u128, k: nat)
    requires
        ledgers.total(),
        k <= 65536,
    ensures
        minted_sets(ledgers, id, who, amount, k).total(),
        minted_sets(ledgers, id, who, amount, k).free == ledgers.free,
        minted_sets(ledgers, id, who, amount, k).held == ledgers.held,
        forall|asset: Asset, w: AccountId| #[trigger]
            minted_sets(ledgers, id, who, amount, k).shares[(asset, w)] == (if w == who
                && is_share_below(asset, id, k) {
                (ledgers.shares[(asset, w)] + amount) as u128
            } else {
                ledgers.shares[(asset, w)]
            }),
        forall|asset: Asset| #[trigger]
            minted_sets(ledgers, id, who, amount, k).issued[asset] == (if is_share_below(
                asset,
                id,
                k,
            ) {
                (ledgers.issued[asset] + amount) as u128
            } else {
                ledgers.issued[asset]
            }),
    decreases k,
{
    if k > 0 {
        lemma_minted_sets(ledgers, id, who, amount, (k - 1) as nat);
    }
}

/// What burning complete sets does to each balance: the share of each of
/// the first `k` outcomes shrinks by up to `amount` for `who` and in the
/// outstanding amount, and nothing else changes.
pub proof fn lemma_burned_sets(ledgers: Ledgers, id: u128, who: AccountId, amount: u128, k: nat)
    requires
        ledgers.total(),
        k <= 65536,
    ensures
        burned_sets(ledgers, id, who, amount, k).total(),
        burned_sets(ledgers, id, who, amount, k).free == ledgers.free,
        burned_sets(ledgers, id, who, amount, k).held == ledgers.held,
        forall|asset: Asset, w: AccountId| #[trigger]
            burned_sets(ledgers, id, who, amount, k).shares[(asset, w)] == (if w == who
                && is_share_below(asset, id, k) {
                (ledgers.shares[(asset, w)] - ledgers.burnable(asset, who, amount)) as u128
            } else {
                ledgers.shares[(asset, w)]
            }),
        forall|asset: Asset| #[trigger]
            burned_sets(ledgers, id, who, amount, k).issued[asset] == (if is_share_below(
                asset,
                id,
                k,
            ) {
                (ledgers.issued[asset] - least(
                    ledgers.burnable(asset, who, amount),
                    ledgers.issued[asset],
                )) as u128
            } else {
                ledgers.issued[asset]
            }),
    decreases k,
{
    if k > 0 {
        lemma_burned_sets(ledgers, id, who, amount, (k - 1) as nat);
    }
}

/// A transfer of currency does not change what room there is for shares.
pub proof fn lemma_mint_fits_after_transfer(
    ledgers: Ledgers,
    who: AccountId,
    account: AccountId,
    amount: u128,
    id: u128,
    k: nat,
)
    ensures
        mint_fits(ledgers.transferred(who, account, amount), id, who, amount, k) == mint_fits(
            ledgers,
            id,
            who,
            amount,
            k,
        ),
{
    let moved = ledgers.transferred(who, account, amount);
    assert(moved.shares == ledgers.shares);
    assert(moved.issued == ledgers.issued);
}

/// Whether `who` has at least `amount` of the share of every outcome of
/// market `market_id`.
fn holds_sets<T: Trait>(env: &T, market_id: u128, who: &AccountId, amount: u128, categories: u16)
    -> (r: bool)
    ensures
        r == has_sets(env.ledgers(), market_id, *who, amount, categories as nat),
{
    let mut i: u16 = 0;
    while i < categories
        invariant
            i <= categories,
            has_sets(env.ledgers(), market_id, *who, amount, i as nat),
        decreases categories - i,
    {
        if env.share_balance(Asset::PredictionMarketShare(market_id, i), who) < amount {
            assert(env.ledgers().shares[(share_of(market_id, i), *who)] < amount);
            return false;
        }
        i += 1;
    }
    true
}

/// Burns up to `amount` of the share of every outcome of market
/// `market_id` in the balance of `who`.
fn burn_sets<T: Trait>(env: &mut T, market_id: u128, who: &AccountId, amount: u128, categories: u16)
    ensures
        final(env).ledgers() == burned_sets(
            old(env).ledgers(),
            market_id,
            *who,
            amount,
            categories as nat,
        ),
{
    let mut i: u16 = 0;
    while i < categories
        invariant
            i <= categories,
            env.ledgers() == burned_sets(old(env).ledgers(), market_id, *who, amount, i as nat),
        decreases categories - i,
    {
        env.burn(Asset::PredictionMarketShare(market_id, i), who, amount);
        i += 1;
    }
}

/// The first outcome of market `market_id` whose share the share ledger
/// would not mint for `who` as the ledgers stand, if there is one.
fn first_unmintable<T: Trait>(
    env: &T,
    market_id: u128,
    who: &AccountId,
    amount: u128,
    categories: u16,
) -> (r: Option<u16>)
    ensures
        r == first_refused::<T>(env.ledgers(), market_id, *who, amount, categories as nat),
{
    let mut i: u16 = 0;
    while i < categories
        invariant
            i <= categories,
            first_refused::<T>(env.ledgers(), market_id, *who, amount, i as nat).is_none(),
        decreases categories - i,
    {
        if !env.can_mint(Asset::PredictionMarketShare(market_id, i), who, amount) {
            proof {
                lemma_refused_stays::<T>(
                    env.ledgers(),
                    market_id,
                    *who,
                    amount,
                    (i + 1) as nat,
                    categories as nat,
                );
            }
            return Some(i);
        }
        i += 1;
    }
    None
}

/// An outcome that is the first refused among the first `k` is the first
/// refused among any more.
pub proof fn lemma_refused_stays<T: Trait>(
    ledgers: Ledgers,
    id: u128,
    who: AccountId,
    amount: u128,
    k: nat,
    n: nat,
)
    requires
        k <= n,
        first_refused::<T>(ledgers, id, who, amount, k).is_some(),
    ensures
        first_refused::<T>(ledgers, id, who, amount, n) == first_refused::<T>(
            ledgers,
            id,
            who,
            amount,
            k,
        ),
    decreases n,
{
    if k < n {
        lemma_refused_stays::<T>(ledgers, id, who, amount, k, (n - 1) as nat);
    }
}

/// Mints `amount` of the share of every outcome of market `market_id` for
/// `who`, where the share ledger accepts the mint of each as the ledgers
/// stand.
fn mint_sets<T: Trait>(env: &mut T, market_id: u128, who: &AccountId, amount: u128, categories: u16)
    requires
        first_refused::<T>(
            old(env).ledgers(),
            market_id,
            *who,
            amount,
            categories as nat,
        ).is_none(),
    ensures
        final(env).ledgers() == minted_sets(
            old(env).ledgers(),
            market_id,
            *who,
            amount,
            categories as nat,
        ),
        mint_fits(old(env).ledgers(), market_id, *who, amount, categories as nat),
{
    let mut i: u16 = 0;
    while i < categories
        invariant
            i <= categories,
            first_refused::<T>(
                old(env).ledgers(),
                market_id,
                *who,
                amount,
                categories as nat,
            ).is_none(),
            env.ledgers() == minted_sets(old(env).ledgers(), market_id, *who, amount, i as nat),
            mint_fits(old(env).ledgers(), market_id, *who, amount, i as nat),
        decreases categories - i,
    {
        proof {
            old(env).lemma_ledgers_total();
            lemma_minted_sets(old(env).ledgers(), market_id, *who, amount, i as nat);
            lemma_none_refused::<T>(
                old(env).ledgers(),
                market_id,
                *who,
                amount,
                categories as nat,
            );
            assert(!is_share_below(share_of(market_id, i), market_id, i as nat));
            assert(T::mint_accepted(old(env).ledgers(), share_of(market_id, i), *who, amount));
            T::lemma_mint_accepted(
                old(env).ledgers(),
                env.ledgers(),
                share_of(market_id, i),
                *who,
                amount,
            );
        }
        let minted = env.mint(Asset::PredictionMarketShare(market_id, i), who, amount);
        proof {
            assert(minted.is_ok());
            assert forall|outcome: u16| outcome < i + 1 implies {
                &&& old(env).ledgers().shares[(#[trigger] share_of(market_id, outcome), *who)]
                    + amount <= u128::MAX
                &&& old(env).ledgers().issued[share_of(market_id, outcome)] + amount <= u128::MAX
            } by {
            }
        }
        i += 1;
    }
}

impl<T: Trait> Module<T> {
    /// The custodial account of market `market_id`: the account that holds
    /// the currency behind the market's outstanding shares.
    pub fn market_account(&self, market_id: u128) -> (account: AccountId)
        ensures
            account == self@.account_of(market_id),
    {
        let module_id = self.config().module_id;
        derive_market_account(&module_id, market_id)
    }

    /// The asset that stands for `outcome` of market `market_id`.
    pub fn market_outcome_share_id(market_id: u128, outcome: u16) -> (asset: Asset)
        ensures
            asset == share_of(market_id, outcome),
    {
        Asset::PredictionMarketShare(market_id, outcome)
    }

    /// Hands `who` the shares of a purchase whose payment the currency
    /// ledger was asked to transfer: `transferred` is the ledger's answer.
    /// The share ledger must accept the mint of every outcome as the
    /// ledgers stand.
    pub fn issue_complete_set(
        &mut self,
        transferred: Result<(), Refused>,
        who: AccountId,
        market_id: u128,
        amount: u128,
    ) -> (r: Result<(), Error>)
        requires
            old(self).wf(),
            old(self)@.markets.contains_key(market_id),
            first_refused::<T>(
                old(self)@.ledgers,
                market_id,
                who,
                amount,
                old(self)@.markets[market_id].categories as nat,
            ).is_none(),
        ensures
            final(self).wf(),
            match transferred {
                Ok(_) => {
                    &&& r.is_ok()
                    &&& final(self)@ == (State {
                        ledgers: minted_sets(
                            old(self)@.ledgers,
                            market_id,
                            who,
                            amount,
                            old(self)@.markets[market_id].categories as nat,
                        ),
                        ..old(self)@
                    })
                    &&& mint_fits(
                        old(self)@.ledgers,
                        market_id,
                        who,
                        amount,
                        old(self)@.markets[market_id].categories as nat,
                    )
                },
                Err(_) => r == Err::<(), Error>(Error::InsufficientFunds) && final(self)@ == old(self)@,
            },
    {
        if transferred.is_err() {
            return Err(Error::InsufficientFunds);
        }
        let categories = match self.market_by_id(market_id) {
            Ok(market) => market.outcomes(),
            Err(e) => {
                return Err(e);
            },
        };
        mint_sets(self.env_mut(), market_id, &who, amount, categories);
        proof {
            old(self)@.lemma_wf_ledgers(self@.ledgers);
        }
        Ok(())
    }

    /// Buys `amount` complete sets of market `market_id` for `who`: moves
    /// `amount` of currency into the market's custodial account and mints
    /// `amount` of the share of every outcome. A complete set is created
    /// as a whole or not at all: before anything moves, the share ledger
    /// is asked whether it would mint the share of every outcome, and the
    /// first outcome that it would refuse is named. The payment leaves the
    /// buyer's account alive; where the currency ledger does not accept
    /// it, the funds are insufficient. Whatever the error, nothing
    /// changes.
    pub fn do_buy_complete_set(&mut self, who: AccountId, market_id: u128, amount: u128, now: Time)
        -> (r: Result<(), Error>)
        requires
            old(self).wf(),
        ensures
            final(self).wf(),
            match old(self)@.buy_check::<T>(who, market_id, amount, now) {
                Some(e) => r == Err::<(), Error>(e) && final(self)@ == old(self)@,
                None => if old(self).chain().accepts_transfer(
                    who,
                    old(self)@.account_of(market_id),
                    amount,
                    false,
                ) {
                    &&& r.is_ok()
                    &&& old(self)@.buy_fits(who, market_id, amount)
                    &&& final(self)@ == old(self)@.bought(who, market_id, amount)
                } else {
                    r == Err::<(), Error>(Error::InsufficientFunds) && final(self)@ == old(self)@
                },
            },
    {
        if self.env().balance(&who) < amount {
            return Err(Error::InsufficientFunds);
        }
        let (end, categories) = match self.market_by_id(market_id) {
            Ok(market) => (market.end, market.outcomes()),
            Err(e) => {
                return Err(e);
            },
        };
        if !Self::is_market_active(end, now) {
            return Err(Error::MarketNotActive);
        }
        match first_unmintable(self.env(), market_id, &who, amount, categories) {
            Some(outcome) => {
                return Err(Error::MintRefused(outcome));
            },
            None => {},
        }
        let account = self.market_account(market_id);
        let transferred = self.env_mut().transfer(&who, &account, amount, false);
        proof {
            old(self)@.lemma_wf_ledgers(self@.ledgers);
            lemma_mint_fits_after_transfer(
                old(self)@.ledgers,
                who,
                account,
                amount,
                market_id,
                categories as nat,
            );
            lemma_first_refused_agrees::<T>(
                old(self)@.ledgers,
                self@.ledgers,
                market_id,
                who,
                amount,
                categories as nat,
            );
        }
        self.issue_complete_set(transferred, who, market_id, amount)
    }

    /// Buys `amount` complete sets of market `market_id` for `sender`.
    pub fn buy_complete_set(&mut self, sender: AccountId, market_id: u128, amount: u128, now: Time)
        -> (r: Result<(), Error>)
        requires
            old(self).wf(),
        ensures
            final(self).wf(),
            match old(self)@.buy_check::<T>(sender, market_id, amount, now) {
                Some(e) => r == Err::<(), Error>(e) && final(self)@ == old(self)@,
                None => if old(self).chain().accepts_transfer(
                    sender,
                    old(self)@.account_of(market_id),
                    amount,
                    false,
                ) {
                    &&& r.is_ok()
                    &&& old(self)@.buy_fits(sender, market_id, amount)
                    &&& final(self)@ == old(self)@.bought(sender, market_id, amount)
                } else {
                    r == Err::<(), Error>(Error::InsufficientFunds) && final(self)@ == old(self)@
                },
            },
    {
        self.do_buy_complete_set(sender, market_id, amount, now)
    }

    /// Destroys the shares of a sale whose proceeds the currency ledger was
    /// asked to transfer: `transferred` is the ledger's answer.
    pub fn retire_complete_set(
        &mut self,
        transferred: Result<(), Refused>,
        who: AccountId,
        market_id: u128,
        amount: u128,
    ) -> (r: Result<(), Error>)
        requires
            old(self).wf(),
            old(self)@.markets.contains_key(market_id),
        ensures
            final(self).wf(),
            match transferred {
                Ok(_) => r.is_ok() && final(self)@ == (State {
                    ledgers: burned_sets(
                        old(self)@.ledgers,
                        market_id,
                        who,
                        amount,
                        old(self)@.markets[market_id].categories as nat,
                    ),
                    ..old(self)@
                }),
                Err(_) => r == Err::<(), Error>(Error::InsufficientFundsInMarketAccount) && final(self)@ == old(self)@,
            },
    {
        if transferred.is_err() {
            return Err(Error::InsufficientFundsInMarketAccount);
        }
        let categories = match self.market_by_id(market_id) {
            Ok(market) => market.outcomes(),
            Err(e) => {
                return Err(e);
            },
        };
        burn_sets(self.env_mut(), market_id, &who, amount, categories);
        proof {
            old(self)@.lemma_wf_ledgers(self@.ledgers);
        }
        Ok(())
    }

    /// Sells `amount` complete sets of market `market_id` for `sender`:
    /// burns `amount` of the share of every outcome and pays `amount` of
    /// currency out of the market's custodial account. Every balance is
    /// checked before anything moves; the payment may drain the custodial
    /// account, and where the currency ledger does not accept it, nothing
    /// changes.
    pub fn sell_complete_set(&mut self, sender: AccountId, market_id: u128, amount: u128, now: Time)
        -> (r: Result<(), Error>)
        requires
            old(self).wf(),
        ensures
            final(self).wf(),
            match old(self)@.sell_check(sender, market_id, amount, now) {
                Some(e) => r == Err::<(), Error>(e) && final(self)@ == old(self)@,
                None => if old(self).chain().accepts_transfer(
                    old(self)@.account_of(market_id),
                    sender,
                    amount,
                    true,
                ) {
                    &&& r.is_ok()
                    &&& old(self)@.sell_fits(sender, market_id, amount)
                    &&& final(self)@ == old(self)@.sold(sender, market_id, amount)
                } else {
                    r == Err::<(), Error>(Error::InsufficientFundsInMarketAccount) && final(self)@
                        == old(self)@
                },
            },
    {
        let (end, categories) = match self.market_by_id(market_id) {
            Ok(market) => (market.end, market.outcomes()),
            Err(e) => {
                return Err(e);
            },
        };
        if !Self::is_market_active(end, now) {
            return Err(Error::MarketNotActive);
        }
        let account = self.market_account(market_id);
        if self.env().balance(&account) < amount {
            return Err(Error::InsufficientFundsInMarketAccount);
        }
        if !holds_sets(self.env(), market_id, &sender, amount, categories) {
            return Err(Error::InsufficientShareBalance);
        }
        let transferred = self.env_mut().transfer(&account, &sender, amount, true);
        proof {
            old(self)@.lemma_wf_ledgers(self@.ledgers);
        }
        self.retire_complete_set(transferred, sender, market_id, amount)
    }
}

} // verus!
