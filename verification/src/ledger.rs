//! The collaborators of the engine: the currency ledger that holds the
//! bonds, the ledger of outcome shares, and the pool that trades them.
//!
//! The engine is written against the trait below. What it states of its
//! own operations holds of every implementation that meets the contracts
//! given here; the chain kept in memory that this crate offers is one.

use crate::account::AccountId;
use crate::market::Asset;
use vstd::prelude::*;

verus! {

/// A collaborator declined an operation.
#[derive(Clone, Copy, Debug, PartialEq, Eq, Structural)]
pub struct Refused;

/// What the ledgers hold, as the contracts speak of it.
pub struct Ledgers {
    /// The free currency balance of each account.
    pub free: Map<AccountId, u128>,
    /// The currency held in escrow against each account.
    pub held: Map<AccountId, u128>,
    /// The balance of each asset of each account.
    pub shares: Map<(Asset, AccountId), u128>,
    /// The amount of each asset that is outstanding.
    pub issued: Map<Asset, u128>,
}

/// The smaller of two amounts.
pub open spec fn least(a: u128, b: u128) -> u128 {
    if a <= b {
        a
    } else {
        b
    }
}

impl Ledgers {
    /// Every account and every asset has a balance.
    pub open spec fn total(self) -> bool {
        &&& forall|who: AccountId| self.free.contains_key(who)
        &&& forall|who: AccountId| self.held.contains_key(who)
        &&& forall|k: (Asset, AccountId)| self.shares.contains_key(k)
        &&& forall|asset: Asset| self.issued.contains_key(asset)
    }

    /// After `amount` moved from the free balance of `who` into escrow.
    pub open spec fn escrowed(self, who: AccountId, amount: u128) -> Ledgers {
        Ledgers {
            free: self.free.insert(who, (self.free[who] - amount) as u128),
            held: self.held.insert(who, (self.held[who] + amount) as u128),
            ..self
        }
    }

    /// How much of `amount` a release moves: no more than is held against
    /// `who`, and no more than the free balance has room for.
    pub open spec fn releasable(self, who: AccountId, amount: u128) -> u128 {
        least(least(amount, self.held[who]), (u128::MAX - self.free[who]) as u128)
    }

    /// After as much of `amount` as possible moved from escrow back to the
    /// free balance of `who`.
    pub open spec fn released(self, who: AccountId, amount: u128) -> Ledgers {
        let moved = self.releasable(who, amount);
        Ledgers {
            free: self.free.insert(who, (self.free[who] + moved) as u128),
            held: self.held.insert(who, (self.held[who] - moved) as u128),
            ..self
        }
    }

    /// How much of `amount` a forfeit takes: no more than is held.
    pub open spec fn forfeitable(self, who: AccountId, amount: u128) -> u128 {
        least(amount, self.held[who])
    }

    /// After as much of `amount` as possible was taken out of the escrow of
    /// `who`.
    pub open spec fn forfeited(self, who: AccountId, amount: u128) -> Ledgers {
        Ledgers {
            held: self.held.insert(who, (self.held[who] - self.forfeitable(who, amount)) as u128),
            ..self
        }
    }

    /// After `amount` was credited to the free balance of `who`; nothing is
    /// credited where the balance has no room for it.
    pub open spec fn paid(self, who: AccountId, amount: u128) -> Ledgers {
        if self.free[who] + amount <= u128::MAX {
            Ledgers { free: self.free.insert(who, (self.free[who] + amount) as u128), ..self }
        } else {
            self
        }
    }

    /// After `amount` moved from the free balance of `from` to that of `to`.
    pub open spec fn transferred(self, from: AccountId, to: AccountId, amount: u128) -> Ledgers {
        if from == to {
            self
        } else {
            Ledgers {
                free: self.free.insert(from, (self.free[from] - amount) as u128).insert(
                    to,
                    (self.free[to] + amount) as u128,
                ),
                ..self
            }
        }
    }

    /// After `amount` of `asset` was created in the balance of `who`.
    pub open spec fn minted(self, asset: Asset, who: AccountId, amount: u128) -> Ledgers {
        Ledgers {
            shares: self.shares.insert((asset, who), (self.shares[(asset, who)] + amount) as u128),
            issued: self.issued.insert(asset, (self.issued[asset] + amount) as u128),
            ..self
        }
    }

    /// How much of `amount` a burn destroys: no more than `who` has.
    pub open spec fn burnable(self, asset: Asset, who: AccountId, amount: u128) -> u128 {
        least(amount, self.shares[(asset, who)])
    }

    /// After as much of `amount` of `asset` as `who` has was destroyed.
    pub open spec fn burned(self, asset: Asset, who: AccountId, amount: u128) -> Ledgers {
        let gone = self.burnable(asset, who, amount);
        Ledgers {
            shares: self.shares.insert((asset, who), (self.shares[(asset, who)] - gone) as u128),
            issued: self.issued.insert(
                asset,
                (self.issued[asset] - least(gone, self.issued[asset])) as u128,
            ),
            ..self
        }
    }

    /// After every balance of `asset` was destroyed.
    pub open spec fn destroyed(self, asset: Asset) -> Ledgers {
        Ledgers {
            shares: Map::new(
                |k: (Asset, AccountId)| self.shares.dom().contains(k),
                |k: (Asset, AccountId)|
                    if k.0 == asset {
                        0u128
                    } else {
                        self.shares[k]
                    },
            ),
            issued: self.issued.insert(asset, 0u128),
            ..self
        }
    }
}

/// What the engine needs from the chain that it runs on.
pub trait Trait: Sized {
    /// What the ledgers of the chain hold.
    spec fn ledgers(&self) -> Ledgers;

    /// The ledgers give every account and every asset a balance.
    proof fn lemma_ledgers_total(&self)
        ensures
            self.ledgers().total(),
    ;

    /// Whether the currency ledger, as it stands, lets `amount` move from
    /// the free balance of `who` into escrow.
    spec fn accepts_escrow(&self, who: AccountId, amount: u128) -> bool;

    /// Whether the currency ledger, as it stands, lets `amount` move from
    /// the free balance of `from` to that of `to`.
    spec fn accepts_transfer(
        &self,
        from: AccountId,
        to: AccountId,
        amount: u128,
        allow_drain: bool,
    ) -> bool;

    /// Whether the share ledger lets `amount` of `asset` be created for
    /// `who`, given what the ledgers hold.
    spec fn mint_accepted(ledgers: Ledgers, asset: Asset, who: AccountId, amount: u128) -> bool;

    /// Whether the share ledger accepts a mint depends on the balance that
    /// is to grow and on the outstanding amount of the asset, and on
    /// nothing else that the ledgers hold.
    proof fn lemma_mint_accepted(
        a: Ledgers,
        b: Ledgers,
        asset: Asset,
        who: AccountId,
        amount: u128,
    )
        requires
            a.shares[(asset, who)] == b.shares[(asset, who)],
            a.issued[asset] == b.issued[asset],
        ensures
            Self::mint_accepted(a, asset, who, amount) == Self::mint_accepted(
                b,
                asset,
                who,
                amount,
            ),
    ;

    /// What the pool collaborator, as it stands, answers when asked to
    /// create a pool.
    spec fn pool_answer(
        &self,
        creator: AccountId,
        assets: Seq<Asset>,
        swap_fee: u128,
        weights: Seq<u128>,
    ) -> Result<u128, Refused>;

    /// The free currency balance of `who`.
    fn balance(&self, who: &AccountId) -> (amount: u128)
        ensures
            amount == self.ledgers().free[*who],
    ;

    /// Moves `amount` from the free balance of `who` into escrow, or
    /// refuses and changes nothing.
    fn escrow(&mut self, who: &AccountId, amount: u128) -> (r: Result<(), Refused>)
        ensures
            r.is_ok() == old(self).accepts_escrow(*who, amount),
            match r {
                Ok(_) => {
                    &&& old(self).ledgers().free[*who] >= amount
                    &&& old(self).ledgers().held[*who] + amount <= u128::MAX
                    &&& final(self).ledgers() == old(self).ledgers().escrowed(*who, amount)
                },
                Err(_) => final(self).ledgers() == old(self).ledgers(),
            },
    ;

    /// Moves up to `amount` from the escrow of `who` back to the free
    /// balance: as much as is held and the balance has room for.
    fn release(&mut self, who: &AccountId, amount: u128)
        ensures
            final(self).ledgers() == old(self).ledgers().released(*who, amount),
    ;

    /// Takes up to `amount` out of the escrow of `who` and returns what was
    /// taken.
    fn forfeit(&mut self, who: &AccountId, amount: u128) -> (taken: u128)
        ensures
            taken == old(self).ledgers().forfeitable(*who, amount),
            final(self).ledgers() == old(self).ledgers().forfeited(*who, amount),
    ;

    /// Credits `amount` to the free balance of `who`.
    fn pay(&mut self, who: &AccountId, amount: u128)
        ensures
            final(self).ledgers() == old(self).ledgers().paid(*who, amount),
    ;

    /// Moves `amount` from the free balance of `from` to that of `to`, or
    /// refuses and changes nothing. With `allow_drain` the transfer may
    /// empty the account of `from`.
    fn transfer(&mut self, from: &AccountId, to: &AccountId, amount: u128, allow_drain: bool) -> (r:
        Result<(), Refused>)
        ensures
            r.is_ok() == old(self).accepts_transfer(*from, *to, amount, allow_drain),
            match r {
                Ok(_) => {
                    &&& old(self).ledgers().free[*from] >= amount
                    &&& *from != *to ==> old(self).ledgers().free[*to] + amount <= u128::MAX
                    &&& final(self).ledgers() == old(self).ledgers().transferred(*from, *to, amount)
                },
                Err(_) => final(self).ledgers() == old(self).ledgers(),
            },
    ;

    /// The balance of `asset` of `who`.
    fn share_balance(&self, asset: Asset, who: &AccountId) -> (amount: u128)
        ensures
            amount == self.ledgers().shares[(asset, *who)],
    ;

    /// Whether a mint of `amount` of `asset` for `who` would be accepted
    /// as the ledgers stand.
    fn can_mint(&self, asset: Asset, who: &AccountId, amount: u128) -> (accepted: bool)
        ensures
            accepted == Self::mint_accepted(self.ledgers(), asset, *who, amount),
    ;

    /// Creates `amount` of `asset` in the balance of `who` where the share
    /// ledger accepts that, or refuses and changes nothing.
    fn mint(&mut self, asset: Asset, who: &AccountId, amount: u128) -> (r: Result<(), Refused>)
        ensures
            r.is_ok() == Self::mint_accepted(old(self).ledgers(), asset, *who, amount),
            match r {
                Ok(_) => {
                    &&& old(self).ledgers().shares[(asset, *who)] + amount <= u128::MAX
                    &&& old(self).ledgers().issued[asset] + amount <= u128::MAX
                    &&& final(self).ledgers() == old(self).ledgers().minted(asset, *who, amount)
                },
                Err(_) => final(self).ledgers() == old(self).ledgers(),
            },
    ;

    /// Destroys up to `amount` of `asset` in the balance of `who`.
    fn burn(&mut self, asset: Asset, who: &AccountId, amount: u128)
        ensures
            final(self).ledgers() == old(self).ledgers().burned(asset, *who, amount),
    ;

    /// Destroys every balance of `asset`.
    fn destroy_all(&mut self, asset: Asset)
        ensures
            final(self).ledgers() == old(self).ledgers().destroyed(asset),
    ;

    /// Creates a pool that trades `assets` at the given weights, seeded by
    /// `creator`, and returns its identifier, or refuses and changes
    /// nothing. Nothing is stated of what creating the pool does to the
    /// ledgers.
    fn create_pool(
        &mut self,
        creator: &AccountId,
        assets: Vec<Asset>,
        swap_fee: u128,
        weights: Vec<u128>,
    ) -> (r: Result<u128, Refused>)
        ensures
            r == old(self).pool_answer(*creator, assets@, swap_fee, weights@),
            r.is_err() ==> final(self).ledgers() == old(self).ledgers(),
    ;
}

} // verus!
