//! A chain kept in memory: ledgers that meet the contracts of the
//! collaborators, for running the engine without a chain around it.

use crate::account::AccountId;
use crate::ledger::{least, Ledgers, Refused, Trait};
use crate::market::Asset;
use vstd::prelude::*;

verus! {

/// What an entry of the ledgers is a balance of.
#[derive(Clone, Copy, Debug)]
pub enum Key {
    /// The free currency of an account.
    Free(AccountId),
    /// The currency held in escrow against an account.
    Held(AccountId),
    /// The balance of an asset of an account.
    Share(Asset, AccountId),
    /// The outstanding amount of an asset.
    Issued(Asset),
}

/// One balance.
#[derive(Clone, Copy, Debug)]
pub struct Entry {
    /// What the balance is of.
    pub key: Key,
    /// The balance.
    pub amount: u128,
}

/// Ledgers and a pool counter, kept in memory.
pub struct LocalChain {
    entries: Vec<Entry>,
    pools: u128,
}

/// The amount that `entries` records under `key`: that of the last entry
/// with this key, and zero where there is none.
pub open spec fn amount_of(entries: Seq<Entry>, key: Key) -> u128
    decreases entries.len(),
{
    if entries.len() == 0 {
        0
    } else if entries.last().key == key {
        entries.last().amount
    } else {
        amount_of(entries.drop_last(), key)
    }
}

/// `entries` with every balance of `asset` set to zero.
pub open spec fn zeroed(entries: Seq<Entry>, asset: Asset) -> Seq<Entry> {
    Seq::new(
        entries.len(),
        |j: int|
            match entries[j].key {
                Key::Share(a, _) => if a == asset {
                    Entry { key: entries[j].key, amount: 0 }
                } else {
                    entries[j]
                },
                _ => entries[j],
            },
    )
}

proof fn lemma_updated(entries: Seq<Entry>, i: int, entry: Entry, key: Key)
    requires
        0 <= i < entries.len(),
        entries[i].key == entry.key,
        forall|j: int| i < j < entries.len() ==> entries[j].key != entry.key,
    ensures
        amount_of(entries.update(i, entry), key) == (if key == entry.key {
            entry.amount
        } else {
            amount_of(entries, key)
        }),
    decreases entries.len(),
{
    let updated = entries.update(i, entry);
    if i == entries.len() - 1 {
        assert(updated.drop_last() =~= entries.drop_last());
    } else {
        assert(updated.drop_last() =~= entries.drop_last().update(i, entry));
        lemma_updated(entries.drop_last(), i, entry, key);
    }
}

proof fn lemma_pushed(entries: Seq<Entry>, entry: Entry, key: Key)
    ensures
        amount_of(entries.push(entry), key) == (if key == entry.key {
            entry.amount
        } else {
            amount_of(entries, key)
        }),
{
    assert(entries.push(entry).drop_last() =~= entries);
}

proof fn lemma_zeroed(entries: Seq<Entry>, asset: Asset, key: Key)
    ensures
        amount_of(zeroed(entries, asset), key) == (match key {
            Key::Share(a, _) => if a == asset {
                0
            } else {
                amount_of(entries, key)
            },
            _ => amount_of(entries, key),
        }),
    decreases entries.len(),
{
    if entries.len() > 0 {
        assert(zeroed(entries, asset).drop_last() =~= zeroed(entries.drop_last(), asset));
        lemma_zeroed(entries.drop_last(), asset, key);
    }
}

impl Key {
    /// Whether two keys are the same.
    fn same(&self, other: &Key) -> (r: bool)
        ensures
            r == (*self == *other),
    {
        match (self, other) {
            (Key::Free(a), Key::Free(b)) => *a == *b,
            (Key::Held(a), Key::Held(b)) => *a == *b,
            (Key::Share(x, a), Key::Share(y, b)) => *x == *y && *a == *b,
            (Key::Issued(x), Key::Issued(y)) => *x == *y,
            _ => false,
        }
    }
}

impl LocalChain {
    /// What the chain records under `key`.
    pub closed spec fn recorded(&self, key: Key) -> u128 {
        amount_of(self.entries@, key)
    }

    /// The number of pools created so far.
    pub closed spec fn pools_created(&self) -> u128 {
        self.pools
    }

    /// A chain on which every balance is zero and no pool exists.
    pub fn new() -> (chain: LocalChain)
        ensures
            forall|who: AccountId| #[trigger] chain.ledgers().free[who] == 0,
            forall|who: AccountId| #[trigger] chain.ledgers().held[who] == 0,
            forall|asset: Asset, who: AccountId| #[trigger] chain.ledgers().shares[(asset, who)] == 0,
            forall|asset: Asset| #[trigger] chain.ledgers().issued[asset] == 0,
            chain.pools_created() == 0,
    {
        LocalChain { entries: Vec::new(), pools: 0 }
    }

    fn get(&self, key: Key) -> (amount: u128)
        ensures
            amount == self.recorded(key),
    {
        let mut i: usize = self.entries.len();
        assert(self.entries@.take(i as int) =~= self.entries@);
        while i > 0
            invariant
                i <= self.entries.len(),
                amount_of(self.entries@, key) == amount_of(self.entries@.take(i as int), key),
            decreases i,
        {
            assert(self.entries@.take(i as int).drop_last() =~= self.entries@.take(i - 1));
            if self.entries[i - 1].key.same(&key) {
                return self.entries[i - 1].amount;
            }
            i -= 1;
        }
        0
    }

    fn set(&mut self, key: Key, amount: u128)
        ensures
            forall|other: Key| #[trigger]
                final(self).recorded(other) == (if other == key {
                    amount
                } else {
                    old(self).recorded(other)
                }),
            final(self).pools == old(self).pools,
    {
        let entry = Entry { key, amount };
        let mut i: usize = self.entries.len();
        while i > 0
            invariant
                i <= self.entries.len(),
                self.entries@ == old(self).entries@,
                self.pools == old(self).pools,
                entry == (Entry { key, amount }),
                forall|j: int| i <= j < self.entries.len() ==> self.entries@[j].key != key,
            decreases i,
        {
            if self.entries[i - 1].key.same(&key) {
                proof {
                    assert forall|other: Key| #[trigger]
                        amount_of(self.entries@.update(i - 1, entry), other) == (if other == key {
                            amount
                        } else {
                            amount_of(self.entries@, other)
                        }) by {
                        lemma_updated(self.entries@, i - 1, entry, other);
                    }
                }
                self.entries[i - 1] = entry;
                return ;
            }
            i -= 1;
        }
        proof {
            assert forall|other: Key| #[trigger]
                amount_of(self.entries@.push(entry), other) == (if other == key {
                    amount
                } else {
                    amount_of(self.entries@, other)
                }) by {
                lemma_pushed(self.entries@, entry, other);
            }
        }
        self.entries.push(entry);
    }

    /// Puts `amount` of currency into the free balance of `who`, as far as
    /// the balance has room for it.
    pub fn deposit(&mut self, who: &AccountId, amount: u128)
        ensures
            final(self).ledgers() == old(self).ledgers().paid(*who, amount),
    {
        self.pay(who, amount);
    }

    /// The currency held in escrow against `who`.
    pub fn held_balance(&self, who: &AccountId) -> (amount: u128)
        ensures
            amount == self.ledgers().held[*who],
    {
        self.get(Key::Held(*who))
    }

    /// The amount of `asset` that is outstanding.
    pub fn total_issuance(&self, asset: Asset) -> (amount: u128)
        ensures
            amount == self.ledgers().issued[asset],
    {
        self.get(Key::Issued(asset))
    }

    /// The number of pools created so far.
    pub fn pool_count(&self) -> (count: u128)
        ensures
            count == self.pools_created(),
    {
        self.pools
    }
}

impl Trait for LocalChain {
    closed spec fn ledgers(&self) -> Ledgers {
        Ledgers {
            free: Map::total(|who: AccountId| self.recorded(Key::Free(who))),
            held: Map::total(|who: AccountId| self.recorded(Key::Held(who))),
            shares: Map::total(|k: (Asset, AccountId)| self.recorded(Key::Share(k.0, k.1))),
            issued: Map::total(|asset: Asset| self.recorded(Key::Issued(asset))),
        }
    }

    proof fn lemma_ledgers_total(&self) {
    }

    open spec fn accepts_escrow(&self, who: AccountId, amount: u128) -> bool {
        &&& self.ledgers().free[who] >= amount
        &&& self.ledgers().held[who] + amount <= u128::MAX
    }

    open spec fn accepts_transfer(
        &self,
        from: AccountId,
        to: AccountId,
        amount: u128,
        allow_drain: bool,
    ) -> bool {
        &&& self.ledgers().free[from] >= amount
        &&& from != to ==> self.ledgers().free[to] + amount <= u128::MAX
    }

    /// A mint is accepted where the balance of `who` and the outstanding
    /// amount of `asset` both have room for `amount`.
    open spec fn mint_accepted(ledgers: Ledgers, asset: Asset, who: AccountId, amount: u128)
        -> bool {
        &&& ledgers.shares[(asset, who)] + amount <= u128::MAX
        &&& ledgers.issued[asset] + amount <= u128::MAX
    }

    proof fn lemma_mint_accepted(
        a: Ledgers,
        b: Ledgers,
        asset: Asset,
        who: AccountId,
        amount: u128,
    ) {
    }

    open spec fn pool_answer(
        &self,
        creator: AccountId,
        assets: Seq<Asset>,
        swap_fee: u128,
        weights: Seq<u128>,
    ) -> Result<u128, Refused> {
        if assets.len() != weights.len() || self.pools_created() == u128::MAX {
            Err(Refused)
        } else {
            Ok(self.pools_created())
        }
    }

    fn balance(&self, who: &AccountId) -> (amount: u128) {
        self.get(Key::Free(*who))
    }

    fn escrow(&mut self, who: &AccountId, amount: u128) -> (r: Result<(), Refused>) {
        let free = self.get(Key::Free(*who));
        let held = self.get(Key::Held(*who));
        if free < amount || held > u128::MAX - amount {
            return Err(Refused);
        }
        self.set(Key::Free(*who), free - amount);
        self.set(Key::Held(*who), held + amount);
        proof {
            let before = old(self).ledgers();
            let after = before.escrowed(*who, amount);
            assert(self.ledgers().free =~= after.free);
            assert(self.ledgers().held =~= after.held);
            assert(self.ledgers().shares =~= after.shares);
            assert(self.ledgers().issued =~= after.issued);
        }
        Ok(())
    }

    fn release(&mut self, who: &AccountId, amount: u128) {
        let free = self.get(Key::Free(*who));
        let held = self.get(Key::Held(*who));
        let mut moved = if amount <= held {
            amount
        } else {
            held
        };
        if moved > u128::MAX - free {
            moved = u128::MAX - free;
        }
        self.set(Key::Free(*who), free + moved);
        self.set(Key::Held(*who), held - moved);
        proof {
            let before = old(self).ledgers();
            let after = before.released(*who, amount);
            assert(moved == before.releasable(*who, amount));
            assert(self.ledgers().free =~= after.free);
            assert(self.ledgers().held =~= after.held);
            assert(self.ledgers().shares =~= after.shares);
            assert(self.ledgers().issued =~= after.issued);
        }
    }

    fn forfeit(&mut self, who: &AccountId, amount: u128) -> (taken: u128) {
        let held = self.get(Key::Held(*who));
        let taken = if amount <= held {
            amount
        } else {
            held
        };
        self.set(Key::Held(*who), held - taken);
        proof {
            let before = old(self).ledgers();
            let after = before.forfeited(*who, amount);
            assert(self.ledgers().free =~= after.free);
            assert(self.ledgers().held =~= after.held);
            assert(self.ledgers().shares =~= after.shares);
            assert(self.ledgers().issued =~= after.issued);
        }
        taken
    }

    fn pay(&mut self, who: &AccountId, amount: u128) {
        let free = self.get(Key::Free(*who));
        if free <= u128::MAX - amount {
            self.set(Key::Free(*who), free + amount);
        }
        proof {
            let before = old(self).ledgers();
            let after = before.paid(*who, amount);
            assert(self.ledgers().free =~= after.free);
            assert(self.ledgers().held =~= after.held);
            assert(self.ledgers().shares =~= after.shares);
            assert(self.ledgers().issued =~= after.issued);
        }
    }

    fn transfer(&mut self, from: &AccountId, to: &AccountId, amount: u128, allow_drain: bool) -> (r:
        Result<(), Refused>) {
        let source = self.get(Key::Free(*from));
        if source < amount {
            return Err(Refused);
        }
        if *from == *to {
            assert(self.ledgers() == old(self).ledgers().transferred(*from, *to, amount));
            return Ok(());
        }
        let target = self.get(Key::Free(*to));
        if target > u128::MAX - amount {
            return Err(Refused);
        }
        self.set(Key::Free(*from), source - amount);
        self.set(Key::Free(*to), target + amount);
        proof {
            let before = old(self).ledgers();
            let after = before.transferred(*from, *to, amount);
            assert(self.ledgers().free =~= after.free);
            assert(self.ledgers().held =~= after.held);
            assert(self.ledgers().shares =~= after.shares);
            assert(self.ledgers().issued =~= after.issued);
        }
        Ok(())
    }

    fn share_balance(&self, asset: Asset, who: &AccountId) -> (amount: u128) {
        self.get(Key::Share(asset, *who))
    }

    fn can_mint(&self, asset: Asset, who: &AccountId, amount: u128) -> (accepted: bool) {
        let balance = self.get(Key::Share(asset, *who));
        let issued = self.get(Key::Issued(asset));
        balance <= u128::MAX - amount && issued <= u128::MAX - amount
    }

    /// Mints wherever the balance of `who` and the outstanding amount of
    /// `asset` both have room for `amount`, and refuses only where one of
    /// them has not.
    fn mint(&mut self, asset: Asset, who: &AccountId, amount: u128) -> (r: Result<(), Refused>) {
        let balance = self.get(Key::Share(asset, *who));
        let issued = self.get(Key::Issued(asset));
        if balance > u128::MAX - amount || issued > u128::MAX - amount {
            return Err(Refused);
        }
        self.set(Key::Share(asset, *who), balance + amount);
        self.set(Key::Issued(asset), issued + amount);
        proof {
            let before = old(self).ledgers();
            let after = before.minted(asset, *who, amount);
            assert(self.ledgers().free =~= after.free);
            assert(self.ledgers().held =~= after.held);
            assert(self.ledgers().shares =~= after.shares);
            assert(self.ledgers().issued =~= after.issued);
        }
        Ok(())
    }

    fn burn(&mut self, asset: Asset, who: &AccountId, amount: u128) {
        let balance = self.get(Key::Share(asset, *who));
        let issued = self.get(Key::Issued(asset));
        let gone = if amount <= balance {
            amount
        } else {
            balance
        };
        let less = if gone <= issued {
            gone
        } else {
            issued
        };
        self.set(Key::Share(asset, *who), balance - gone);
        self.set(Key::Issued(asset), issued - less);
        proof {
            let before = old(self).ledgers();
            let after = before.burned(asset, *who, amount);
            assert(gone == before.burnable(asset, *who, amount));
            assert(less == least(gone, before.issued[asset]));
            assert(self.ledgers().free =~= after.free);
            assert(self.ledgers().held =~= after.held);
            assert(self.ledgers().shares =~= after.shares);
            assert(self.ledgers().issued =~= after.issued);
        }
    }

    fn destroy_all(&mut self, asset: Asset) {
        let mut i: usize = 0;
        while i < self.entries.len()
            invariant
                i <= self.entries.len(),
                self.entries.len() == old(self).entries.len(),
                self.pools == old(self).pools,
                forall|j: int| 0 <= j < i ==> self.entries@[j] == zeroed(old(self).entries@, asset)[j],
                forall|j: int| i <= j < self.entries.len() ==> self.entries@[j] == old(self).entries@[j],
            decreases self.entries.len() - i,
        {
            let key = self.entries[i].key;
            match key {
                Key::Share(a, _) => {
                    if a == asset {
                        self.entries[i] = Entry { key, amount: 0 };
                    }
                },
                _ => {},
            }
            i += 1;
        }
        assert(self.entries@ =~= zeroed(old(self).entries@, asset));
        proof {
            assert forall|key: Key| #[trigger]
                self.recorded(key) == (match key {
                    Key::Share(a, _) => if a == asset {
                        0
                    } else {
                        old(self).recorded(key)
                    },
                    _ => old(self).recorded(key),
                }) by {
                lemma_zeroed(old(self).entries@, asset, key);
            }
        }
        let ghost wiped = self.ledgers();
        self.set(Key::Issued(asset), 0);
        proof {
            let before = old(self).ledgers();
            let after = before.destroyed(asset);
            assert(self.ledgers().free =~= after.free);
            assert(self.ledgers().held =~= after.held);
            assert(self.ledgers().shares =~= after.shares);
            assert(self.ledgers().issued =~= after.issued);
        }
    }

    fn create_pool(
        &mut self,
        creator: &AccountId,
        assets: Vec<Asset>,
        swap_fee: u128,
        weights: Vec<u128>,
    ) -> (r: Result<u128, Refused>)
        ensures
            final(self).ledgers() == old(self).ledgers(),
            final(self).pools_created() == (if r.is_ok() {
                (old(self).pools_created() + 1) as u128
            } else {
                old(self).pools_created()
            }),
    {
        if assets.len() != weights.len() || self.pools == u128::MAX {
            return Err(Refused);
        }
        let pool = self.pools;
        self.pools = pool + 1;
        proof {
            let before = old(self).ledgers();
            assert(self.ledgers().free =~= before.free);
            assert(self.ledgers().held =~= before.held);
            assert(self.ledgers().shares =~= before.shares);
            assert(self.ledgers().issued =~= before.issued);
        }
        Ok(pool)
    }
}

} // verus!
