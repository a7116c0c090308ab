//! The constants that an engine is configured with, and the bonds that
//! follow from them.

use crate::account::AccountId;
use crate::market::MarketCreation;
use vstd::prelude::*;

verus! {

/// The number of milliseconds that one block of the reporting period counts
/// for, where a market's end is a timestamp.
pub const MILLISECS_PER_BLOCK: u64 = 6000;

/// The constants of an engine.
#[derive(Clone, Copy, Debug)]
pub struct Config {
    /// The identifier from which custodial accounts are derived.
    pub module_id: [u8; 8],
    /// The account that forfeited advisory bonds are sent to.
    pub penalty_sink: AccountId,
    /// The bond for a market that waits for the advisory committee.
    pub advisory_bond: u128,
    /// The bond for a permissionless market.
    pub validity_bond: u128,
    /// The bond that stands for the oracle's timely report.
    pub oracle_bond: u128,
    /// The bond of the first dispute of a market.
    pub dispute_bond: u128,
    /// What each further dispute costs more than the one before.
    pub dispute_factor: u128,
    /// The maximum number of disputes of one market.
    pub max_disputes: u16,
    /// The maximum number of categories of one market.
    pub max_categories: u16,
    /// The number of blocks after a market's end in which only the oracle
    /// may report.
    pub reporting_period: u64,
    /// The number of blocks after a report or a dispute in which it can be
    /// disputed.
    pub dispute_period: u64,
}

impl Config {
    /// The bond of the dispute at position `k` of a market's log, counted
    /// from zero.
    pub open spec fn bond_at(self, k: nat) -> nat {
        self.dispute_bond as nat + self.dispute_factor as nat * k
    }

    /// The sum of the bonds of the first `n` disputes of a market.
    pub open spec fn bonds_sum(self, n: nat) -> nat
        decreases n,
    {
        if n == 0 {
            0
        } else {
            self.bonds_sum((n - 1) as nat) + self.bond_at((n - 1) as nat)
        }
    }

    /// The bond that the creator of a market escrows.
    pub open spec fn creation_bond(self, creation: MarketCreation) -> nat {
        match creation {
            MarketCreation::Permissionless => self.validity_bond as nat + self.oracle_bond as nat,
            MarketCreation::Advised => self.advisory_bond as nat + self.oracle_bond as nat,
        }
    }

    /// Every amount that the engine computes from these constants fits the
    /// balance type: both creation bonds, and the oracle bond together with
    /// the bonds of as many disputes as one market can have.
    pub open spec fn valid(self) -> bool {
        &&& self.validity_bond + self.oracle_bond <= u128::MAX
        &&& self.advisory_bond + self.oracle_bond <= u128::MAX
        &&& self.oracle_bond + self.bonds_sum(self.max_disputes as nat) <= u128::MAX
    }

    /// The sum of the bonds grows with the number of disputes.
    pub proof fn lemma_bonds_sum_monotone(self, m: nat, n: nat)
        requires
            m <= n,
        ensures
            self.bonds_sum(m) <= self.bonds_sum(n),
        decreases n,
    {
        if m < n {
            self.lemma_bonds_sum_monotone(m, (n - 1) as nat);
        }
    }

    /// In a valid configuration the bond of every dispute that a market can
    /// have fits the balance type, and so does the sum up to it.
    pub proof fn lemma_bond_fits(self, k: nat)
        requires
            self.valid(),
            k < self.max_disputes,
        ensures
            self.bond_at(k) <= u128::MAX,
            self.oracle_bond + self.bonds_sum(k) + self.bond_at(k) <= u128::MAX,
            self.dispute_factor * k <= u128::MAX,
    {
        self.lemma_bonds_sum_monotone(k + 1, self.max_disputes as nat);
        assert(self.bonds_sum(k + 1) == self.bonds_sum(k) + self.bond_at(k));
        assert(self.dispute_factor as nat * k >= 0) by (nonlinear_arith);
    }

    /// Whether the configuration is valid.
    pub fn is_valid(&self) -> (r: bool)
        ensures
            r == self.valid(),
    {
        if self.validity_bond.checked_add(self.oracle_bond).is_none() {
            return false;
        }
        if self.advisory_bond.checked_add(self.oracle_bond).is_none() {
            return false;
        }
        let mut total: u128 = self.oracle_bond;
        let mut k: u16 = 0;
        while k < self.max_disputes
            invariant
                k <= self.max_disputes,
                total == self.oracle_bond + self.bonds_sum(k as nat),
                self.validity_bond + self.oracle_bond <= u128::MAX,
                self.advisory_bond + self.oracle_bond <= u128::MAX,
            decreases self.max_disputes - k,
        {
            proof {
                self.lemma_bonds_sum_monotone((k + 1) as nat, self.max_disputes as nat);
                assert(self.bonds_sum((k + 1) as nat) == self.bonds_sum(k as nat) + self.bond_at(
                    k as nat,
                ));
                assert(self.dispute_factor as nat * k as nat >= 0) by (nonlinear_arith);
            }
            let step = match self.dispute_factor.checked_mul(k as u128) {
                Some(v) => v,
                None => {
                    return false;
                },
            };
            let bond = match self.dispute_bond.checked_add(step) {
                Some(v) => v,
                None => {
                    return false;
                },
            };
            total = match total.checked_add(bond) {
                Some(v) => v,
                None => {
                    return false;
                },
            };
            k += 1;
        }
        true
    }

    /// The bond that the creator of a market escrows.
    pub fn creation_bond_of(&self, creation: MarketCreation) -> (bond: u128)
        requires
            self.valid(),
        ensures
            bond == self.creation_bond(creation),
    {
        match creation {
            MarketCreation::Permissionless => self.validity_bond + self.oracle_bond,
            MarketCreation::Advised => self.advisory_bond + self.oracle_bond,
        }
    }

    /// The bond of the dispute at position `k`, counted from zero.
    pub fn dispute_bond_at(&self, k: u16) -> (bond: u128)
        requires
            self.valid(),
            k < self.max_disputes,
        ensures
            bond == self.bond_at(k as nat),
    {
        proof {
            self.lemma_bond_fits(k as nat);
        }
        self.dispute_bond + self.dispute_factor * (k as u128)
    }
}

} // verus!
