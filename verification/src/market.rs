//! The records that the engine keeps: markets, reports and disputes.

use crate::account::AccountId;
use vstd::prelude::*;

verus! {

/// How a market came into being.
#[derive(Clone, Copy, Debug, PartialEq, Eq, Structural)]
pub enum MarketCreation {
    /// Created by anyone, against a validity bond.
    Permissionless,
    /// Proposed to the advisory committee, against an advisory bond.
    Advised,
}

/// When trading on a market ends.
#[derive(Clone, Copy, Debug, PartialEq, Eq, Structural)]
pub enum MarketEnd {
    /// At a block height.
    Block(u64),
    /// At a timestamp, in milliseconds.
    Timestamp(u64),
}

/// Where a market stands in its lifecycle.
#[derive(Clone, Copy, Debug, PartialEq, Eq, Structural)]
pub enum MarketStatus {
    /// Waiting for the approval of the advisory committee.
    Proposed,
    /// Open, or closed and waiting for its report.
    Active,
    /// Reported, and open to disputes.
    Reported,
    /// Disputed at least once, and open to further disputes.
    Disputed,
    /// Settled: the winning outcome is fixed.
    Resolved,
}

/// The kind of a market.
#[derive(Clone, Copy, Debug, PartialEq, Eq, Structural)]
pub enum MarketType {
    /// One of a fixed number of outcomes wins.
    Categorical,
}

/// The current time, in both units that a market's end may be given in.
#[derive(Clone, Copy, Debug, PartialEq, Eq, Structural)]
pub struct Time {
    /// The current block height.
    pub block: u64,
    /// The current timestamp, in milliseconds.
    pub moment: u64,
}

/// The outcome that was reported for a market.
#[derive(Clone, Copy, Debug, PartialEq, Eq)]
pub struct Report {
    /// The block at which the report was made.
    pub at: u64,
    /// Who made it.
    pub by: AccountId,
    /// The outcome it claims.
    pub outcome: u16,
}

/// One entry of a market's dispute log.
#[derive(Clone, Copy, Debug, PartialEq, Eq)]
pub struct MarketDispute {
    /// The block at which the dispute was filed.
    pub at: u64,
    /// Who filed it.
    pub by: AccountId,
    /// The outcome it claims.
    pub outcome: u16,
}

/// A prediction market.
#[derive(Debug, PartialEq, Eq)]
pub struct Market {
    /// Who created the market and escrowed its creation bond.
    pub creator: AccountId,
    /// How the market came into being.
    pub creation: MarketCreation,
    /// The fee of the creator; always zero.
    pub creator_fee: u8,
    /// Who is to report the outcome.
    pub oracle: AccountId,
    /// When trading ends.
    pub end: MarketEnd,
    /// What the market is about, as the creator encoded it.
    pub metadata: Vec<u8>,
    /// The kind of the market.
    pub market_type: MarketType,
    /// The number of outcomes.
    pub categories: u16,
    /// Where the market stands in its lifecycle.
    pub status: MarketStatus,
    /// The report, once there is one.
    pub report: Option<Report>,
    /// The winning outcome, once the market is resolved.
    pub resolved_outcome: Option<u16>,
}

/// What the ledgers hold balances of.
#[derive(Clone, Copy, Debug, PartialEq, Eq, Structural)]
pub enum Asset {
    /// The native currency.
    Ztg,
    /// The share of one outcome of one market.
    PredictionMarketShare(u128, u16),
}

impl MarketEnd {
    /// Whether a market that ends at `self` is still open at `now`: strictly
    /// before its end, in the unit in which the end is given.
    pub open spec fn is_open(self, now: Time) -> bool {
        match self {
            MarketEnd::Block(block) => now.block < block,
            MarketEnd::Timestamp(timestamp) => now.moment < timestamp,
        }
    }

    /// The end that closes a market at `now`, in the unit of `self`.
    pub open spec fn closed_at(self, now: Time) -> MarketEnd {
        match self {
            MarketEnd::Block(_) => MarketEnd::Block(now.block),
            MarketEnd::Timestamp(_) => MarketEnd::Timestamp(now.moment),
        }
    }
}

impl Clone for Market {
    fn clone(&self) -> (copy: Market)
        ensures
            copy.metadata@ == self.metadata@,
            copy == (Market { metadata: copy.metadata, ..*self }),
    {
        let metadata = self.metadata.clone();
        assert(metadata@ =~= self.metadata@);
        Market {
            creator: self.creator,
            creation: self.creation,
            creator_fee: self.creator_fee,
            oracle: self.oracle,
            end: self.end,
            metadata,
            market_type: self.market_type,
            categories: self.categories,
            status: self.status,
            report: self.report,
            resolved_outcome: self.resolved_outcome,
        }
    }
}

impl Market {
    /// The number of outcomes of the market.
    pub fn outcomes(&self) -> (n: u16)
        ensures
            n == self.categories,
    {
        self.categories
    }

    /// What the data model asks of every market record: a report is there
    /// exactly from the reported status on, and a resolved outcome exactly
    /// in the resolved status.
    pub open spec fn consistent(self) -> bool {
        &&& self.report.is_some() <==> (self.status == MarketStatus::Reported || self.status
            == MarketStatus::Disputed || self.status == MarketStatus::Resolved)
        &&& self.resolved_outcome.is_some() <==> self.status == MarketStatus::Resolved
        &&& self.status == MarketStatus::Proposed ==> self.creation == MarketCreation::Advised
    }
}

} // verus!
