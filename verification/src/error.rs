//! Why an operation was rejected.

use vstd::prelude::*;

verus! {

/// The reasons for which the engine rejects an operation.
#[derive(Clone, Copy, Debug, PartialEq, Eq, Structural)]
pub enum Error {
    /// An administrative operation was attempted without authorization.
    NotAuthorized,
    /// No market has the given identifier.
    MarketNotFound,
    /// The market is not waiting for approval.
    MarketNotProposed,
    /// Only the creator of a market may cancel it.
    NotCreator,
    /// More categories than the configured maximum.
    InvalidCategoryCount,
    /// The end of the market is not strictly in the future.
    EndTooSoon,
    /// The market counter cannot be incremented.
    MarketIdOverflow,
    /// The currency ledger refused to escrow or transfer the amount.
    InsufficientFunds,
    /// Trading on the market has ended, or the market was never approved.
    MarketNotActive,
    /// The seller holds too little of some outcome share.
    InsufficientShareBalance,
    /// The custodial account of the market cannot cover the payout.
    InsufficientFundsInMarketAccount,
    /// The share ledger would not mint the share of the outcome given.
    MintRefused(u16),
    /// Trading on the market has not ended yet.
    MarketNotClosed,
    /// The outcome is not one of the market.
    OutcomeOutOfRange,
    /// The market already has a report.
    AlreadyReported,
    /// Within the grace period only the oracle may report.
    NotOracle,
    /// The market has no report.
    NotReported,
    /// The market is resolved already.
    AlreadyResolved,
    /// The market has the maximum number of disputes.
    TooManyDisputes,
    /// The outcome is that of the most recent dispute.
    DuplicateOutcome,
    /// The market is neither reported nor disputed.
    NotReportedNorDisputed,
    /// The market is not resolved.
    MarketNotResolved,
    /// The market has a swap pool already.
    SwapPoolExists,
    /// The pool collaborator refused to create the pool.
    PoolRefused,
}

} // verus!
