//! The errors that an operation of the market can answer with.

use vstd::prelude::*;

verus! {

/// Why an operation of the market was refused.
#[derive(Clone, Copy, Debug, PartialEq, Eq, Structural)]
pub enum ContractError {
    /// No administrator has been recorded.
    AdminNotSet,
    /// No oracle has been recorded.
    OracleNotSet,
    /// The runtime mode does not admit the operation.
    ContractPaused,
    /// The stored schema version is zero or newer than the one in use.
    UnsupportedSchemaVersion,
    /// There is an active round already.
    RoundAlreadyActive,
    /// There is no active round.
    NoActiveRound,
    /// There is no active round to cancel.
    RoundNotCancellable,
    /// The active round has not reached its last ledger.
    RoundNotEnded,
    /// A duration is zero, too short, or out of order.
    InvalidDuration,
    /// A window or a deviation limit is outside its range.
    WindowOutOfRange,
    /// A stake cap is below the smallest cap allowed.
    InvalidBetAmount,
    /// A protocol fee is zero or above the hard cap.
    InvalidProtocolFeeBps,
    /// A price, or the confidence in it, is not acceptable.
    InvalidPrice,
    /// The payload names another round.
    InvalidOracleRound,
    /// The payload is meant for another network or contract.
    OracleNetworkMismatch,
    /// The payload carries a time that has not come yet.
    FutureOracleData,
    /// The payload is too old.
    StaleOracleData,
    /// The price is too far from the start price.
    OracleDeviationExceeded,
    /// The payload's nonce was used for this round before.
    OracleNonceReused,
    /// There is no proposal to rotate the oracle.
    NoPendingRotation,
    /// The proposal to rotate the oracle has run out.
    RotationExpired,
    /// A user's pending winnings would pass the configured cap.
    PendingWinningsCapExceeded,
    /// A payout does not fit its integer type.
    PayoutOverflow,
    /// A number other than a payout does not fit its integer type.
    Overflow,
}

} // verus!
