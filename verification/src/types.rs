//! The values that the market records and hands out.

use vstd::prelude::*;
use crate::errors::ContractError;

verus! {

/// An account or a contract: the kind of the address and its 32-byte payload,
/// read as two big-endian halves. Addresses are ordered by kind and then by
/// payload.
#[derive(Clone, Copy, Debug, PartialEq, Eq, Structural)]
pub struct Address {
    pub kind: u32,
    pub high: u128,
    pub low: u128,
}

/// A 32-byte value, read as two big-endian halves.
#[derive(Clone, Copy, Debug, PartialEq, Eq, Structural)]
pub struct Bytes32 {
    pub high: u128,
    pub low: u128,
}

impl Address {
    /// `self` comes before `other`, or is `other`.
    pub open spec fn at_or_before(self, other: Address) -> bool {
        if self.kind != other.kind {
            self.kind < other.kind
        } else if self.high != other.high {
            self.high < other.high
        } else {
            self.low <= other.low
        }
    }

    /// Tells whether this address comes before `other` or is `other`.
    pub fn is_at_or_before(&self, other: &Address) -> (result: bool)
        ensures
            result == self.at_or_before(*other),
    {
        if self.kind != other.kind {
            self.kind < other.kind
        } else if self.high != other.high {
            self.high < other.high
        } else {
            self.low <= other.low
        }
    }
}

/// What the contract as a whole admits.
#[derive(Clone, Copy, Debug, PartialEq, Eq, Structural)]
pub enum RuntimeMode {
    Normal,
    ClaimsOnly,
    FullyPaused,
}

impl RuntimeMode {
    /// The number that stands for the mode outside the contract.
    pub open spec fn number(self) -> u32 {
        match self {
            RuntimeMode::Normal => 0,
            RuntimeMode::ClaimsOnly => 1,
            RuntimeMode::FullyPaused => 2,
        }
    }

    /// Returns the number that stands for the mode outside the contract.
    pub fn to_number(&self) -> (result: u32)
        ensures
            result == self.number(),
    {
        match self {
            RuntimeMode::Normal => 0,
            RuntimeMode::ClaimsOnly => 1,
            RuntimeMode::FullyPaused => 2,
        }
    }
}

/// How a round is bet on: on the direction of the price, or on the price.
#[derive(Clone, Copy, Debug, PartialEq, Eq, Structural)]
pub enum RoundMode {
    UpDown,
    Precision,
}

impl RoundMode {
    /// The number that stands for the mode in records and events.
    pub open spec fn number(self) -> u32 {
        match self {
            RoundMode::UpDown => 0,
            RoundMode::Precision => 1,
        }
    }

    /// Returns the number that stands for the mode in records and events.
    pub fn to_number(&self) -> (result: u32)
        ensures
            result == self.number(),
    {
        match self {
            RoundMode::UpDown => 0,
            RoundMode::Precision => 1,
        }
    }
}

/// The direction that a position bets on.
#[derive(Clone, Copy, Debug, PartialEq, Eq, Structural)]
pub enum BetSide {
    Up,
    Down,
}

impl BetSide {
    /// The number that stands for the side in records and events.
    pub open spec fn number(self) -> u32 {
        match self {
            BetSide::Up => 0,
            BetSide::Down => 1,
        }
    }

    /// Returns the number that stands for the side in records and events.
    pub fn to_number(&self) -> (result: u32)
        ensures
            result == self.number(),
    {
        match self {
            BetSide::Up => 0,
            BetSide::Down => 1,
        }
    }
}

/// The side that a record names for a prediction of the price itself.
pub const PRECISION_SIDE: u32 = 2;

/// The phase that a round is in, as the ledger sequence decides it.
#[derive(Clone, Copy, Debug, PartialEq, Eq, Structural)]
pub enum RoundPhase {
    Betting,
    Running,
    Resolvable,
}

/// What is known of a round by its number.
#[derive(Clone, Copy, Debug, PartialEq, Eq, Structural)]
pub enum RoundStatus {
    /// Never created, or no longer in the archive.
    Unknown,
    /// Active, before the end of betting.
    Betting,
    /// Active, between the end of betting and the end of the round.
    Running,
    /// Active, at or after the end of the round.
    AwaitingResolve,
    /// Settled; the pot was distributed.
    Resolved,
    /// Cancelled; the stakes were refunded.
    Cancelled,
    /// Settled with too few participants; the stakes were refunded.
    FallbackRefund,
}

impl RoundStatus {
    /// The number that stands for the status outside the contract.
    pub open spec fn number(self) -> u32 {
        match self {
            RoundStatus::Unknown => 0,
            RoundStatus::Betting => 1,
            RoundStatus::Running => 2,
            RoundStatus::AwaitingResolve => 3,
            RoundStatus::Resolved => 4,
            RoundStatus::Cancelled => 5,
            RoundStatus::FallbackRefund => 6,
        }
    }

    /// Returns the number that stands for the status outside the contract.
    pub fn to_number(&self) -> (result: u32)
        ensures
            result == self.number(),
    {
        match self {
            RoundStatus::Unknown => 0,
            RoundStatus::Betting => 1,
            RoundStatus::Running => 2,
            RoundStatus::AwaitingResolve => 3,
            RoundStatus::Resolved => 4,
            RoundStatus::Cancelled => 5,
            RoundStatus::FallbackRefund => 6,
        }
    }
}

/// The state of the market as its users see it.
#[derive(Clone, Copy, Debug, PartialEq, Eq, Structural)]
pub enum ProtocolStatus {
    /// A round is live.
    Active,
    /// The contract is paused.
    Paused,
    /// There is no active round: only claims are of use.
    ClaimsOnly,
}

impl ProtocolStatus {
    /// The number that stands for the status outside the contract.
    pub open spec fn number(self) -> u32 {
        match self {
            ProtocolStatus::Active => 0,
            ProtocolStatus::Paused => 1,
            ProtocolStatus::ClaimsOnly => 2,
        }
    }

    /// Returns the number that stands for the status outside the contract.
    pub fn to_number(&self) -> (result: u32)
        ensures
            result == self.number(),
    {
        match self {
            ProtocolStatus::Active => 0,
            ProtocolStatus::Paused => 1,
            ProtocolStatus::ClaimsOnly => 2,
        }
    }
}

/// How a round left the market.
#[derive(Clone, Copy, Debug, PartialEq, Eq, Structural)]
pub enum RoundArchiveStatus {
    Resolved,
    Cancelled,
    FallbackRefund,
}

impl RoundArchiveStatus {
    /// The number that stands for the status in events.
    pub open spec fn number(self) -> u32 {
        match self {
            RoundArchiveStatus::Resolved => 0,
            RoundArchiveStatus::Cancelled => 1,
            RoundArchiveStatus::FallbackRefund => 2,
        }
    }

    /// Returns the number that stands for the status in events.
    pub fn to_number(&self) -> (result: u32)
        ensures
            result == self.number(),
    {
        match self {
            RoundArchiveStatus::Resolved => 0,
            RoundArchiveStatus::Cancelled => 1,
            RoundArchiveStatus::FallbackRefund => 2,
        }
    }
}

/// What became of a user's stake in a round.
#[derive(Clone, Copy, Debug, PartialEq, Eq, Structural)]
pub enum UserOutcomeType {
    Win,
    Loss,
    Refund,
    Cancel,
}

impl UserOutcomeType {
    /// The number that stands for the outcome in events.
    pub open spec fn number(self) -> u32 {
        match self {
            UserOutcomeType::Loss => 0,
            UserOutcomeType::Win => 1,
            UserOutcomeType::Refund => 2,
            UserOutcomeType::Cancel => 3,
        }
    }

    /// Returns the number that stands for the outcome in events.
    pub fn to_number(&self) -> (result: u32)
        ensures
            result == self.number(),
    {
        match self {
            UserOutcomeType::Loss => 0,
            UserOutcomeType::Win => 1,
            UserOutcomeType::Refund => 2,
            UserOutcomeType::Cancel => 3,
        }
    }
}

/// A round of the market.
#[derive(Clone, Copy, Debug, PartialEq, Eq)]
pub struct Round {
    pub round_id: u64,
    pub price_start: u128,
    pub start_ledger: u32,
    pub bet_end_ledger: u32,
    pub end_ledger: u32,
    pub pool_up: i128,
    pub pool_down: i128,
    pub mode: RoundMode,
}

impl Round {
    /// The pools of a round are sums of stakes: neither is negative.
    pub open spec fn wf(self) -> bool {
        &&& self.pool_up >= 0
        &&& self.pool_down >= 0
    }
}

/// A stake on a direction of the price.
#[derive(Clone, Copy, Debug, PartialEq, Eq)]
pub struct UserPosition {
    pub amount: i128,
    pub side: BetSide,
}

/// A stake on a price.
#[derive(Clone, Copy, Debug, PartialEq, Eq)]
pub struct PrecisionPrediction {
    pub user: Address,
    pub predicted_price: u128,
    pub amount: i128,
}

/// A participant's entry in a round on the price: the user, the stake, the
/// predicted price (zero for one that was not revealed), and whether the
/// prediction is among the closest.
pub type PrecisionEntry = (Address, i128, u128, bool);

/// A stake on a price that has not been revealed.
#[derive(Clone, Copy, Debug, PartialEq, Eq)]
pub struct PrecisionCommitment {
    pub hash: Bytes32,
    pub amount: i128,
}

/// What the archive keeps of a round.
#[derive(Clone, Copy, Debug, PartialEq, Eq)]
pub struct ArchivedRoundSummary {
    pub round_id: u64,
    pub price_start: u128,
    pub price_final: u128,
    pub mode: RoundMode,
    pub status: RoundArchiveStatus,
    pub pool_up: i128,
    pub pool_down: i128,
    pub participant_count: u32,
    pub settled_at_ledger: u32,
}

/// What is recorded of a user's part in a settled round.
#[derive(Clone, Copy, Debug, PartialEq, Eq)]
pub struct UserRoundOutcome {
    pub user: Address,
    pub round_mode: u32,
    pub prediction_side: u32,
    pub predicted_price: u128,
    pub stake: i128,
    pub payout: i128,
    pub outcome: UserOutcomeType,
}

/// A user's record over all rounds.
#[derive(Clone, Copy, Debug, PartialEq, Eq)]
pub struct UserStats {
    pub total_wins: u32,
    pub total_losses: u32,
    pub current_streak: u32,
    pub best_streak: u32,
}

/// A proposal to put another oracle in the place of the present one.
#[derive(Clone, Copy, Debug, PartialEq, Eq)]
pub struct OracleRotationProposal {
    pub new_oracle: Address,
    pub proposed_at: u64,
    pub expires_at: u64,
}

/// The price that the oracle reports for a round. `round_id` names the round
/// by its start ledger.
#[derive(Clone, Copy, Debug, PartialEq, Eq)]
pub struct OraclePayload {
    pub price: u128,
    pub timestamp: u64,
    pub round_id: u32,
    pub nonce: u64,
    pub network_id: Bytes32,
    pub contract_addr: Address,
    pub confidence: Option<u32>,
}

/// The names of the entries that the market keeps in storage.
#[derive(Clone, Copy, Debug, PartialEq, Eq)]
pub enum DataKey {
    SchemaVersion,
    Admin,
    Oracle,
    Paused,
    ActiveRound,
    OracleRotationProposal,
    OracleMaxDeviationBps,
    OracleDeviationOverrideArmed,
    OracleMinConfidenceBps,
    OracleStrictMode,
    MinParticipants,
    MaxPendingWinnings,
    ProtocolFeeBps,
    ProtocolFeeTreasury,
    ArchiveRetention,
    RecentArchivedRoundIds,
    Positions,
    UpDownPositions,
    PrecisionPositions,
    RoundParticipants(u64),
    Position(u64, Address),
    PrecisionPosition(u64, Address),
    PrecisionCommitment(u64, Address),
    ConsumedOracleNonce(u64, u64),
    ArchivedRound(u64),
    CancelledRound(u64),
    UserRoundOutcome(u64, Address),
    Balance(Address),
    PendingWinnings(Address),
    UserStats(Address),
}

/// The operation that a rejection event speaks of.
#[derive(Clone, Copy, Debug, PartialEq, Eq, Structural)]
pub enum Action {
    Cancel,
    Resolve,
}

/// What the market tells the outside about an operation.
#[derive(Clone, Copy, Debug, PartialEq, Eq)]
pub enum Event {
    RotationProposed { new_oracle: Address, expires_at: u64 },
    RotationExpired { new_oracle: Address, proposed_at: u64, expires_at: u64 },
    RotationAccepted { previous: Address, new_oracle: Address },
    RotationCancelled { new_oracle: Address },
    ModeTransition { old_mode: u32, new_mode: u32 },
    ActionRejected { actor: Address, action: Action, error: ContractError },
    FeeCollected { round_id: u64, fee_amount: i128, treasury: i128, bps: u32 },
    PayoutOutcome {
        round_id: u64,
        mode: u32,
        user: Address,
        gross_payout: i128,
        outcome_type: u32,
    },
    OutcomeLoss {
        user: Address,
        round_id: u64,
        mode: u32,
        stake: i128,
        side: u32,
        predicted_price: u128,
    },
    OracleRejected {
        round_id: u64,
        start_price: u128,
        price: u128,
        diff_bps: u32,
        max_bps: u32,
    },
    OracleOverride {
        round_id: u64,
        start_price: u128,
        price: u128,
        diff_bps: u32,
        max_bps: u32,
    },
    LowConfidence { round_id: u64, confidence_bps: u32, min_confidence_bps: u32 },
    PoolOneSided { round_id: u64, pool_up: i128, pool_down: i128 },
    RoundCancelled { round_id: u64, reason: u32, pool_up: i128, pool_down: i128 },
    RoundFallback { round_id: u64, count: u32, min: u32 },
    RoundResolved { round_id: u64, price: u128, mode: u32, confidence: Option<u32> },
    RoundSummary {
        round_id: u64,
        mode: u32,
        price_start: u128,
        price_final: u128,
        participant_count: u32,
        total_pot: i128,
        fee_amount: i128,
        status: u32,
    },
    ArchivePruned { round_id: u64, retention_limit: u32 },
    WinningsClaimed { user: Address, amount: i128 },
}

impl Action {
    /// The name of the operation in a rejection event.
    pub open spec fn name(self) -> Seq<char> {
        match self {
            Action::Cancel => "cancel"@,
            Action::Resolve => "resolve"@,
        }
    }

    /// Returns the name of the operation in a rejection event.
    pub fn to_name(&self) -> (name: &'static str)
        ensures
            name@ == self.name(),
    {
        match self {
            Action::Cancel => "cancel",
            Action::Resolve => "resolve",
        }
    }
}

impl Event {
    /// The two topics under which the event is published.
    pub open spec fn topics(self) -> (Seq<char>, Seq<char>) {
        match self {
            Event::RotationProposed { .. } => ("oracle"@, "propose"@),
            Event::RotationExpired { .. } => ("oracle"@, "expired"@),
            Event::RotationAccepted { .. } => ("oracle"@, "accept"@),
            Event::RotationCancelled { .. } => ("oracle"@, "cancel"@),
            Event::ModeTransition { .. } => ("mode"@, "transition"@),
            Event::ActionRejected { .. } => ("action"@, "rejct"@),
            Event::FeeCollected { .. } => ("protocol"@, "fee_collected"@),
            Event::PayoutOutcome { .. } => ("payout"@, "outcome"@),
            Event::OutcomeLoss { .. } => ("outcome"@, "loss"@),
            Event::OracleRejected { .. } => ("oracle"@, "rejected"@),
            Event::OracleOverride { .. } => ("oracle"@, "override"@),
            Event::LowConfidence { .. } => ("oracle"@, "lowconf"@),
            Event::PoolOneSided { .. } => ("pool"@, "onesided"@),
            Event::RoundCancelled { .. } => ("round"@, "cancel"@),
            Event::RoundFallback { .. } => ("round"@, "fallback"@),
            Event::RoundResolved { .. } => ("round"@, "resolved"@),
            Event::RoundSummary { .. } => ("round"@, "summary"@),
            Event::ArchivePruned { .. } => ("archive"@, "pruned"@),
            Event::WinningsClaimed { .. } => ("claim"@, "winnings"@),
        }
    }

    /// Returns the two topics under which the event is published.
    pub fn to_topics(&self) -> (topics: (&'static str, &'static str))
        ensures
            (topics.0@, topics.1@) == self.topics(),
    {
        match self {
            Event::RotationProposed { .. } => ("oracle", "propose"),
            Event::RotationExpired { .. } => ("oracle", "expired"),
            Event::RotationAccepted { .. } => ("oracle", "accept"),
            Event::RotationCancelled { .. } => ("oracle", "cancel"),
            Event::ModeTransition { .. } => ("mode", "transition"),
            Event::ActionRejected { .. } => ("action", "rejct"),
            Event::FeeCollected { .. } => ("protocol", "fee_collected"),
            Event::PayoutOutcome { .. } => ("payout", "outcome"),
            Event::OutcomeLoss { .. } => ("outcome", "loss"),
            Event::OracleRejected { .. } => ("oracle", "rejected"),
            Event::OracleOverride { .. } => ("oracle", "override"),
            Event::LowConfidence { .. } => ("oracle", "lowconf"),
            Event::PoolOneSided { .. } => ("pool", "onesided"),
            Event::RoundCancelled { .. } => ("round", "cancel"),
            Event::RoundFallback { .. } => ("round", "fallback"),
            Event::RoundResolved { .. } => ("round", "resolved"),
            Event::RoundSummary { .. } => ("round", "summary"),
            Event::ArchivePruned { .. } => ("archive", "pruned"),
            Event::WinningsClaimed { .. } => ("claim", "winnings"),
        }
    }
}

} // verus!
