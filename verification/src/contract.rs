//! The rules that the market's operations share, and its entry points.

use vstd::prelude::*;
use soroban_sdk::Env;
use crate::archive::DEFAULT_ARCHIVE_RETENTION;
use crate::errors::ContractError;
use crate::market::{LedgerContext, Market};
use crate::model::{Cells, MarketView, Step};
use crate::settlement;
use crate::types::{
    Action, Address, ArchivedRoundSummary, DataKey, Event, OraclePayload, OracleRotationProposal,
    ProtocolStatus, Round, RoundArchiveStatus, RoundPhase, RoundStatus, RuntimeMode,
    UserRoundOutcome, UserStats,
};

verus! {

/// The smallest cap that can be set on an amount.
pub const MIN_CAP_VALUE: i128 = 1;

/// The shortest and the longest time, in seconds, after which the oracle's
/// heartbeat can be set to count as stale.
pub const MIN_ORACLE_STALE_THRESHOLD: u64 = 60;

pub const MAX_ORACLE_STALE_THRESHOLD: u64 = 86_400;

/// The shortest time, in seconds, that a rotation proposal can stand.
pub const MIN_ROTATION_EXPIRY_SECONDS: u64 = 60;

/// The longest windows for betting and for running a round, in ledgers.
pub const MAX_BET_WINDOW_LEDGERS: u32 = 1_440;

pub const MAX_RUN_WINDOW_LEDGERS: u32 = 2_880;

/// The largest deviation limit for the oracle's price, in basis points.
pub const MAX_ORACLE_DEVIATION_BPS: u32 = 100_000;

/// The hard cap on the protocol fee, in basis points of the pot.
pub const MAX_PROTOCOL_FEE_BPS: u32 = 1_000;

/// The number of basis points in the whole.
pub const BPS_DENOMINATOR: i128 = 10_000;

/// The newest schema version that the market can work on.
pub const CURRENT_SCHEMA_VERSION: u32 = 3;

/// The number is one of the type `i128`.
pub open spec fn fits_i128(n: int) -> bool {
    i128::MIN <= n <= i128::MAX
}

/// The quotient of two numbers, rounded towards zero, for a positive divisor.
pub open spec fn quotient(a: int, b: int) -> int {
    if a >= 0 {
        a / b
    } else {
        -((-a) / b)
    }
}

/// The part of a pot that a fee in basis points comes to.
pub open spec fn fee_of(pot: int, bps: int) -> int {
    quotient(pot * bps, BPS_DENOMINATOR as int)
}

/// The phase of a round at a ledger sequence.
pub open spec fn round_phase(sequence: u32, round: Round) -> RoundPhase {
    if sequence < round.bet_end_ledger {
        RoundPhase::Betting
    } else if sequence < round.end_ledger {
        RoundPhase::Running
    } else {
        RoundPhase::Resolvable
    }
}

impl MarketView {
    /// The stored schema version is one that the market can work on.
    pub open spec fn schema_supported(self) -> bool {
        1 <= self.schema_version() <= CURRENT_SCHEMA_VERSION
    }

    /// The check of the schema version, which keeps the entries that every
    /// operation reads alive.
    pub open spec fn require_supported_schema(self) -> Step<u32> {
        let after = self.extend(DataKey::SchemaVersion).extend(DataKey::Admin);
        if self.schema_supported() {
            (after, Ok(self.schema_version()))
        } else {
            (after, Err(ContractError::UnsupportedSchemaVersion))
        }
    }

    /// The check that the contract is not fully paused.
    pub open spec fn ensure_not_paused(self) -> Step<()> {
        let after = self.extend(DataKey::Paused);
        if self.mode() == RuntimeMode::FullyPaused {
            (after, Err(ContractError::ContractPaused))
        } else {
            (after, Ok(()))
        }
    }

    /// The check that the contract is in its normal mode.
    pub open spec fn ensure_normal_mode(self) -> Step<()> {
        let after = self.extend(DataKey::Paused);
        if self.mode() == RuntimeMode::Normal {
            (after, Ok(()))
        } else {
            (after, Err(ContractError::ContractPaused))
        }
    }

    /// The change to another runtime mode, which is nothing where that is the
    /// mode already.
    pub open spec fn set_mode(self, new_mode: RuntimeMode) -> MarketView {
        if self.mode() == new_mode {
            self
        } else {
            self.with_cells(Cells { paused: Some(new_mode), ..self.cells }).extend(
                DataKey::Paused,
            ).emit(
                Event::ModeTransition {
                    old_mode: self.mode().number(),
                    new_mode: new_mode.number(),
                },
            )
        }
    }

    /// The whole contract is paused.
    pub open spec fn is_paused(self) -> bool {
        self.mode() == RuntimeMode::FullyPaused
    }

    /// The state of the market as its users see it: a pause comes first.
    pub open spec fn protocol_status(self) -> ProtocolStatus {
        if self.is_paused() {
            ProtocolStatus::Paused
        } else if self.cells.active_round is Some {
            ProtocolStatus::Active
        } else {
            ProtocolStatus::ClaimsOnly
        }
    }

    /// A round is known to have been cancelled.
    pub open spec fn round_cancelled(self, round_id: u64) -> bool {
        self.cancelled.get(round_id) == Some(true)
    }

    /// What is known of a round at a ledger sequence: first as the active
    /// round, then from the archive, then from the mark of a cancelled round.
    pub open spec fn round_status(self, sequence: u32, round_id: u64) -> RoundStatus {
        if self.cells.active_round matches Some(round) && round.round_id == round_id {
            match round_phase(sequence, self.cells.active_round->0) {
                RoundPhase::Betting => RoundStatus::Betting,
                RoundPhase::Running => RoundStatus::Running,
                RoundPhase::Resolvable => RoundStatus::AwaitingResolve,
            }
        } else if self.archived.dom().contains(round_id) {
            match self.archived[round_id].status {
                RoundArchiveStatus::Resolved => RoundStatus::Resolved,
                RoundArchiveStatus::Cancelled => RoundStatus::Cancelled,
                RoundArchiveStatus::FallbackRefund => RoundStatus::FallbackRefund,
            }
        } else if self.round_cancelled(round_id) {
            RoundStatus::Cancelled
        } else {
            RoundStatus::Unknown
        }
    }

    /// The record of a user's balance.
    pub open spec fn set_balance(self, user: Address, amount: i128) -> MarketView {
        MarketView { balances: self.balances.insert(user, amount), ..self }.extend(
            DataKey::Balance(user),
        )
    }

    /// The addition of an amount to a user's pending winnings. It is refused
    /// where the sum is no `i128` or passes the cap, and then changes nothing.
    pub open spec fn accumulate_pending(self, user: Address, amount: i128) -> Step<()> {
        let sum = self.pending_of(user) + amount;
        if !fits_i128(sum) {
            (self, Err(ContractError::PayoutOverflow))
        } else if self.cells.max_pending_winnings matches Some(cap) && sum > cap {
            (self, Err(ContractError::PendingWinningsCapExceeded))
        } else {
            let pending = self.pending.insert(user, sum as i128);
            (
                MarketView { pending, ..self }.extend(DataKey::PendingWinnings(user)),
                Ok(()),
            )
        }
    }

    /// The payment of a fee into the treasury. A fee that is not positive is
    /// no fee.
    pub open spec fn collect_fee(self, round_id: u64, fee: i128, bps: Option<u32>) -> Step<()> {
        let treasury = self.treasury() + fee;
        if fee <= 0 {
            (self, Ok(()))
        } else if !fits_i128(treasury) {
            (self, Err(ContractError::Overflow))
        } else {
            let cells = Cells { protocol_fee_treasury: Some(treasury as i128), ..self.cells };
            (
                self.with_cells(cells).extend(DataKey::ProtocolFeeTreasury).emit(
                    Event::FeeCollected {
                        round_id,
                        fee_amount: fee,
                        treasury: treasury as i128,
                        bps: match bps {
                            Some(b) => b,
                            None => 0,
                        },
                    },
                ),
                Ok(()),
            )
        }
    }

    /// The fee on a round of two pools: what is left of the winning pool, what
    /// is left of the losing pool, and the fee. The losing pool pays the fee
    /// as far as it reaches, and the winning pool the rest.
    pub open spec fn split_fee_updown(
        self,
        round_id: u64,
        winning: i128,
        losing: i128,
    ) -> Step<(i128, i128, i128)> {
        match self.cells.protocol_fee_bps {
            None => (self, Ok((winning, losing, 0i128))),
            Some(bps) => {
                let read = self.extend(DataKey::ProtocolFeeBps);
                let pot = winning + losing;
                let fee = fee_of(pot, bps as int);
                let from_losing = if fee < losing {
                    fee
                } else {
                    losing as int
                };
                let from_winning = fee - from_losing;
                if !fits_i128(pot) {
                    (read, Err(ContractError::PayoutOverflow))
                } else if !fits_i128(pot * bps) {
                    (read, Err(ContractError::Overflow))
                } else if fee == 0 {
                    (read, Ok((winning, losing, 0i128)))
                } else if !fits_i128(from_winning) || !fits_i128(winning - from_winning)
                    || !fits_i128(losing - from_losing) {
                    (read, Err(ContractError::Overflow))
                } else {
                    let collected = read.collect_fee(round_id, fee as i128, Some(bps));
                    match collected.1 {
                        Ok(_) => (
                            collected.0,
                            Ok(
                                (
                                    (winning - from_winning) as i128,
                                    (losing - from_losing) as i128,
                                    fee as i128,
                                ),
                            ),
                        ),
                        Err(e) => (collected.0, Err(e)),
                    }
                }
            },
        }
    }

    /// The fee on a pot: what is left of it, and the fee.
    pub open spec fn split_fee_precision(self, round_id: u64, pot: i128) -> Step<(i128, i128)> {
        match self.cells.protocol_fee_bps {
            None => (self, Ok((pot, 0i128))),
            Some(bps) => {
                let read = self.extend(DataKey::ProtocolFeeBps);
                let fee = fee_of(pot as int, bps as int);
                if pot <= 0 {
                    (read, Ok((pot, 0i128)))
                } else if !fits_i128(pot * bps) || !fits_i128(pot - fee) {
                    (read, Err(ContractError::Overflow))
                } else {
                    let collected = read.collect_fee(round_id, fee as i128, Some(bps));
                    match collected.1 {
                        Ok(_) => (collected.0, Ok(((pot - fee) as i128, fee as i128))),
                        Err(e) => (collected.0, Err(e)),
                    }
                }
            },
        }
    }

    /// The administrator, where there is one, has authorized the call. An
    /// operation on an unsupported schema is refused before it asks.
    pub open spec fn admin_consents(self, ctx: &LedgerContext) -> bool {
        self.schema_supported() && self.cells.admin is Some ==> ctx.has_auth(self.cells.admin->0)
    }

    /// The user has authorized the call. A call on an unsupported schema is
    /// refused before the user is asked.
    pub open spec fn user_consents(self, ctx: &LedgerContext, user: Address) -> bool {
        self.schema_supported() ==> ctx.has_auth(user)
    }

    /// The proposal of another oracle.
    pub open spec fn propose_rotation(
        self,
        now: u64,
        new_oracle: Address,
        expires_in: u64,
    ) -> Step<()> {
        let checked = self.require_supported_schema();
        let running = checked.0.ensure_not_paused();
        let expires_at = now + expires_in;
        if checked.1 is Err {
            (checked.0, Err(ContractError::UnsupportedSchemaVersion))
        } else if self.cells.admin is None {
            (checked.0, Err(ContractError::AdminNotSet))
        } else if running.1 is Err {
            running
        } else if expires_in < MIN_ROTATION_EXPIRY_SECONDS {
            (running.0, Err(ContractError::InvalidDuration))
        } else if expires_at > u64::MAX {
            (running.0, Err(ContractError::Overflow))
        } else {
            let proposal = OracleRotationProposal {
                new_oracle,
                proposed_at: now,
                expires_at: expires_at as u64,
            };
            let cells = Cells { rotation: Some(proposal), ..self.cells };
            (
                running.0.with_cells(cells).extend(DataKey::OracleRotationProposal).emit(
                    Event::RotationProposed { new_oracle, expires_at: expires_at as u64 },
                ),
                Ok(()),
            )
        }
    }

    /// The end of a proposal whose time has run out.
    pub open spec fn expire_rotation(self, proposal: OracleRotationProposal) -> MarketView {
        self.with_cells(Cells { rotation: None, ..self.cells }).emit(
            Event::RotationExpired {
                new_oracle: proposal.new_oracle,
                proposed_at: proposal.proposed_at,
                expires_at: proposal.expires_at,
            },
        )
    }

    /// The acceptance of the proposal that stands.
    pub open spec fn accept_rotation(self, now: u64) -> Step<()> {
        let checked = self.require_supported_schema();
        let running = checked.0.ensure_not_paused();
        if checked.1 is Err {
            (checked.0, Err(ContractError::UnsupportedSchemaVersion))
        } else if running.1 is Err {
            running
        } else {
            match self.cells.rotation {
                None => (running.0, Err(ContractError::NoPendingRotation)),
                Some(proposal) => if now > proposal.expires_at {
                    (running.0.expire_rotation(proposal), Err(ContractError::RotationExpired))
                } else {
                    match self.cells.oracle {
                        None => (running.0, Err(ContractError::OracleNotSet)),
                        Some(previous) => {
                            let rotated = Cells {
                                oracle: Some(proposal.new_oracle),
                                rotation: None,
                                ..self.cells
                            };
                            (
                                running.0.with_cells(rotated).extend(DataKey::Oracle).emit(
                                    Event::RotationAccepted {
                                        previous,
                                        new_oracle: proposal.new_oracle,
                                    },
                                ),
                                Ok(()),
                            )
                        },
                    }
                },
            }
        }
    }

    /// The withdrawal of the proposal that stands.
    pub open spec fn cancel_rotation(self) -> Step<()> {
        let checked = self.require_supported_schema();
        let running = checked.0.ensure_not_paused();
        if checked.1 is Err {
            (checked.0, Err(ContractError::UnsupportedSchemaVersion))
        } else if self.cells.admin is None {
            (checked.0, Err(ContractError::AdminNotSet))
        } else if running.1 is Err {
            running
        } else {
            match self.cells.rotation {
                None => (running.0, Err(ContractError::NoPendingRotation)),
                Some(proposal) => (
                    running.0.with_cells(Cells { rotation: None, ..self.cells }).emit(
                        Event::RotationCancelled { new_oracle: proposal.new_oracle },
                    ),
                    Ok(()),
                ),
            }
        }
    }

    /// What a look at the proposal that stands leaves behind: a proposal whose
    /// time has run out is taken away.
    pub open spec fn look_at_rotation(self, now: u64) -> MarketView {
        let read = self.extend(DataKey::OracleRotationProposal);
        match self.cells.rotation {
            Some(proposal) if now > proposal.expires_at => read.expire_rotation(proposal),
            _ => read,
        }
    }

    /// The proposal that stands and whose time has not run out.
    pub open spec fn standing_rotation(self, now: u64) -> Option<OracleRotationProposal> {
        match self.cells.rotation {
            Some(proposal) if now > proposal.expires_at => None,
            other => other,
        }
    }
}

/// The market's contract.
pub struct VirtualTokenContract;

impl VirtualTokenContract {
    /// Adds two amounts of a payout.
    pub fn payout_add(a: i128, b: i128) -> (result: Result<i128, ContractError>)
        ensures
            result == (if fits_i128(a + b) {
                Ok((a + b) as i128)
            } else {
                Err::<i128, ContractError>(ContractError::PayoutOverflow)
            }),
    {
        match a.checked_add(b) {
            Some(sum) => Ok(sum),
            None => Err(ContractError::PayoutOverflow),
        }
    }

    /// Multiplies two amounts of a payout.
    pub fn payout_mul(a: i128, b: i128) -> (result: Result<i128, ContractError>)
        ensures
            result == (if fits_i128(a * b) {
                Ok((a * b) as i128)
            } else {
                Err::<i128, ContractError>(ContractError::PayoutOverflow)
            }),
    {
        match a.checked_mul(b) {
            Some(product) => Ok(product),
            None => Err(ContractError::PayoutOverflow),
        }
    }

    /// Tells the phase of a round at a ledger sequence.
    pub fn _derive_round_phase(ledger_sequence: u32, round: &Round) -> (phase: RoundPhase)
        ensures
            phase == round_phase(ledger_sequence, *round),
    {
        if ledger_sequence < round.bet_end_ledger {
            RoundPhase::Betting
        } else if ledger_sequence < round.end_ledger {
            RoundPhase::Running
        } else {
            RoundPhase::Resolvable
        }
    }

    /// Checks the lengths of the betting window and of the whole round.
    pub fn _validate_windows(bet_ledgers: u32, run_ledgers: u32) -> (result: Result<
        (),
        ContractError,
    >)
        ensures
            result == (if bet_ledgers == 0 || run_ledgers == 0 {
                Err(ContractError::InvalidDuration)
            } else if bet_ledgers > MAX_BET_WINDOW_LEDGERS || run_ledgers
                > MAX_RUN_WINDOW_LEDGERS {
                Err(ContractError::WindowOutOfRange)
            } else if bet_ledgers >= run_ledgers {
                Err(ContractError::InvalidDuration)
            } else {
                Ok(())
            }),
            result is Ok <==> 0 < bet_ledgers < run_ledgers && bet_ledgers <= 1_440 && run_ledgers
                <= 2_880,
            0 < bet_ledgers && 0 < run_ledgers && (bet_ledgers > 1_440 || run_ledgers > 2_880)
                <==> result == Err::<(), ContractError>(ContractError::WindowOutOfRange),
    {
        if bet_ledgers == 0 || run_ledgers == 0 {
            return Err(ContractError::InvalidDuration);
        }
        if bet_ledgers > MAX_BET_WINDOW_LEDGERS || run_ledgers > MAX_RUN_WINDOW_LEDGERS {
            return Err(ContractError::WindowOutOfRange);
        }
        if bet_ledgers >= run_ledgers {
            return Err(ContractError::InvalidDuration);
        }
        Ok(())
    }

    /// Checks a cap on stakes; no cap is in order.
    pub fn _validate_max_stake(max_amount: Option<i128>) -> (result: Result<(), ContractError>)
        ensures
            result == (if max_amount matches Some(v) && v < MIN_CAP_VALUE {
                Err(ContractError::InvalidBetAmount)
            } else {
                Ok(())
            }),
            result is Ok <==> (max_amount matches Some(v) ==> v > 0),
    {
        if let Some(v) = max_amount {
            if v < MIN_CAP_VALUE {
                return Err(ContractError::InvalidBetAmount);
            }
        }
        Ok(())
    }

    /// Checks the time after which a heartbeat counts as stale.
    pub fn _validate_oracle_stale_threshold(seconds: u64) -> (result: Result<(), ContractError>)
        ensures
            result == (if MIN_ORACLE_STALE_THRESHOLD <= seconds <= MAX_ORACLE_STALE_THRESHOLD {
                Ok(())
            } else {
                Err(ContractError::InvalidDuration)
            }),
            result is Ok <==> 60 <= seconds <= 86_400,
    {
        if seconds < MIN_ORACLE_STALE_THRESHOLD || seconds > MAX_ORACLE_STALE_THRESHOLD {
            return Err(ContractError::InvalidDuration);
        }
        Ok(())
    }

    /// Checks a limit on the deviation of the oracle's price; no limit is in
    /// order.
    pub fn _validate_oracle_max_deviation_bps(bps: Option<u32>) -> (result: Result<
        (),
        ContractError,
    >)
        ensures
            result == (if bps matches Some(v) && !(1 <= v <= MAX_ORACLE_DEVIATION_BPS) {
                Err(ContractError::WindowOutOfRange)
            } else {
                Ok(())
            }),
            result is Ok <==> (bps matches Some(v) ==> 0 < v <= 100_000),
    {
        if let Some(v) = bps {
            if v == 0 || v > MAX_ORACLE_DEVIATION_BPS {
                return Err(ContractError::WindowOutOfRange);
            }
        }
        Ok(())
    }

    /// Checks a protocol fee; no fee is in order, a fee of zero is not.
    pub fn _validate_protocol_fee_bps(bps: Option<u32>) -> (result: Result<(), ContractError>)
        ensures
            result == (if bps matches Some(v) && !(1 <= v <= MAX_PROTOCOL_FEE_BPS) {
                Err(ContractError::InvalidProtocolFeeBps)
            } else {
                Ok(())
            }),
            result is Ok <==> (bps matches Some(v) ==> 0 < v <= 1_000),
    {
        if let Some(v) = bps {
            if v == 0 || v > MAX_PROTOCOL_FEE_BPS {
                return Err(ContractError::InvalidProtocolFeeBps);
            }
        }
        Ok(())
    }

    /// Extends the time to live of an entry, if it is there.
    pub fn _extend_persistent_ttl(market: &mut Market, key: &DataKey)
        ensures
            final(market)@ == old(market)@.extend(*key),
    {
        if market.has(key) {
            market.extended.push(*key);
        }
    }

    /// Returns the stored schema version, if there is one.
    pub fn _schema_version(market: &Market) -> (version: Option<u32>)
        ensures
            version == market@.cells.schema_version,
    {
        market.cells.schema_version
    }

    /// Tells whether the market can work on the stored schema.
    pub fn supports_schema(market: &Market) -> (result: bool)
        ensures
            result == market@.schema_supported(),
    {
        let v: u32 = Self::get_schema_version(market);
        v != 0 && v <= CURRENT_SCHEMA_VERSION
    }

    /// Checks that the market can work on the stored schema.
    pub fn _require_supported_schema(market: &mut Market) -> (result: Result<u32, ContractError>)
        ensures
            (final(market)@, result) == old(market)@.require_supported_schema(),
    {
        Self::_extend_persistent_ttl(market, &DataKey::SchemaVersion);
        if market.cells.admin.is_some() {
            Self::_extend_persistent_ttl(market, &DataKey::Admin);
        }
        if !Self::supports_schema(market) {
            return Err(ContractError::UnsupportedSchemaVersion);
        }
        Ok(Self::get_schema_version(market))
    }

    /// Checks that there is no active round.
    pub fn assert_no_active_round(market: &Market) -> (result: Result<(), ContractError>)
        ensures
            result == (if market@.cells.active_round is Some {
                Err(ContractError::RoundAlreadyActive)
            } else {
                Ok(())
            }),
    {
        if market.cells.active_round.is_some() {
            return Err(ContractError::RoundAlreadyActive);
        }
        Ok(())
    }

    /// Returns the runtime mode.
    fn runtime_mode(market: &Market) -> (mode: RuntimeMode)
        ensures
            mode == market@.mode(),
    {
        match market.cells.paused {
            Some(mode) => mode,
            None => RuntimeMode::Normal,
        }
    }

    /// Checks that the contract is not fully paused.
    pub fn _ensure_not_paused(market: &mut Market) -> (result: Result<(), ContractError>)
        ensures
            (final(market)@, result) == old(market)@.ensure_not_paused(),
    {
        Self::_extend_persistent_ttl(market, &DataKey::Paused);
        if Self::runtime_mode(market) == RuntimeMode::FullyPaused {
            return Err(ContractError::ContractPaused);
        }
        Ok(())
    }

    /// Checks that the contract is in its normal mode.
    pub fn _ensure_normal_mode(market: &mut Market) -> (result: Result<(), ContractError>)
        ensures
            (final(market)@, result) == old(market)@.ensure_normal_mode(),
    {
        Self::_extend_persistent_ttl(market, &DataKey::Paused);
        if Self::runtime_mode(market) != RuntimeMode::Normal {
            return Err(ContractError::ContractPaused);
        }
        Ok(())
    }

    /// Puts the contract into a runtime mode.
    pub fn _set_mode(market: &mut Market, new_mode: RuntimeMode) -> (result: Result<
        (),
        ContractError,
    >)
        ensures
            result is Ok,
            final(market)@ == old(market)@.set_mode(new_mode),
    {
        let old_mode = Self::runtime_mode(market);
        if old_mode != new_mode {
            market.cells.paused = Some(new_mode);
            Self::_extend_persistent_ttl(market, &DataKey::Paused);
            market.emit(
                Event::ModeTransition {
                    old_mode: old_mode.to_number(),
                    new_mode: new_mode.to_number(),
                },
            );
        }
        Ok(())
    }

    /// Records a user's balance.
    pub fn _set_balance(market: &mut Market, user: Address, amount: i128)
        ensures
            final(market)@ == old(market)@.set_balance(user, amount),
    {
        market.balances.insert(user, amount);
        Self::_extend_persistent_ttl(market, &DataKey::Balance(user));
    }

    /// Tells the outside what a user gets out of a round.
    pub fn _emit_payout_outcome(
        market: &mut Market,
        round_id: u64,
        mode: u32,
        user: Address,
        gross_payout: i128,
        outcome_type: u32,
    )
        ensures
            final(market)@ == old(market)@.emit(
                Event::PayoutOutcome { round_id, mode, user, gross_payout, outcome_type },
            ),
    {
        market.emit(Event::PayoutOutcome { round_id, mode, user, gross_payout, outcome_type });
    }

    /// Tells the outside that an operation was refused, to whom and why.
    pub fn _emit_action_rejected(
        market: &mut Market,
        actor: &Address,
        action: Action,
        reason: ContractError,
    )
        ensures
            final(market)@ == old(market)@.emit(
                Event::ActionRejected { actor: *actor, action, error: reason },
            ),
    {
        market.emit(Event::ActionRejected { actor: *actor, action, error: reason });
    }

    /// Adds an amount to a user's pending winnings.
    pub fn _accumulate_pending(market: &mut Market, user: Address, amount: i128) -> (result: Result<
        (),
        ContractError,
    >)
        ensures
            (final(market)@, result) == old(market)@.accumulate_pending(user, amount),
    {
        let existing: i128 = Self::get_pending_winnings(market, user);
        let new_pending: i128 = match Self::payout_add(existing, amount) {
            Ok(sum) => sum,
            Err(e) => {
                return Err(e);
            },
        };
        if let Some(cap) = market.cells.max_pending_winnings {
            if new_pending > cap {
                return Err(ContractError::PendingWinningsCapExceeded);
            }
        }
        market.pending.insert(user, new_pending);
        Self::_extend_persistent_ttl(market, &DataKey::PendingWinnings(user));
        Ok(())
    }

    /// Returns the protocol fee in basis points, if there is one.
    pub fn _read_protocol_fee_bps(market: &mut Market) -> (bps: Option<u32>)
        ensures
            bps == old(market)@.cells.protocol_fee_bps,
            final(market)@ == old(market)@.extend(DataKey::ProtocolFeeBps),
    {
        let v = market.cells.protocol_fee_bps;
        if v.is_some() {
            Self::_extend_persistent_ttl(market, &DataKey::ProtocolFeeBps);
        }
        v
    }

    /// Pays a fee into the treasury.
    pub fn _collect_protocol_fee(
        market: &mut Market,
        round_id: u64,
        fee_amount: i128,
        bps_active: Option<u32>,
    ) -> (result: Result<(), ContractError>)
        ensures
            (final(market)@, result) == old(market)@.collect_fee(round_id, fee_amount, bps_active),
    {
        if fee_amount <= 0 {
            return Ok(());
        }
        let current: i128 = Self::get_protocol_fee_treasury(market);
        let new_treasury: i128 = match current.checked_add(fee_amount) {
            Some(sum) => sum,
            None => {
                return Err(ContractError::Overflow);
            },
        };
        market.cells.protocol_fee_treasury = Some(new_treasury);
        Self::_extend_persistent_ttl(market, &DataKey::ProtocolFeeTreasury);
        let bps_value: u32 = match bps_active {
            Some(bps) => bps,
            None => 0,
        };
        market.emit(
            Event::FeeCollected { round_id, fee_amount, treasury: new_treasury, bps: bps_value },
        );
        Ok(())
    }

    /// Takes the protocol fee out of the two pools of a round. Returns what is
    /// left of the winning pool, what is left of the losing pool, and the fee.
    pub fn _apply_protocol_fee_updown(
        market: &mut Market,
        round_id: u64,
        winning_pool: i128,
        losing_pool: i128,
    ) -> (result: Result<(i128, i128, i128), ContractError>)
        ensures
            (final(market)@, result) == old(market)@.split_fee_updown(
                round_id,
                winning_pool,
                losing_pool,
            ),
            result matches Ok(split) ==> split.0 + split.1 + split.2 == winning_pool + losing_pool,
    {
        let bps_value: u32 = match Self::_read_protocol_fee_bps(market) {
            Some(bps) => bps,
            None => {
                return Ok((winning_pool, losing_pool, 0));
            },
        };
        let total_pot: i128 = match Self::payout_add(winning_pool, losing_pool) {
            Ok(sum) => sum,
            Err(e) => {
                return Err(e);
            },
        };
        let scaled: i128 = match total_pot.checked_mul(bps_value as i128) {
            Some(product) => product,
            None => {
                return Err(ContractError::Overflow);
            },
        };
        let fee_amount: i128 = scaled / BPS_DENOMINATOR;
        if fee_amount == 0 {
            return Ok((winning_pool, losing_pool, 0));
        }
        let fee_from_losing: i128 = if fee_amount < losing_pool {
            fee_amount
        } else {
            losing_pool
        };
        let fee_from_winning: i128 = match fee_amount.checked_sub(fee_from_losing) {
            Some(difference) => difference,
            None => {
                return Err(ContractError::Overflow);
            },
        };
        let dist_winning: i128 = match winning_pool.checked_sub(fee_from_winning) {
            Some(difference) => difference,
            None => {
                return Err(ContractError::Overflow);
            },
        };
        let dist_losing: i128 = match losing_pool.checked_sub(fee_from_losing) {
            Some(difference) => difference,
            None => {
                return Err(ContractError::Overflow);
            },
        };
        match Self::_collect_protocol_fee(market, round_id, fee_amount, Some(bps_value)) {
            Ok(_) => Ok((dist_winning, dist_losing, fee_amount)),
            Err(e) => Err(e),
        }
    }

    /// Takes the protocol fee out of a pot. Returns what is left of it, and
    /// the fee.
    pub fn _apply_protocol_fee_precision(
        market: &mut Market,
        round_id: u64,
        total_pot: i128,
    ) -> (result: Result<(i128, i128), ContractError>)
        ensures
            (final(market)@, result) == old(market)@.split_fee_precision(round_id, total_pot),
            result matches Ok(split) ==> split.0 + split.1 == total_pot,
    {
        let bps_value: u32 = match Self::_read_protocol_fee_bps(market) {
            Some(bps) => bps,
            None => {
                return Ok((total_pot, 0));
            },
        };
        if total_pot <= 0 {
            return Ok((total_pot, 0));
        }
        let scaled: i128 = match total_pot.checked_mul(bps_value as i128) {
            Some(product) => product,
            None => {
                return Err(ContractError::Overflow);
            },
        };
        proof {
            assert(scaled >= 0) by (nonlinear_arith)
                requires
                    scaled == total_pot * bps_value,
                    total_pot > 0,
                    bps_value >= 0,
            ;
        }
        let fee_amount: i128 = scaled / BPS_DENOMINATOR;
        let distributable: i128 = match total_pot.checked_sub(fee_amount) {
            Some(difference) => difference,
            None => {
                return Err(ContractError::Overflow);
            },
        };
        if fee_amount > 0 {
            match Self::_collect_protocol_fee(market, round_id, fee_amount, Some(bps_value)) {
                Ok(_) => {},
                Err(e) => {
                    return Err(e);
                },
            }
        }
        Ok((distributable, fee_amount))
    }

    /// Tells whether the whole contract is paused.
    pub fn is_paused(market: &Market) -> (result: bool)
        ensures
            result == market@.is_paused(),
            result == (market@.cells.paused == Some(RuntimeMode::FullyPaused)),
    {
        Self::runtime_mode(market) == RuntimeMode::FullyPaused
    }

    /// Returns the schema version.
    pub fn get_schema_version(market: &Market) -> (version: u32)
        ensures
            version == market@.schema_version(),
            version == (match market@.cells.schema_version {
                Some(version) => version as int,
                None => 1,
            }),
    {
        match Self::_schema_version(market) {
            Some(version) => version,
            None => 1,
        }
    }

    /// Returns the number of the runtime mode.
    pub fn get_runtime_mode(market: &Market) -> (mode: u32)
        ensures
            mode == market@.mode().number(),
            mode == (match market@.cells.paused {
                None | Some(RuntimeMode::Normal) => 0int,
                Some(RuntimeMode::ClaimsOnly) => 1,
                Some(RuntimeMode::FullyPaused) => 2,
            }),
    {
        Self::runtime_mode(market).to_number()
    }

    /// Returns the limit on the deviation of the oracle's price, if there is
    /// one.
    pub fn get_oracle_max_deviation_bps(market: &Market) -> (bps: Option<u32>)
        ensures
            bps == market@.cells.max_deviation_bps,
    {
        market.cells.max_deviation_bps
    }

    /// Returns the least confidence that is asked of the oracle, if any.
    pub fn get_oracle_min_confidence_bps(market: &Market) -> (bps: Option<u32>)
        ensures
            bps == market@.cells.min_confidence_bps,
    {
        market.cells.min_confidence_bps
    }

    /// Tells whether a report without a confidence is refused where one is
    /// asked for.
    pub fn get_oracle_strict_mode(market: &Market) -> (enabled: bool)
        ensures
            enabled == (market@.cells.strict_mode == Some(true)),
    {
        match market.cells.strict_mode {
            Some(enabled) => enabled,
            None => false,
        }
    }

    /// Returns the administrator, if there is one.
    pub fn get_admin(market: &Market) -> (admin: Option<Address>)
        ensures
            admin == market@.cells.admin,
    {
        market.cells.admin
    }

    /// Returns the oracle, if there is one.
    pub fn get_oracle(market: &Market) -> (oracle: Option<Address>)
        ensures
            oracle == market@.cells.oracle,
    {
        market.cells.oracle
    }

    /// Returns the protocol fee in basis points, if there is one.
    pub fn get_protocol_fee_bps(market: &Market) -> (bps: Option<u32>)
        ensures
            bps == market@.cells.protocol_fee_bps,
    {
        market.cells.protocol_fee_bps
    }

    /// Returns the amount in the protocol fee treasury.
    pub fn get_protocol_fee_treasury(market: &Market) -> (amount: i128)
        ensures
            amount == market@.treasury(),
            amount == (match market@.cells.protocol_fee_treasury {
                Some(amount) => amount as int,
                None => 0,
            }),
    {
        match market.cells.protocol_fee_treasury {
            Some(amount) => amount,
            None => 0,
        }
    }

    /// Returns the cap on a user's pending winnings, if there is one.
    pub fn get_max_pending_winnings(market: &Market) -> (cap: Option<i128>)
        ensures
            cap == market@.cells.max_pending_winnings,
    {
        market.cells.max_pending_winnings
    }

    /// Returns the least number of participants that a round needs, if any.
    pub fn get_min_participants(market: &Market) -> (min: Option<u32>)
        ensures
            min == market@.cells.min_participants,
    {
        market.cells.min_participants
    }

    /// Returns the number of archived rounds that are kept.
    pub fn get_archive_retention(market: &Market) -> (limit: u32)
        ensures
            limit == market@.retention(),
            limit == (match market@.cells.archive_retention {
                Some(limit) => limit as int,
                None => 128,
            }),
    {
        match market.cells.archive_retention {
            Some(limit) => limit,
            None => DEFAULT_ARCHIVE_RETENTION,
        }
    }

    /// Returns the active round, if there is one.
    pub fn get_active_round(market: &Market) -> (round: Option<Round>)
        ensures
            round == market@.cells.active_round,
    {
        market.cells.active_round
    }

    /// Returns what the archive keeps of a round, if it is there.
    pub fn get_archived_round(market: &Market, round_id: u64) -> (summary: Option<
        ArchivedRoundSummary,
    >)
        ensures
            summary == market@.archived.get(round_id),
    {
        market.archived.find(&round_id)
    }

    /// Returns what is recorded of a user's part in a settled round.
    pub fn get_user_archived_participation(market: &Market, user: Address, round_id: u64) -> (
    record: Option<UserRoundOutcome>)
        ensures
            record == market@.outcomes.get((round_id, user)),
    {
        market.outcomes.find(&(round_id, user))
    }

    /// Returns a user's record over all rounds.
    pub fn get_user_stats(market: &Market, user: Address) -> (stats: UserStats)
        ensures
            stats == market@.stats_of(user),
    {
        settlement::user_stats(market, user)
    }

    /// Returns a user's pending winnings.
    pub fn get_pending_winnings(market: &Market, user: Address) -> (amount: i128)
        ensures
            amount == market@.pending_of(user),
            amount == (if market@.pending.dom().contains(user) {
                market@.pending[user] as int
            } else {
                0
            }),
    {
        match market.pending.find(&user) {
            Some(amount) => amount,
            None => 0,
        }
    }

    /// Returns a user's balance.
    pub fn balance(market: &Market, user: Address) -> (amount: i128)
        ensures
            amount == market@.balance_of(user),
            amount == (if market@.balances.dom().contains(user) {
                market@.balances[user] as int
            } else {
                0
            }),
    {
        match market.balances.find(&user) {
            Some(amount) => amount,
            None => 0,
        }
    }

    /// Tells the state of the market as its users see it.
    pub fn get_protocol_status(market: &Market) -> (status: ProtocolStatus)
        ensures
            status == market@.protocol_status(),
    {
        if Self::is_paused(market) {
            ProtocolStatus::Paused
        } else if market.cells.active_round.is_some() {
            ProtocolStatus::Active
        } else {
            ProtocolStatus::ClaimsOnly
        }
    }

    /// Tells what is known of a round.
    pub fn get_round_status(market: &Market, ctx: &LedgerContext, round_id: u64) -> (status:
        RoundStatus)
        ensures
            status == market@.round_status(ctx.sequence, round_id),
    {
        if let Some(active_round) = market.cells.active_round {
            if active_round.round_id == round_id {
                return match Self::_derive_round_phase(ctx.sequence, &active_round) {
                    RoundPhase::Betting => RoundStatus::Betting,
                    RoundPhase::Running => RoundStatus::Running,
                    RoundPhase::Resolvable => RoundStatus::AwaitingResolve,
                };
            }
        }
        if let Some(archive) = market.archived.find(&round_id) {
            return match archive.status {
                RoundArchiveStatus::Resolved => RoundStatus::Resolved,
                RoundArchiveStatus::Cancelled => RoundStatus::Cancelled,
                RoundArchiveStatus::FallbackRefund => RoundStatus::FallbackRefund,
            };
        }
        if Self::is_round_cancelled(market, round_id) {
            return RoundStatus::Cancelled;
        }
        RoundStatus::Unknown
    }

    /// Tells whether a round is known to have been cancelled.
    pub fn is_round_cancelled(market: &Market, round_id: u64) -> (result: bool)
        ensures
            result == market@.round_cancelled(round_id),
    {
        settlement::is_round_cancelled(market, round_id)
    }

    /// Settles the active round by the oracle's report.
    pub fn resolve_round(
        env: &Env,
        market: &mut Market,
        ctx: &LedgerContext,
        payload: &OraclePayload,
    ) -> (result: Result<(), ContractError>)
        requires
            old(market)@.wf(),
            old(market)@.oracle_consents(ctx, *payload),
            old(market)@.age_is_countable(ctx, *payload),
        ensures
            (final(market)@, result) == old(market)@.resolve_round(ctx, *payload),
            final(market)@.wf(),
    {
        settlement::resolve_round(env, market, ctx, payload)
    }

    /// Cancels the active round, for the administrator, and refunds all
    /// stakes.
    pub fn cancel_round(env: &Env, market: &mut Market, ctx: &LedgerContext, reason: u32) -> (
    result: Result<(), ContractError>)
        requires
            old(market)@.wf(),
            old(market)@.admin_consents(ctx),
        ensures
            (final(market)@, result) == old(market)@.cancel_round(ctx.sequence, reason),
            final(market)@.wf(),
    {
        settlement::cancel_round(env, market, ctx, reason)
    }

    /// Pays a user's pending winnings into the user's balance. Returns the
    /// amount.
    pub fn claim_winnings(market: &mut Market, ctx: &LedgerContext, user: Address) -> (
    result: Result<i128, ContractError>)
        requires
            old(market)@.user_consents(ctx, user),
        ensures
            (final(market)@, result) == old(market)@.claim_winnings(user),
            old(market)@.wf() ==> final(market)@.wf(),
    {
        settlement::claim_winnings(market, ctx, user)
    }

    /// Counts a win for a user.
    pub fn _update_stats_win(market: &mut Market, user: Address) -> (result: Result<
        (),
        ContractError,
    >)
        ensures
            (final(market)@, result) == old(market)@.update_stats_win(user),
    {
        settlement::_update_stats_win(market, user)
    }

    /// Counts a loss for a user.
    pub fn _update_stats_loss(market: &mut Market, user: Address) -> (result: Result<
        (),
        ContractError,
    >)
        ensures
            (final(market)@, result) == old(market)@.update_stats_loss(user),
    {
        settlement::_update_stats_loss(market, user)
    }

    /// Proposes another oracle, for the administrator. The proposal has to be
    /// accepted before its time runs out.
    pub fn propose_oracle_rotation(
        market: &mut Market,
        ctx: &LedgerContext,
        new_oracle: Address,
        expires_in_seconds: u64,
    ) -> (result: Result<(), ContractError>)
        requires
            old(market)@.admin_consents(ctx),
        ensures
            (final(market)@, result) == old(market)@.propose_rotation(
                ctx.timestamp,
                new_oracle,
                expires_in_seconds,
            ),
    {
        if let Err(e) = Self::_require_supported_schema(market) {
            return Err(e);
        }
        if market.cells.admin.is_none() {
            return Err(ContractError::AdminNotSet);
        }
        if let Err(e) = Self::_ensure_not_paused(market) {
            return Err(e);
        }
        if expires_in_seconds < MIN_ROTATION_EXPIRY_SECONDS {
            return Err(ContractError::InvalidDuration);
        }
        let proposed_at: u64 = ctx.timestamp;
        let expires_at: u64 = match proposed_at.checked_add(expires_in_seconds) {
            Some(sum) => sum,
            None => {
                return Err(ContractError::Overflow);
            },
        };
        market.cells.rotation = Some(
            OracleRotationProposal { new_oracle, proposed_at, expires_at },
        );
        Self::_extend_persistent_ttl(market, &DataKey::OracleRotationProposal);
        market.emit(Event::RotationProposed { new_oracle, expires_at });
        Ok(())
    }

    /// Accepts the proposal that stands, for any caller: its oracle takes the
    /// place of the present one. A proposal whose time has run out is taken
    /// away instead.
    pub fn accept_oracle_rotation(market: &mut Market, ctx: &LedgerContext) -> (result: Result<
        (),
        ContractError,
    >)
        ensures
            (final(market)@, result) == old(market)@.accept_rotation(ctx.timestamp),
    {
        if let Err(e) = Self::_require_supported_schema(market) {
            return Err(e);
        }
        if let Err(e) = Self::_ensure_not_paused(market) {
            return Err(e);
        }
        let proposal = match market.cells.rotation {
            Some(proposal) => proposal,
            None => {
                return Err(ContractError::NoPendingRotation);
            },
        };
        if ctx.timestamp > proposal.expires_at {
            Self::expire_rotation(market, proposal);
            return Err(ContractError::RotationExpired);
        }
        let previous = match market.cells.oracle {
            Some(oracle) => oracle,
            None => {
                return Err(ContractError::OracleNotSet);
            },
        };
        market.cells.oracle = Some(proposal.new_oracle);
        Self::_extend_persistent_ttl(market, &DataKey::Oracle);
        market.cells.rotation = None;
        market.emit(Event::RotationAccepted { previous, new_oracle: proposal.new_oracle });
        Ok(())
    }

    /// Takes a proposal away whose time has run out.
    fn expire_rotation(market: &mut Market, proposal: OracleRotationProposal)
        ensures
            final(market)@ == old(market)@.expire_rotation(proposal),
    {
        market.cells.rotation = None;
        market.emit(
            Event::RotationExpired {
                new_oracle: proposal.new_oracle,
                proposed_at: proposal.proposed_at,
                expires_at: proposal.expires_at,
            },
        );
    }

    /// Withdraws the proposal that stands, for the administrator.
    pub fn cancel_oracle_rotation(market: &mut Market, ctx: &LedgerContext) -> (result: Result<
        (),
        ContractError,
    >)
        requires
            old(market)@.admin_consents(ctx),
        ensures
            (final(market)@, result) == old(market)@.cancel_rotation(),
    {
        if let Err(e) = Self::_require_supported_schema(market) {
            return Err(e);
        }
        if market.cells.admin.is_none() {
            return Err(ContractError::AdminNotSet);
        }
        if let Err(e) = Self::_ensure_not_paused(market) {
            return Err(e);
        }
        let proposal = match market.cells.rotation {
            Some(proposal) => proposal,
            None => {
                return Err(ContractError::NoPendingRotation);
            },
        };
        market.cells.rotation = None;
        market.emit(Event::RotationCancelled { new_oracle: proposal.new_oracle });
        Ok(())
    }

    /// Returns the proposal that stands, if any. A proposal whose time has run
    /// out is taken away.
    pub fn get_oracle_rotation_proposal(market: &mut Market, ctx: &LedgerContext) -> (proposal:
        Option<OracleRotationProposal>)
        ensures
            proposal == old(market)@.standing_rotation(ctx.timestamp),
            final(market)@ == old(market)@.look_at_rotation(ctx.timestamp),
    {
        Self::_extend_persistent_ttl(market, &DataKey::OracleRotationProposal);
        let proposal = market.cells.rotation;
        if let Some(prop) = proposal {
            if ctx.timestamp > prop.expires_at {
                Self::expire_rotation(market, prop);
                return None;
            }
        }
        proposal
    }
}

} // verus!
