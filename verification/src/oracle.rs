//! What is asked of an oracle's report before a round is settled by it.

use vstd::prelude::*;
use crate::contract::VirtualTokenContract;
use crate::errors::ContractError;
use crate::market::{LedgerContext, Market};
use crate::model::{Cells, MarketView, Step};
use crate::rules::distance;
use crate::types::{Action, Address, DataKey, Event, OraclePayload, Round};

verus! {

/// The greatest age, in seconds, that a report can have.
pub const MAX_ORACLE_AGE_SECONDS: u64 = 300;

/// The greatest confidence that a report can claim, in basis points.
pub const MAX_CONFIDENCE_BPS: u32 = 10_000;

/// The number of basis points in the whole of a price.
pub const PRICE_BPS: u128 = 10_000;

/// What is wrong with where or when a report says that it was made, up to the
/// question whether it is too old.
pub open spec fn origin_fault(
    ctx: &LedgerContext,
    payload: OraclePayload,
    round: Round,
) -> Option<ContractError> {
    if payload.round_id != round.start_ledger {
        Some(ContractError::InvalidOracleRound)
    } else if payload.network_id != ctx.network_id || payload.contract_addr != ctx.contract {
        Some(ContractError::OracleNetworkMismatch)
    } else if payload.timestamp > ctx.timestamp {
        Some(ContractError::FutureOracleData)
    } else {
        None
    }
}

/// What is wrong with where or when a report says that it was made.
pub open spec fn report_fault(
    ctx: &LedgerContext,
    payload: OraclePayload,
    round: Round,
) -> Option<ContractError> {
    match origin_fault(ctx, payload, round) {
        Some(fault) => Some(fault),
        None => if ctx.timestamp > payload.timestamp + MAX_ORACLE_AGE_SECONDS {
            Some(ContractError::StaleOracleData)
        } else {
            None
        },
    }
}

/// How far a reported price is from the price that a round started with, in
/// basis points of that price.
pub open spec fn deviation_bps(start_price: u128, price: u128) -> int {
    (distance(price, start_price) * PRICE_BPS) / (start_price as int)
}

impl MarketView {
    /// The oracle, where there is one, has authorized the call. A call on an
    /// unsupported schema or without a price is refused before the oracle is
    /// asked.
    pub open spec fn oracle_consents(self, ctx: &LedgerContext, payload: OraclePayload) -> bool {
        self.schema_supported() && payload.price != 0 && self.cells.oracle is Some
            ==> ctx.has_auth(self.cells.oracle->0)
    }

    /// The age of a report can be reckoned within 64 bits, where the question
    /// of its age is reached.
    pub open spec fn age_is_countable(self, ctx: &LedgerContext, payload: OraclePayload) -> bool {
        self.schema_supported() && payload.price != 0 && self.cells.oracle is Some
            && !self.is_paused() && self.cells.active_round is Some && origin_fault(
            ctx,
            payload,
            self.cells.active_round->0,
        ) is None ==> payload.timestamp + MAX_ORACLE_AGE_SECONDS <= u64::MAX
    }

    /// The refusal of a settlement, of which the outside is told.
    pub open spec fn reject_resolve<T>(self, oracle: Address, error: ContractError) -> Step<T> {
        (
            self.emit(
                Event::ActionRejected { actor: oracle, action: Action::Resolve, error },
            ),
            Err(error),
        )
    }

    /// The check that the reported price has not gone too far from the price
    /// that the round started with. An armed override lets one price pass that
    /// has, and is used up by it.
    pub open spec fn check_deviation(self, round: Round, price: u128) -> Step<()> {
        let read = self.extend(DataKey::OracleMaxDeviationBps);
        let diff_bps = deviation_bps(round.price_start, price);
        match self.cells.max_deviation_bps {
            None => (read, Ok(())),
            Some(max_bps) => if round.price_start == 0 {
                (read, Err(ContractError::InvalidPrice))
            } else if distance(price, round.price_start) * PRICE_BPS > u128::MAX || diff_bps
                > u32::MAX {
                (read, Err(ContractError::Overflow))
            } else if diff_bps <= max_bps {
                (read, Ok(()))
            } else if self.cells.deviation_override_armed == Some(true) {
                (
                    read.with_cells(
                        Cells { deviation_override_armed: None, ..self.cells },
                    ).emit(
                        Event::OracleOverride {
                            round_id: round.round_id,
                            start_price: round.price_start,
                            price,
                            diff_bps: diff_bps as u32,
                            max_bps,
                        },
                    ),
                    Ok(()),
                )
            } else {
                (
                    read.emit(
                        Event::OracleRejected {
                            round_id: round.round_id,
                            start_price: round.price_start,
                            price,
                            diff_bps: diff_bps as u32,
                            max_bps,
                        },
                    ),
                    Err(ContractError::OracleDeviationExceeded),
                )
            },
        }
    }

    /// The check of the confidence that the oracle has in its price.
    pub open spec fn check_confidence(self, round_id: u64, confidence: Option<u32>) -> Step<()> {
        let read = self.extend(DataKey::OracleMinConfidenceBps).extend(
            DataKey::OracleStrictMode,
        );
        match (self.cells.min_confidence_bps, confidence) {
            (None, _) => (read, Ok(())),
            (Some(_), None) => if self.cells.strict_mode == Some(true) {
                (read, Err(ContractError::InvalidPrice))
            } else {
                (read, Ok(()))
            },
            (Some(min_confidence_bps), Some(confidence_bps)) => if min_confidence_bps
                <= confidence_bps <= MAX_CONFIDENCE_BPS {
                (read, Ok(()))
            } else {
                (
                    read.emit(
                        Event::LowConfidence { round_id, confidence_bps, min_confidence_bps },
                    ),
                    Err(ContractError::InvalidPrice),
                )
            },
        }
    }

    /// All checks of a report, in their order. The round that it settles comes
    /// out, and its nonce is used up.
    pub open spec fn check_report(self, ctx: &LedgerContext, payload: OraclePayload) -> Step<
        Round,
    > {
        let checked = self.require_supported_schema();
        let read = checked.0.extend(DataKey::Oracle);
        if checked.1 is Err {
            (checked.0, Err(ContractError::UnsupportedSchemaVersion))
        } else if payload.price == 0 {
            (checked.0, Err(ContractError::InvalidPrice))
        } else {
            match self.cells.oracle {
                None => (read, Err(ContractError::OracleNotSet)),
                Some(oracle) => read.check_authorized_report(ctx, payload, oracle),
            }
        }
    }

    /// The checks of a report that its oracle stands behind.
    pub open spec fn check_authorized_report(
        self,
        ctx: &LedgerContext,
        payload: OraclePayload,
        oracle: Address,
    ) -> Step<Round> {
        let running = self.ensure_not_paused();
        if running.1 is Err {
            running.0.reject_resolve(oracle, ContractError::ContractPaused)
        } else {
            match self.cells.active_round {
                None => (running.0, Err(ContractError::NoActiveRound)),
                Some(round) => match report_fault(ctx, payload, round) {
                    Some(fault) => running.0.reject_resolve(oracle, fault),
                    None => {
                        let near = running.0.check_deviation(round, payload.price);
                        let sure = near.0.check_confidence(round.round_id, payload.confidence);
                        let nonce = (round.round_id, payload.nonce);
                        let used = MarketView {
                            nonces: sure.0.nonces.insert(nonce, true),
                            ..sure.0
                        };
                        if near.1 is Err {
                            (near.0, Err(near.1->Err_0))
                        } else if sure.1 is Err {
                            (sure.0, Err(sure.1->Err_0))
                        } else if sure.0.nonces.dom().contains(nonce) {
                            sure.0.reject_resolve(oracle, ContractError::OracleNonceReused)
                        } else if ctx.sequence < round.end_ledger {
                            used.reject_resolve(oracle, ContractError::RoundNotEnded)
                        } else {
                            (used, Ok(round))
                        }
                    },
                },
            }
        }
    }
}

/// Tells the outside that a settlement was refused, and refuses it.
fn reject_resolve(market: &mut Market, oracle: &Address, error: ContractError) -> (result: Result<
    Round,
    ContractError,
>)
    ensures
        (final(market)@, result) == old(market)@.reject_resolve::<Round>(*oracle, error),
{
    VirtualTokenContract::_emit_action_rejected(market, oracle, Action::Resolve, error);
    Err(error)
}

/// Tells what is wrong with where or when a report says that it was made.
fn find_fault(ctx: &LedgerContext, payload: &OraclePayload, round: &Round) -> (fault: Option<
    ContractError,
>)
    requires
        origin_fault(ctx, *payload, *round) is None ==> payload.timestamp
            + MAX_ORACLE_AGE_SECONDS <= u64::MAX,
    ensures
        fault == report_fault(ctx, *payload, *round),
{
    if payload.round_id != round.start_ledger {
        return Some(ContractError::InvalidOracleRound);
    }
    if payload.network_id != ctx.network_id {
        return Some(ContractError::OracleNetworkMismatch);
    }
    if payload.contract_addr != ctx.contract {
        return Some(ContractError::OracleNetworkMismatch);
    }
    if payload.timestamp > ctx.timestamp {
        return Some(ContractError::FutureOracleData);
    }
    if ctx.timestamp > payload.timestamp + MAX_ORACLE_AGE_SECONDS {
        return Some(ContractError::StaleOracleData);
    }
    None
}

/// Tells whether the age of a report can be reckoned, where the question of
/// its age is reached.
pub fn can_count_age(market: &Market, ctx: &LedgerContext, payload: &OraclePayload) -> (result:
    bool)
    ensures
        result == market@.age_is_countable(ctx, *payload),
{
    if !VirtualTokenContract::supports_schema(market) || payload.price == 0
        || market.cells.oracle.is_none() || VirtualTokenContract::is_paused(market) {
        return true;
    }
    match market.cells.active_round {
        None => true,
        Some(round) => {
            let reached: bool = payload.round_id == round.start_ledger && payload.network_id
                == ctx.network_id && payload.contract_addr == ctx.contract && payload.timestamp
                <= ctx.timestamp;
            !reached || payload.timestamp <= u64::MAX - MAX_ORACLE_AGE_SECONDS
        },
    }
}

/// Checks that the reported price has not gone too far.
fn check_deviation(market: &mut Market, round: &Round, price: u128) -> (result: Result<
    (),
    ContractError,
>)
    ensures
        (final(market)@, result) == old(market)@.check_deviation(*round, price),
{
    VirtualTokenContract::_extend_persistent_ttl(market, &DataKey::OracleMaxDeviationBps);
    let max_bps: u32 = match market.cells.max_deviation_bps {
        Some(max_bps) => max_bps,
        None => {
            return Ok(());
        },
    };
    let start_price: u128 = round.price_start;
    if start_price == 0 {
        return Err(ContractError::InvalidPrice);
    }
    let diff: u128 = if price >= start_price {
        price - start_price
    } else {
        start_price - price
    };
    let scaled: u128 = match diff.checked_mul(PRICE_BPS) {
        Some(product) => product,
        None => {
            return Err(ContractError::Overflow);
        },
    };
    let wide_bps: u128 = scaled / start_price;
    if wide_bps > u32::MAX as u128 {
        return Err(ContractError::Overflow);
    }
    let diff_bps: u32 = wide_bps as u32;
    let override_armed: bool = match market.cells.deviation_override_armed {
        Some(armed) => armed,
        None => false,
    };
    if diff_bps > max_bps && !override_armed {
        market.emit(
            Event::OracleRejected {
                round_id: round.round_id,
                start_price,
                price,
                diff_bps,
                max_bps,
            },
        );
        return Err(ContractError::OracleDeviationExceeded);
    }
    if diff_bps > max_bps && override_armed {
        market.cells.deviation_override_armed = None;
        market.emit(
            Event::OracleOverride {
                round_id: round.round_id,
                start_price,
                price,
                diff_bps,
                max_bps,
            },
        );
    }
    Ok(())
}

/// Checks the confidence that the oracle has in its price.
fn check_confidence(market: &mut Market, round_id: u64, confidence: Option<u32>) -> (result: Result<
    (),
    ContractError,
>)
    ensures
        (final(market)@, result) == old(market)@.check_confidence(round_id, confidence),
{
    VirtualTokenContract::_extend_persistent_ttl(market, &DataKey::OracleMinConfidenceBps);
    VirtualTokenContract::_extend_persistent_ttl(market, &DataKey::OracleStrictMode);
    if let Some(min_confidence_bps) = market.cells.min_confidence_bps {
        match confidence {
            None => {
                let strict_mode: bool = match market.cells.strict_mode {
                    Some(enabled) => enabled,
                    None => false,
                };
                if strict_mode {
                    return Err(ContractError::InvalidPrice);
                }
            },
            Some(confidence_bps) => {
                if confidence_bps > MAX_CONFIDENCE_BPS || confidence_bps < min_confidence_bps {
                    market.emit(
                        Event::LowConfidence { round_id, confidence_bps, min_confidence_bps },
                    );
                    return Err(ContractError::InvalidPrice);
                }
            },
        }
    }
    Ok(())
}

/// Checks an oracle's report and uses its nonce up. Returns the round that the
/// report settles.
pub fn check_report(market: &mut Market, ctx: &LedgerContext, payload: &OraclePayload) -> (result:
    Result<Round, ContractError>)
    requires
        old(market)@.oracle_consents(ctx, *payload),
        old(market)@.age_is_countable(ctx, *payload),
    ensures
        (final(market)@, result) == old(market)@.check_report(ctx, *payload),
        old(market)@.wf() ==> final(market)@.wf(),
        old(market)@.wf() && result is Ok ==> result->Ok_0.wf(),
{
    if let Err(e) = VirtualTokenContract::_require_supported_schema(market) {
        return Err(e);
    }
    if payload.price == 0 {
        return Err(ContractError::InvalidPrice);
    }
    VirtualTokenContract::_extend_persistent_ttl(market, &DataKey::Oracle);
    let oracle = match market.cells.oracle {
        Some(oracle) => oracle,
        None => {
            return Err(ContractError::OracleNotSet);
        },
    };
    if let Err(e) = VirtualTokenContract::_ensure_not_paused(market) {
        return reject_resolve(market, &oracle, e);
    }
    let round = match market.cells.active_round {
        Some(round) => round,
        None => {
            return Err(ContractError::NoActiveRound);
        },
    };
    if let Some(fault) = find_fault(ctx, payload, &round) {
        return reject_resolve(market, &oracle, fault);
    }
    if let Err(e) = check_deviation(market, &round, payload.price) {
        return Err(e);
    }
    if let Err(e) = check_confidence(market, round.round_id, payload.confidence) {
        return Err(e);
    }
    let nonce_key = (round.round_id, payload.nonce);
    if market.nonces.has(&nonce_key) {
        return reject_resolve(market, &oracle, ContractError::OracleNonceReused);
    }
    market.nonces.insert(nonce_key, true);
    if ctx.sequence < round.end_ledger {
        return reject_resolve(market, &oracle, ContractError::RoundNotEnded);
    }
    Ok(round)
}

} // verus!
