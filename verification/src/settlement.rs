//! The settlement of rounds.

use vstd::prelude::*;
use soroban_sdk::Env;
use crate::common::sort_addresses;
use crate::contract::VirtualTokenContract;
use crate::errors::ContractError;
use crate::frame::{
    lemma_archive_keeps, lemma_cancel_only_pays_out, lemma_mode_only_pays,
    lemma_refunds_only_pay,
};
use crate::host::{AddressList, PositionMap, PredictionList};
use crate::market::{LedgerContext, Market};
use crate::model::{done, for_each, lemma_for_each_next, lemma_for_each_refused};
use crate::oracle::check_report;
use crate::precision::{make_precision_record, precision_stake};
use crate::rules::{
    cancel_position_step, cancel_prediction_step, cancel_stake_step, entry_keys, position_record,
    refund_entry_step, refund_prediction_step, refund_stake_step, refund_step,
    settle_entry_step, settle_position, settle_step,
};
use crate::types::{
    Action, Address, BetSide, DataKey, Event, OraclePayload, Round, RoundArchiveStatus, RoundMode,
    UserOutcomeType, UserPosition, UserRoundOutcome, UserStats,
};

pub use crate::archive::_archive_round;
pub use crate::precision::{_resolve_precision_legacy, _resolve_precision_mode};

verus! {

/// Tells whether a round is known to have been cancelled.
pub fn is_round_cancelled(market: &Market, round_id: u64) -> (result: bool)
    ensures
        result == market@.round_cancelled(round_id),
{
    match market.cancelled.find(&round_id) {
        Some(cancelled) => cancelled,
        None => false,
    }
}

/// Counts a win for a user.
pub fn _update_stats_win(market: &mut Market, user: Address) -> (result: Result<
    (),
    ContractError,
>)
    ensures
        (final(market)@, result) == old(market)@.update_stats_win(user),
{
    let mut stats: UserStats = user_stats(market, user);
    stats.total_wins = match stats.total_wins.checked_add(1) {
        Some(sum) => sum,
        None => {
            return Err(ContractError::Overflow);
        },
    };
    stats.current_streak = match stats.current_streak.checked_add(1) {
        Some(sum) => sum,
        None => {
            return Err(ContractError::Overflow);
        },
    };
    if stats.current_streak > stats.best_streak {
        stats.best_streak = stats.current_streak;
    }
    market.stats.insert(user, stats);
    VirtualTokenContract::_extend_persistent_ttl(market, &DataKey::UserStats(user));
    Ok(())
}

/// Counts a loss for a user.
pub fn _update_stats_loss(market: &mut Market, user: Address) -> (result: Result<
    (),
    ContractError,
>)
    ensures
        (final(market)@, result) == old(market)@.update_stats_loss(user),
{
    let mut stats: UserStats = user_stats(market, user);
    stats.total_losses = match stats.total_losses.checked_add(1) {
        Some(sum) => sum,
        None => {
            return Err(ContractError::Overflow);
        },
    };
    stats.current_streak = 0;
    market.stats.insert(user, stats);
    VirtualTokenContract::_extend_persistent_ttl(market, &DataKey::UserStats(user));
    Ok(())
}

/// Returns the record of a user.
pub(crate) fn user_stats(market: &Market, user: Address) -> (stats: UserStats)
    ensures
        stats == market@.stats_of(user),
{
    match market.stats.find(&user) {
        Some(stats) => stats,
        None => UserStats { total_wins: 0, total_losses: 0, current_streak: 0, best_streak: 0 },
    }
}

/// Records what a user got out of a round, unless that is recorded already.
pub fn _persist_user_outcome(
    market: &mut Market,
    round_id: u64,
    round_mode: u32,
    user: &Address,
    prediction_side: u32,
    predicted_price: u128,
    stake: i128,
    payout: i128,
    outcome: UserOutcomeType,
)
    ensures
        final(market)@ == old(market)@.persist_outcome(
            round_id,
            UserRoundOutcome {
                user: *user,
                round_mode,
                prediction_side,
                predicted_price,
                stake,
                payout,
                outcome,
            },
        ),
{
    let key = DataKey::UserRoundOutcome(round_id, *user);
    if market.has(&key) {
        return;
    }
    let record = UserRoundOutcome {
        user: *user,
        round_mode,
        prediction_side,
        predicted_price,
        stake,
        payout,
        outcome,
    };
    market.outcomes.insert((round_id, *user), record);
    VirtualTokenContract::_extend_persistent_ttl(market, &key);
    VirtualTokenContract::_emit_payout_outcome(
        market,
        round_id,
        round_mode,
        *user,
        payout,
        outcome.to_number(),
    );
}

/// Gives a stake back to its user.
pub(crate) fn record_refund(market: &mut Market, round_id: u64, record: &UserRoundOutcome) -> (
result: Result<(), ContractError>)
    ensures
        (final(market)@, result) == old(market)@.record_refund(round_id, *record),
{
    if let Err(e) = VirtualTokenContract::_accumulate_pending(market, record.user, record.payout) {
        return Err(e);
    }
    persist_record(market, round_id, record);
    Ok(())
}

/// Pays a winner and counts the win.
pub(crate) fn record_win(market: &mut Market, round_id: u64, record: &UserRoundOutcome) -> (
result: Result<(), ContractError>)
    ensures
        (final(market)@, result) == old(market)@.record_win(round_id, *record),
{
    if let Err(e) = VirtualTokenContract::_accumulate_pending(market, record.user, record.payout) {
        return Err(e);
    }
    if let Err(e) = _update_stats_win(market, record.user) {
        return Err(e);
    }
    persist_record(market, round_id, record);
    Ok(())
}

/// Tells a loser and counts the loss.
pub(crate) fn record_loss(
    market: &mut Market,
    round_id: u64,
    record: &UserRoundOutcome,
    told_side: u32,
) -> (result: Result<(), ContractError>)
    ensures
        (final(market)@, result) == old(market)@.record_loss(round_id, *record, told_side),
{
    market.emit(
        Event::OutcomeLoss {
            user: record.user,
            round_id,
            mode: record.round_mode,
            stake: record.stake,
            side: told_side,
            predicted_price: record.predicted_price,
        },
    );
    if let Err(e) = _update_stats_loss(market, record.user) {
        return Err(e);
    }
    persist_record(market, round_id, record);
    Ok(())
}

/// Records what a user got out of a round, unless that is recorded already.
fn persist_record(market: &mut Market, round_id: u64, record: &UserRoundOutcome)
    ensures
        final(market)@ == old(market)@.persist_outcome(round_id, *record),
{
    _persist_user_outcome(
        market,
        round_id,
        record.round_mode,
        &record.user,
        record.prediction_side,
        record.predicted_price,
        record.stake,
        record.payout,
        record.outcome,
    );
}

/// Makes the record of a position in a settled round.
fn make_position_record(
    user: Address,
    round_mode: u32,
    position: &UserPosition,
    payout: i128,
    outcome: UserOutcomeType,
) -> (record: UserRoundOutcome)
    ensures
        record == position_record(user, round_mode, *position, payout, outcome),
{
    UserRoundOutcome {
        user,
        round_mode,
        prediction_side: position.side.to_number(),
        predicted_price: 0,
        stake: position.amount,
        payout,
        outcome,
    }
}

/// Gives participants the stakes of their positions back.
pub fn _record_refunds_indexed(
    market: &mut Market,
    round_id: u64,
    round_mode: u32,
    participants: &AddressList,
) -> (result: Result<(), ContractError>)
    ensures
        (final(market)@, result) == for_each(
            old(market)@,
            participants@,
            refund_step(round_id, round_mode),
        ),
{
    let ghost step = refund_step(round_id, round_mode);
    let count: u32 = participants.len();
    let mut i: u32 = 0;
    while i < count
        invariant
            i <= count == participants@.len(),
            step == refund_step(round_id, round_mode),
            for_each(old(market)@, participants@.take(i as int), step) == done(market@),
        decreases count - i,
    {
        if let Some(user) = participants.get(i) {
            proof {
                lemma_for_each_next(old(market)@, participants@, step, i as int);
            }
            if let Some(position) = market.positions.find(&(round_id, user)) {
                let record = make_position_record(
                    user,
                    round_mode,
                    &position,
                    position.amount,
                    UserOutcomeType::Refund,
                );
                if let Err(e) = record_refund(market, round_id, &record) {
                    proof {
                        lemma_for_each_refused(old(market)@, participants@, step, i + 1);
                    }
                    return Err(e);
                }
            }
        }
        i = i + 1;
    }
    proof {
        assert(participants@.take(i as int) =~= participants@);
    }
    Ok(())
}

/// Returns the user at a position of the older list, and the user's position.
fn entry_at(positions: &PositionMap, users: &AddressList, index: u32) -> (entry: Option<
    (Address, UserPosition),
>)
    requires
        users@ == positions@.map_values(|entry: (Address, UserPosition)| entry.0),
    ensures
        entry == (if index < positions@.len() {
            Some(positions@[index as int])
        } else {
            None
        }),
{
    match users.get(index) {
        Some(user) => {
            let found = positions.get(&user);
            proof {
                assert(positions@[index as int].0 == user);
            }
            match found {
                Some(position) => Some((user, position)),
                None => None,
            }
        },
        None => None,
    }
}

/// Gives the stakes of the older position list back, and records them as the
/// given outcome.
fn refund_entries(
    market: &mut Market,
    round_id: u64,
    positions: &PositionMap,
    outcome: UserOutcomeType,
) -> (result: Result<(), ContractError>)
    ensures
        (final(market)@, result) == for_each(
            old(market)@,
            positions@,
            refund_entry_step(round_id, outcome),
        ),
{
    let ghost step = refund_entry_step(round_id, outcome);
    let users = positions.keys();
    let count: u32 = users.len();
    let mut i: u32 = 0;
    while i < count
        invariant
            i <= count == positions@.len(),
            users@ == positions@.map_values(|entry: (Address, UserPosition)| entry.0),
            step == refund_entry_step(round_id, outcome),
            for_each(old(market)@, positions@.take(i as int), step) == done(market@),
        decreases count - i,
    {
        if let Some((user, position)) = entry_at(positions, &users, i) {
            proof {
                lemma_for_each_next(old(market)@, positions@, step, i as int);
            }
            let record = make_position_record(
                user,
                0,
                &position,
                position.amount,
                outcome,
            );
            if let Err(e) = record_refund(market, round_id, &record) {
                proof {
                    lemma_for_each_refused(old(market)@, positions@, step, i + 1);
                }
                return Err(e);
            }
        }
        i = i + 1;
    }
    proof {
        assert(positions@.take(i as int) =~= positions@);
    }
    Ok(())
}

/// Gives the stakes of the older position list back.
pub fn _record_refunds_legacy(
    market: &mut Market,
    round_id: u64,
    positions: &PositionMap,
) -> (result: Result<(), ContractError>)
    ensures
        (final(market)@, result) == for_each(
            old(market)@,
            positions@,
            refund_entry_step(round_id, UserOutcomeType::Refund),
        ),
{
    refund_entries(market, round_id, positions, UserOutcomeType::Refund)
}

/// Settles one position.
fn settle_one(
    market: &mut Market,
    round_id: u64,
    user: Address,
    position: &UserPosition,
    winning_side: BetSide,
    winning_pool: i128,
    distributable: i128,
) -> (result: Result<(), ContractError>)
    requires
        winning_pool > 0,
    ensures
        (final(market)@, result) == settle_position(
            old(market)@,
            round_id,
            user,
            *position,
            winning_side,
            winning_pool,
            distributable as int,
        ),
{
    if position.side == winning_side {
        let scaled: i128 = match VirtualTokenContract::payout_mul(position.amount, distributable) {
            Ok(product) => product,
            Err(e) => {
                return Err(e);
            },
        };
        let payout: i128 = scaled / winning_pool;
        let record = make_position_record(user, 0, position, payout, UserOutcomeType::Win);
        record_win(market, round_id, &record)
    } else {
        let record = make_position_record(user, 0, position, 0, UserOutcomeType::Loss);
        record_loss(market, round_id, &record, position.side.to_number())
    }
}

/// Settles participants' positions after the price went one way. Returns the
/// fee.
pub fn _record_winnings_indexed(
    market: &mut Market,
    round_id: u64,
    participants: &AddressList,
    winning_side: BetSide,
    winning_pool: i128,
    losing_pool: i128,
) -> (result: Result<i128, ContractError>)
    requires
        winning_pool >= 0,
    ensures
        (final(market)@, result) == old(market)@.record_winnings(
            round_id,
            participants@,
            winning_side,
            winning_pool,
            losing_pool,
        ),
{
    if winning_pool == 0 {
        return Ok(0);
    }
    let (dist_winning, dist_losing, fee_amount) =
        match VirtualTokenContract::_apply_protocol_fee_updown(
        market,
        round_id,
        winning_pool,
        losing_pool,
    ) {
        Ok(split) => split,
        Err(e) => {
            return Err(e);
        },
    };
    let total_distributable: i128 = match VirtualTokenContract::payout_add(
        dist_winning,
        dist_losing,
    ) {
        Ok(sum) => sum,
        Err(e) => {
            return Err(e);
        },
    };
    let ghost start = market@;
    let ghost step = settle_step(round_id, winning_side, winning_pool, total_distributable as int);
    let count: u32 = participants.len();
    let mut i: u32 = 0;
    while i < count
        invariant
            i <= count == participants@.len(),
            winning_pool > 0,
            total_distributable == dist_winning + dist_losing,
            old(market)@.split_fee_updown(round_id, winning_pool, losing_pool) == (
                start,
                Ok::<(i128, i128, i128), ContractError>((dist_winning, dist_losing, fee_amount)),
            ),
            step == settle_step(
                round_id,
                winning_side,
                winning_pool,
                total_distributable as int,
            ),
            for_each(start, participants@.take(i as int), step) == done(market@),
        decreases count - i,
    {
        if let Some(user) = participants.get(i) {
            proof {
                lemma_for_each_next(start, participants@, step, i as int);
            }
            if let Some(position) = market.positions.find(&(round_id, user)) {
                if let Err(e) = settle_one(
                    market,
                    round_id,
                    user,
                    &position,
                    winning_side,
                    winning_pool,
                    total_distributable,
                ) {
                    proof {
                        lemma_for_each_refused(start, participants@, step, i + 1);
                    }
                    return Err(e);
                }
            }
        }
        i = i + 1;
    }
    proof {
        assert(participants@.take(i as int) =~= participants@);
    }
    Ok(fee_amount)
}

/// Settles the older position list after the price went one way. Returns the
/// fee.
pub fn _record_winnings_legacy(
    market: &mut Market,
    round_id: u64,
    positions: &PositionMap,
    winning_side: BetSide,
    winning_pool: i128,
    losing_pool: i128,
) -> (result: Result<i128, ContractError>)
    requires
        winning_pool >= 0,
    ensures
        (final(market)@, result) == old(market)@.record_winnings_legacy(
            round_id,
            positions@,
            winning_side,
            winning_pool,
            losing_pool,
        ),
{
    if winning_pool == 0 {
        return Ok(0);
    }
    let (dist_winning, dist_losing, fee_amount) =
        match VirtualTokenContract::_apply_protocol_fee_updown(
        market,
        round_id,
        winning_pool,
        losing_pool,
    ) {
        Ok(split) => split,
        Err(e) => {
            return Err(e);
        },
    };
    let total_distributable: i128 = match VirtualTokenContract::payout_add(
        dist_winning,
        dist_losing,
    ) {
        Ok(sum) => sum,
        Err(e) => {
            return Err(e);
        },
    };
    let ghost start = market@;
    let ghost step = settle_entry_step(
        round_id,
        winning_side,
        winning_pool,
        total_distributable as int,
    );
    let users = positions.keys();
    let count: u32 = users.len();
    let mut i: u32 = 0;
    while i < count
        invariant
            i <= count == positions@.len(),
            users@ == positions@.map_values(|entry: (Address, UserPosition)| entry.0),
            winning_pool > 0,
            total_distributable == dist_winning + dist_losing,
            old(market)@.split_fee_updown(round_id, winning_pool, losing_pool) == (
                start,
                Ok::<(i128, i128, i128), ContractError>((dist_winning, dist_losing, fee_amount)),
            ),
            step == settle_entry_step(
                round_id,
                winning_side,
                winning_pool,
                total_distributable as int,
            ),
            for_each(start, positions@.take(i as int), step) == done(market@),
        decreases count - i,
    {
        if let Some((user, position)) = entry_at(positions, &users, i) {
            proof {
                lemma_for_each_next(start, positions@, step, i as int);
            }
            if let Err(e) = settle_one(
                market,
                round_id,
                user,
                &position,
                winning_side,
                winning_pool,
                total_distributable,
            ) {
                proof {
                    lemma_for_each_refused(start, positions@, step, i + 1);
                }
                return Err(e);
            }
        }
        i = i + 1;
    }
    proof {
        assert(positions@.take(i as int) =~= positions@);
    }
    Ok(fee_amount)
}

/// Settles a round on the direction of the price. Returns whether only one
/// side was bet on, and the fee.
pub fn _resolve_updown_mode(
    env: &Env,
    market: &mut Market,
    round: &Round,
    final_price: u128,
) -> (result: Result<(bool, i128), ContractError>)
    requires
        round.wf(),
    ensures
        (final(market)@, result) == old(market)@.resolve_updown(*round, final_price),
{
    let participants = sort_addresses(env, &market.participants_of(env, round.round_id));
    let is_one_sided: bool = (round.pool_up == 0) != (round.pool_down == 0);
    let unchanged: bool = final_price == round.price_start;
    let (side, winning_pool, losing_pool) = if final_price > round.price_start {
        (BetSide::Up, round.pool_up, round.pool_down)
    } else {
        (BetSide::Down, round.pool_down, round.pool_up)
    };
    if participants.len() > 0 {
        if unchanged || is_one_sided {
            match _record_refunds_indexed(market, round.round_id, 0, &participants) {
                Ok(_) => Ok((is_one_sided, 0)),
                Err(e) => Err(e),
            }
        } else {
            match _record_winnings_indexed(
                market,
                round.round_id,
                &participants,
                side,
                winning_pool,
                losing_pool,
            ) {
                Ok(fee) => Ok((is_one_sided, fee)),
                Err(e) => Err(e),
            }
        }
    } else {
        let positions = match &market.updown_legacy {
            Some(positions) => positions.copy(),
            None => {
                return Ok((is_one_sided, 0));
            },
        };
        if positions.len() == 0 {
            return Ok((is_one_sided, 0));
        }
        if unchanged || is_one_sided {
            match _record_refunds_legacy(market, round.round_id, &positions) {
                Ok(_) => Ok((is_one_sided, 0)),
                Err(e) => Err(e),
            }
        } else {
            match _record_winnings_legacy(
                market,
                round.round_id,
                &positions,
                side,
                winning_pool,
                losing_pool,
            ) {
                Ok(fee) => Ok((is_one_sided, fee)),
                Err(e) => Err(e),
            }
        }
    }
}

/// Gives participants of a round on the price their stakes back, where there
/// were too few of them.
fn refund_stakes(market: &mut Market, round_id: u64, participants: &AddressList) -> (
result: Result<(), ContractError>)
    ensures
        (final(market)@, result) == for_each(
            old(market)@,
            participants@,
            refund_stake_step(round_id),
        ),
{
    let ghost step = refund_stake_step(round_id);
    let count: u32 = participants.len();
    let mut i: u32 = 0;
    while i < count
        invariant
            i <= count == participants@.len(),
            step == refund_stake_step(round_id),
            for_each(old(market)@, participants@.take(i as int), step) == done(market@),
        decreases count - i,
    {
        if let Some(user) = participants.get(i) {
            proof {
                lemma_for_each_next(old(market)@, participants@, step, i as int);
            }
            let refund_amount: i128 = precision_stake(market, round_id, user);
            if refund_amount > 0 {
                let record = make_precision_record(
                    user,
                    0,
                    refund_amount,
                    refund_amount,
                    UserOutcomeType::Refund,
                );
                if let Err(e) = record_refund(market, round_id, &record) {
                    proof {
                        lemma_for_each_refused(old(market)@, participants@, step, i + 1);
                    }
                    return Err(e);
                }
            }
        }
        i = i + 1;
    }
    proof {
        assert(participants@.take(i as int) =~= participants@);
    }
    Ok(())
}

/// Forgets all that participants have entered for a round.
fn forget_entries(market: &mut Market, round_id: u64, participants: &AddressList)
    ensures
        final(market)@ == old(market)@.forget_entries(round_id, participants@),
{
    let count: u32 = participants.len();
    let mut i: u32 = 0;
    proof {
        assert(market@ =~= old(market)@.forget_entries(round_id, participants@.take(0)));
    }
    while i < count
        invariant
            i <= count == participants@.len(),
            market@ == old(market)@.forget_entries(round_id, participants@.take(i as int)),
        decreases count - i,
    {
        if let Some(user) = participants.get(i) {
            market.positions.remove(&(round_id, user));
            market.predictions.remove(&(round_id, user));
            market.commitments.remove(&(round_id, user));
            proof {
                let fewer = participants@.take(i as int);
                let more = participants@.take(i + 1);
                assert(more =~= fewer.push(user));
                assert forall|key: (u64, Address)| #[trigger]
                    entry_keys(round_id, more).contains(key) == (entry_keys(
                        round_id,
                        fewer,
                    ).contains(key) || key == (round_id, user)) by {
                    if fewer.contains(key.1) {
                        let at = choose|at: int| 0 <= at < fewer.len() && fewer[at] == key.1;
                        assert(more[at] == key.1);
                    }
                    assert(more[i as int] == user);
                }
                assert(market@ =~= old(market)@.forget_entries(round_id, more));
            }
        }
        i = i + 1;
    }
    proof {
        assert(participants@.take(i as int) =~= participants@);
    }
}

/// Ends a round that was settled.
fn clear_round(market: &mut Market, round_id: u64, participants: &AddressList)
    ensures
        final(market)@ == old(market)@.clear_round(round_id, participants@),
{
    forget_entries(market, round_id, participants);
    market.remove_participants(round_id);
    market.cells.active_round = None;
    market.cells.legacy_positions = false;
    market.updown_legacy = None;
    market.precision_legacy = None;
}

/// Gives the stakes of the older list of predictions back, where there were too
/// few participants.
fn refund_predictions(market: &mut Market, round_id: u64, predictions: &PredictionList) -> (
result: Result<(), ContractError>)
    ensures
        (final(market)@, result) == for_each(
            old(market)@,
            predictions@,
            refund_prediction_step(round_id),
        ),
{
    let ghost step = refund_prediction_step(round_id);
    let count: u32 = predictions.len();
    let mut i: u32 = 0;
    while i < count
        invariant
            i <= count == predictions@.len(),
            step == refund_prediction_step(round_id),
            for_each(old(market)@, predictions@.take(i as int), step) == done(market@),
        decreases count - i,
    {
        if let Some(made) = predictions.get(i) {
            proof {
                lemma_for_each_next(old(market)@, predictions@, step, i as int);
            }
            if made.amount > 0 {
                let record = make_precision_record(
                    made.user,
                    0,
                    made.amount,
                    made.amount,
                    UserOutcomeType::Refund,
                );
                if let Err(e) = record_refund(market, round_id, &record) {
                    proof {
                        lemma_for_each_refused(old(market)@, predictions@, step, i + 1);
                    }
                    return Err(e);
                }
            }
        }
        i = i + 1;
    }
    proof {
        assert(predictions@.take(i as int) =~= predictions@);
    }
    Ok(())
}

/// Gives the stakes of the older list back, where there were too few
/// participants.
fn refund_older(market: &mut Market, round: &Round) -> (result: Result<(), ContractError>)
    ensures
        (final(market)@, result) == old(market)@.refund_stakes(*round, Seq::empty()),
{
    match round.mode {
        RoundMode::UpDown => match &market.updown_legacy {
            Some(positions) => {
                let positions = positions.copy();
                _record_refunds_legacy(market, round.round_id, &positions)
            },
            None => Ok(()),
        },
        RoundMode::Precision => match &market.precision_legacy {
            Some(entries) => {
                let predictions = entries.values();
                refund_predictions(market, round.round_id, &predictions)
            },
            None => Ok(()),
        },
    }
}

/// Refunds all stakes in a round that had too few participants, and ends it.
pub fn _refund_under_threshold(market: &mut Market, round: &Round, participants: &AddressList) -> (
result: Result<(), ContractError>)
    ensures
        (final(market)@, result) == old(market)@.refund_under_threshold(*round, participants@),
{
    let refunded = if participants.len() == 0 {
        proof {
            assert(participants@ =~= Seq::empty());
        }
        refund_older(market, round)
    } else {
        match round.mode {
            RoundMode::UpDown => _record_refunds_indexed(market, round.round_id, 0, participants),
            RoundMode::Precision => refund_stakes(market, round.round_id, participants),
        }
    };
    if let Err(e) = refunded {
        return Err(e);
    }
    clear_round(market, round.round_id, participants);
    Ok(())
}

/// Gives participants the stakes of their positions in a cancelled round back.
fn cancel_positions(market: &mut Market, round_id: u64, participants: &AddressList) -> (
result: Result<(), ContractError>)
    ensures
        (final(market)@, result) == for_each(
            old(market)@,
            participants@,
            cancel_position_step(round_id),
        ),
{
    let ghost step = cancel_position_step(round_id);
    let count: u32 = participants.len();
    let mut i: u32 = 0;
    while i < count
        invariant
            i <= count == participants@.len(),
            step == cancel_position_step(round_id),
            for_each(old(market)@, participants@.take(i as int), step) == done(market@),
        decreases count - i,
    {
        if let Some(user) = participants.get(i) {
            proof {
                lemma_for_each_next(old(market)@, participants@, step, i as int);
            }
            if let Some(position) = market.positions.find(&(round_id, user)) {
                let record = make_position_record(
                    user,
                    0,
                    &position,
                    position.amount,
                    UserOutcomeType::Cancel,
                );
                if let Err(e) = record_refund(market, round_id, &record) {
                    proof {
                        lemma_for_each_refused(old(market)@, participants@, step, i + 1);
                    }
                    return Err(e);
                }
                market.positions.remove(&(round_id, user));
            }
        }
        i = i + 1;
    }
    proof {
        assert(participants@.take(i as int) =~= participants@);
    }
    Ok(())
}

/// Gives participants their stakes on a price in a cancelled round back.
fn cancel_stakes(market: &mut Market, round_id: u64, participants: &AddressList) -> (
result: Result<(), ContractError>)
    ensures
        (final(market)@, result) == for_each(
            old(market)@,
            participants@,
            cancel_stake_step(round_id),
        ),
{
    let ghost step = cancel_stake_step(round_id);
    let count: u32 = participants.len();
    let mut i: u32 = 0;
    while i < count
        invariant
            i <= count == participants@.len(),
            step == cancel_stake_step(round_id),
            for_each(old(market)@, participants@.take(i as int), step) == done(market@),
        decreases count - i,
    {
        if let Some(user) = participants.get(i) {
            proof {
                lemma_for_each_next(old(market)@, participants@, step, i as int);
            }
            let refund_amount: i128 = precision_stake(market, round_id, user);
            if refund_amount > 0 {
                if let Err(e) = VirtualTokenContract::_accumulate_pending(
                    market,
                    user,
                    refund_amount,
                ) {
                    proof {
                        lemma_for_each_refused(old(market)@, participants@, step, i + 1);
                    }
                    return Err(e);
                }
            }
            let record = make_precision_record(
                user,
                0,
                refund_amount,
                refund_amount,
                UserOutcomeType::Cancel,
            );
            persist_record(market, round_id, &record);
            market.predictions.remove(&(round_id, user));
            market.commitments.remove(&(round_id, user));
        }
        i = i + 1;
    }
    proof {
        assert(participants@.take(i as int) =~= participants@);
    }
    Ok(())
}

/// Gives the stakes of the older list of predictions in a cancelled round back.
fn cancel_predictions(market: &mut Market, round_id: u64, predictions: &PredictionList) -> (
result: Result<(), ContractError>)
    ensures
        (final(market)@, result) == for_each(
            old(market)@,
            predictions@,
            cancel_prediction_step(round_id),
        ),
{
    let ghost step = cancel_prediction_step(round_id);
    let count: u32 = predictions.len();
    let mut i: u32 = 0;
    while i < count
        invariant
            i <= count == predictions@.len(),
            step == cancel_prediction_step(round_id),
            for_each(old(market)@, predictions@.take(i as int), step) == done(market@),
        decreases count - i,
    {
        if let Some(made) = predictions.get(i) {
            proof {
                lemma_for_each_next(old(market)@, predictions@, step, i as int);
            }
            if made.amount > 0 {
                if let Err(e) = VirtualTokenContract::_accumulate_pending(
                    market,
                    made.user,
                    made.amount,
                ) {
                    proof {
                        lemma_for_each_refused(old(market)@, predictions@, step, i + 1);
                    }
                    return Err(e);
                }
            }
            let record = make_precision_record(
                made.user,
                0,
                made.amount,
                made.amount,
                UserOutcomeType::Cancel,
            );
            persist_record(market, round_id, &record);
        }
        i = i + 1;
    }
    proof {
        assert(predictions@.take(i as int) =~= predictions@);
    }
    Ok(())
}

/// Gives the stakes of the older list in a cancelled round back.
fn cancel_older(market: &mut Market, round: &Round) -> (result: Result<(), ContractError>)
    ensures
        (final(market)@, result) == old(market)@.cancel_stakes(*round, Seq::empty()),
{
    match round.mode {
        RoundMode::UpDown => match &market.updown_legacy {
            Some(positions) => {
                let positions = positions.copy();
                refund_entries(market, round.round_id, &positions, UserOutcomeType::Cancel)
            },
            None => Ok(()),
        },
        RoundMode::Precision => match &market.precision_legacy {
            Some(entries) => {
                let predictions = entries.values();
                cancel_predictions(market, round.round_id, &predictions)
            },
            None => Ok(()),
        },
    }
}

/// Cancels the active round, for the administrator, and refunds all stakes.
pub fn cancel_round(env: &Env, market: &mut Market, ctx: &LedgerContext, reason: u32) -> (
result: Result<(), ContractError>)
    requires
        old(market)@.wf(),
        old(market)@.admin_consents(ctx),
    ensures
        (final(market)@, result) == old(market)@.cancel_round(ctx.sequence, reason),
        final(market)@.wf(),
{
    if let Err(e) = VirtualTokenContract::_require_supported_schema(market) {
        return Err(e);
    }
    let admin = match market.cells.admin {
        Some(admin) => admin,
        None => {
            return Err(ContractError::AdminNotSet);
        },
    };
    let round = match market.cells.active_round {
        Some(round) => round,
        None => {
            VirtualTokenContract::_emit_action_rejected(
                market,
                &admin,
                Action::Cancel,
                ContractError::RoundNotCancellable,
            );
            return Err(ContractError::RoundNotCancellable);
        },
    };
    let round_id: u64 = round.round_id;
    let participants = market.participants_of(env, round_id);
    proof {
        lemma_cancel_only_pays_out(market@, round, participants@);
    }
    let by_older_list: bool = participants.len() == 0;
    let refunded = if by_older_list {
        proof {
            assert(participants@ =~= Seq::empty());
        }
        cancel_older(market, &round)
    } else {
        match round.mode {
            RoundMode::UpDown => cancel_positions(market, round_id, &participants),
            RoundMode::Precision => cancel_stakes(market, round_id, &participants),
        }
    };
    if let Err(e) = refunded {
        return Err(e);
    }
    let participant_count: u32 = participants.len();
    let ghost unarchived = market@;
    _archive_round(
        env,
        market,
        ctx.sequence,
        &round,
        RoundArchiveStatus::Cancelled,
        0,
        participant_count,
        0,
    );
    proof {
        lemma_archive_keeps(
            unarchived,
            ctx.sequence,
            round,
            RoundArchiveStatus::Cancelled,
            0,
            participant_count,
            0,
        );
    }
    market.remove_participants(round_id);
    market.cancelled.insert(round_id, true);
    market.cells.active_round = None;
    if by_older_list {
        match round.mode {
            RoundMode::UpDown => {
                market.updown_legacy = None;
            },
            RoundMode::Precision => {
                market.precision_legacy = None;
            },
        }
    }
    market.emit(
        Event::RoundCancelled {
            round_id,
            reason,
            pool_up: round.pool_up,
            pool_down: round.pool_down,
        },
    );
    Ok(())
}

/// Pays a user's pending winnings into the user's balance. Returns the amount.
pub fn claim_winnings(market: &mut Market, ctx: &LedgerContext, user: Address) -> (result: Result<
    i128,
    ContractError,
>)
    requires
        old(market)@.user_consents(ctx, user),
    ensures
        (final(market)@, result) == old(market)@.claim_winnings(user),
        old(market)@.wf() ==> final(market)@.wf(),
{
    if let Err(e) = VirtualTokenContract::_require_supported_schema(market) {
        return Err(e);
    }
    if let Err(e) = VirtualTokenContract::_ensure_not_paused(market) {
        return Err(e);
    }
    let pending: i128 = VirtualTokenContract::get_pending_winnings(market, user);
    if pending == 0 {
        return Ok(0);
    }
    let current_balance: i128 = VirtualTokenContract::balance(market, user);
    let new_balance: i128 = match VirtualTokenContract::payout_add(current_balance, pending) {
        Ok(sum) => sum,
        Err(e) => {
            return Err(e);
        },
    };
    market.pending.remove(&user);
    VirtualTokenContract::_set_balance(market, user, new_balance);
    market.emit(Event::WinningsClaimed { user, amount: pending });
    Ok(pending)
}

/// Refunds a round that had fewer participants than it needs.
fn fall_back(
    env: &Env,
    market: &mut Market,
    sequence: u32,
    round: &Round,
    price: u128,
    participants: &AddressList,
    min: u32,
) -> (result: Result<(), ContractError>)
    requires
        old(market)@.wf(),
        participants@ == old(market)@.participants_of(round.round_id),
    ensures
        (final(market)@, result) == old(market)@.fall_back(sequence, *round, price, min),
        final(market)@.wf(),
{
    let count: u32 = participants.len();
    proof {
        lemma_archive_keeps(
            market@,
            sequence,
            *round,
            RoundArchiveStatus::FallbackRefund,
            price,
            count,
            0,
        );
    }
    _archive_round(
        env,
        market,
        sequence,
        round,
        RoundArchiveStatus::FallbackRefund,
        price,
        count,
        0,
    );
    proof {
        lemma_refunds_only_pay(market@, *round, participants@);
    }
    if let Err(e) = _refund_under_threshold(market, round, participants) {
        return Err(e);
    }
    market.emit(Event::RoundFallback { round_id: round.round_id, count, min });
    Ok(())
}

/// Makes the payments of a round, by its mode. Returns the fee.
fn pay_by_mode(env: &Env, market: &mut Market, round: &Round, price: u128) -> (result: Result<
    i128,
    ContractError,
>)
    requires
        old(market)@.wf(),
        round.wf(),
    ensures
        (final(market)@, result) == old(market)@.pay_by_mode(*round, price),
{
    match round.mode {
        RoundMode::UpDown => match _resolve_updown_mode(env, market, round, price) {
            Ok((one_sided, fee)) => {
                if one_sided {
                    market.emit(
                        Event::PoolOneSided {
                            round_id: round.round_id,
                            pool_up: round.pool_up,
                            pool_down: round.pool_down,
                        },
                    );
                }
                Ok(fee)
            },
            Err(e) => Err(e),
        },
        RoundMode::Precision => _resolve_precision_mode(env, market, round.round_id, price),
    }
}

/// Settles a round with enough participants.
fn pay_round(
    env: &Env,
    market: &mut Market,
    sequence: u32,
    round: &Round,
    payload: &OraclePayload,
    participants: &AddressList,
) -> (result: Result<(), ContractError>)
    requires
        old(market)@.wf(),
        round.wf(),
        participants@ == old(market)@.participants_of(round.round_id),
    ensures
        (final(market)@, result) == old(market)@.pay_round(sequence, *round, *payload),
        final(market)@.wf(),
{
    let round_id: u64 = round.round_id;
    let participant_count: u32 = participants.len();
    proof {
        lemma_mode_only_pays(market@, *round, payload.price);
    }
    let fee_amount: i128 = match pay_by_mode(env, market, round, payload.price) {
        Ok(fee) => fee,
        Err(e) => {
            return Err(e);
        },
    };
    proof {
        lemma_archive_keeps(
            market@,
            sequence,
            *round,
            RoundArchiveStatus::Resolved,
            payload.price,
            participant_count,
            fee_amount,
        );
    }
    _archive_round(
        env,
        market,
        sequence,
        round,
        RoundArchiveStatus::Resolved,
        payload.price,
        participant_count,
        fee_amount,
    );
    clear_round(market, round_id, participants);
    market.emit(
        Event::RoundResolved {
            round_id,
            price: payload.price,
            mode: round.mode.to_number(),
            confidence: payload.confidence,
        },
    );
    Ok(())
}

/// Settles a round by a report that has passed all checks.
fn settle_round(
    env: &Env,
    market: &mut Market,
    sequence: u32,
    round: &Round,
    payload: &OraclePayload,
) -> (result: Result<(), ContractError>)
    requires
        old(market)@.wf(),
        round.wf(),
    ensures
        (final(market)@, result) == old(market)@.settle_round(sequence, *round, *payload),
        final(market)@.wf(),
{
    let participants = market.participants_of(env, round.round_id);
    if let Some(min) = market.cells.min_participants {
        if participants.len() < min {
            return fall_back(env, market, sequence, round, payload.price, &participants, min);
        }
    }
    pay_round(env, market, sequence, round, payload, &participants)
}

/// Settles the active round by the oracle's report.
pub fn resolve_round(
    env: &Env,
    market: &mut Market,
    ctx: &LedgerContext,
    payload: &OraclePayload,
) -> (result: Result<(), ContractError>)
    requires
        old(market)@.wf(),
        old(market)@.oracle_consents(ctx, *payload),
        old(market)@.age_is_countable(ctx, *payload),
    ensures
        (final(market)@, result) == old(market)@.resolve_round(ctx, *payload),
        final(market)@.wf(),
{
    match check_report(market, ctx, payload) {
        Ok(round) => settle_round(env, market, ctx.sequence, &round, payload),
        Err(e) => Err(e),
    }
}

} // verus!
