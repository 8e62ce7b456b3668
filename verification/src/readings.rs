//! What single steps and readings of the market say, told by plain numbers and
//! by the entries as they are recorded.

use vstd::prelude::*;
use crate::archive::lenient_total;
use crate::contract::{fee_of, quotient, round_phase};
use crate::errors::ContractError;
use crate::laws::law_winners_are_the_closest;
use crate::market::LedgerContext;
use crate::model::{Cells, MarketView};
use crate::payments::winnings_of;
use crate::reports::if_there;
use crate::rules::{
    closest, closest_among, distance, is_closest, position_record, precision_record, share,
};
use crate::types::{
    Address, BetSide, DataKey, Event, OraclePayload, OracleRotationProposal, PrecisionPrediction,
    ProtocolStatus, Round, RoundArchiveStatus, RoundMode, RoundPhase, RoundStatus, RuntimeMode,
    UserOutcomeType, UserPosition, UserRoundOutcome, UserStats,
};

verus! {

/// An entry that is not there counts as nothing: no winnings, no balance, a
/// blank record, no participants, an empty treasury, the normal mode, the first
/// schema, an archive of a hundred and twenty-eight rounds.
pub proof fn law_missing_entries_count_as_nothing(m: MarketView, user: Address, round_id: u64)
    ensures
        m.pending_of(user) == (if m.pending.dom().contains(user) {
            m.pending[user] as int
        } else {
            0
        }),
        m.balance_of(user) == (if m.balances.dom().contains(user) {
            m.balances[user] as int
        } else {
            0
        }),
        m.stats.dom().contains(user) ==> m.stats_of(user) == m.stats[user],
        !m.stats.dom().contains(user) ==> {
            &&& m.stats_of(user).total_wins == 0
            &&& m.stats_of(user).total_losses == 0
            &&& m.stats_of(user).current_streak == 0
            &&& m.stats_of(user).best_streak == 0
        },
        m.participants.dom().contains(round_id) ==> m.participants_of(round_id)
            == m.participants[round_id],
        !m.participants.dom().contains(round_id) ==> m.participants_of(round_id).len() == 0,
        m.treasury() == (match m.cells.protocol_fee_treasury {
            Some(amount) => amount as int,
            None => 0,
        }),
        m.cells.paused matches Some(mode) ==> m.mode() == mode,
        m.cells.paused is None ==> m.mode() == RuntimeMode::Normal,
        m.schema_version() == (match m.cells.schema_version {
            Some(version) => version as int,
            None => 1,
        }),
        m.retention() == (match m.cells.archive_retention {
            Some(limit) => limit as int,
            None => 128,
        }),
        m.recent matches Some(ids) ==> m.recent_ids() == ids,
        m.recent is None ==> m.recent_ids().len() == 0,
        m.is_paused() <==> m.cells.paused == Some(RuntimeMode::FullyPaused),
        m.schema_supported() <==> m.schema_is_known(),
        m.round_cancelled(round_id) <==> m.cancelled.dom().contains(round_id)
            && m.cancelled[round_id],
        m.updown_legacy matches Some(entries) ==> m.older_positions() == entries,
        m.updown_legacy is None ==> m.older_positions().len() == 0,
        m.precision_legacy matches Some(entries) ==> {
            &&& m.older_predictions().len() == entries.len()
            &&& forall|i: int|
                0 <= i < entries.len() ==> (#[trigger] m.older_predictions()[i]) == entries[i].1
        },
        m.precision_legacy is None ==> m.older_predictions().len() == 0,
{
}

/// What a user has staked in a round: a revealed prediction counts, an
/// unrevealed one where there is none that was revealed, and a position in a
/// round on the direction of the price.
pub proof fn law_stakes_are_what_was_put_in(m: MarketView, round_id: u64, user: Address)
    ensures
        ({
            let key = (round_id, user);
            &&& m.predictions.dom().contains(key) ==> m.precision_stake(round_id, user)
                == m.predictions[key].amount
            &&& !m.predictions.dom().contains(key) && m.commitments.dom().contains(key)
                ==> m.precision_stake(round_id, user) == m.commitments[key].amount
            &&& !m.predictions.dom().contains(key) && !m.commitments.dom().contains(key)
                ==> m.precision_stake(round_id, user) == 0
            &&& m.position_stake(round_id, user) == (if m.positions.dom().contains(key) {
                m.positions[key].amount as int
            } else {
                0
            })
        }),
{
}

/// The numbers that stand for modes, sides, statuses and outcomes.
pub proof fn law_numbers_are_fixed()
    ensures
        RuntimeMode::Normal.number() == 0 && RuntimeMode::ClaimsOnly.number() == 1
            && RuntimeMode::FullyPaused.number() == 2,
        RoundMode::UpDown.number() == 0 && RoundMode::Precision.number() == 1,
        BetSide::Up.number() == 0 && BetSide::Down.number() == 1,
        RoundStatus::Unknown.number() == 0 && RoundStatus::Betting.number() == 1
            && RoundStatus::Running.number() == 2 && RoundStatus::AwaitingResolve.number() == 3
            && RoundStatus::Resolved.number() == 4 && RoundStatus::Cancelled.number() == 5
            && RoundStatus::FallbackRefund.number() == 6,
        ProtocolStatus::Active.number() == 0 && ProtocolStatus::Paused.number() == 1
            && ProtocolStatus::ClaimsOnly.number() == 2,
        RoundArchiveStatus::Resolved.number() == 0 && RoundArchiveStatus::Cancelled.number() == 1
            && RoundArchiveStatus::FallbackRefund.number() == 2,
        UserOutcomeType::Loss.number() == 0 && UserOutcomeType::Win.number() == 1
            && UserOutcomeType::Refund.number() == 2 && UserOutcomeType::Cancel.number() == 3,
{
}

/// Addresses stand in the order of their kinds, and those of one kind in the
/// order of the numbers that their payloads are.
pub proof fn law_addresses_are_ordered(a: Address, b: Address)
    ensures
        a.kind < b.kind ==> a.at_or_before(b) && !b.at_or_before(a),
        a.kind == b.kind ==> (a.at_or_before(b) <==> a.high
            * 0x1_0000_0000_0000_0000_0000_0000_0000_0000 + a.low <= b.high
            * 0x1_0000_0000_0000_0000_0000_0000_0000_0000 + b.low),
        a.at_or_before(b) && b.at_or_before(a) <==> a == b,
{
}

/// The distance of two prices is what has to be added to the smaller one to
/// come to the greater one.
pub proof fn law_distance_is_the_difference(a: u128, b: u128)
    ensures
        a >= b ==> distance(a, b) == a - b,
        a <= b ==> distance(a, b) == b - a,
{
}

/// The winners of a round on the price are exactly the predictions of which no
/// other is nearer to the price: the difference of the two numbers is no
/// greater than that of any other.
pub proof fn law_no_prediction_is_nearer_than_a_winner(
    predictions: Seq<Option<PrecisionPrediction>>,
    price: u128,
    prediction: PrecisionPrediction,
)
    ensures
        closest(predictions, price).contains(prediction) <==> {
            &&& predictions.contains(Some(prediction))
            &&& forall|j: int|
                0 <= j < predictions.len() && (#[trigger] predictions[j]) is Some ==> {
                    let gap = if prediction.predicted_price >= price {
                        prediction.predicted_price - price
                    } else {
                        price - prediction.predicted_price
                    };
                    let other = predictions[j]->0.predicted_price;
                    gap <= other - price || gap <= price - other
                }
        },
        closest(predictions, price).len() == 0 <==> forall|j: int|
            0 <= j < predictions.len() ==> (#[trigger] predictions[j]) is None,
{
    law_winners_are_the_closest(predictions, price, prediction);
    if closest(predictions, price).contains(prediction) {
        let i = choose|i: int|
            0 <= i < predictions.len() && #[trigger] is_closest(predictions, price, i)
                && predictions[i] == Some(prediction);
        assert(predictions[i] == Some(prediction));
    }
    if predictions.contains(Some(prediction)) {
        let i = choose|i: int| 0 <= i < predictions.len() && predictions[i] == Some(prediction);
        if forall|j: int|
            0 <= j < predictions.len() && (#[trigger] predictions[j]) is Some ==> {
                let gap = if prediction.predicted_price >= price {
                    prediction.predicted_price - price
                } else {
                    price - prediction.predicted_price
                };
                let other = predictions[j]->0.predicted_price;
                gap <= other - price || gap <= price - other
            } {
            assert(is_closest(predictions, price, i));
        }
    }
}

/// The winners stand in the order of the predictions.
pub proof fn law_winners_keep_their_order(
    predictions: Seq<Option<PrecisionPrediction>>,
    price: u128,
    places: nat,
)
    requires
        places < predictions.len(),
    ensures
        ({
            let next = predictions[places as int];
            let before = closest_among(predictions, price, places);
            let after = closest_among(predictions, price, places + 1);
            &&& next is None ==> after == before
            &&& after == before || after == before.push(next->0)
            &&& next is Some && next->0.predicted_price == price ==> after == before.push(next->0)
        }),
        closest(predictions, price) == closest_among(predictions, price, predictions.len()),
        closest_among(predictions, price, 0).len() == 0,
{
}

/// A quotient is the greatest number of times that the divisor goes into what
/// is divided; one of a negative number is that of its opposite, made negative.
pub proof fn law_quotients_round_towards_zero(a: int, b: int)
    requires
        b > 0,
    ensures
        a >= 0 ==> b * quotient(a, b) <= a < b * (quotient(a, b) + 1),
        a <= 0 ==> b * (quotient(a, b) - 1) < a <= b * quotient(a, b),
{
    let size = if a >= 0 {
        a
    } else {
        -a
    };
    let part = size / b;
    assert(b * part <= size < b * (part + 1)) by (nonlinear_arith)
        requires
            b > 0,
            part == size / b,
            size >= 0,
    ;
    assert(b * (-part) == -(b * part)) by (nonlinear_arith);
    assert(b * (-part - 1) == -(b * (part + 1))) by (nonlinear_arith);
}

/// A fee of one basis point is a ten-thousandth of the pot, rounded down.
pub proof fn law_fees_are_ten_thousandths(pot: int, bps: int)
    requires
        pot >= 0,
        bps >= 0,
    ensures
        10_000 * fee_of(pot, bps) <= pot * bps < 10_000 * (fee_of(pot, bps) + 1),
{
    assert(pot * bps >= 0) by (nonlinear_arith)
        requires
            pot >= 0,
            bps >= 0,
    ;
    law_quotients_round_towards_zero(pot * bps, 10_000);
}

/// Of a pool, all winners but the first get the same part, the greatest one
/// that as many times as there are winners goes into the pool; the first gets
/// that and what is left over.
pub proof fn law_shares_are_equal_parts(pool: int, winners: int, at: int)
    requires
        pool >= 0,
        winners > 0,
        at > 0,
    ensures
        winners * share(pool, winners, at) <= pool < winners * (share(pool, winners, at) + 1),
        share(pool, winners, 0) + (winners - 1) * share(pool, winners, at) == pool,
{
    law_quotients_round_towards_zero(pool, winners);
    let part = quotient(pool, winners);
    assert((winners - 1) * part == winners * part - part) by (nonlinear_arith);
}

/// A position on the winning side gets the greatest amount that is to the whole
/// at most as the stake is to the pool; one on the other side gets nothing.
pub proof fn law_winnings_are_in_proportion(
    position: UserPosition,
    side: BetSide,
    pool: int,
    whole: int,
)
    requires
        pool > 0,
        whole >= 0,
        position.amount >= 0,
    ensures
        position.side == side ==> {
            let won = winnings_of(position, side, pool, whole);
            pool * won <= position.amount * whole < pool * (won + 1)
        },
        position.side != side ==> winnings_of(position, side, pool, whole) == 0,
{
    assert(position.amount * whole >= 0) by (nonlinear_arith)
        requires
            position.amount >= 0,
            whole >= 0,
    ;
    law_quotients_round_towards_zero(position.amount * whole, pool);
}

/// An entry is there where something is kept under its key, and only an entry
/// that is there lives longer: once for each time that it is asked.
pub proof fn law_entries_that_are_there_live_longer(m: MarketView, key: DataKey)
    ensures
        m.extend(key) == (MarketView { extended: m.extended + if_there(m.has(key), key), ..m }),
        m.has(DataKey::SchemaVersion) <==> m.cells.schema_version is Some,
        m.has(DataKey::Admin) <==> m.cells.admin is Some,
        m.has(DataKey::Oracle) <==> m.cells.oracle is Some,
        m.has(DataKey::Paused) <==> m.cells.paused is Some,
        m.has(DataKey::ActiveRound) <==> m.cells.active_round is Some,
        m.has(DataKey::OracleRotationProposal) <==> m.cells.rotation is Some,
        m.has(DataKey::OracleMaxDeviationBps) <==> m.cells.max_deviation_bps is Some,
        m.has(DataKey::OracleDeviationOverrideArmed) <==> m.cells.deviation_override_armed is Some,
        m.has(DataKey::OracleMinConfidenceBps) <==> m.cells.min_confidence_bps is Some,
        m.has(DataKey::OracleStrictMode) <==> m.cells.strict_mode is Some,
        m.has(DataKey::MinParticipants) <==> m.cells.min_participants is Some,
        m.has(DataKey::MaxPendingWinnings) <==> m.cells.max_pending_winnings is Some,
        m.has(DataKey::ProtocolFeeBps) <==> m.cells.protocol_fee_bps is Some,
        m.has(DataKey::ProtocolFeeTreasury) <==> m.cells.protocol_fee_treasury is Some,
        m.has(DataKey::ArchiveRetention) <==> m.cells.archive_retention is Some,
        m.has(DataKey::RecentArchivedRoundIds) <==> m.recent is Some,
        m.has(DataKey::Positions) <==> m.cells.legacy_positions,
        m.has(DataKey::UpDownPositions) <==> m.updown_legacy is Some,
        m.has(DataKey::PrecisionPositions) <==> m.precision_legacy is Some,
        key matches DataKey::RoundParticipants(id) ==> m.has(key) == m.participants.get(id) is Some,
        key matches DataKey::Position(id, user) ==> m.has(key) == m.positions.get(
            (id, user),
        ) is Some,
        key matches DataKey::PrecisionPosition(id, user) ==> m.has(key) == m.predictions.get(
            (id, user),
        ) is Some,
        key matches DataKey::PrecisionCommitment(id, user) ==> m.has(key) == m.commitments.get(
            (id, user),
        ) is Some,
        key matches DataKey::ConsumedOracleNonce(id, nonce) ==> m.has(key) == m.nonces.get(
            (id, nonce),
        ) is Some,
        key matches DataKey::ArchivedRound(id) ==> m.has(key) == m.archived.get(id) is Some,
        key matches DataKey::CancelledRound(id) ==> m.has(key) == m.cancelled.get(id) is Some,
        key matches DataKey::UserRoundOutcome(id, user) ==> m.has(key) == m.outcomes.get(
            (id, user),
        ) is Some,
        key matches DataKey::Balance(user) ==> m.has(key) == m.balances.get(user) is Some,
        key matches DataKey::PendingWinnings(user) ==> m.has(key) == m.pending.get(user) is Some,
        key matches DataKey::UserStats(user) ==> m.has(key) == m.stats.get(user) is Some,
{
    assert(m.extend(key).extended =~= m.extended + if_there(m.has(key), key));
}

/// Consent is asked of the one whom an operation concerns: of the administrator
/// and of the oracle where there is one, of a user for the user's own winnings,
/// and of nobody where the operation is refused before.
pub proof fn law_consent_is_asked(
    m: MarketView,
    ctx: &LedgerContext,
    payload: OraclePayload,
    user: Address,
)
    ensures
        ctx.has_auth(user) <==> exists|i: int|
            0 <= i < ctx.authorized@.len() && #[trigger] ctx.authorized@[i] == user,
        m.schema_is_known() && m.cells.admin == Some(user) ==> (m.admin_consents(ctx)
            <==> ctx.has_auth(user)),
        !m.schema_is_known() || m.cells.admin is None ==> m.admin_consents(ctx),
        m.schema_is_known() ==> (m.user_consents(ctx, user) <==> ctx.has_auth(user)),
        !m.schema_is_known() ==> m.user_consents(ctx, user),
        m.schema_is_known() && payload.price > 0 && m.cells.oracle == Some(user) ==> (
        m.oracle_consents(ctx, payload) <==> ctx.has_auth(user)),
        !m.schema_is_known() || payload.price == 0 || m.cells.oracle is None
            ==> m.oracle_consents(ctx, payload),
{
}

/// The age of a report can be reckoned unless its time is within the last five
/// minutes that a timestamp can tell; that of a report from the future need not
/// be.
pub proof fn law_ages_can_be_reckoned(m: MarketView, ctx: &LedgerContext, payload: OraclePayload)
    ensures
        payload.timestamp <= 0xffff_ffff_ffff_ffff - 300 ==> m.age_is_countable(ctx, payload),
        payload.timestamp > ctx.timestamp ==> m.age_is_countable(ctx, payload),
{
}

/// A state is in order where the pools of its round are not negative, the
/// archive has room for one more, and no user stands twice in an older list.
pub proof fn law_states_in_order(m: MarketView)
    ensures
        m.wf() ==> {
            &&& m.cells.active_round matches Some(round) ==> round.pool_up >= 0 && round.pool_down
                >= 0
            &&& m.updown_legacy matches Some(entries) ==> forall|i: int, j: int|
                0 <= i < j < entries.len() ==> (#[trigger] entries[i]).0 != (
                #[trigger] entries[j]).0
            &&& m.precision_legacy matches Some(entries) ==> forall|i: int, j: int|
                0 <= i < j < entries.len() ==> (#[trigger] entries[i]).0 != (
                #[trigger] entries[j]).0
        },
        (m.cells.active_round matches Some(round) ==> round.pool_up >= 0 && round.pool_down >= 0)
            && (m.cells.archive_retention matches Some(limit) ==> limit < 0xffff_ffff) && (
        m.recent matches Some(ids) ==> ids.len() < 0xffff_ffff) && m.updown_legacy is None
            && m.precision_legacy is None ==> m.wf(),
{
}

/// The phases of a round: bets before the end of betting, running until the
/// end, to be settled from then on.
pub proof fn law_phases_are_told_by_the_ledger(round: Round, sequence: u32)
    ensures
        sequence < round.bet_end_ledger ==> round_phase(sequence, round) == RoundPhase::Betting,
        round.bet_end_ledger <= sequence < round.end_ledger ==> round_phase(sequence, round)
            == RoundPhase::Running,
        round.bet_end_ledger <= sequence && round.end_ledger <= sequence ==> round_phase(
            sequence,
            round,
        ) == RoundPhase::Resolvable,
{
}

/// What is known of a round: of the active one by the ledger, of another one by
/// what the archive says, and else by the mark of a cancellation.
pub proof fn law_status_is_told_by_the_entries(m: MarketView, sequence: u32, round_id: u64)
    ensures
        ({
            let status = m.round_status(sequence, round_id);
            let active = m.cells.active_round matches Some(round) && round.round_id == round_id;
            let round = m.cells.active_round->0;
            let kept = m.archived.dom().contains(round_id);
            &&& active && sequence < round.bet_end_ledger ==> status == RoundStatus::Betting
            &&& active && round.bet_end_ledger <= sequence < round.end_ledger ==> status
                == RoundStatus::Running
            &&& active && round.bet_end_ledger <= sequence && round.end_ledger <= sequence
                ==> status == RoundStatus::AwaitingResolve
            &&& !active && kept ==> {
                &&& m.archived[round_id].status == RoundArchiveStatus::Resolved <==> status
                    == RoundStatus::Resolved
                &&& m.archived[round_id].status == RoundArchiveStatus::Cancelled <==> status
                    == RoundStatus::Cancelled
                &&& m.archived[round_id].status == RoundArchiveStatus::FallbackRefund <==> status
                    == RoundStatus::FallbackRefund
            }
            &&& !active && !kept ==> status == (if m.cancelled.get(round_id) == Some(true) {
                RoundStatus::Cancelled
            } else {
                RoundStatus::Unknown
            })
        }),
        m.protocol_status() == ProtocolStatus::Paused <==> m.cells.paused == Some(
            RuntimeMode::FullyPaused,
        ),
        m.protocol_status() == ProtocolStatus::Active <==> m.cells.paused != Some(
            RuntimeMode::FullyPaused,
        ) && m.cells.active_round is Some,
{
}

/// The modes: the contract takes everything in the normal mode, and nothing
/// while it is paused. A change of the mode is told once, with both numbers.
pub proof fn law_modes_admit(m: MarketView, mode: RuntimeMode)
    ensures
        m.ensure_not_paused().1 is Ok <==> m.cells.paused != Some(RuntimeMode::FullyPaused),
        m.ensure_normal_mode().1 is Ok <==> m.cells.paused is None || m.cells.paused == Some(
            RuntimeMode::Normal,
        ),
        m.ensure_not_paused().1 is Err ==> m.ensure_not_paused().1->Err_0
            == ContractError::ContractPaused,
        m.ensure_normal_mode().1 is Err ==> m.ensure_normal_mode().1->Err_0
            == ContractError::ContractPaused,
        m.ensure_not_paused().0 == (MarketView {
            extended: m.extended + if_there(m.cells.paused is Some, DataKey::Paused),
            ..m
        }),
        m.ensure_normal_mode().0 == m.ensure_not_paused().0,
        m.mode() != mode ==> m.set_mode(mode) == (MarketView {
            cells: Cells { paused: Some(mode), ..m.cells },
            extended: m.extended.push(DataKey::Paused),
            events: m.events.push(
                Event::ModeTransition { old_mode: m.mode().number(), new_mode: mode.number() },
            ),
            ..m
        }),
        m.mode() == mode ==> m.set_mode(mode) == m,
{
    assert(m.ensure_not_paused().0.extended =~= m.extended + if_there(
        m.cells.paused is Some,
        DataKey::Paused,
    ));
}

/// The schema is checked before anything else, and the entries that every
/// operation reads live longer by it.
pub proof fn law_schema_is_checked(m: MarketView)
    ensures
        m.require_supported_schema().1 is Ok <==> (m.cells.schema_version matches Some(version)
            ==> 1 <= version <= 3),
        m.require_supported_schema().1 == (if m.schema_is_known() {
            Ok::<u32, ContractError>(
                match m.cells.schema_version {
                    Some(version) => version,
                    None => 1,
                },
            )
        } else {
            Err(ContractError::UnsupportedSchemaVersion)
        }),
        m.require_supported_schema().0 == (MarketView {
            extended: m.extended + if_there(
                m.cells.schema_version is Some,
                DataKey::SchemaVersion,
            ) + if_there(m.cells.admin is Some, DataKey::Admin),
            ..m
        }),
{
    assert(m.require_supported_schema().0.extended =~= m.extended + if_there(
        m.cells.schema_version is Some,
        DataKey::SchemaVersion,
    ) + if_there(m.cells.admin is Some, DataKey::Admin));
}

/// An amount that a user gets is added to what is pending, recorded under the
/// user, and nothing else changes. It is refused where the sum is no number of
/// its type or passes the cap; a sum at the cap is in order.
pub proof fn law_pending_grows_by_the_amount(m: MarketView, user: Address, amount: i128)
    ensures
        ({
            let step = m.accumulate_pending(user, amount);
            let sum = amount + (if m.pending.dom().contains(user) {
                m.pending[user] as int
            } else {
                0
            });
            let fits = -0x8000_0000_0000_0000_0000_0000_0000_0000 <= sum
                <= 0x7fff_ffff_ffff_ffff_ffff_ffff_ffff_ffff;
            let capped = m.cells.max_pending_winnings matches Some(cap) && sum > cap;
            &&& step.1 is Ok <==> fits && !capped
            &&& !fits ==> step == (m, Err::<(), ContractError>(ContractError::PayoutOverflow))
            &&& fits && capped ==> step == (
                m,
                Err::<(), ContractError>(ContractError::PendingWinningsCapExceeded),
            )
            &&& fits && !capped ==> step.0 == (MarketView {
                pending: m.pending.insert(user, sum as i128),
                extended: m.extended.push(DataKey::PendingWinnings(user)),
                ..m
            })
        }),
{
}

/// A win is counted once and makes the streak longer by one; a loss is counted
/// once and ends it. The best streak is the longest so far. A count that is
/// full refuses one more, and nobody else's record changes.
pub proof fn law_wins_and_losses_are_counted(m: MarketView, user: Address)
    ensures
        ({
            let before = m.stats_of(user);
            let won = m.update_stats_win(user);
            let lost = m.update_stats_loss(user);
            let w = won.0.stats[user];
            let l = lost.0.stats[user];
            &&& won.1 is Ok <==> before.total_wins < 0xffff_ffff && before.current_streak
                < 0xffff_ffff
            &&& won.1 is Err ==> won == (m, Err::<(), ContractError>(ContractError::Overflow))
            &&& won.1 is Ok ==> {
                &&& won.0 == (MarketView {
                    stats: m.stats.insert(user, w),
                    extended: m.extended.push(DataKey::UserStats(user)),
                    ..m
                })
                &&& w.total_wins == before.total_wins + 1
                &&& w.total_losses == before.total_losses
                &&& w.current_streak == before.current_streak + 1
                &&& w.best_streak >= w.current_streak && w.best_streak >= before.best_streak
                &&& w.best_streak == w.current_streak || w.best_streak == before.best_streak
            }
            &&& lost.1 is Ok <==> before.total_losses < 0xffff_ffff
            &&& lost.1 is Err ==> lost == (m, Err::<(), ContractError>(ContractError::Overflow))
            &&& lost.1 is Ok ==> {
                &&& lost.0 == (MarketView {
                    stats: m.stats.insert(user, l),
                    extended: m.extended.push(DataKey::UserStats(user)),
                    ..m
                })
                &&& l.total_wins == before.total_wins
                &&& l.total_losses == before.total_losses + 1
                &&& l.current_streak == 0
                &&& l.best_streak == before.best_streak
            }
        }),
{
}

/// A record of a user's part in a round is made where there is none, told, and
/// kept; where there is one, nothing happens.
pub proof fn law_first_record_stands(m: MarketView, round_id: u64, record: UserRoundOutcome)
    ensures
        ({
            let key = (round_id, record.user);
            let after = m.persist_outcome(round_id, record);
            &&& m.outcomes.dom().contains(key) ==> after == m
            &&& !m.outcomes.dom().contains(key) ==> after == (MarketView {
                outcomes: m.outcomes.insert(key, record),
                extended: m.extended.push(DataKey::UserRoundOutcome(round_id, record.user)),
                events: m.events.push(
                    Event::PayoutOutcome {
                        round_id,
                        mode: record.round_mode,
                        user: record.user,
                        gross_payout: record.payout,
                        outcome_type: match record.outcome {
                            UserOutcomeType::Loss => 0,
                            UserOutcomeType::Win => 1,
                            UserOutcomeType::Refund => 2,
                            UserOutcomeType::Cancel => 3,
                        },
                    },
                ),
                ..m
            })
        }),
{
}

/// What a record says of a position and of a stake on a price.
pub proof fn law_records_say_what_was_staked(
    user: Address,
    mode: u32,
    position: UserPosition,
    price: u128,
    stake: i128,
    payout: i128,
    outcome: UserOutcomeType,
)
    ensures
        position_record(user, mode, position, payout, outcome) == (UserRoundOutcome {
            user,
            round_mode: mode,
            prediction_side: match position.side {
                BetSide::Up => 0,
                BetSide::Down => 1,
            },
            predicted_price: 0,
            stake: position.amount,
            payout,
            outcome,
        }),
        precision_record(user, price, stake, payout, outcome) == (UserRoundOutcome {
            user,
            round_mode: 1,
            prediction_side: 2,
            predicted_price: price,
            stake,
            payout,
            outcome,
        }),
{
}

/// A fee goes into the treasury, and the outside is told the fee, what the
/// treasury then holds, and the rate.
pub proof fn law_fees_go_into_the_treasury(m: MarketView, round_id: u64, fee: i128, bps: u32)
    ensures
        ({
            let step = m.collect_fee(round_id, fee, Some(bps));
            let sum = fee + (match m.cells.protocol_fee_treasury {
                Some(amount) => amount as int,
                None => 0,
            });
            &&& fee <= 0 ==> step == (m, Ok::<(), ContractError>(()))
            &&& fee > 0 && sum > 0x7fff_ffff_ffff_ffff_ffff_ffff_ffff_ffff ==> step == (
                m,
                Err::<(), ContractError>(ContractError::Overflow),
            )
            &&& fee > 0 && sum <= 0x7fff_ffff_ffff_ffff_ffff_ffff_ffff_ffff ==> step.1 is Ok
                && step.0 == (MarketView {
                cells: Cells { protocol_fee_treasury: Some(sum as i128), ..m.cells },
                extended: m.extended.push(DataKey::ProtocolFeeTreasury),
                events: m.events.push(
                    Event::FeeCollected {
                        round_id,
                        fee_amount: fee,
                        treasury: sum as i128,
                        bps,
                    },
                ),
                ..m
            })
        }),
{
}

/// The fee on two pools is a part of both together, in basis points and rounded
/// down; the losing pool pays it, and the winning one only what the losing one
/// cannot.
pub proof fn law_fee_on_two_pools(m: MarketView, round_id: u64, winning: i128, losing: i128)
    requires
        winning >= 0,
        losing >= 0,
        m.split_fee_updown(round_id, winning, losing).1 is Ok,
    ensures
        ({
            let after = m.split_fee_updown(round_id, winning, losing).0;
            let (won, lost, fee) = m.split_fee_updown(round_id, winning, losing).1->Ok_0;
            &&& m.cells.protocol_fee_bps is None ==> fee == 0 && after == m
            &&& m.cells.protocol_fee_bps matches Some(bps) ==> {
                &&& 10_000 * fee <= (winning + losing) * bps < 10_000 * (fee + 1)
                &&& after == (if fee == 0 {
                    MarketView { extended: m.extended.push(DataKey::ProtocolFeeBps), ..m }
                } else {
                    MarketView {
                        extended: m.extended.push(DataKey::ProtocolFeeBps),
                        ..m
                    }.collect_fee(round_id, fee, Some(bps)).0
                })
            }
            &&& fee >= 0
            &&& fee <= losing ==> won == winning && lost == losing - fee
            &&& fee > losing ==> lost == 0 && won == winning + losing - fee
            &&& m.treasury() + fee == after.treasury()
        }),
{
    if let Some(bps) = m.cells.protocol_fee_bps {
        law_fees_are_ten_thousandths(winning + losing, bps as int);
        assert((winning + losing) * bps >= 0) by (nonlinear_arith)
            requires
                winning + losing >= 0,
                bps >= 0,
        ;
    }
}

/// The fee on a pot is a part of it, in basis points and rounded down; what is
/// left is the rest.
pub proof fn law_fee_on_a_pot(m: MarketView, round_id: u64, pot: i128)
    requires
        pot > 0,
        m.split_fee_precision(round_id, pot).1 is Ok,
    ensures
        ({
            let after = m.split_fee_precision(round_id, pot).0;
            let (left, fee) = m.split_fee_precision(round_id, pot).1->Ok_0;
            &&& left == pot - fee
            &&& m.cells.protocol_fee_bps is None ==> fee == 0 && after == m
            &&& m.cells.protocol_fee_bps matches Some(bps) ==> {
                &&& 10_000 * fee <= pot * bps < 10_000 * (fee + 1)
                &&& after == MarketView {
                    extended: m.extended.push(DataKey::ProtocolFeeBps),
                    ..m
                }.collect_fee(round_id, fee, Some(bps)).0
            }
            &&& fee >= 0
            &&& m.treasury() + fee == after.treasury()
        }),
{
    if let Some(bps) = m.cells.protocol_fee_bps {
        law_fees_are_ten_thousandths(pot as int, bps as int);
        assert(pot * bps >= 0) by (nonlinear_arith)
            requires
                pot > 0,
                bps >= 0,
        ;
    }
}

/// A fee is refused only where a number on the way to it is none of its type:
/// pools and a treasury that are small enough always pay it.
pub proof fn law_small_fees_are_taken(
    m: MarketView,
    round_id: u64,
    winning: i128,
    losing: i128,
)
    requires
        winning >= 0,
        losing >= 0,
        winning + losing <= i128::MAX,
        m.cells.protocol_fee_bps matches Some(bps) ==> bps <= 10_000,
        (winning + losing) * 10_000 <= i128::MAX,
        m.treasury() + winning + losing <= i128::MAX,
    ensures
        m.split_fee_updown(round_id, winning, losing).1 is Ok,
        m.split_fee_precision(round_id, (winning + losing) as i128).1 is Ok,
{
    let pot = winning + losing;
    if let Some(bps) = m.cells.protocol_fee_bps {
        law_fees_are_ten_thousandths(pot, bps as int);
        assert(0 <= pot * bps <= pot * 10_000) by (nonlinear_arith)
            requires
                pot >= 0,
                0 <= bps <= 10_000,
        ;
    }
}

/// A claim is answered by the schema, a pause, and the balance, in this order.
/// It pays exactly what is pending into the balance, takes it off what is
/// pending, and tells the amount; nothing else changes. Without anything
/// pending it pays nothing and changes nothing.
pub proof fn law_claims_pay_what_is_pending(m: MarketView, user: Address)
    ensures
        ({
            let answer = m.claim_winnings(user).1;
            let after = m.claim_winnings(user).0;
            let pending = if m.pending.dom().contains(user) {
                m.pending[user]
            } else {
                0
            };
            let balance = pending + (if m.balances.dom().contains(user) {
                m.balances[user] as int
            } else {
                0
            });
            let fits = -0x8000_0000_0000_0000_0000_0000_0000_0000 <= balance
                <= 0x7fff_ffff_ffff_ffff_ffff_ffff_ffff_ffff;
            let read = m.extended + if_there(
                m.cells.schema_version is Some,
                DataKey::SchemaVersion,
            ) + if_there(m.cells.admin is Some, DataKey::Admin);
            let run = read + if_there(m.cells.paused is Some, DataKey::Paused);
            &&& !m.schema_is_known() ==> answer == Err::<i128, ContractError>(
                ContractError::UnsupportedSchemaVersion,
            ) && after == (MarketView { extended: read, ..m })
            &&& m.schema_is_known() && !m.is_running() ==> answer == Err::<i128, ContractError>(
                ContractError::ContractPaused,
            ) && after == (MarketView { extended: run, ..m })
            &&& m.schema_is_known() && m.is_running() ==> {
                &&& pending == 0 ==> answer == Ok::<i128, ContractError>(0) && after == (
                MarketView { extended: run, ..m })
                &&& pending != 0 && !fits ==> answer == Err::<i128, ContractError>(
                    ContractError::PayoutOverflow,
                ) && after == (MarketView { extended: run, ..m })
                &&& pending != 0 && fits ==> answer == Ok::<i128, ContractError>(pending) && after
                    == (MarketView {
                    pending: m.pending.remove(user),
                    balances: m.balances.insert(user, balance as i128),
                    extended: run.push(DataKey::Balance(user)),
                    events: m.events.push(Event::WinningsClaimed { user, amount: pending }),
                    ..m
                })
            }
        }),
{
    law_schema_is_checked(m);
    let read = m.require_supported_schema().0;
    law_modes_admit(read, RuntimeMode::Normal);
}

/// A proposal of another oracle needs the administrator, a contract that runs,
/// and a time of at least a minute that can be reckoned. It stands from now on
/// until that time is over, and changes nothing else.
pub proof fn law_proposals_stand_for_their_time(
    m: MarketView,
    now: u64,
    new_oracle: Address,
    expires_in: u64,
)
    ensures
        ({
            let answer = m.propose_rotation(now, new_oracle, expires_in).1;
            let after = m.propose_rotation(now, new_oracle, expires_in).0;
            let end = now + expires_in;
            let asked = m.schema_is_known() && m.cells.admin is Some;
            &&& answer is Ok <==> asked && m.is_running() && expires_in >= 60 && end
                <= 0xffff_ffff_ffff_ffff
            &&& !m.schema_is_known() ==> answer == Err::<(), ContractError>(
                ContractError::UnsupportedSchemaVersion,
            )
            &&& m.schema_is_known() && m.cells.admin is None ==> answer == Err::<
                (),
                ContractError,
            >(ContractError::AdminNotSet)
            &&& asked && !m.is_running() ==> answer == Err::<(), ContractError>(
                ContractError::ContractPaused,
            )
            &&& asked && m.is_running() && expires_in < 60 ==> answer == Err::<
                (),
                ContractError,
            >(ContractError::InvalidDuration)
            &&& asked && m.is_running() && expires_in >= 60 && end > 0xffff_ffff_ffff_ffff
                ==> answer == Err::<(), ContractError>(ContractError::Overflow)
            &&& answer is Err ==> after == (MarketView { extended: after.extended, ..m })
            &&& answer is Ok ==> after == (MarketView {
                cells: Cells {
                    rotation: Some(
                        OracleRotationProposal {
                            new_oracle,
                            proposed_at: now,
                            expires_at: end as u64,
                        },
                    ),
                    ..m.cells
                },
                events: m.events.push(
                    Event::RotationProposed { new_oracle, expires_at: end as u64 },
                ),
                extended: m.extended + if_there(
                    m.cells.schema_version is Some,
                    DataKey::SchemaVersion,
                ) + seq![DataKey::Admin] + if_there(m.cells.paused is Some, DataKey::Paused)
                    + seq![DataKey::OracleRotationProposal],
                ..m
            })
        }),
{
    law_schema_is_checked(m);
    let read = m.require_supported_schema().0;
    law_modes_admit(read, RuntimeMode::Normal);
    let after = m.propose_rotation(now, new_oracle, expires_in).0;
    if m.propose_rotation(now, new_oracle, expires_in).1 is Ok {
        assert(after.extended =~= m.extended + if_there(
            m.cells.schema_version is Some,
            DataKey::SchemaVersion,
        ) + seq![DataKey::Admin] + if_there(m.cells.paused is Some, DataKey::Paused)
            + seq![DataKey::OracleRotationProposal]);
    }
}

/// A proposal that stands is accepted up to its last second: its oracle takes
/// the place of the present one, of which the outside is told. After that it is
/// taken away, and the oracle stays.
pub proof fn law_proposals_are_accepted_in_time(m: MarketView, now: u64)
    ensures
        ({
            let answer = m.accept_rotation(now).1;
            let after = m.accept_rotation(now).0;
            let ready = m.schema_is_known() && m.is_running();
            &&& !m.schema_is_known() ==> answer == Err::<(), ContractError>(
                ContractError::UnsupportedSchemaVersion,
            )
            &&& m.schema_is_known() && !m.is_running() ==> answer == Err::<(), ContractError>(
                ContractError::ContractPaused,
            )
            &&& ready && m.cells.rotation is None ==> answer == Err::<(), ContractError>(
                ContractError::NoPendingRotation,
            )
            &&& ready && m.cells.rotation is Some ==> {
                let proposal = m.cells.rotation->0;
                &&& now > proposal.expires_at ==> answer == Err::<(), ContractError>(
                    ContractError::RotationExpired,
                ) && after == (MarketView {
                    cells: Cells { rotation: None, ..m.cells },
                    events: m.events.push(
                        Event::RotationExpired {
                            new_oracle: proposal.new_oracle,
                            proposed_at: proposal.proposed_at,
                            expires_at: proposal.expires_at,
                        },
                    ),
                    extended: after.extended,
                    ..m
                })
                &&& now <= proposal.expires_at && m.cells.oracle is None ==> answer == Err::<
                    (),
                    ContractError,
                >(ContractError::OracleNotSet)
                &&& now <= proposal.expires_at && m.cells.oracle is Some ==> answer is Ok && after
                    == (MarketView {
                    cells: Cells {
                        oracle: Some(proposal.new_oracle),
                        rotation: None,
                        ..m.cells
                    },
                    events: m.events.push(
                        Event::RotationAccepted {
                            previous: m.cells.oracle->0,
                            new_oracle: proposal.new_oracle,
                        },
                    ),
                    extended: after.extended,
                    ..m
                }) && after.extended.last() == DataKey::Oracle
            }
            &&& answer is Err && !(ready && m.cells.rotation is Some && now
                > m.cells.rotation->0.expires_at) ==> after == (MarketView {
                extended: after.extended,
                ..m
            })
        }),
{
}

/// A proposal is withdrawn by the administrator of a contract that runs, and
/// only the proposal goes. A look at it takes one away whose time is over, and
/// shows the others.
pub proof fn law_proposals_are_withdrawn(m: MarketView, now: u64)
    ensures
        ({
            let answer = m.cancel_rotation().1;
            let after = m.cancel_rotation().0;
            let asked = m.schema_is_known() && m.cells.admin is Some;
            &&& !m.schema_is_known() ==> answer == Err::<(), ContractError>(
                ContractError::UnsupportedSchemaVersion,
            )
            &&& m.schema_is_known() && m.cells.admin is None ==> answer == Err::<
                (),
                ContractError,
            >(ContractError::AdminNotSet)
            &&& asked && !m.is_running() ==> answer == Err::<(), ContractError>(
                ContractError::ContractPaused,
            )
            &&& asked && m.is_running() && m.cells.rotation is None ==> answer == Err::<
                (),
                ContractError,
            >(ContractError::NoPendingRotation)
            &&& asked && m.is_running() && m.cells.rotation is Some ==> answer is Ok && after == (
            MarketView {
                cells: Cells { rotation: None, ..m.cells },
                events: m.events.push(
                    Event::RotationCancelled { new_oracle: m.cells.rotation->0.new_oracle },
                ),
                extended: after.extended,
                ..m
            })
            &&& answer is Err ==> after == (MarketView { extended: after.extended, ..m })
        }),
        ({
            let after = m.look_at_rotation(now);
            let shown = m.standing_rotation(now);
            let over = m.cells.rotation matches Some(proposal) && proposal.expires_at < now;
            &&& over ==> shown is None && after == (MarketView {
                cells: Cells { rotation: None, ..m.cells },
                events: m.events.push(
                    Event::RotationExpired {
                        new_oracle: m.cells.rotation->0.new_oracle,
                        proposed_at: m.cells.rotation->0.proposed_at,
                        expires_at: m.cells.rotation->0.expires_at,
                    },
                ),
                extended: m.extended.push(DataKey::OracleRotationProposal),
                ..m
            })
            &&& !over ==> shown == m.cells.rotation && after == (MarketView {
                extended: m.extended + if_there(
                    m.cells.rotation is Some,
                    DataKey::OracleRotationProposal,
                ),
                ..m
            })
        }),
{
    let over = m.cells.rotation matches Some(proposal) && proposal.expires_at < now;
    if !over {
        assert(m.look_at_rotation(now).extended =~= m.extended + if_there(
            m.cells.rotation is Some,
            DataKey::OracleRotationProposal,
        ));
    }
}

/// The pot that is told of a round leaves out a stake that would take it out of
/// its type, and no other.
pub proof fn law_told_pots_are_sums(stakes: Seq<i128>, stake: i128)
    ensures
        lenient_total(Seq::empty()) == 0,
        ({
            let before = lenient_total(stakes);
            let sum = before + stake;
            lenient_total(stakes.push(stake)) == (if -0x8000_0000_0000_0000_0000_0000_0000_0000
                <= sum <= 0x7fff_ffff_ffff_ffff_ffff_ffff_ffff_ffff {
                sum
            } else {
                before
            })
        }),
{
    assert(stakes.push(stake).drop_last() =~= stakes);
}

} // verus!
