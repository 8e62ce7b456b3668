//! What is told by a settlement or a cancellation and what is not, what it
//! leaves alone, and with what answers it is refused.

use vstd::prelude::*;
use crate::accounts::{goes_on, lemma_resolve_is_payment};
use crate::errors::ContractError;
use crate::frame::{
    kept_by_payments, lemma_archive_keeps, lemma_cancel_keeps, lemma_cancel_only_pays_out,
    lemma_precision_keeps, lemma_report_only_checked, lemma_updown_keeps,
};
use crate::laws::{lemma_positions_cancelled, lemma_stakes_cancelled};
use crate::market::LedgerContext;
use crate::model::{for_each, lemma_for_each_keeps, MarketView, Step};
use crate::payments::{lemma_running_total, lemma_sorted_keeps, lemma_sum_permuted, lemma_sum_same};
use crate::reports::law_passing_reports_leave;
use crate::rules::{
    cancel_position_step, cancel_prediction_step, cancel_stake_step, closest, entry_keys,
    give_back_step, lose_legacy_step, lose_step, pay_step, refund_entry_step,
    refund_prediction_step, refund_stake_step, refund_step, running_total, settle_entry_step,
    settle_step, shares, sorted_addresses,
};
use crate::summaries::lemma_archive_told;
use crate::types::{
    Address, BetSide, Event, OraclePayload, PrecisionPrediction, Round, RoundArchiveStatus,
    RoundMode, UserOutcomeType, UserPosition, UserRoundOutcome,
};

verus! {

/// The event that tells what a user got out of a round.
pub open spec fn outcome_told(id: u64, record: UserRoundOutcome) -> Event {
    Event::PayoutOutcome {
        round_id: id,
        mode: record.round_mode,
        user: record.user,
        gross_payout: record.payout,
        outcome_type: match record.outcome {
            UserOutcomeType::Loss => 0,
            UserOutcomeType::Win => 1,
            UserOutcomeType::Refund => 2,
            UserOutcomeType::Cancel => 3,
        },
    }
}

/// A win, a refund and a loss are told once: a loss first as such, and each
/// where it is the first record of the user for the round. A loss leaves what is
/// pending alone, and a refund the counts.
pub proof fn law_records_are_told_once(m: MarketView, id: u64, record: UserRoundOutcome, side: u32)
    ensures
        ({
            let won = m.record_win(id, record);
            let back = m.record_refund(id, record);
            let lost = m.record_loss(id, record, side);
            let first = !m.outcomes.dom().contains((id, record.user));
            let told = if first {
                seq![outcome_told(id, record)]
            } else {
                Seq::empty()
            };
            &&& won.1 is Ok ==> won.0.events == m.events + told
            &&& back.1 is Ok ==> back.0.events == m.events + told
            &&& back.0.stats == m.stats
            &&& lost.1 is Ok ==> lost.0.events == m.events + seq![
                Event::OutcomeLoss {
                    user: record.user,
                    round_id: id,
                    mode: record.round_mode,
                    stake: record.stake,
                    side,
                    predicted_price: record.predicted_price,
                },
            ] + told
            &&& lost.0.pending == m.pending
        }),
{
    let won = m.record_win(id, record);
    let back = m.record_refund(id, record);
    let lost = m.record_loss(id, record, side);
    let told = if !m.outcomes.dom().contains((id, record.user)) {
        seq![outcome_told(id, record)]
    } else {
        Seq::empty()
    };
    if won.1 is Ok {
        assert(won.0.events =~= m.events + told);
    }
    if back.1 is Ok {
        assert(back.0.events =~= m.events + told);
    }
    if lost.1 is Ok {
        assert(lost.0.events =~= m.events + seq![
            Event::OutcomeLoss {
                user: record.user,
                round_id: id,
                mode: record.round_mode,
                stake: record.stake,
                side,
                predicted_price: record.predicted_price,
            },
        ] + told);
    }
}

/// The event tells of a single payment: what a user got, a loss, or a fee.
pub open spec fn is_of_payment(event: Event) -> bool {
    event is PayoutOutcome || event is OutcomeLoss || event is FeeCollected
}

/// All that was told since is of the kinds that are admitted.
pub open spec fn only_tells(
    before: MarketView,
    after: MarketView,
    admits: spec_fn(Event) -> bool,
) -> bool {
    &&& before.events.len() <= after.events.len()
    &&& forall|i: int|
        before.events.len() <= i < after.events.len() ==> admits(#[trigger] after.events[i])
}

/// Payments tell of nothing but payments.
proof fn lemma_payments_tell(start: MarketView)
    ensures
        kept_by_payments(
            |s: MarketView| only_tells(start, s, |event: Event| is_of_payment(event)),
        ),
{
}

/// What may be told by a settlement.
pub open spec fn may_tell(m: MarketView, round: Round, price: u128) -> spec_fn(Event) -> bool {
    |event: Event|
        match event {
            Event::PayoutOutcome { .. } => true,
            Event::OutcomeLoss { .. } => !m.falls_short(round),
            Event::FeeCollected { .. } => !m.falls_short(round),
            Event::OracleOverride { .. } => m.is_beyond_limit(round, price),
            Event::PoolOneSided { .. } => {
                &&& round.mode == RoundMode::UpDown
                &&& !m.falls_short(round)
                &&& (round.pool_up == 0) != (round.pool_down == 0)
            },
            Event::RoundSummary { .. } => true,
            Event::ArchivePruned { .. } => true,
            Event::RoundFallback { .. } => m.falls_short(round),
            Event::RoundResolved { .. } => !m.falls_short(round),
            _ => false,
        }
}

/// A settlement tells of what users get, of losses and fees where there are
/// enough participants, of a used override and of one-sided pools where there
/// were such, of the archive, and of its end as a settlement or as a fallback:
/// of nothing else.
pub proof fn law_settlements_tell_only_what_happened(
    m: MarketView,
    ctx: &LedgerContext,
    payload: OraclePayload,
)
    requires
        m.resolve_round(ctx, payload).1 is Ok,
        m.cells.active_round matches Some(round) ==> m.participants_of(round.round_id).len()
            <= u32::MAX,
    ensures
        m.cells.active_round is Some,
        ({
            let round = m.cells.active_round->0;
            let after = m.resolve_round(ctx, payload).0;
            only_tells(m, after, may_tell(m, round, payload.price))
        }),
{
    lemma_report_only_checked(m, ctx, payload);
    law_passing_reports_leave(m, ctx, payload);
    let round = m.cells.active_round->0;
    let id = round.round_id;
    let price = payload.price;
    let users = m.participants_of(id);
    let count = users.len() as u32;
    let checked = m.check_report(ctx, payload).0;
    let after = m.resolve_round(ctx, payload).0;
    let admits = may_tell(m, round, price);
    assert(only_tells(m, checked, admits)) by {
        if m.is_beyond_limit(round, price) {
            assert(checked.events.len() == m.events.len() + 1);
        }
    }
    if m.falls_short(round) {
        let status = RoundArchiveStatus::FallbackRefund;
        let stored = checked.archive(ctx.sequence, round, status, price, count, 0);
        lemma_archive_told(checked, ctx.sequence, round, status, price, count, 0);
        assert(only_tells(m, stored, admits));
        let property = |s: MarketView| only_tells(m, s, admits);
        let refunded = stored.refund_stakes(round, users).0;
        lemma_refunds_tell(m, stored, round, users, admits);
        assert(property(refunded));
    } else {
        lemma_resolve_is_payment(m, ctx, payload);
        let property = |s: MarketView| only_tells(checked, s, |event: Event| is_of_payment(event));
        lemma_payments_tell(checked);
        lemma_updown_keeps(checked, round, price, property);
        lemma_precision_keeps(checked, id, price, property);
        let one_sided = (round.pool_up == 0) != (round.pool_down == 0);
        let paid = checked.pay_by_mode(round, price).0;
        let fee = checked.pay_by_mode(round, price).1->Ok_0;
        let settled = match round.mode {
            RoundMode::UpDown => checked.resolve_updown(round, price).0,
            RoundMode::Precision => checked.resolve_precision(id, price).0,
        };
        assert(property(settled));
        lemma_goes_on_paid(checked, round, price);
        assert(only_tells(m, paid, admits)) by {
            assert forall|i: int| m.events.len() <= i < paid.events.len() implies admits(
                #[trigger] paid.events[i],
            ) by {
                if i < checked.events.len() {
                    assert(paid.events[i] == checked.events[i]);
                } else if i < settled.events.len() {
                    assert(paid.events[i] == settled.events[i]);
                    assert(is_of_payment(settled.events[i]));
                }
            }
        }
        let status = RoundArchiveStatus::Resolved;
        lemma_archive_told(paid, ctx.sequence, round, status, price, count, fee);
    }
}

/// What was told before the payments of a round stands.
proof fn lemma_goes_on_paid(m: MarketView, round: Round, price: u128)
    ensures
        goes_on(m.events, m.pay_by_mode(round, price).0.events),
{
    let start = m.events;
    let on = |s: MarketView| goes_on(start, s.events);
    assert(kept_by_payments(on));
    lemma_updown_keeps(m, round, price, on);
    lemma_precision_keeps(m, round.round_id, price, on);
}

/// Refunds tell only of what users get.
proof fn lemma_refunds_tell(
    start: MarketView,
    m: MarketView,
    round: Round,
    users: Seq<Address>,
    admits: spec_fn(Event) -> bool,
)
    requires
        only_tells(start, m, admits),
        forall|event: Event| #[trigger] admits(event) <== event is PayoutOutcome,
    ensures
        only_tells(start, m.refund_stakes(round, users).0, admits),
{
    let id = round.round_id;
    let property = |s: MarketView| only_tells(start, s, admits);
    let outcome = UserOutcomeType::Refund;
    lemma_for_each_keeps(m, users, refund_step(id, 0), property);
    lemma_for_each_keeps(m, users, refund_stake_step(id), property);
    lemma_for_each_keeps(
        m,
        m.older_positions(),
        refund_entry_step(id, outcome),
        property,
    );
    lemma_for_each_keeps(
        m,
        m.older_predictions(),
        refund_prediction_step(id),
        property,
    );
}

/// A cancellation tells of what users get back, of the archive, and once of
/// itself: of nothing else.
pub proof fn law_cancellations_tell_only_what_happened(m: MarketView, sequence: u32, reason: u32)
    requires
        m.cancel_round(sequence, reason).1 is Ok,
    ensures
        ({
            let after = m.cancel_round(sequence, reason).0;
            let last = after.events.len() - 1;
            &&& only_tells(
                m,
                after,
                |event: Event|
                    event is PayoutOutcome || event is RoundSummary || event is ArchivePruned
                        || event is RoundCancelled,
            )
            &&& forall|i: int|
                m.events.len() <= i < last ==> !((#[trigger] after.events[i]) is RoundCancelled)
        }),
{
    let round = m.cells.active_round->0;
    let read = m.require_supported_schema().0;
    let users = m.participants_of(round.round_id);
    let count = users.len() as u32;
    let refunded = read.cancel_stakes(round, users).0;
    let property = |s: MarketView| only_tells(m, s, |event: Event| event is PayoutOutcome);
    lemma_cancel_keeps(read, round, users, property);
    assert(property(refunded));
    lemma_archive_told(refunded, sequence, round, RoundArchiveStatus::Cancelled, 0, count, 0);
}

/// A cancellation takes away what its participants have entered for the round,
/// as positions or as stakes on the price by the mode of the round, or else the
/// older list, and leaves all other entries alone.
pub proof fn law_cancellations_leave_the_rest(
    m: MarketView,
    sequence: u32,
    reason: u32,
    id: u64,
    user: Address,
)
    requires
        m.cancel_round(sequence, reason).1 is Ok,
    ensures
        m.cells.active_round is Some,
        ({
            let round = m.cells.active_round->0;
            let after = m.cancel_round(sequence, reason).0;
            let key = (id, user);
            let mine = id == round.round_id && m.participants_of(id).contains(user);
            let by_older_list = m.participants_of(round.round_id).len() == 0;
            &&& after.positions.get(key) == (if mine && round.mode == RoundMode::UpDown {
                None
            } else {
                m.positions.get(key)
            })
            &&& after.predictions.get(key) == (if mine && round.mode == RoundMode::Precision {
                None
            } else {
                m.predictions.get(key)
            })
            &&& after.commitments.get(key) == (if mine && round.mode == RoundMode::Precision {
                None
            } else {
                m.commitments.get(key)
            })
            &&& after.updown_legacy == (if by_older_list && round.mode == RoundMode::UpDown {
                None
            } else {
                m.updown_legacy
            })
            &&& after.precision_legacy == (if by_older_list && round.mode == RoundMode::Precision {
                None
            } else {
                m.precision_legacy
            })
        }),
{
    let round = m.cells.active_round->0;
    let read = m.require_supported_schema().0;
    let users = m.participants_of(round.round_id);
    let refunded = read.cancel_stakes(round, users).0;
    lemma_cancel_only_pays_out(read, round, users);
    lemma_archive_keeps(
        refunded,
        sequence,
        round,
        RoundArchiveStatus::Cancelled,
        0,
        users.len() as u32,
        0,
    );
    let positions = |s: MarketView| s.positions == m.positions;
    let stakes = |s: MarketView| s.predictions == m.predictions && s.commitments == m.commitments;
    assert(entry_keys(round.round_id, users).contains((id, user)) == (id == round.round_id
        && users.contains(user)));
    if users.len() > 0 {
        match round.mode {
            RoundMode::UpDown => {
                lemma_positions_cancelled(read, round.round_id, users);
                let step = cancel_position_step(round.round_id);
                lemma_for_each_keeps(read, users, step, stakes);
            },
            RoundMode::Precision => {
                lemma_stakes_cancelled(read, round, users);
                let step = cancel_stake_step(round.round_id);
                lemma_for_each_keeps(read, users, step, positions);
            },
        }
    } else {
        match round.mode {
            RoundMode::UpDown => {
                let step = refund_entry_step(round.round_id, UserOutcomeType::Cancel);
                let entries = read.older_positions();
                lemma_for_each_keeps(read, entries, step, stakes);
                lemma_for_each_keeps(read, entries, step, positions);
            },
            RoundMode::Precision => {
                let step = cancel_prediction_step(round.round_id);
                let list = read.older_predictions();
                lemma_for_each_keeps(read, list, step, stakes);
                lemma_for_each_keeps(read, list, step, positions);
            },
        }
    }
}

/// A round in which nothing was staked pays nobody, counts nothing, records
/// nothing and takes no fee: one on the direction of the price with empty pools
/// after the price has moved, and one on the price without stakes.
pub proof fn law_rounds_without_stakes_pay_nobody(
    m: MarketView,
    ctx: &LedgerContext,
    payload: OraclePayload,
)
    requires
        m.resolve_round(ctx, payload).1 is Ok,
        m.cells.active_round matches Some(round) ==> {
            &&& m.participants_of(round.round_id).len() <= u32::MAX
            &&& !m.falls_short(round)
            &&& match round.mode {
                RoundMode::UpDown => {
                    &&& round.pool_up == 0
                    &&& round.pool_down == 0
                    &&& payload.price != round.price_start
                },
                RoundMode::Precision => m.staked(round) <= 0,
            }
        },
    ensures
        ({
            let after = m.resolve_round(ctx, payload).0;
            &&& after.pending == m.pending
            &&& after.stats == m.stats
            &&& after.outcomes == m.outcomes
            &&& after.treasury() == m.treasury()
        }),
{
    lemma_resolve_is_payment(m, ctx, payload);
    let round = m.cells.active_round->0;
    let id = round.round_id;
    let checked = m.check_report(ctx, payload).0;
    let stored = m.participants_of(id);
    let users = sorted_addresses(stored);
    lemma_sorted_keeps(stored);
    if round.mode == RoundMode::Precision {
        let amount = |amount: i128| amount as int;
        if users.len() > 0 {
            let stakes = checked.precision_stakes(id, users);
            let stake = |u: Address| m.precision_stake(id, u) as int;
            lemma_running_total(stakes);
            lemma_sum_same(users, stakes, stake, amount);
            lemma_sum_permuted(users, stored, stake);
        } else if let Some(entries) = m.precision_legacy {
            let predictions = entries.map_values(
                |entry: (Address, PrecisionPrediction)| entry.1,
            );
            let stakes = predictions.map_values(
                |prediction: PrecisionPrediction| prediction.amount,
            );
            lemma_running_total(stakes);
            lemma_sum_same(
                entries,
                stakes,
                |entry: (Address, PrecisionPrediction)| entry.1.amount as int,
                amount,
            );
        }
    }
}

/// The answers with which a payment can be refused.
pub open spec fn is_refusal_of_payment(error: ContractError) -> bool {
    ||| error == ContractError::PayoutOverflow
    ||| error == ContractError::PendingWinningsCapExceeded
    ||| error == ContractError::Overflow
}

/// Steps that are refused with certain answers only are so together.
proof fn lemma_refusals<T>(
    m: MarketView,
    items: Seq<T>,
    step: spec_fn(MarketView, T) -> Step<()>,
    kind: spec_fn(ContractError) -> bool,
)
    requires
        forall|s: MarketView, item: T|
            (#[trigger] step(s, item)).1 is Err ==> kind(step(s, item).1->Err_0),
    ensures
        for_each(m, items, step).1 is Err ==> kind(for_each(m, items, step).1->Err_0),
    decreases items.len(),
{
    if items.len() > 0 {
        lemma_refusals(m, items.drop_last(), step, kind);
    }
}

/// A report that has passed is refused only where an amount cannot be added or a
/// count is full, and a cancellation of an active round only where an amount
/// cannot be added.
pub proof fn law_payments_are_refused_by_amounts(
    m: MarketView,
    ctx: &LedgerContext,
    payload: OraclePayload,
    sequence: u32,
    reason: u32,
)
    ensures
        m.check_report(ctx, payload).1 is Ok && m.resolve_round(ctx, payload).1 is Err
            ==> is_refusal_of_payment(m.resolve_round(ctx, payload).1->Err_0),
        m.schema_is_known() && m.cells.admin is Some && m.cells.active_round is Some
            && m.cancel_round(sequence, reason).1 is Err ==> {
            let error = m.cancel_round(sequence, reason).1->Err_0;
            error == ContractError::PayoutOverflow || error
                == ContractError::PendingWinningsCapExceeded
        },
{
    lemma_report_only_checked(m, ctx, payload);
    let round = m.cells.active_round->0;
    let id = round.round_id;
    let users = m.participants_of(id);
    if m.cells.active_round is Some {
        let read = m.require_supported_schema().0;
        let kind = |e: ContractError|
            e == ContractError::PayoutOverflow || e == ContractError::PendingWinningsCapExceeded;
        lemma_refusals(read, users, cancel_position_step(id), kind);
        lemma_refusals(read, users, cancel_stake_step(id), kind);
        lemma_refusals(
            read,
            read.older_positions(),
            refund_entry_step(id, UserOutcomeType::Cancel),
            kind,
        );
        lemma_refusals(read, read.older_predictions(), cancel_prediction_step(id), kind);
    }
    if m.check_report(ctx, payload).1 is Ok {
        let checked = m.check_report(ctx, payload).0;
        let stored = checked.archive(
            ctx.sequence,
            round,
            RoundArchiveStatus::FallbackRefund,
            payload.price,
            users.len() as u32,
            0,
        );
        let kind = |e: ContractError| is_refusal_of_payment(e);
        lemma_refusals(stored, users, refund_step(id, 0), kind);
        lemma_refusals(stored, users, refund_stake_step(id), kind);
        lemma_refusals(
            stored,
            stored.older_positions(),
            refund_entry_step(id, UserOutcomeType::Refund),
            kind,
        );
        lemma_refusals(stored, stored.older_predictions(), refund_prediction_step(id), kind);
        lemma_updown_refusals(checked, round, payload.price);
        lemma_precision_refusals(checked, id, payload.price);
    }
}

/// The answers with which single payments are refused.
proof fn lemma_step_refusals(id: u64, side: BetSide, pool: i128, whole: int)
    ensures
        forall|s: MarketView, user: Address|
            (#[trigger] settle_step(id, side, pool, whole)(s, user)).1 is Err
                ==> is_refusal_of_payment(settle_step(id, side, pool, whole)(s, user).1->Err_0),
        forall|s: MarketView, entry: (Address, UserPosition)|
            (#[trigger] settle_entry_step(id, side, pool, whole)(s, entry)).1 is Err
                ==> is_refusal_of_payment(
                settle_entry_step(id, side, pool, whole)(s, entry).1->Err_0,
            ),
{
}

/// The payments of a round on the direction of the price are refused only by
/// amounts and counts.
proof fn lemma_updown_refusals(m: MarketView, round: Round, price: u128)
    ensures
        m.resolve_updown(round, price).1 is Err ==> is_refusal_of_payment(
            m.resolve_updown(round, price).1->Err_0,
        ),
{
    let id = round.round_id;
    let kind = |e: ContractError| is_refusal_of_payment(e);
    let users = sorted_addresses(m.participants_of(id));
    let entries = m.older_positions();
    let (side, winning, losing) = if price > round.price_start {
        (BetSide::Up, round.pool_up, round.pool_down)
    } else {
        (BetSide::Down, round.pool_down, round.pool_up)
    };
    let split = m.split_fee_updown(id, winning, losing);
    lemma_refusals(m, users, refund_step(id, 0), kind);
    lemma_refusals(m, entries, refund_entry_step(id, UserOutcomeType::Refund), kind);
    if let Ok(parts) = split.1 {
        let whole = parts.0 + parts.1;
        lemma_step_refusals(id, side, winning, whole);
        lemma_refusals(split.0, users, settle_step(id, side, winning, whole), kind);
        lemma_refusals(split.0, entries, settle_entry_step(id, side, winning, whole), kind);
    }
}

/// The payment of the winners of a round on the price is refused only by
/// amounts and counts.
proof fn lemma_closest_refusals(
    m: MarketView,
    id: u64,
    winners: Seq<PrecisionPrediction>,
    pot: i128,
)
    ensures
        m.pay_closest(id, winners, pot).1 is Err ==> is_refusal_of_payment(
            m.pay_closest(id, winners, pot).1->Err_0,
        ),
{
    let kind = |e: ContractError| is_refusal_of_payment(e);
    let split = m.split_fee_precision(id, pot);
    if let Ok(parts) = split.1 {
        lemma_refusals(split.0, shares(winners, parts.0), pay_step(id), kind);
    }
}

/// So are the payments of a round on the price in the older list.
proof fn lemma_older_refusals(
    m: MarketView,
    id: u64,
    entries: Seq<(Address, PrecisionPrediction)>,
    price: u128,
)
    ensures
        m.resolve_precision_legacy(id, entries, price).1 is Err ==> is_refusal_of_payment(
            m.resolve_precision_legacy(id, entries, price).1->Err_0,
        ),
{
    let kind = |e: ContractError| is_refusal_of_payment(e);
    let list = entries.map_values(|entry: (Address, PrecisionPrediction)| entry.1);
    let stakes = list.map_values(|prediction: PrecisionPrediction| prediction.amount);
    let winners = closest(
        list.map_values(|prediction: PrecisionPrediction| Some(prediction)),
        price,
    );
    if let Some(pot) = running_total(stakes) {
        lemma_closest_refusals(m, id, winners, pot as i128);
        let paid = m.pay_closest(id, winners, pot as i128).0;
        lemma_refusals(paid, list, lose_legacy_step(id, winners), kind);
    }
}

/// So are the payments of a round on the price.
proof fn lemma_precision_refusals(m: MarketView, id: u64, price: u128)
    ensures
        m.resolve_precision(id, price).1 is Err ==> is_refusal_of_payment(
            m.resolve_precision(id, price).1->Err_0,
        ),
{
    let kind = |e: ContractError| is_refusal_of_payment(e);
    let users = sorted_addresses(m.participants_of(id));
    let entries = m.precision_entries(id, users, price);
    let winners = closest(m.revealed(id, users), price);
    if users.len() == 0 {
        let older = match m.precision_legacy {
            Some(entries) => entries,
            None => Seq::empty(),
        };
        lemma_older_refusals(m, id, older, price);
    } else if let Some(pot) = running_total(m.precision_stakes(id, users)) {
        lemma_refusals(m, entries, give_back_step(id), kind);
        lemma_closest_refusals(m, id, winners, pot as i128);
        let paid = m.pay_closest(id, winners, pot as i128).0;
        lemma_refusals(paid, entries, lose_step(id), kind);
    }
}

} // verus!
