//! What the operations leave as it is.

use vstd::prelude::*;
use crate::market::LedgerContext;
use crate::model::{lemma_for_each_keeps, Cells, MarketView};
use crate::rules::{
    cancel_position_step, cancel_prediction_step, cancel_stake_step, closest, give_back_step,
    lose_legacy_step, lose_step, pay_step, refund_entry_step, refund_prediction_step,
    refund_stake_step, refund_step, running_total, settle_entry_step, settle_step, shares,
    sorted_addresses,
};
use crate::types::{
    Address, BetSide, DataKey, OraclePayload, PrecisionPrediction, Round, RoundArchiveStatus,
    UserOutcomeType, UserPosition, UserRoundOutcome,
};

verus! {

/// From one state to the other only payments were made: nothing has changed
/// but pending winnings, records and outcomes of users, the fee treasury, and
/// what was told to the outside.
pub open spec fn only_paid(before: MarketView, after: MarketView) -> bool {
    after == (MarketView {
        cells: Cells {
            protocol_fee_treasury: after.cells.protocol_fee_treasury,
            ..before.cells
        },
        outcomes: after.outcomes,
        pending: after.pending,
        stats: after.stats,
        events: after.events,
        extended: after.extended,
        ..before
    })
}

/// From one state to the other only payments were made and entries of users
/// taken away.
pub open spec fn only_paid_out(before: MarketView, after: MarketView) -> bool {
    only_paid(
        MarketView {
            positions: after.positions,
            predictions: after.predictions,
            commitments: after.commitments,
            ..before
        },
        after,
    )
}

/// The property is kept by each of the payments that a settlement is made of:
/// the records of single users, and the fee.
pub open spec fn kept_by_payments(property: spec_fn(MarketView) -> bool) -> bool {
    &&& forall|m: MarketView, id: u64, record: UserRoundOutcome|
        property(m) ==> property((#[trigger] m.record_refund(id, record)).0)
    &&& forall|m: MarketView, id: u64, record: UserRoundOutcome|
        property(m) ==> property((#[trigger] m.record_win(id, record)).0)
    &&& forall|m: MarketView, id: u64, record: UserRoundOutcome, side: u32|
        property(m) ==> property((#[trigger] m.record_loss(id, record, side)).0)
    &&& forall|m: MarketView, id: u64, winning: i128, losing: i128|
        property(m) ==> property((#[trigger] m.split_fee_updown(id, winning, losing)).0)
    &&& forall|m: MarketView, id: u64, pot: i128|
        property(m) ==> property((#[trigger] m.split_fee_precision(id, pot)).0)
}

/// What payments keep is kept by the refund of all stakes.
pub proof fn lemma_refunds_keep(
    m: MarketView,
    round: Round,
    users: Seq<Address>,
    property: spec_fn(MarketView) -> bool,
)
    requires
        kept_by_payments(property),
        property(m),
    ensures
        property(m.refund_stakes(round, users).0),
{
    let id = round.round_id;
    let outcome = UserOutcomeType::Refund;
    lemma_for_each_keeps(m, users, refund_step(id, 0), property);
    lemma_for_each_keeps(m, users, refund_stake_step(id), property);
    lemma_for_each_keeps(m, m.older_positions(), refund_entry_step(id, outcome), property);
    lemma_for_each_keeps(m, m.older_predictions(), refund_prediction_step(id), property);
}

/// What payments keep is kept by the settlement of positions.
proof fn lemma_winnings_keep(
    m: MarketView,
    round_id: u64,
    users: Seq<Address>,
    entries: Seq<(Address, UserPosition)>,
    side: BetSide,
    winning: i128,
    losing: i128,
    property: spec_fn(MarketView) -> bool,
)
    requires
        kept_by_payments(property),
        property(m),
    ensures
        property(m.record_winnings(round_id, users, side, winning, losing).0),
        property(m.record_winnings_legacy(round_id, entries, side, winning, losing).0),
{
    let split = m.split_fee_updown(round_id, winning, losing);
    if split.1 is Ok {
        let distributable = split.1->Ok_0.0 + split.1->Ok_0.1;
        lemma_for_each_keeps(
            split.0,
            users,
            settle_step(round_id, side, winning, distributable),
            property,
        );
        lemma_for_each_keeps(
            split.0,
            entries,
            settle_entry_step(round_id, side, winning, distributable),
            property,
        );
    }
}

/// What payments keep is kept by the settlement of a round on the direction of
/// the price.
pub proof fn lemma_updown_keeps(
    m: MarketView,
    round: Round,
    price: u128,
    property: spec_fn(MarketView) -> bool,
)
    requires
        kept_by_payments(property),
        property(m),
    ensures
        property(m.resolve_updown(round, price).0),
{
    let users = sorted_addresses(m.participants_of(round.round_id));
    let entries = match m.updown_legacy {
        Some(entries) => entries,
        None => Seq::empty(),
    };
    lemma_for_each_keeps(m, users, refund_step(round.round_id, 0), property);
    lemma_for_each_keeps(
        m,
        entries,
        refund_entry_step(round.round_id, UserOutcomeType::Refund),
        property,
    );
    lemma_winnings_keep(
        m,
        round.round_id,
        users,
        entries,
        BetSide::Up,
        round.pool_up,
        round.pool_down,
        property,
    );
    lemma_winnings_keep(
        m,
        round.round_id,
        users,
        entries,
        BetSide::Down,
        round.pool_down,
        round.pool_up,
        property,
    );
}

/// What payments keep is kept by the payment of winners.
proof fn lemma_closest_keep(
    m: MarketView,
    round_id: u64,
    winners: Seq<PrecisionPrediction>,
    pot: i128,
    property: spec_fn(MarketView) -> bool,
)
    requires
        kept_by_payments(property),
        property(m),
    ensures
        property(m.pay_closest(round_id, winners, pot).0),
{
    let split = m.split_fee_precision(round_id, pot);
    if split.1 is Ok {
        lemma_for_each_keeps(
            split.0,
            shares(winners, split.1->Ok_0.0),
            pay_step(round_id),
            property,
        );
    }
}

/// What payments keep is kept by the settlement of a round on the price.
pub proof fn lemma_precision_keeps(
    m: MarketView,
    round_id: u64,
    price: u128,
    property: spec_fn(MarketView) -> bool,
)
    requires
        kept_by_payments(property),
        property(m),
    ensures
        property(m.resolve_precision(round_id, price).0),
{
    let users = sorted_addresses(m.participants_of(round_id));
    let winners = closest(m.revealed(round_id, users), price);
    let entries = m.precision_entries(round_id, users, price);
    if users.len() == 0 {
        let legacy = match m.precision_legacy {
            Some(entries) => entries,
            None => Seq::empty(),
        };
        lemma_legacy_keeps(m, round_id, legacy, price, property);
    } else if let Some(pot) = running_total(m.precision_stakes(round_id, users)) {
        lemma_for_each_keeps(m, entries, give_back_step(round_id), property);
        lemma_closest_keep(m, round_id, winners, pot as i128, property);
        let paid = m.pay_closest(round_id, winners, pot as i128);
        lemma_for_each_keeps(paid.0, entries, lose_step(round_id), property);
    }
}

/// What payments keep is kept by the settlement of the older list of
/// predictions.
proof fn lemma_legacy_keeps(
    m: MarketView,
    round_id: u64,
    entries: Seq<(Address, PrecisionPrediction)>,
    price: u128,
    property: spec_fn(MarketView) -> bool,
)
    requires
        kept_by_payments(property),
        property(m),
    ensures
        property(m.resolve_precision_legacy(round_id, entries, price).0),
{
    let predictions = entries.map_values(|entry: (Address, PrecisionPrediction)| entry.1);
    let stakes = predictions.map_values(|prediction: PrecisionPrediction| prediction.amount);
    let winners = closest(
        predictions.map_values(|prediction: PrecisionPrediction| Some(prediction)),
        price,
    );
    if let Some(pot) = running_total(stakes) {
        lemma_closest_keep(m, round_id, winners, pot as i128, property);
        let paid = m.pay_closest(round_id, winners, pot as i128);
        lemma_for_each_keeps(
            paid.0,
            predictions,
            lose_legacy_step(round_id, winners),
            property,
        );
    }
}

/// Payments are only payments.
proof fn lemma_payments_only_pay(start: MarketView)
    ensures
        kept_by_payments(|m: MarketView| only_paid(start, m)),
{
}

/// The refunds of all stakes are only payments.
pub proof fn lemma_refunds_only_pay(start: MarketView, round: Round, users: Seq<Address>)
    ensures
        only_paid(start, start.refund_stakes(round, users).0),
{
    lemma_payments_only_pay(start);
    lemma_refunds_keep(start, round, users, |m: MarketView| only_paid(start, m));
}

/// The payments of a round are only payments.
pub proof fn lemma_mode_only_pays(m: MarketView, round: Round, price: u128)
    ensures
        only_paid(m, m.pay_by_mode(round, price).0),
{
    let property = |s: MarketView| only_paid(m, s);
    lemma_payments_only_pay(m);
    lemma_updown_keeps(m, round, price, property);
    lemma_precision_keeps(m, round.round_id, price, property);
}

/// What each refund in a cancelled round keeps is kept by all of them.
pub proof fn lemma_cancel_keeps(
    m: MarketView,
    round: Round,
    users: Seq<Address>,
    property: spec_fn(MarketView) -> bool,
)
    requires
        property(m),
        forall|s: MarketView, user: Address|
            property(s) ==> property(
                (#[trigger] cancel_position_step(round.round_id)(s, user)).0,
            ),
        forall|s: MarketView, user: Address|
            property(s) ==> property((#[trigger] cancel_stake_step(round.round_id)(s, user)).0),
        forall|s: MarketView, id: u64, record: UserRoundOutcome|
            property(s) ==> property((#[trigger] s.record_refund(id, record)).0),
        forall|s: MarketView, made: PrecisionPrediction|
            property(s) ==> property(
                (#[trigger] cancel_prediction_step(round.round_id)(s, made)).0,
            ),
    ensures
        property(m.cancel_stakes(round, users).0),
{
    let id = round.round_id;
    let outcome = UserOutcomeType::Cancel;
    lemma_for_each_keeps(m, users, cancel_position_step(id), property);
    lemma_for_each_keeps(m, users, cancel_stake_step(id), property);
    lemma_for_each_keeps(m, m.older_positions(), refund_entry_step(id, outcome), property);
    lemma_for_each_keeps(m, m.older_predictions(), cancel_prediction_step(id), property);
}

/// The refunds of a cancelled round make payments and take entries away; the
/// treasury is left alone.
pub proof fn lemma_cancel_only_pays_out(start: MarketView, round: Round, users: Seq<Address>)
    ensures
        only_paid_out(start, start.cancel_stakes(round, users).0),
        start.cancel_stakes(round, users).0.cells == start.cells,
{
    let property = |m: MarketView| only_paid_out(start, m) && m.cells == start.cells;
    lemma_cancel_keeps(start, round, users, property);
}

/// The removal of rounds from the archive changes nothing but the archive.
proof fn lemma_prune_keeps(m: MarketView, ids: Seq<u64>)
    ensures
        m.prune(ids) == (MarketView {
            archived: m.prune(ids).archived,
            events: m.prune(ids).events,
            ..m
        }),
    decreases ids.len(),
{
    if ids.len() > 0 {
        lemma_prune_keeps(m, ids.drop_last());
    }
}

/// The entry of a round into the archive changes nothing but the archive, and
/// keeps the state in order.
pub proof fn lemma_archive_keeps(
    m: MarketView,
    sequence: u32,
    round: Round,
    status: RoundArchiveStatus,
    final_price: u128,
    participant_count: u32,
    fee_amount: i128,
)
    ensures
        ({
            let after = m.archive(
                sequence,
                round,
                status,
                final_price,
                participant_count,
                fee_amount,
            );
            &&& after == (MarketView {
                archived: after.archived,
                recent: after.recent,
                events: after.events,
                ..m
            })
            &&& m.wf() ==> after.wf()
        }),
{
    let after = m.archive(sequence, round, status, final_price, participant_count, fee_amount);
    let stored = m.store_summary(
        sequence,
        round,
        status,
        final_price,
        participant_count,
        fee_amount,
    );
    let ids = stored.recent_ids().push(round.round_id);
    let excess = if ids.len() > stored.retention() {
        ids.len() - stored.retention()
    } else {
        0
    };
    lemma_prune_keeps(stored, ids.take(excess));
}

/// From one state to the other only a report was checked: nothing has changed
/// but the armed override, the nonces, and what was told to the outside.
pub open spec fn only_checked(before: MarketView, after: MarketView) -> bool {
    after == (MarketView {
        cells: Cells {
            deviation_override_armed: after.cells.deviation_override_armed,
            ..before.cells
        },
        nonces: after.nonces,
        events: after.events,
        extended: after.extended,
        ..before
    })
}

/// The check of a report only checks it. Where it passes, it is for the active
/// round, and its nonce was not used before and is used now.
pub proof fn lemma_report_only_checked(m: MarketView, ctx: &LedgerContext, payload: OraclePayload)
    ensures
        only_checked(m, m.check_report(ctx, payload).0),
        m.nonces.submap_of(m.check_report(ctx, payload).0.nonces),
        m.check_report(ctx, payload).1 matches Ok(round) ==> {
            &&& m.cells.active_round == Some(round)
            &&& !m.is_paused()
            &&& payload.round_id == round.start_ledger
            &&& ctx.sequence >= round.end_ledger
            &&& !m.nonces.dom().contains((round.round_id, payload.nonce))
            &&& m.check_report(ctx, payload).0.nonces.dom().contains(
                (round.round_id, payload.nonce),
            )
        },
{
    if m.cells.oracle is Some && m.schema_supported() && payload.price != 0 {
        let read = m.require_supported_schema().0.extend(DataKey::Oracle);
        let running = read.ensure_not_paused();
        assert(only_checked(m, running.0));
        if let Some(round) = m.cells.active_round {
            let near = running.0.check_deviation(round, payload.price);
            assert(only_checked(m, near.0) && near.0.nonces == m.nonces);
            let sure = near.0.check_confidence(round.round_id, payload.confidence);
            assert(only_checked(m, sure.0) && sure.0.nonces == m.nonces);
        }
    }
}

/// The property is one of the users' records and outcomes alone.
pub open spec fn about_records(property: spec_fn(MarketView) -> bool) -> bool {
    forall|a: MarketView, b: MarketView|
        #![trigger property(a), property(b)]
        a.stats == b.stats && a.outcomes == b.outcomes && property(a) ==> property(b)
}

/// What payments keep of the users' records is kept by the settlement of a
/// round.
pub proof fn lemma_resolve_keeps_records(
    m: MarketView,
    ctx: &LedgerContext,
    payload: OraclePayload,
    property: spec_fn(MarketView) -> bool,
)
    requires
        kept_by_payments(property),
        about_records(property),
        property(m),
    ensures
        property(m.resolve_round(ctx, payload).0),
{
    let checked = m.check_report(ctx, payload);
    lemma_report_only_checked(m, ctx, payload);
    assert(property(checked.0));
    if let Ok(round) = checked.1 {
        let users = checked.0.participants_of(round.round_id);
        let count = users.len() as u32;
        let stored = checked.0.archive(
            ctx.sequence,
            round,
            RoundArchiveStatus::FallbackRefund,
            payload.price,
            count,
            0,
        );
        lemma_archive_keeps(
            checked.0,
            ctx.sequence,
            round,
            RoundArchiveStatus::FallbackRefund,
            payload.price,
            count,
            0,
        );
        assert(property(stored));
        lemma_refunds_keep(stored, round, users, property);
        lemma_updown_keeps(checked.0, round, payload.price, property);
        lemma_precision_keeps(checked.0, round.round_id, payload.price, property);
        let paid = checked.0.pay_by_mode(round, payload.price);
        assert(property(paid.0)) by {
            assert(property(checked.0.resolve_updown(round, payload.price).0));
        }
        if let Ok(fee) = paid.1 {
            lemma_archive_keeps(
                paid.0,
                ctx.sequence,
                round,
                RoundArchiveStatus::Resolved,
                payload.price,
                count,
                fee,
            );
        }
    }
}

} // verus!
