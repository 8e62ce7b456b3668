//! That the order in which participants are listed does not matter.

use vstd::prelude::*;
use vstd::seq_lib::lemma_sorted_unique;
use crate::common::lemma_address_order;
use crate::model::{for_each, MarketView, Step};
use crate::rules::{
    closest, give_back_step, lose_legacy_step, lose_step, pay_step, refund_entry_step, refund_step,
    running_total, settle_entry_step, settle_step, shares, sorted_addresses,
};
use crate::types::{
    Address, BetSide, PrecisionPrediction, Round, RoundMode, UserOutcomeType, UserPosition,
};

verus! {

/// The state with other lists of participants.
pub open spec fn relisted(m: MarketView, lists: Map<u64, Seq<Address>>) -> MarketView {
    MarketView { participants: lists, ..m }
}

/// The step does not look at the lists of participants.
spec fn blind<T>(
    step: spec_fn(MarketView, T) -> Step<()>,
    lists: Map<u64, Seq<Address>>,
) -> bool {
    forall|m: MarketView, item: T|
        step(relisted(m, lists), item) == (
            relisted((#[trigger] step(m, item)).0, lists),
            step(m, item).1,
        )
}

/// Steps that do not look at the lists do the same whatever these are.
proof fn lemma_steps_are_blind<T>(
    m: MarketView,
    items: Seq<T>,
    step: spec_fn(MarketView, T) -> Step<()>,
    lists: Map<u64, Seq<Address>>,
)
    requires
        blind(step, lists),
    ensures
        for_each(relisted(m, lists), items, step) == (
            relisted(for_each(m, items, step).0, lists),
            for_each(m, items, step).1,
        ),
    decreases items.len(),
{
    if items.len() > 0 {
        lemma_steps_are_blind(m, items.drop_last(), step, lists);
        let before = for_each(m, items.drop_last(), step);
        assert(step(relisted(before.0, lists), items.last()) == (
            relisted(step(before.0, items.last()).0, lists),
            step(before.0, items.last()).1,
        ));
    }
}

/// The settlement of positions does not look at the lists.
proof fn lemma_winnings_are_blind(
    m: MarketView,
    round_id: u64,
    users: Seq<Address>,
    entries: Seq<(Address, UserPosition)>,
    side: BetSide,
    winning: i128,
    losing: i128,
    lists: Map<u64, Seq<Address>>,
)
    ensures
        ({
            let here = m.record_winnings(round_id, users, side, winning, losing);
            relisted(m, lists).record_winnings(round_id, users, side, winning, losing) == (
                relisted(here.0, lists),
                here.1,
            )
        }),
        ({
            let here = m.record_winnings_legacy(round_id, entries, side, winning, losing);
            relisted(m, lists).record_winnings_legacy(round_id, entries, side, winning, losing)
                == (relisted(here.0, lists), here.1)
        }),
{
    let split = m.split_fee_updown(round_id, winning, losing);
    assert(relisted(m, lists).split_fee_updown(round_id, winning, losing) == (
        relisted(split.0, lists),
        split.1,
    ));
    if let Ok((from_winning, from_losing, fee)) = split.1 {
        let distributable = from_winning + from_losing;
        lemma_steps_are_blind(
            split.0,
            users,
            settle_step(round_id, side, winning, distributable),
            lists,
        );
        lemma_steps_are_blind(
            split.0,
            entries,
            settle_entry_step(round_id, side, winning, distributable),
            lists,
        );
    }
}

/// Lists of the same participants are the same once they are in order.
proof fn lemma_same_order(a: Seq<Address>, b: Seq<Address>)
    requires
        a.to_multiset() == b.to_multiset(),
    ensures
        sorted_addresses(a) == sorted_addresses(b),
{
    let leq = |x: Address, y: Address| x.at_or_before(y);
    lemma_address_order();
    a.lemma_sort_by_ensures(leq);
    b.lemma_sort_by_ensures(leq);
    lemma_sorted_unique(sorted_addresses(a), sorted_addresses(b), leq);
}

/// The payment of winners does not look at the lists.
proof fn lemma_closest_are_blind(
    m: MarketView,
    round_id: u64,
    winners: Seq<PrecisionPrediction>,
    pot: i128,
    lists: Map<u64, Seq<Address>>,
)
    ensures
        relisted(m, lists).pay_closest(round_id, winners, pot) == (
            relisted(m.pay_closest(round_id, winners, pot).0, lists),
            m.pay_closest(round_id, winners, pot).1,
        ),
{
    let split = m.split_fee_precision(round_id, pot);
    assert(relisted(m, lists).split_fee_precision(round_id, pot) == (
        relisted(split.0, lists),
        split.1,
    ));
    if let Ok((pool, fee)) = split.1 {
        lemma_steps_are_blind(split.0, shares(winners, pool), pay_step(round_id), lists);
    }
}

/// The settlement of the older list of predictions does not look at the lists.
proof fn lemma_legacy_is_blind(
    m: MarketView,
    round_id: u64,
    entries: Seq<(Address, PrecisionPrediction)>,
    price: u128,
    lists: Map<u64, Seq<Address>>,
)
    ensures
        relisted(m, lists).resolve_precision_legacy(round_id, entries, price) == (
            relisted(m.resolve_precision_legacy(round_id, entries, price).0, lists),
            m.resolve_precision_legacy(round_id, entries, price).1,
        ),
{
    let predictions = entries.map_values(|entry: (Address, PrecisionPrediction)| entry.1);
    let stakes = predictions.map_values(|prediction: PrecisionPrediction| prediction.amount);
    let winners = closest(
        predictions.map_values(|prediction: PrecisionPrediction| Some(prediction)),
        price,
    );
    if let Some(pot) = running_total(stakes) {
        lemma_closest_are_blind(m, round_id, winners, pot as i128, lists);
        let paid = m.pay_closest(round_id, winners, pot as i128);
        lemma_steps_are_blind(paid.0, predictions, lose_legacy_step(round_id, winners), lists);
    }
}

/// The settlement of a round on the direction of the price depends on the
/// lists only by who is on them.
proof fn lemma_updown_is_blind(
    m: MarketView,
    round: Round,
    price: u128,
    lists: Map<u64, Seq<Address>>,
)
    requires
        sorted_addresses(relisted(m, lists).participants_of(round.round_id)) == sorted_addresses(
            m.participants_of(round.round_id),
        ),
    ensures
        relisted(m, lists).resolve_updown(round, price) == (
            relisted(m.resolve_updown(round, price).0, lists),
            m.resolve_updown(round, price).1,
        ),
{
    let id = round.round_id;
    let users = sorted_addresses(m.participants_of(id));
    let entries = match m.updown_legacy {
        Some(entries) => entries,
        None => Seq::empty(),
    };
    lemma_steps_are_blind(m, users, refund_step(id, 0), lists);
    lemma_steps_are_blind(m, entries, refund_entry_step(id, UserOutcomeType::Refund), lists);
    lemma_winnings_are_blind(
        m,
        id,
        users,
        entries,
        BetSide::Up,
        round.pool_up,
        round.pool_down,
        lists,
    );
    lemma_winnings_are_blind(
        m,
        id,
        users,
        entries,
        BetSide::Down,
        round.pool_down,
        round.pool_up,
        lists,
    );
}

/// The settlement of a round on the price depends on the lists only by who is
/// on them.
proof fn lemma_precision_is_blind(
    m: MarketView,
    id: u64,
    price: u128,
    lists: Map<u64, Seq<Address>>,
)
    requires
        sorted_addresses(relisted(m, lists).participants_of(id)) == sorted_addresses(
            m.participants_of(id),
        ),
    ensures
        relisted(m, lists).resolve_precision(id, price) == (
            relisted(m.resolve_precision(id, price).0, lists),
            m.resolve_precision(id, price).1,
        ),
{
    let other = relisted(m, lists);
    let users = sorted_addresses(m.participants_of(id));
    let legacy = match m.precision_legacy {
        Some(entries) => entries,
        None => Seq::empty(),
    };
    if users.len() == 0 {
        lemma_legacy_is_blind(m, id, legacy, price, lists);
    } else {
        assert(other.revealed(id, users) =~= m.revealed(id, users));
        assert(other.precision_stakes(id, users) =~= m.precision_stakes(id, users));
        assert(other.precision_entries(id, users, price) =~= m.precision_entries(id, users, price));
        let winners = closest(m.revealed(id, users), price);
        let entries = m.precision_entries(id, users, price);
        if let Some(pot) = running_total(m.precision_stakes(id, users)) {
            if winners.len() == 0 {
                lemma_steps_are_blind(m, entries, give_back_step(id), lists);
            } else {
                lemma_closest_are_blind(m, id, winners, pot as i128, lists);
                let paid = m.pay_closest(id, winners, pot as i128);
                lemma_steps_are_blind(paid.0, entries, lose_step(id), lists);
            }
        }
    }
}

/// The payments of a round do not depend on the order in which its
/// participants are listed: with the same participants in another order,
/// everybody gets the same, and the same is told to the outside in the same
/// order.
pub proof fn law_order_of_participants_is_immaterial(
    m: MarketView,
    round: Round,
    price: u128,
    lists: Map<u64, Seq<Address>>,
)
    requires
        relisted(m, lists).participants_of(round.round_id).to_multiset() == m.participants_of(
            round.round_id,
        ).to_multiset(),
    ensures
        relisted(m, lists).pay_by_mode(round, price) == (
            relisted(m.pay_by_mode(round, price).0, lists),
            m.pay_by_mode(round, price).1,
        ),
{
    let id = round.round_id;
    lemma_same_order(m.participants_of(id), relisted(m, lists).participants_of(id));
    match round.mode {
        RoundMode::UpDown => {
            lemma_updown_is_blind(m, round, price, lists);
        },
        RoundMode::Precision => {
            lemma_precision_is_blind(m, id, price, lists);
        },
    }
}

} // verus!
