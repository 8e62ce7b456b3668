//! The settlement of rounds on the price itself.

use vstd::prelude::*;
use vstd::arithmetic::div_mod::lemma_fundamental_div_mod;
use soroban_sdk::Env;
use crate::common::sort_addresses;
use crate::contract::{fits_i128, quotient, VirtualTokenContract};
use crate::errors::ContractError;
use crate::host::{AddressList, EntryList, PredictionList, PredictionMap};
use crate::market::Market;
use crate::model::{done, for_each, lemma_for_each_next, lemma_for_each_refused};
use crate::rules::{
    closest, closest_among, distance, give_back_step, is_closest, lose_legacy_step, lose_step,
    pay_step, precision_record, running_total, share, shares,
};
use crate::settlement::{record_loss, record_refund, record_win};
use crate::types::{
    Address, PrecisionEntry, PrecisionPrediction, RoundMode, UserOutcomeType, UserRoundOutcome,
    PRECISION_SIDE,
};

verus! {

/// Lists that agree on the first places, and on which of them are closest,
/// have the same closest predictions there.
proof fn lemma_closest_same(
    a: Seq<Option<PrecisionPrediction>>,
    b: Seq<Option<PrecisionPrediction>>,
    price: u128,
    places: nat,
)
    requires
        forall|j: int|
            0 <= j < places ==> #[trigger] a[j] == b[j] && is_closest(a, price, j) == is_closest(
                b,
                price,
                j,
            ),
    ensures
        closest_among(a, price, places) == closest_among(b, price, places),
    decreases places,
{
    if places > 0 {
        lemma_closest_same(a, b, price, (places - 1) as nat);
        assert(a[places - 1] == b[places - 1]);
    }
}

/// Where none of the first places is closest, there is no closest prediction.
pub proof fn lemma_closest_none(
    predictions: Seq<Option<PrecisionPrediction>>,
    price: u128,
    places: nat,
)
    requires
        forall|j: int| 0 <= j < places ==> !#[trigger] is_closest(predictions, price, j),
    ensures
        closest_among(predictions, price, places) == Seq::<PrecisionPrediction>::empty(),
    decreases places,
{
    if places > 0 {
        lemma_closest_none(predictions, price, (places - 1) as nat);
    }
}

/// The smallest distance among predictions, if any was made.
pub open spec fn is_best(
    predictions: Seq<Option<PrecisionPrediction>>,
    price: u128,
    best: Option<u128>,
) -> bool {
    match best {
        None => forall|j: int|
            0 <= j < predictions.len() ==> (#[trigger] predictions[j]) is None,
        Some(d) => {
            &&& exists|j: int|
                0 <= j < predictions.len() && (#[trigger] predictions[j]) is Some && distance(
                    predictions[j]->0.predicted_price,
                    price,
                ) == d
            &&& forall|j: int|
                0 <= j < predictions.len() && (#[trigger] predictions[j]) is Some ==> d
                    <= distance(predictions[j]->0.predicted_price, price)
        },
    }
}

/// What one more prediction does to the smallest distance and to the closest
/// predictions.
proof fn lemma_one_more(
    predictions: Seq<Option<PrecisionPrediction>>,
    price: u128,
    best: Option<u128>,
    next: Option<PrecisionPrediction>,
)
    requires
        is_best(predictions, price, best),
    ensures
        next is None ==> {
            &&& is_best(predictions.push(next), price, best)
            &&& closest(predictions.push(next), price) == closest(predictions, price)
            &&& forall|j: int|
                0 <= j < predictions.len() ==> is_closest(predictions.push(next), price, j)
                    == #[trigger] is_closest(predictions, price, j)
            &&& !is_closest(predictions.push(next), price, predictions.len() as int)
        },
        next matches Some(p) ==> {
            let d = distance(p.predicted_price, price);
            &&& best is None || d < best->0 ==> {
                &&& is_best(predictions.push(next), price, Some(d as u128))
                &&& closest(predictions.push(next), price) == seq![p]
                &&& forall|j: int|
                    0 <= j < predictions.len() ==> !#[trigger] is_closest(
                        predictions.push(next),
                        price,
                        j,
                    )
                &&& is_closest(predictions.push(next), price, predictions.len() as int)
            }
            &&& best is Some && d >= best->0 ==> {
                &&& is_best(predictions.push(next), price, best)
                &&& closest(predictions.push(next), price) == (if d == best->0 {
                    closest(predictions, price).push(p)
                } else {
                    closest(predictions, price)
                })
                &&& forall|j: int|
                    0 <= j < predictions.len() ==> is_closest(predictions.push(next), price, j)
                        == #[trigger] is_closest(predictions, price, j)
                &&& is_closest(predictions.push(next), price, predictions.len() as int) == (d
                    == best->0)
            }
        },
{
    let longer = predictions.push(next);
    let n = predictions.len();
    assert(forall|j: int| 0 <= j < n ==> longer[j] == predictions[j]);
    assert(longer[n as int] == next);
    assert(closest_among(longer, price, n + 1) == (if is_closest(longer, price, n as int) {
        closest_among(longer, price, n).push(longer[n as int]->0)
    } else {
        closest_among(longer, price, n)
    }));
    if next is None {
        assert forall|j: int| 0 <= j < n implies is_closest(longer, price, j)
            == #[trigger] is_closest(predictions, price, j) by {
            lemma_closest_keep(predictions, price, next, j);
        }
        lemma_closest_same(longer, predictions, price, n);
        assert(is_best(longer, price, best)) by {
            if best is Some {
                let j = choose|j: int|
                    0 <= j < n && (#[trigger] predictions[j]) is Some && distance(
                        predictions[j]->0.predicted_price,
                        price,
                    ) == best->0;
                assert(longer[j] is Some);
            }
        }
    } else {
        let d = distance(next->0.predicted_price, price);
        if best is None || d < best->0 {
            assert(longer[n as int] is Some);
            assert forall|j: int| 0 <= j < n implies !#[trigger] is_closest(longer, price, j) by {
                assert(longer[j] == predictions[j]);
            }
            lemma_closest_none(longer, price, n);
            assert(Seq::<PrecisionPrediction>::empty().push(next->0) =~= seq![next->0]);
        } else {
            let w = choose|j: int|
                0 <= j < n && (#[trigger] predictions[j]) is Some && distance(
                    predictions[j]->0.predicted_price,
                    price,
                ) == best->0;
            assert(longer[w] is Some);
            assert forall|j: int| 0 <= j < n implies is_closest(longer, price, j)
                == #[trigger] is_closest(predictions, price, j) by {
                lemma_closest_keep(predictions, price, next, j);
            }
            lemma_closest_same(longer, predictions, price, n);
            if d == best->0 {
                assert forall|j: int| 0 <= j < longer.len() && (#[trigger] longer[j]) is Some
                    implies d <= distance(longer[j]->0.predicted_price, price) by {
                    if j < n {
                        assert(longer[j] == predictions[j]);
                    }
                }
            }
        }
    }
}

/// A prediction that is no closer than the closest so far leaves the others
/// as they are.
proof fn lemma_closest_keep(
    predictions: Seq<Option<PrecisionPrediction>>,
    price: u128,
    next: Option<PrecisionPrediction>,
    at: int,
)
    requires
        0 <= at < predictions.len(),
        next matches Some(p) ==> exists|j: int|
            0 <= j < predictions.len() && (#[trigger] predictions[j]) is Some && distance(
                predictions[j]->0.predicted_price,
                price,
            ) <= distance(p.predicted_price, price),
    ensures
        is_closest(predictions.push(next), price, at) == is_closest(predictions, price, at),
{
    let longer = predictions.push(next);
    assert(forall|j: int| 0 <= j < predictions.len() ==> longer[j] == predictions[j]);
    if is_closest(predictions, price, at) {
        assert forall|j: int| 0 <= j < longer.len() && (#[trigger] longer[j]) is Some implies
            distance(longer[at]->0.predicted_price, price) <= distance(
            longer[j]->0.predicted_price,
            price,
        ) by {
            if j < predictions.len() {
                assert(longer[j] == predictions[j]);
            } else {
                let w = choose|w: int|
                    0 <= w < predictions.len() && (#[trigger] predictions[w]) is Some && distance(
                        predictions[w]->0.predicted_price,
                        price,
                    ) <= distance(next->0.predicted_price, price);
                assert(predictions[w] is Some);
            }
        }
    } else if predictions[at] is Some {
        let w = choose|w: int|
            0 <= w < predictions.len() && (#[trigger] predictions[w]) is Some && !(distance(
                predictions[at]->0.predicted_price,
                price,
            ) <= distance(predictions[w]->0.predicted_price, price));
        assert(longer[w] is Some);
    }
}

/// Returns how far a predicted price is from the price.
fn price_distance(predicted_price: u128, price: u128) -> (d: u128)
    ensures
        d == distance(predicted_price, price),
{
    if predicted_price >= price {
        predicted_price - price
    } else {
        price - predicted_price
    }
}

/// Returns the stake of a participant, revealed or not.
pub(crate) fn precision_stake(market: &Market, round_id: u64, user: Address) -> (amount: i128)
    ensures
        amount == market@.precision_stake(round_id, user),
{
    match market.predictions.find(&(round_id, user)) {
        Some(prediction) => prediction.amount,
        None => match market.commitments.find(&(round_id, user)) {
            Some(commitment) => commitment.amount,
            None => 0,
        },
    }
}

/// A refused sum among the first stakes is refused for all of them.
proof fn lemma_total_refused(stakes: Seq<i128>, at: int)
    requires
        0 <= at <= stakes.len(),
        running_total(stakes.take(at)) is None,
    ensures
        running_total(stakes) is None,
    decreases stakes.len() - at,
{
    if at == stakes.len() {
        assert(stakes.take(at) =~= stakes);
    } else {
        assert(stakes.take(at + 1).drop_last() =~= stakes.take(at));
        lemma_total_refused(stakes, at + 1);
    }
}

/// A prediction as the entry of a winner.
pub open spec fn winner_entry(prediction: PrecisionPrediction) -> PrecisionEntry {
    (prediction.user, prediction.amount, prediction.predicted_price, true)
}

/// Predictions as the entries of winners.
pub open spec fn winner_entries(predictions: Seq<PrecisionPrediction>) -> Seq<PrecisionEntry> {
    predictions.map_values(|prediction: PrecisionPrediction| winner_entry(prediction))
}

/// What is known of a round on the price once its participants were gone
/// through.
struct Scan {
    winners: EntryList,
    pot: i128,
    entries: EntryList,
}

/// Goes through the participants of a round on the price: finds the closest
/// predictions, adds the stakes up, and notes each participant's entry.
fn scan_participants(
    env: &Env,
    market: &Market,
    round_id: u64,
    participants: &AddressList,
    price: u128,
) -> (result: Result<Scan, ContractError>)
    ensures
        match running_total(market@.precision_stakes(round_id, participants@)) {
            None => result == Err::<Scan, ContractError>(ContractError::PayoutOverflow),
            Some(total) => {
                &&& result is Ok
                &&& result->Ok_0.pot == total
                &&& result->Ok_0.winners@ == winner_entries(
                    closest(market@.revealed(round_id, participants@), price),
                )
                &&& result->Ok_0.entries@ == market@.precision_entries(
                    round_id,
                    participants@,
                    price,
                )
            },
        },
{
    let ghost revealed = market@.revealed(round_id, participants@);
    let ghost stakes = market@.precision_stakes(round_id, participants@);
    let mut min_diff: Option<u128> = None;
    let mut winners = EntryList::new(env);
    let mut total_pot: i128 = 0;
    let mut entries = EntryList::new(env);
    let count: u32 = participants.len();
    let mut i: u32 = 0;
    proof {
        assert(revealed.take(0) =~= Seq::empty());
        assert(stakes.take(0) =~= Seq::empty());
        assert(winners@ =~= winner_entries(closest(revealed.take(0), price)));
    }
    while i < count
        invariant
            i <= count == participants@.len(),
            revealed == market@.revealed(round_id, participants@),
            stakes == market@.precision_stakes(round_id, participants@),
            running_total(stakes.take(i as int)) == Some(total_pot as int),
            is_best(revealed.take(i as int), price, min_diff),
            winners@ == winner_entries(closest(revealed.take(i as int), price)),
            winners@.len() <= i,
            entries@.len() == i,
            forall|j: int|
                0 <= j < i ==> (#[trigger] entries@[j]) == (
                    participants@[j],
                    stakes[j],
                    match revealed[j] {
                        Some(prediction) => prediction.predicted_price,
                        None => 0u128,
                    },
                    is_closest(revealed.take(i as int), price, j),
                ),
        decreases count - i,
    {
        if let Some(user) = participants.get(i) {
            let pred_opt = market.predictions.find(&(round_id, user));
            let amount: i128 = precision_stake(market, round_id, user);
            let cached_price: u128 = match pred_opt {
                Some(pred) => pred.predicted_price,
                None => 0,
            };
            let ghost so_far = closest(revealed.take(i as int), price);
            proof {
                assert(stakes.take(i + 1).drop_last() =~= stakes.take(i as int));
                assert(stakes.take(i + 1).last() == stakes[i as int]);
                assert(stakes[i as int] == amount);
                assert(revealed[i as int] == pred_opt);
                assert(revealed.take(i + 1) =~= revealed.take(i as int).push(pred_opt));
                lemma_one_more(revealed.take(i as int), price, min_diff, pred_opt);
            }
            total_pot = match VirtualTokenContract::payout_add(total_pot, amount) {
                Ok(sum) => sum,
                Err(e) => {
                    proof {
                        lemma_total_refused(stakes, i + 1);
                    }
                    return Err(e);
                },
            };
            entries.push_back((user, amount, cached_price, false));
            if let Some(pred) = pred_opt {
                let diff: u128 = price_distance(pred.predicted_price, price);
                match min_diff {
                    None => {
                        min_diff = Some(diff);
                        winners = one_winner(env, pred);
                        entries.set(i, (user, amount, cached_price, true));
                        proof {
                            lemma_none_closest(revealed.take(i as int), price);
                        }
                    },
                    Some(current_min) => {
                        if diff < current_min {
                            min_diff = Some(diff);
                            winners = one_winner(env, pred);
                            clear_marks(&mut entries, i);
                            entries.set(i, (user, amount, cached_price, true));
                        } else if diff == current_min {
                            add_winner(&mut winners, pred, Ghost(so_far));
                            entries.set(i, (user, amount, cached_price, true));
                        }
                    },
                }
            }
        }
        i = i + 1;
    }
    proof {
        assert(revealed.take(i as int) =~= revealed);
        assert(stakes.take(i as int) =~= stakes);
        assert(entries@ =~= market@.precision_entries(round_id, participants@, price));
    }
    Ok(Scan { winners, pot: total_pot, entries })
}

/// Where no prediction was made, none is closest.
proof fn lemma_none_closest(predictions: Seq<Option<PrecisionPrediction>>, price: u128)
    requires
        is_best(predictions, price, None),
    ensures
        forall|j: int|
            0 <= j < predictions.len() ==> !#[trigger] is_closest(predictions, price, j),
{
    assert forall|j: int| 0 <= j < predictions.len() implies !#[trigger] is_closest(
        predictions,
        price,
        j,
    ) by {
        assert(predictions[j] is None);
    }
}

/// Makes a list of one winner.
fn one_winner(env: &Env, winner: PrecisionPrediction) -> (winners: EntryList)
    ensures
        winners@ == winner_entries(seq![winner]),
        winners@.len() == 1,
{
    let mut winners = EntryList::new(env);
    winners.push_back((winner.user, winner.amount, winner.predicted_price, true));
    proof {
        assert(winners@ =~= winner_entries(seq![winner]));
    }
    winners
}

/// Puts one more winner behind the others.
fn add_winner(
    winners: &mut EntryList,
    winner: PrecisionPrediction,
    Ghost(so_far): Ghost<Seq<PrecisionPrediction>>,
)
    requires
        old(winners)@ == winner_entries(so_far),
        old(winners)@.len() < u32::MAX,
    ensures
        final(winners)@ == winner_entries(so_far.push(winner)),
        final(winners)@.len() == old(winners)@.len() + 1,
{
    winners.push_back((winner.user, winner.amount, winner.predicted_price, true));
    proof {
        assert(winners@ =~= winner_entries(so_far.push(winner)));
    }
}

/// Takes the marks off the first entries.
fn clear_marks(entries: &mut EntryList, count: u32)
    requires
        count <= old(entries)@.len(),
    ensures
        final(entries)@.len() == old(entries)@.len(),
        forall|j: int|
            0 <= j < old(entries)@.len() ==> #[trigger] final(entries)@[j] == (if j < count {
                (old(entries)@[j].0, old(entries)@[j].1, old(entries)@[j].2, false)
            } else {
                old(entries)@[j]
            }),
{
    let mut j: u32 = 0;
    while j < count
        invariant
            j <= count <= old(entries)@.len(),
            entries@.len() == old(entries)@.len(),
            forall|k: int|
                0 <= k < entries@.len() ==> #[trigger] entries@[k] == (if k < j {
                    (old(entries)@[k].0, old(entries)@[k].1, old(entries)@[k].2, false)
                } else {
                    old(entries)@[k]
                }),
        decreases count - j,
    {
        if let Some((user, amount, price, _)) = entries.get(j) {
            entries.set(j, (user, amount, price, false));
        }
        j = j + 1;
    }
}

/// Each share of a pool is within the pool.
pub proof fn lemma_share_fits(pool: int, winners: int, at: int)
    requires
        winners > 0,
        at >= 0,
        fits_i128(pool),
    ensures
        fits_i128(quotient(pool, winners)),
        fits_i128(winners * quotient(pool, winners)),
        fits_i128(pool - winners * quotient(pool, winners)),
        fits_i128(share(pool, winners, at)),
{
    let size = if pool >= 0 { pool } else { -pool };
    let part = size / winners;
    let rest = size % winners;
    lemma_fundamental_div_mod(size, winners);
    assert(0 <= rest < winners);
    assert(0 <= part <= winners * part) by (nonlinear_arith)
        requires
            part == size / winners,
            winners > 0,
            size >= 0,
    ;
    assert(winners * (-part) == -(winners * part)) by (nonlinear_arith);
}

/// Makes the record of a stake on a price in a settled round.
pub(crate) fn make_precision_record(
    user: Address,
    predicted_price: u128,
    stake: i128,
    payout: i128,
    outcome: UserOutcomeType,
) -> (record: UserRoundOutcome)
    ensures
        record == precision_record(user, predicted_price, stake, payout, outcome),
{
    UserRoundOutcome {
        user,
        round_mode: RoundMode::Precision.to_number(),
        prediction_side: PRECISION_SIDE,
        predicted_price,
        stake,
        payout,
        outcome,
    }
}

/// Pays the fee and the winners of a round on the price. Returns the fee.
fn pay_winners(
    market: &mut Market,
    round_id: u64,
    winners: &EntryList,
    total_pot: i128,
    Ghost(predictions): Ghost<Seq<PrecisionPrediction>>,
) -> (result: Result<i128, ContractError>)
    requires
        winners@ == winner_entries(predictions),
        predictions.len() > 0,
    ensures
        (final(market)@, result) == old(market)@.pay_closest(round_id, predictions, total_pot),
{
    let (payout_pool, fee) = match VirtualTokenContract::_apply_protocol_fee_precision(
        market,
        round_id,
        total_pot,
    ) {
        Ok(split) => split,
        Err(e) => {
            return Err(e);
        },
    };
    let ghost start = market@;
    let ghost step = pay_step(round_id);
    let ghost items = shares(predictions, payout_pool);
    let count: u32 = winners.len();
    let winner_count: i128 = count as i128;
    proof {
        lemma_share_fits(payout_pool as int, winner_count as int, 0);
        lemma_share_fits(payout_pool as int, winner_count as int, 1);
    }
    let payout_per_winner: i128 = payout_pool / winner_count;
    let remainder: i128 = payout_pool - winner_count * payout_per_winner;
    let first_payout: i128 = payout_per_winner + remainder;
    let mut i: u32 = 0;
    while i < count
        invariant
            i <= count == predictions.len() == winners@.len() == winner_count,
            winners@ == winner_entries(predictions),
            start == old(market)@.split_fee_precision(round_id, total_pot).0,
            old(market)@.split_fee_precision(round_id, total_pot).1 == Ok::<
                (i128, i128),
                ContractError,
            >((payout_pool, fee)),
            step == pay_step(round_id),
            items == shares(predictions, payout_pool),
            first_payout == share(payout_pool as int, winner_count as int, 0),
            payout_per_winner == share(payout_pool as int, winner_count as int, 1),
            for_each(start, items.take(i as int), step) == done(market@),
        decreases count - i,
    {
        if let Some((user, amount, predicted_price, _)) = winners.get(i) {
            let payout: i128 = if i == 0 {
                first_payout
            } else {
                payout_per_winner
            };
            proof {
                lemma_for_each_next(start, items, step, i as int);
                assert(winners@[i as int] == winner_entry(predictions[i as int]));
                assert(items[i as int] == (predictions[i as int], payout));
            }
            let record = make_precision_record(
                user,
                predicted_price,
                amount,
                payout,
                UserOutcomeType::Win,
            );
            if let Err(e) = record_win(market, round_id, &record) {
                proof {
                    lemma_for_each_refused(start, items, step, i + 1);
                }
                return Err(e);
            }
        }
        i = i + 1;
    }
    proof {
        assert(items.take(i as int) =~= items);
    }
    Ok(fee)
}

/// Settles the entries of the participants who did not win.
fn settle_losers(market: &mut Market, round_id: u64, entries: &EntryList) -> (result: Result<
    (),
    ContractError,
>)
    ensures
        (final(market)@, result) == for_each(old(market)@, entries@, lose_step(round_id)),
{
    let ghost step = lose_step(round_id);
    let count: u32 = entries.len();
    let mut i: u32 = 0;
    while i < count
        invariant
            i <= count == entries@.len(),
            step == lose_step(round_id),
            for_each(old(market)@, entries@.take(i as int), step) == done(market@),
        decreases count - i,
    {
        proof {
            lemma_for_each_next(old(market)@, entries@, step, i as int);
        }
        if let Some((user, stake, predicted_price, was_winner)) = entries.get(i) {
            if !was_winner {
                let record = make_precision_record(
                    user,
                    predicted_price,
                    stake,
                    0,
                    UserOutcomeType::Loss,
                );
                if let Err(e) = record_loss(market, round_id, &record, 0) {
                    proof {
                        lemma_for_each_refused(old(market)@, entries@, step, i + 1);
                    }
                    return Err(e);
                }
            }
        }
        i = i + 1;
    }
    proof {
        assert(entries@.take(i as int) =~= entries@);
    }
    Ok(())
}

/// Gives the participants of a round on the price their stakes back.
fn give_stakes_back(market: &mut Market, round_id: u64, entries: &EntryList) -> (result: Result<
    (),
    ContractError,
>)
    ensures
        (final(market)@, result) == for_each(old(market)@, entries@, give_back_step(round_id)),
{
    let ghost step = give_back_step(round_id);
    let count: u32 = entries.len();
    let mut i: u32 = 0;
    while i < count
        invariant
            i <= count == entries@.len(),
            step == give_back_step(round_id),
            for_each(old(market)@, entries@.take(i as int), step) == done(market@),
        decreases count - i,
    {
        proof {
            lemma_for_each_next(old(market)@, entries@, step, i as int);
        }
        if let Some((user, stake, predicted_price, _)) = entries.get(i) {
            let record = make_precision_record(
                user,
                predicted_price,
                stake,
                stake,
                UserOutcomeType::Refund,
            );
            if let Err(e) = record_refund(market, round_id, &record) {
                proof {
                    lemma_for_each_refused(old(market)@, entries@, step, i + 1);
                }
                return Err(e);
            }
        }
        i = i + 1;
    }
    proof {
        assert(entries@.take(i as int) =~= entries@);
    }
    Ok(())
}

/// Settles a round on the price. Returns the fee.
pub fn _resolve_precision_mode(
    env: &Env,
    market: &mut Market,
    round_id: u64,
    final_price: u128,
) -> (result: Result<i128, ContractError>)
    ensures
        (final(market)@, result) == old(market)@.resolve_precision(round_id, final_price),
{
    let participants = sort_addresses(env, &market.participants_of(env, round_id));
    if participants.len() == 0 {
        let legacy = match &market.precision_legacy {
            Some(entries) => entries.copy(),
            None => {
                return Ok(0);
            },
        };
        return _resolve_precision_legacy(env, market, round_id, &legacy, final_price);
    }
    let ghost winners = closest(market@.revealed(round_id, participants@), final_price);
    let scan = match scan_participants(env, market, round_id, &participants, final_price) {
        Ok(scan) => scan,
        Err(e) => {
            return Err(e);
        },
    };
    if scan.pot <= 0 {
        return Ok(0);
    }
    if scan.winners.len() == 0 {
        return match give_stakes_back(market, round_id, &scan.entries) {
            Ok(_) => Ok(0),
            Err(e) => Err(e),
        };
    }
    let fee: i128 = match pay_winners(
        market,
        round_id,
        &scan.winners,
        scan.pot,
        Ghost(winners),
    ) {
        Ok(fee) => fee,
        Err(e) => {
            return Err(e);
        },
    };
    match settle_losers(market, round_id, &scan.entries) {
        Ok(_) => Ok(fee),
        Err(e) => Err(e),
    }
}

/// A closest prediction at one of the first places is found there.
proof fn lemma_closest_holds(
    predictions: Seq<Option<PrecisionPrediction>>,
    price: u128,
    places: nat,
    at: int,
)
    requires
        0 <= at < places,
        is_closest(predictions, price, at),
    ensures
        closest_among(predictions, price, places).len() > 0,
    decreases places,
{
    if at < places - 1 {
        lemma_closest_holds(predictions, price, (places - 1) as nat, at);
    }
}

/// Where a prediction was made, there is a closest one.
pub proof fn lemma_some_closest(predictions: Seq<Option<PrecisionPrediction>>, price: u128)
    requires
        exists|j: int| 0 <= j < predictions.len() && (#[trigger] predictions[j]) is Some,
    ensures
        closest(predictions, price).len() > 0,
{
    let w = choose|j: int| 0 <= j < predictions.len() && (#[trigger] predictions[j]) is Some;
    let at = nearest_place(predictions, price, predictions.len(), w);
    lemma_nearest_place(predictions, price, predictions.len(), w);
    lemma_closest_holds(predictions, price, predictions.len(), at);
}

/// A place of the smallest distance among the first places, from a place where
/// a prediction was made.
spec fn nearest_place(
    predictions: Seq<Option<PrecisionPrediction>>,
    price: u128,
    places: nat,
    start: int,
) -> int
    decreases places,
{
    if places == 0 {
        start
    } else {
        let before = nearest_place(predictions, price, (places - 1) as nat, start);
        if predictions[places - 1] is Some && distance(
            predictions[places - 1]->0.predicted_price,
            price,
        ) < distance(predictions[before]->0.predicted_price, price) {
            places - 1
        } else {
            before
        }
    }
}

/// No prediction at the first places is nearer than the one at the nearest
/// place.
proof fn lemma_nearest_place(
    predictions: Seq<Option<PrecisionPrediction>>,
    price: u128,
    places: nat,
    start: int,
)
    requires
        places <= predictions.len(),
        0 <= start < predictions.len(),
        predictions[start] is Some,
    ensures
        ({
            let at = nearest_place(predictions, price, places, start);
            &&& 0 <= at < predictions.len()
            &&& predictions[at] is Some
            &&& forall|j: int|
                0 <= j < places && (#[trigger] predictions[j]) is Some ==> distance(
                    predictions[at]->0.predicted_price,
                    price,
                ) <= distance(predictions[j]->0.predicted_price, price)
        }),
    decreases places,
{
    if places > 0 {
        lemma_nearest_place(predictions, price, (places - 1) as nat, start);
    }
}

/// Finds the closest of the older list of predictions.
fn scan_legacy(env: &Env, predictions: &PredictionList, price: u128) -> (winners: EntryList)
    ensures
        winners@ == winner_entries(closest(all_made(predictions@), price)),
{
    let ghost made = all_made(predictions@);
    let mut min_diff: Option<u128> = None;
    let mut winners = EntryList::new(env);
    let count: u32 = predictions.len();
    let mut i: u32 = 0;
    proof {
        assert(made.take(0) =~= Seq::empty());
        assert(winners@ =~= winner_entries(closest(made.take(0), price)));
    }
    while i < count
        invariant
            i <= count == predictions@.len(),
            made == all_made(predictions@),
            is_best(made.take(i as int), price, min_diff),
            winners@ == winner_entries(closest(made.take(i as int), price)),
            winners@.len() <= i,
        decreases count - i,
    {
        if let Some(pred) = predictions.get(i) {
            let diff: u128 = price_distance(pred.predicted_price, price);
            let ghost so_far = closest(made.take(i as int), price);
            proof {
                assert(made.take(i + 1) =~= made.take(i as int).push(Some(pred)));
                lemma_one_more(made.take(i as int), price, min_diff, Some(pred));
            }
            match min_diff {
                None => {
                    min_diff = Some(diff);
                    winners = one_winner(env, pred);
                },
                Some(current_min) => {
                    if diff < current_min {
                        min_diff = Some(diff);
                        winners = one_winner(env, pred);
                    } else if diff == current_min {
                        add_winner(&mut winners, pred, Ghost(so_far));
                    }
                },
            }
        }
        i = i + 1;
    }
    proof {
        assert(made.take(i as int) =~= made);
    }
    winners
}

/// Predictions, all of them made.
pub open spec fn all_made(predictions: Seq<PrecisionPrediction>) -> Seq<
    Option<PrecisionPrediction>,
> {
    predictions.map_values(|prediction: PrecisionPrediction| Some(prediction))
}

/// Adds up the stakes of the older list of predictions.
fn legacy_pot(predictions: &PredictionList) -> (result: Result<i128, ContractError>)
    ensures
        ({
            let stakes = predictions@.map_values(|p: PrecisionPrediction| p.amount);
            match running_total(stakes) {
                Some(total) => result is Ok && result->Ok_0 == total,
                None => result == Err::<i128, ContractError>(ContractError::PayoutOverflow),
            }
        }),
{
    let ghost stakes = predictions@.map_values(|p: PrecisionPrediction| p.amount);
    let mut total_pot: i128 = 0;
    let count: u32 = predictions.len();
    let mut i: u32 = 0;
    proof {
        assert(stakes.take(0) =~= Seq::empty());
    }
    while i < count
        invariant
            i <= count == predictions@.len(),
            stakes == predictions@.map_values(|p: PrecisionPrediction| p.amount),
            running_total(stakes.take(i as int)) == Some(total_pot as int),
        decreases count - i,
    {
        proof {
            assert(stakes.take(i + 1).drop_last() =~= stakes.take(i as int));
            assert(stakes.take(i + 1).last() == stakes[i as int]);
        }
        if let Some(pred) = predictions.get(i) {
            total_pot = match VirtualTokenContract::payout_add(total_pot, pred.amount) {
                Ok(sum) => sum,
                Err(e) => {
                    proof {
                        lemma_total_refused(stakes, i + 1);
                    }
                    return Err(e);
                },
            };
        }
        i = i + 1;
    }
    proof {
        assert(stakes.take(i as int) =~= stakes);
    }
    Ok(total_pot)
}

/// Tells whether a user is among the winners.
fn is_winner(
    winners: &EntryList,
    user: &Address,
    Ghost(predictions): Ghost<Seq<PrecisionPrediction>>,
) -> (result: bool)
    requires
        winners@ == winner_entries(predictions),
    ensures
        result == exists|i: int|
            0 <= i < predictions.len() && (#[trigger] predictions[i]).user == *user,
{
    let count: u32 = winners.len();
    let mut i: u32 = 0;
    while i < count
        invariant
            i <= count == winners@.len() == predictions.len(),
            winners@ == winner_entries(predictions),
            forall|j: int| 0 <= j < i ==> (#[trigger] predictions[j]).user != *user,
        decreases count - i,
    {
        if let Some((winner, _, _, _)) = winners.get(i) {
            proof {
                assert(winners@[i as int] == winner_entry(predictions[i as int]));
            }
            if winner == *user {
                return true;
            }
        }
        i = i + 1;
    }
    false
}

/// Settles the older list of predictions. Returns the fee.
pub fn _resolve_precision_legacy(
    env: &Env,
    market: &mut Market,
    round_id: u64,
    predictions_map: &PredictionMap,
    final_price: u128,
) -> (result: Result<i128, ContractError>)
    ensures
        (final(market)@, result) == old(market)@.resolve_precision_legacy(
            round_id,
            predictions_map@,
            final_price,
        ),
{
    let predictions = predictions_map.values();
    if predictions.len() == 0 {
        return Ok(0);
    }
    let ghost list = predictions@;
    let ghost closest_ones = closest(all_made(predictions@), final_price);
    let winners = scan_legacy(env, &predictions, final_price);
    let total_pot: i128 = match legacy_pot(&predictions) {
        Ok(total_pot) => total_pot,
        Err(e) => {
            return Err(e);
        },
    };
    if total_pot <= 0 {
        return Ok(0);
    }
    proof {
        assert(all_made(predictions@)[0] is Some);
        lemma_some_closest(all_made(predictions@), final_price);
    }
    let fee: i128 = match pay_winners(
        market,
        round_id,
        &winners,
        total_pot,
        Ghost(closest_ones),
    ) {
        Ok(fee) => fee,
        Err(e) => {
            return Err(e);
        },
    };
    let ghost start = market@;
    let ghost step = lose_legacy_step(round_id, closest_ones);
    let count: u32 = predictions.len();
    let mut i: u32 = 0;
    while i < count
        invariant
            i <= count == predictions@.len(),
            winners@ == winner_entries(closest_ones),
            list == predictions@,
            step == lose_legacy_step(round_id, closest_ones),
            for_each(start, list.take(i as int), step) == done(market@),
            for_each(start, list, step).1 is Err ==> old(market)@.resolve_precision_legacy(
                round_id,
                predictions_map@,
                final_price,
            ) == (
                for_each(start, list, step).0,
                Err::<i128, ContractError>(for_each(start, list, step).1->Err_0),
            ),
        decreases count - i,
    {
        if let Some(pred) = predictions.get(i) {
            proof {
                lemma_for_each_next(start, list, step, i as int);
                assert(list[i as int] == pred);
            }
            if !is_winner(&winners, &pred.user, Ghost(closest_ones)) {
                let record = make_precision_record(
                    pred.user,
                    pred.predicted_price,
                    pred.amount,
                    0,
                    UserOutcomeType::Loss,
                );
                if let Err(e) = record_loss(market, round_id, &record, 0) {
                    proof {
                        lemma_for_each_refused(start, list, step, i + 1);
                    }
                    return Err(e);
                }
            }
        }
        i = i + 1;
    }
    proof {
        assert(list.take(i as int) =~= list);
    }
    Ok(fee)
}

} // verus!
