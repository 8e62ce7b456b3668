//! That a settlement pays out no more than was staked.

use vstd::prelude::*;
use crate::contract::quotient;
use crate::model::MarketView;
use crate::payments::{
    lemma_fee_bounds, lemma_running_total, lemma_settle_pays, lemma_sorted_keeps, lemma_sum_of_two,
    lemma_sum_permuted, lemma_sum_same, pays, sum, total_paid, winner_payments, winnings_of,
    Payment,
};
use crate::precision::lemma_some_closest;
use crate::rules::{closest, running_total, sorted_addresses};
use crate::types::{
    Address, BetSide, OraclePayload, PrecisionPrediction, Round, RoundMode, UserPosition,
};

verus! {

/// Parts of a whole that are in proportion to parts of a pool come to no more
/// than the whole, if the parts of the pool come to no more than the pool.
proof fn lemma_parts_within_whole<T>(
    items: Seq<T>,
    stake: spec_fn(T) -> int,
    payout: spec_fn(T) -> int,
    pool: int,
    whole: int,
)
    requires
        pool > 0,
        whole >= 0,
        forall|i: int|
            0 <= i < items.len() ==> pool * payout(#[trigger] items[i]) <= stake(items[i])
                * whole,
    ensures
        pool * sum(items, payout) <= sum(items, stake) * whole,
        sum(items, stake) <= pool ==> sum(items, payout) <= whole,
    decreases items.len(),
{
    if items.len() > 0 {
        let shorter = items.drop_last();
        assert forall|i: int| 0 <= i < shorter.len() implies pool * payout(#[trigger] shorter[i])
            <= stake(shorter[i]) * whole by {
            assert(shorter[i] == items[i]);
        }
        lemma_parts_within_whole(shorter, stake, payout, pool, whole);
        let last = items[items.len() - 1];
        assert(pool * payout(last) <= stake(last) * whole);
        assert(pool * (sum(shorter, payout) + payout(last)) == pool * sum(shorter, payout) + pool
            * payout(last)) by (nonlinear_arith);
        assert((sum(shorter, stake) + stake(last)) * whole == sum(shorter, stake) * whole + stake(
            last,
        ) * whole) by (nonlinear_arith);
    }
    let paid = sum(items, payout);
    let staked = sum(items, stake);
    if staked <= pool {
        assert(paid <= whole) by (nonlinear_arith)
            requires
                pool > 0,
                whole >= 0,
                staked <= pool,
                pool * paid <= staked * whole,
        ;
    }
}

/// A position's part of the whole is in proportion to its stake.
proof fn lemma_part(position: UserPosition, side: BetSide, pool: int, whole: int)
    requires
        pool > 0,
        whole >= 0,
        position.amount >= 0,
    ensures
        ({
            let stake = if position.side == side {
                position.amount as int
            } else {
                0
            };
            pool * winnings_of(position, side, pool, whole) <= stake * whole
        }),
{
    let scaled = position.amount * whole;
    assert(scaled >= 0 && pool * (scaled / pool) <= scaled) by (nonlinear_arith)
        requires
            scaled == position.amount * whole,
            position.amount >= 0,
            whole >= 0,
            pool > 0,
    ;
    assert(pool * 0 == 0 && 0 * whole == 0) by (nonlinear_arith);
}

/// The winnings of a round on the direction of the price come to no more than
/// what is distributed.
proof fn lemma_winnings_within(
    m: MarketView,
    round: Round,
    users: Seq<Address>,
    side: BetSide,
    pool: int,
    whole: int,
)
    requires
        pool > 0,
        whole >= 0,
        forall|user: Address| #[trigger]
            users.contains(user) ==> m.position_stake(round.round_id, user) >= 0,
        sum(users, |user: Address| m.side_stake(round.round_id, user, side)) <= pool,
    ensures
        total_paid(m.position_winnings(round.round_id, users, side, pool, whole)) <= whole,
{
    let id = round.round_id;
    let stake = |user: Address| m.side_stake(id, user, side);
    let payout = |user: Address|
        match m.positions.get((id, user)) {
            Some(position) => winnings_of(position, side, pool, whole),
            None => 0,
        };
    assert forall|i: int| 0 <= i < users.len() implies pool * payout(#[trigger] users[i])
        <= stake(users[i]) * whole by {
        assert(users.contains(users[i]));
        assert(m.position_stake(id, users[i]) >= 0);
        match m.positions.get((id, users[i])) {
            Some(position) => {
                lemma_part(position, side, pool, whole);
            },
            None => {
                assert(pool * 0 == 0 && 0 * whole == 0) by (nonlinear_arith);
            },
        }
    }
    lemma_parts_within_whole(users, stake, payout, pool, whole);
    lemma_sum_same(
        users,
        m.position_winnings(id, users, side, pool, whole),
        payout,
        |payment: Payment| payment.1,
    );
}

/// The same for the older position list.
proof fn lemma_legacy_within(
    entries: Seq<(Address, UserPosition)>,
    side: BetSide,
    pool: int,
    whole: int,
)
    requires
        pool > 0,
        whole >= 0,
        forall|i: int| 0 <= i < entries.len() ==> (#[trigger] entries[i]).1.amount >= 0,
        sum(
            entries,
            |entry: (Address, UserPosition)|
                if entry.1.side == side {
                    entry.1.amount as int
                } else {
                    0
                },
        ) <= pool,
    ensures
        total_paid(
            entries.map_values(
                |entry: (Address, UserPosition)|
                    (entry.0, winnings_of(entry.1, side, pool, whole)),
            ),
        ) <= whole,
{
    let stake = |entry: (Address, UserPosition)|
        if entry.1.side == side {
            entry.1.amount as int
        } else {
            0
        };
    let payout = |entry: (Address, UserPosition)| winnings_of(entry.1, side, pool, whole);
    assert forall|i: int| 0 <= i < entries.len() implies pool * payout(#[trigger] entries[i])
        <= stake(entries[i]) * whole by {
        lemma_part(entries[i].1, side, pool, whole);
    }
    lemma_parts_within_whole(entries, stake, payout, pool, whole);
    lemma_sum_same(
        entries,
        entries.map_values(
            |entry: (Address, UserPosition)| (entry.0, winnings_of(entry.1, side, pool, whole)),
        ),
        payout,
        |payment: Payment| payment.1,
    );
}

/// The shares of winners come to the whole pool.
pub proof fn lemma_shares_are_whole(winners: Seq<PrecisionPrediction>, pool: int)
    requires
        winners.len() > 0,
    ensures
        total_paid(winner_payments(winners, pool)) == pool,
{
    let n = winners.len() as int;
    let payments = winner_payments(winners, pool);
    lemma_first_shares(winners, pool, n);
    assert(payments.take(n) =~= payments);
    let part = quotient(pool, n);
    assert(n * part == part * n) by (nonlinear_arith);
}

/// What the first winners get.
proof fn lemma_first_shares(winners: Seq<PrecisionPrediction>, pool: int, places: int)
    requires
        1 <= places <= winners.len(),
    ensures
        ({
            let part = quotient(pool, winners.len() as int);
            total_paid(winner_payments(winners, pool).take(places)) == part * places + (pool
                - winners.len() * part)
        }),
    decreases places,
{
    let payments = winner_payments(winners, pool);
    let part = quotient(pool, winners.len() as int);
    let first = payments.take(places);
    assert(first.drop_last() =~= payments.take(places - 1));
    assert(first.last() == payments[places - 1]);
    if places == 1 {
        assert(payments.take(0) =~= Seq::<Payment>::empty());
        reveal_with_fuel(sum, 2);
    } else {
        lemma_first_shares(winners, pool, places - 1);
        assert(part * places == part * (places - 1) + part) by (nonlinear_arith);
    }
}

/// The stakes of both sides together are all stakes.
proof fn lemma_both_sides(m: MarketView, round: Round)
    requires
        round.mode == RoundMode::UpDown,
    ensures
        m.staked(round) == m.staked_on(round, BetSide::Up) + m.staked_on(round, BetSide::Down),
{
    let id = round.round_id;
    let users = m.participants_of(id);
    lemma_sum_of_two(
        users,
        |user: Address| m.side_stake(id, user, BetSide::Up),
        |user: Address| m.side_stake(id, user, BetSide::Down),
        |user: Address| m.position_stake(id, user),
    );
    if let Some(entries) = m.updown_legacy {
        lemma_sum_of_two(
            entries,
            |entry: (Address, UserPosition)|
                if entry.1.side == BetSide::Up {
                    entry.1.amount as int
                } else {
                    0
                },
            |entry: (Address, UserPosition)|
                if entry.1.side == BetSide::Down {
                    entry.1.amount as int
                } else {
                    0
                },
            |entry: (Address, UserPosition)| entry.1.amount as int,
        );
    }
}

/// The members of a list are those of the list in order.
proof fn lemma_sorted_members(addresses: Seq<Address>)
    ensures
        forall|user: Address| #[trigger]
            sorted_addresses(addresses).contains(user) ==> addresses.contains(user),
{
    broadcast use vstd::seq_lib::group_to_multiset_ensures;

    lemma_sorted_keeps(addresses);
    assert forall|user: Address| #[trigger] sorted_addresses(addresses).contains(user) implies
        addresses.contains(user) by {
        assert(sorted_addresses(addresses).to_multiset().count(user) > 0);
        assert(addresses.to_multiset().count(user) > 0);
    }
}

/// A round on the direction of the price pays, with the fee, no more than was
/// staked, and exactly that where the stakes go back.
proof fn lemma_updown_conserves(m: MarketView, round: Round, price: u128)
    requires
        round.mode == RoundMode::UpDown,
        round.wf(),
        m.books_balance(round),
        m.fee_is_fair(),
    ensures
        total_paid(m.updown_payments(round, price)) + m.updown_round_fee(round, price)
            <= m.staked(round),
        m.updown_is_refunded(round, price) ==> total_paid(m.updown_payments(round, price))
            == m.staked(round),
{
    let id = round.round_id;
    let stored = m.participants_of(id);
    let users = sorted_addresses(stored);
    let payments = m.updown_payments(round, price);
    let entries = match m.updown_legacy {
        Some(entries) => entries,
        None => Seq::empty(),
    };
    let (side, winning) = if price > round.price_start {
        (BetSide::Up, round.pool_up as int)
    } else {
        (BetSide::Down, round.pool_down as int)
    };
    let pot = round.pool_up + round.pool_down;
    let whole = pot - m.updown_fee(round);
    lemma_sorted_keeps(stored);
    lemma_sorted_members(stored);
    lemma_both_sides(m, round);
    if let Some(bps) = m.cells.protocol_fee_bps {
        lemma_fee_bounds(pot, bps as int);
    }
    if m.updown_is_refunded(round, price) {
        if users.len() > 0 {
            let stake = |user: Address| m.position_stake(id, user);
            lemma_sum_same(users, payments, stake, |payment: Payment| payment.1);
            lemma_sum_permuted(users, stored, stake);
        } else {
            lemma_sum_same(
                entries,
                payments,
                |entry: (Address, UserPosition)| entry.1.amount as int,
                |payment: Payment| payment.1,
            );
        }
    } else if winning == 0 {
    } else if users.len() > 0 {
        lemma_sum_permuted(users, stored, |user: Address| m.side_stake(id, user, side));
        lemma_winnings_within(m, round, users, side, winning, whole);
    } else {
        lemma_legacy_within(entries, side, winning, whole);
    }
}

/// A round on the price pays, with the fee, no more than was staked, and
/// exactly that where there is a pot.
proof fn lemma_precision_conserves(m: MarketView, round: Round, price: u128)
    requires
        round.mode == RoundMode::Precision,
        m.books_balance(round),
        m.resolve_precision(round.round_id, price).1 is Ok,
    ensures
        total_paid(m.precision_payments(round.round_id, price)) + m.precision_round_fee(
            round.round_id,
            price,
        ) == m.staked(round),
{
    let id = round.round_id;
    let stored = m.participants_of(id);
    let users = sorted_addresses(stored);
    let payments = m.precision_payments(id, price);
    lemma_sorted_keeps(stored);
    if users.len() > 0 {
        let stakes = m.precision_stakes(id, users);
        let stake = |user: Address| m.precision_stake(id, user) as int;
        lemma_running_total(stakes);
        lemma_sum_same(users, stakes, stake, |amount: i128| amount as int);
        lemma_sum_permuted(users, stored, stake);
        assert forall|i: int| 0 <= i < stored.len() implies stake(#[trigger] stored[i]) >= 0 by {
            assert(stored.contains(stored[i]));
        }
        lemma_sum_not_negative(stored, stake);
        let pot = running_total(stakes)->0;
        let winners = closest(m.revealed(id, users), price);
        if pot > 0 {
            if winners.len() == 0 {
                lemma_sum_same(users, payments, stake, |payment: Payment| payment.1);
            } else {
                lemma_shares_are_whole(winners, pot - m.precision_fee(pot));
            }
        }
    } else if let Some(entries) = m.precision_legacy {
        let predictions = entries.map_values(|entry: (Address, PrecisionPrediction)| entry.1);
        let stakes = predictions.map_values(|prediction: PrecisionPrediction| prediction.amount);
        let made = predictions.map_values(|prediction: PrecisionPrediction| Some(prediction));
        let stake = |entry: (Address, PrecisionPrediction)| entry.1.amount as int;
        lemma_sum_same(entries, stakes, stake, |amount: i128| amount as int);
        lemma_sum_not_negative(entries, stake);
        if entries.len() == 0 {
            assert(stakes =~= Seq::empty());
        } else {
            lemma_running_total(stakes);
            let pot = running_total(stakes)->0;
            if pot > 0 {
                assert(made[0] is Some);
                lemma_some_closest(made, price);
                lemma_shares_are_whole(closest(made, price), pot - m.precision_fee(pot));
            }
        }
    }
}

/// A sum of amounts that are not negative is not negative.
pub proof fn lemma_sum_not_negative<T>(items: Seq<T>, amount: spec_fn(T) -> int)
    requires
        forall|i: int| 0 <= i < items.len() ==> amount(#[trigger] items[i]) >= 0,
    ensures
        sum(items, amount) >= 0,
    decreases items.len(),
{
    if items.len() > 0 {
        assert(amount(items[items.len() - 1]) >= 0);
        assert forall|i: int| 0 <= i < items.drop_last().len() implies amount(
            #[trigger] items.drop_last()[i],
        ) >= 0 by {
            assert(items.drop_last()[i] == items[i]);
        }
        lemma_sum_not_negative(items.drop_last(), amount);
    }
}

/// The refund of the older list pays exactly what was staked.
proof fn lemma_older_conserves(m: MarketView, round: Round)
    requires
        m.books_balance(round),
        m.participants_of(round.round_id).len() == 0,
    ensures
        total_paid(m.older_refunds(round)) == m.staked(round),
{
    let payments = m.older_refunds(round);
    let paid = |payment: Payment| payment.1;
    match round.mode {
        RoundMode::UpDown => {
            lemma_sum_same(
                m.older_positions(),
                payments,
                |entry: (Address, UserPosition)| entry.1.amount as int,
                paid,
            );
        },
        RoundMode::Precision => {
            if let Some(entries) = m.precision_legacy {
                assert forall|i: int| 0 <= i < entries.len() implies (
                #[trigger] entries[i]).1.amount == payments[i].1 by {
                    assert(entries[i].1.amount >= 0);
                }
                lemma_sum_same(
                    entries,
                    payments,
                    |entry: (Address, PrecisionPrediction)| entry.1.amount as int,
                    paid,
                );
            }
        },
    }
}

/// A round with too few participants pays exactly what was staked.
proof fn lemma_fallback_conserves(m: MarketView, round: Round, price: u128)
    requires
        m.has_too_few(round),
        m.books_balance(round),
    ensures
        total_paid(m.round_payments(round, price)) == m.staked(round),
{
    let id = round.round_id;
    let users = m.participants_of(id);
    let payments = m.round_payments(round, price);
    assert forall|i: int| 0 <= i < users.len() implies users.contains(#[trigger] users[i]) by {}
    if users.len() == 0 {
        lemma_older_conserves(m, round);
    } else {
        match round.mode {
            RoundMode::UpDown => {
                lemma_sum_same(
                    users,
                    payments,
                    |user: Address| m.position_stake(id, user),
                    |payment: Payment| payment.1,
                );
            },
            RoundMode::Precision => {
                assert forall|i: int| 0 <= i < users.len() implies m.precision_stake(
                    id,
                    #[trigger] users[i],
                ) >= 0 by {
                    assert(users.contains(users[i]));
                }
                lemma_sum_same(
                    users,
                    payments,
                    |user: Address| m.precision_stake(id, user) as int,
                    |payment: Payment| payment.1,
                );
            },
        }
    }
}

/// A settlement pays exactly the users that its payments name, and the
/// treasury exactly the fee; together they never come to more than was staked.
/// They come to exactly that in a round on the price, and wherever the stakes
/// go back.
pub proof fn law_settlement_conserves(
    m: MarketView,
    sequence: u32,
    round: Round,
    payload: OraclePayload,
)
    requires
        round.wf(),
        m.books_balance(round),
        m.fee_is_fair(),
        m.settle_round(sequence, round, payload).1 is Ok,
    ensures
        ({
            let after = m.settle_round(sequence, round, payload).0;
            let payments = m.round_payments(round, payload.price);
            let to_treasury = after.treasury() - m.treasury();
            &&& pays(m, after, payments)
            &&& to_treasury == m.round_fee(round, payload.price)
            &&& total_paid(payments) + to_treasury <= m.staked(round)
            &&& round.mode == RoundMode::Precision || m.has_too_few(round) || m.updown_is_refunded(
                round,
                payload.price,
            ) ==> total_paid(payments) + to_treasury == m.staked(round)
        }),
{
    lemma_settle_pays(m, sequence, round, payload);
    if m.has_too_few(round) {
        lemma_fallback_conserves(m, round, payload.price);
    } else {
        match round.mode {
            RoundMode::UpDown => {
                lemma_updown_conserves(m, round, payload.price);
            },
            RoundMode::Precision => {
                lemma_precision_conserves(m, round, payload.price);
            },
        }
    }
}

} // verus!
