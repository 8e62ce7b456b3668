//! What a settlement pays to one participant.

use vstd::prelude::*;
use crate::conservation::lemma_sum_not_negative;
use crate::frame::lemma_report_only_checked;
use crate::laws::{
    law_cancel_refunds_the_stakes, law_winners_are_the_closest, lemma_resolve_pays,
};
use crate::market::LedgerContext;
use crate::model::{keys_ascend, MarketView};
use crate::payments::{
    credited, lemma_running_total, lemma_sorted_keeps, lemma_sum_permuted, lemma_sum_same, sum,
    winner_payments, winnings_of, Payment,
};
use crate::precision::{all_made, lemma_some_closest};
use crate::rules::{closest, closest_among, is_closest, running_total, share, sorted_addresses};
use crate::types::{
    Address, BetSide, OraclePayload, PrecisionPrediction, Round, RoundMode, UserPosition,
};

verus! {

/// Of payments of which each user gets at most one, a user gets that one.
pub proof fn lemma_credited_once(
    users: Seq<Address>,
    payments: Seq<Payment>,
    amount: spec_fn(Address) -> int,
    user: Address,
)
    requires
        users.no_duplicates(),
        payments.len() == users.len(),
        forall|i: int|
            0 <= i < users.len() ==> #[trigger] payments[i] == (users[i], amount(users[i])),
    ensures
        credited(payments, user) == (if users.contains(user) {
            amount(user)
        } else {
            0
        }),
    decreases users.len(),
{
    if users.len() > 0 {
        let n = users.len() - 1;
        let fewer = users.drop_last();
        assert(fewer.no_duplicates());
        assert forall|i: int| 0 <= i < fewer.len() implies #[trigger] payments.drop_last()[i] == (
            fewer[i],
            amount(fewer[i]),
        ) by {
            assert(payments[i] == (users[i], amount(users[i])));
        }
        lemma_credited_once(fewer, payments.drop_last(), amount, user);
        assert(payments[n] == (users[n], amount(users[n])));
        if fewer.contains(user) {
            let at = choose|at: int| 0 <= at < fewer.len() && fewer[at] == user;
            assert(users[at] == user);
            assert(users[n] != user);
        } else if users.contains(user) {
            let at = choose|at: int| 0 <= at < users.len() && users[at] == user;
            if at < n {
                assert(fewer[at] == user);
            }
        }
        assert(users[n] == users.last());
    }
}

/// A list in order has the members of the list, each as often.
pub proof fn lemma_sorted_once(addresses: Seq<Address>)
    requires
        addresses.no_duplicates(),
    ensures
        sorted_addresses(addresses).no_duplicates(),
        forall|user: Address| #[trigger]
            sorted_addresses(addresses).contains(user) == addresses.contains(user),
{
    broadcast use vstd::seq_lib::group_to_multiset_ensures;

    let sorted = sorted_addresses(addresses);
    lemma_sorted_keeps(addresses);
    assert forall|user: Address| #[trigger] sorted.contains(user) == addresses.contains(user) by {
        assert(sorted.to_multiset().count(user) == addresses.to_multiset().count(user));
    }
    addresses.lemma_multiset_has_no_duplicates();
    sorted.lemma_multiset_has_no_duplicates_conv();
}

/// Where amounts that are not negative come to nothing, each is nothing.
proof fn lemma_each_is_nothing<T>(items: Seq<T>, amount: spec_fn(T) -> int, at: int)
    requires
        forall|i: int| 0 <= i < items.len() ==> amount(#[trigger] items[i]) >= 0,
        sum(items, amount) <= 0,
        0 <= at < items.len(),
    ensures
        amount(items[at]) == 0,
    decreases items.len(),
{
    let fewer = items.drop_last();
    assert forall|i: int| 0 <= i < fewer.len() implies amount(#[trigger] fewer[i]) >= 0 by {
        assert(fewer[i] == items[i]);
    }
    lemma_sum_not_negative(fewer, amount);
    assert(amount(items[items.len() - 1]) >= 0);
    if at < items.len() - 1 {
        lemma_each_is_nothing(fewer, amount, at);
        assert(fewer[at] == items[at]);
    }
}

impl MarketView {
    /// Nobody in a round on the price has revealed a prediction.
    pub open spec fn none_revealed(self, round: Round) -> bool {
        forall|user: Address| #[trigger]
            self.participants_of(round.round_id).contains(user)
                ==> !self.predictions.dom().contains((round.round_id, user))
    }

    /// A round is settled by giving the stakes back: it has too few
    /// participants, the price is what it was, only one side was bet on, or no
    /// prediction was revealed.
    pub open spec fn is_refunded(self, round: Round, price: u128) -> bool {
        self.has_too_few(round) || match round.mode {
            RoundMode::UpDown => self.updown_is_refunded(round, price),
            RoundMode::Precision => self.participants_of(round.round_id).len() > 0
                && self.none_revealed(round),
        }
    }

    /// The stake of a user in a round.
    pub open spec fn stake_of(self, round: Round, user: Address) -> int {
        match round.mode {
            RoundMode::UpDown => self.position_stake(round.round_id, user),
            RoundMode::Precision => self.precision_stake(round.round_id, user) as int,
        }
    }
}

/// Where a round is settled by giving the stakes back, every participant gets
/// exactly the stake back, nobody else gets anything, and no fee is taken.
pub proof fn law_refunded_round_gives_the_stakes_back(
    m: MarketView,
    ctx: &LedgerContext,
    payload: OraclePayload,
    user: Address,
)
    requires
        m.wf(),
        m.cells.active_round is Some,
        m.cells.active_round->0.mode == RoundMode::Precision ==> m.books_balance(
            m.cells.active_round->0,
        ),
        m.participants_of(m.cells.active_round->0.round_id).no_duplicates(),
        m.participants_of(m.cells.active_round->0.round_id).len() > 0,
        m.is_refunded(m.cells.active_round->0, payload.price),
        m.resolve_round(ctx, payload).1 is Ok,
    ensures
        ({
            let round = m.cells.active_round->0;
            let after = m.resolve_round(ctx, payload).0;
            &&& after.pending_of(user) == m.pending_of(user) + (if m.participants_of(
                round.round_id,
            ).contains(user) {
                m.stake_of(round, user)
            } else {
                0
            })
            &&& after.treasury() == m.treasury()
        }),
{
    let round = m.cells.active_round->0;
    let id = round.round_id;
    let stored = m.participants_of(id);
    let users = sorted_addresses(stored);
    let payments = m.round_payments(round, payload.price);
    let amount = |u: Address| m.stake_of(round, u);
    lemma_resolve_pays(m, ctx, payload);
    lemma_sorted_once(stored);
    lemma_sorted_keeps(stored);
    if m.has_too_few(round) {
        assert forall|i: int| 0 <= i < stored.len() implies #[trigger] payments[i] == (
            stored[i],
            amount(stored[i]),
        ) by {
            assert(stored.contains(stored[i]));
        }
        lemma_credited_once(stored, payments, amount, user);
    } else {
        match round.mode {
            RoundMode::UpDown => {
                lemma_credited_once(users, payments, amount, user);
            },
            RoundMode::Precision => {
                let revealed = m.revealed(id, users);
                assert forall|i: int| 0 <= i < revealed.len() implies (
                #[trigger] revealed[i]) is None by {
                    assert(users.contains(users[i]));
                    assert(stored.contains(users[i]));
                }
                law_winners_are_the_closest(revealed, payload.price, arbitrary());
                let stakes = m.precision_stakes(id, users);
                lemma_report_only_checked(m, ctx, payload);
                lemma_total_exists(m, ctx, payload);
                let pot = running_total(stakes)->0;
                if pot > 0 {
                    lemma_credited_once(users, payments, amount, user);
                } else {
                    lemma_running_total(stakes);
                    lemma_sum_same(users, stakes, amount, |stake: i128| stake as int);
                    assert forall|i: int| 0 <= i < users.len() implies amount(#[trigger] users[i])
                        >= 0 by {
                        assert(users.contains(users[i]));
                    }
                    if users.contains(user) {
                        let at = choose|at: int| 0 <= at < users.len() && users[at] == user;
                        lemma_each_is_nothing(users, amount, at);
                    }
                }
            },
        }
    }
}

/// Of payments to the users of a list of entries, each user gets the one for
/// the user's own entry.
proof fn lemma_credited_entry<V>(
    entries: Seq<(Address, V)>,
    payments: Seq<Payment>,
    value: spec_fn((Address, V)) -> int,
    user: Address,
)
    requires
        keys_ascend(entries),
        payments.len() == entries.len(),
        forall|i: int|
            0 <= i < entries.len() ==> #[trigger] payments[i] == (
                entries[i].0,
                value(entries[i]),
            ),
    ensures
        forall|i: int|
            0 <= i < entries.len() && (#[trigger] entries[i]).0 == user ==> credited(payments, user)
                == value(entries[i]),
        (forall|i: int| 0 <= i < entries.len() ==> (#[trigger] entries[i]).0 != user)
            ==> credited(payments, user) == 0,
{
    let names = entries.map_values(|entry: (Address, V)| entry.0);
    let amount = |u: Address| value(entries[names.index_of(u)]);
    assert(names.no_duplicates()) by {
        assert forall|i: int, j: int| 0 <= i < names.len() && 0 <= j < names.len() && i
            != j implies names[i] != names[j] by {
            if i < j {
                assert(entries[i].0 != entries[j].0);
            } else {
                assert(entries[j].0 != entries[i].0);
            }
        }
    }
    assert forall|i: int| 0 <= i < names.len() implies #[trigger] payments[i] == (
        names[i],
        amount(names[i]),
    ) by {
        assert(names.contains(names[i]));
        assert(names[names.index_of(names[i])] == names[i]);
    }
    lemma_credited_once(names, payments, amount, user);
    assert forall|i: int| 0 <= i < entries.len() && (
    #[trigger] entries[i]).0 == user implies credited(payments, user) == value(entries[i]) by {
        assert(names[i] == user);
        assert(names.contains(user));
        assert(names[names.index_of(user)] == user);
    }
    if forall|i: int| 0 <= i < entries.len() ==> (#[trigger] entries[i]).0 != user {
        assert(!names.contains(user)) by {
            if names.contains(user) {
                let k = choose|k: int| 0 <= k < names.len() && names[k] == user;
                assert(entries[k].0 == user);
            }
        }
    }
}

/// Where nobody is listed as a participant, a round on the direction of the
/// price is settled by its older list of positions. Where that is too few, the
/// price is what it was, or only one side was bet on, every user in that list
/// gets exactly the stake back, and no fee is taken. Otherwise every
/// user in it gets a part of all that is left after the fee, in proportion to
/// the stake, for a stake on the side that has won, and nothing for one on the
/// other. Nobody else gets anything.
pub proof fn law_older_positions_are_paid(
    m: MarketView,
    ctx: &LedgerContext,
    payload: OraclePayload,
    user: Address,
)
    requires
        m.wf(),
        m.cells.active_round is Some,
        m.cells.active_round->0.mode == RoundMode::UpDown,
        m.participants_of(m.cells.active_round->0.round_id).len() == 0,
        m.updown_legacy is Some,
        m.resolve_round(ctx, payload).1 is Ok,
    ensures
        ({
            let round = m.cells.active_round->0;
            let entries = m.updown_legacy->0;
            let after = m.resolve_round(ctx, payload).0;
            let fee = m.updown_fee(round);
            let whole = round.pool_up + round.pool_down - fee;
            let (side, pool) = if payload.price > round.price_start {
                (BetSide::Up, round.pool_up as int)
            } else {
                (BetSide::Down, round.pool_down as int)
            };
            let refunded = m.is_refunded(round, payload.price);
            &&& refunded ==> after.treasury() == m.treasury()
            &&& !refunded && entries.len() > 0 && pool > 0 ==> after.treasury() == m.treasury()
                + fee
            &&& forall|i: int|
                0 <= i < entries.len() && (#[trigger] entries[i]).0 == user && refunded
                    ==> after.pending_of(user) == m.pending_of(user) + entries[i].1.amount
            &&& forall|i: int|
                0 <= i < entries.len() && (#[trigger] entries[i]).0 == user && !refunded && pool > 0
                    ==> after.pending_of(user) == m.pending_of(user) + winnings_of(
                    entries[i].1,
                    side,
                    pool,
                    whole,
                )
            &&& (forall|i: int| 0 <= i < entries.len() ==> (#[trigger] entries[i]).0 != user)
                ==> after.pending_of(user) == m.pending_of(user)
        }),
{
    let round = m.cells.active_round->0;
    let entries = m.updown_legacy->0;
    let payments = m.round_payments(round, payload.price);
    let whole = round.pool_up + round.pool_down - m.updown_fee(round);
    let (side, pool) = if payload.price > round.price_start {
        (BetSide::Up, round.pool_up as int)
    } else {
        (BetSide::Down, round.pool_down as int)
    };
    lemma_resolve_pays(m, ctx, payload);
    lemma_sorted_keeps(m.participants_of(round.round_id));
    if m.is_refunded(round, payload.price) {
        lemma_credited_entry(
            entries,
            payments,
            |entry: (Address, UserPosition)| entry.1.amount as int,
            user,
        );
    } else if pool > 0 {
        lemma_credited_entry(
            entries,
            payments,
            |entry: (Address, UserPosition)| winnings_of(entry.1, side, pool, whole),
            user,
        );
    }
}

/// A round on the price that was settled had a pot that could be summed up.
proof fn lemma_total_exists(m: MarketView, ctx: &LedgerContext, payload: OraclePayload)
    requires
        m.cells.active_round is Some,
        m.cells.active_round->0.mode == RoundMode::Precision,
        !m.has_too_few(m.cells.active_round->0),
        m.participants_of(m.cells.active_round->0.round_id).len() > 0,
        m.resolve_round(ctx, payload).1 is Ok,
    ensures
        ({
            let id = m.cells.active_round->0.round_id;
            let users = sorted_addresses(m.participants_of(id));
            running_total(m.precision_stakes(id, users)) is Some
        }),
{
    let id = m.cells.active_round->0.round_id;
    let users = sorted_addresses(m.participants_of(id));
    let checked = m.check_report(ctx, payload).0;
    lemma_report_only_checked(m, ctx, payload);
    lemma_sorted_keeps(m.participants_of(id));
    assert(checked.precision_stakes(id, users) =~= m.precision_stakes(id, users));
}

/// Where the price went one way and both sides were bet on, a participant gets
/// a part of all that is left after the fee, in proportion to the stake, for a
/// stake on that side, and nothing for one on the other.
pub proof fn law_winner_gets_a_proportional_part(
    m: MarketView,
    ctx: &LedgerContext,
    payload: OraclePayload,
    user: Address,
)
    requires
        m.wf(),
        m.cells.active_round is Some,
        m.participants_of(m.cells.active_round->0.round_id).no_duplicates(),
        m.participants_of(m.cells.active_round->0.round_id).len() > 0,
        m.cells.active_round->0.mode == RoundMode::UpDown,
        !m.is_refunded(m.cells.active_round->0, payload.price),
        m.cells.active_round->0.pool_up > 0,
        m.resolve_round(ctx, payload).1 is Ok,
    ensures
        ({
            let round = m.cells.active_round->0;
            let after = m.resolve_round(ctx, payload).0;
            let whole = round.pool_up + round.pool_down - m.updown_fee(round);
            let (side, pool) = if payload.price > round.price_start {
                (BetSide::Up, round.pool_up as int)
            } else {
                (BetSide::Down, round.pool_down as int)
            };
            &&& after.pending_of(user) == m.pending_of(user) + (match m.positions.get(
                (round.round_id, user),
            ) {
                Some(position) => if m.participants_of(round.round_id).contains(user) {
                    winnings_of(position, side, pool, whole)
                } else {
                    0
                },
                None => 0,
            })
            &&& after.treasury() == m.treasury() + m.updown_fee(round)
        }),
{
    let round = m.cells.active_round->0;
    let id = round.round_id;
    let stored = m.participants_of(id);
    let users = sorted_addresses(stored);
    let payments = m.round_payments(round, payload.price);
    let whole = round.pool_up + round.pool_down - m.updown_fee(round);
    let (side, pool) = if payload.price > round.price_start {
        (BetSide::Up, round.pool_up as int)
    } else {
        (BetSide::Down, round.pool_down as int)
    };
    let amount = |u: Address|
        match m.positions.get((id, u)) {
            Some(position) => winnings_of(position, side, pool, whole),
            None => 0,
        };
    lemma_resolve_pays(m, ctx, payload);
    lemma_sorted_once(stored);
    lemma_sorted_keeps(stored);
    assert(payments == m.position_winnings(id, users, side, pool, whole));
    lemma_credited_once(users, payments, amount, user);
}

impl MarketView {
    /// Every prediction of a participant is filed under the user who made it.
    pub open spec fn predictions_are_filed(self, round: Round) -> bool {
        forall|user: Address|
            self.participants_of(round.round_id).contains(user) && (
            #[trigger] self.predictions.dom().contains((round.round_id, user)))
                ==> self.predictions[(round.round_id, user)].user == user
    }
}

/// Where every prediction is filed under the user who made it, each user once,
/// the closest among the first of them are of different users, and all of them
/// are of those users.
pub proof fn lemma_winners_are_different(
    users: Seq<Address>,
    predictions: Seq<Option<PrecisionPrediction>>,
    price: u128,
    places: nat,
)
    requires
        places <= users.len() == predictions.len(),
        users.no_duplicates(),
        forall|i: int|
            0 <= i < users.len() && (#[trigger] predictions[i]) is Some ==> predictions[i]->0.user
                == users[i],
    ensures
        ({
            let winners = closest_among(predictions, price, places);
            &&& forall|i: int, j: int|
                0 <= i < j < winners.len() ==> (#[trigger] winners[i]).user != (
                #[trigger] winners[j]).user
            &&& forall|i: int|
                0 <= i < winners.len() ==> users.take(places as int).contains(
                    (#[trigger] winners[i]).user,
                )
        }),
    decreases places,
{
    if places > 0 {
        let fewer = (places - 1) as nat;
        let before = closest_among(predictions, price, fewer);
        let winners = closest_among(predictions, price, places);
        let last = users[places - 1];
        lemma_winners_are_different(users, predictions, price, fewer);
        assert(users.take(places as int)[places - 1] == last);
        assert forall|i: int| 0 <= i < before.len() implies {
            &&& before[i].user != last
            &&& users.take(places as int).contains((#[trigger] before[i]).user)
        } by {
            let shorter = users.take(fewer as int);
            let at = choose|at: int| 0 <= at < shorter.len() && shorter[at] == before[i].user;
            assert(users[at] == before[i].user);
            assert(users.take(places as int)[at] == before[i].user);
        }
        if is_closest(predictions, price, places - 1) {
            assert(predictions[places - 1] is Some);
            assert(winners[before.len() as int].user == last);
        }
    }
}

/// Of the payments to different winners, each gets the winner's own share.
proof fn lemma_credited_share(winners: Seq<PrecisionPrediction>, pool: int, user: Address)
    requires
        forall|i: int, j: int|
            0 <= i < j < winners.len() ==> (#[trigger] winners[i]).user != (
            #[trigger] winners[j]).user,
    ensures
        forall|i: int|
            0 <= i < winners.len() && (#[trigger] winners[i]).user == user ==> credited(
                winner_payments(winners, pool),
                user,
            ) == share(pool, winners.len() as int, i),
        (forall|i: int| 0 <= i < winners.len() ==> (#[trigger] winners[i]).user != user)
            ==> credited(winner_payments(winners, pool), user) == 0,
{
    let payments = winner_payments(winners, pool);
    let names = winners.map_values(|winner: PrecisionPrediction| winner.user);
    let amount = |u: Address| share(pool, winners.len() as int, names.index_of(u));
    assert(names.no_duplicates()) by {
        assert forall|i: int, j: int| 0 <= i < names.len() && 0 <= j < names.len() && i
            != j implies names[i] != names[j] by {
            if i < j {
                assert(winners[i].user != winners[j].user);
            } else {
                assert(winners[j].user != winners[i].user);
            }
        }
    }
    assert forall|i: int| 0 <= i < names.len() implies #[trigger] payments[i] == (
        names[i],
        amount(names[i]),
    ) by {
        assert(names.contains(names[i]));
        assert(names[names.index_of(names[i])] == names[i]);
    }
    lemma_credited_once(names, payments, amount, user);
    assert forall|i: int| 0 <= i < winners.len() && (
    #[trigger] winners[i]).user == user implies credited(payments, user) == share(
        pool,
        winners.len() as int,
        i,
    ) by {
        assert(names[i] == user);
        assert(names.contains(user));
        assert(names[names.index_of(user)] == user);
    }
    if forall|i: int| 0 <= i < winners.len() ==> (#[trigger] winners[i]).user != user {
        assert(!names.contains(user)) by {
            if names.contains(user) {
                let k = choose|k: int| 0 <= k < names.len() && names[k] == user;
                assert(winners[k].user == user);
            }
        }
    }
}

/// In a round on the price with a revealed prediction, the closest predictions
/// share all that is left of the pot after the fee in equal parts, and the
/// first of them also gets what does not divide; nobody else gets anything.
pub proof fn law_closest_share_the_pot(
    m: MarketView,
    ctx: &LedgerContext,
    payload: OraclePayload,
    user: Address,
)
    requires
        m.wf(),
        m.cells.active_round is Some,
        m.participants_of(m.cells.active_round->0.round_id).no_duplicates(),
        m.participants_of(m.cells.active_round->0.round_id).len() > 0,
        m.predictions_are_filed(m.cells.active_round->0),
        m.cells.active_round->0.mode == RoundMode::Precision,
        !m.is_refunded(m.cells.active_round->0, payload.price),
        m.staked(m.cells.active_round->0) > 0,
        m.resolve_round(ctx, payload).1 is Ok,
    ensures
        ({
            let round = m.cells.active_round->0;
            let after = m.resolve_round(ctx, payload).0;
            let users = sorted_addresses(m.participants_of(round.round_id));
            let winners = closest(m.revealed(round.round_id, users), payload.price);
            let pot = m.staked(round);
            let pool = pot - m.precision_fee(pot);
            &&& after.treasury() == m.treasury() + m.precision_fee(pot)
            &&& forall|i: int|
                0 <= i < winners.len() && (#[trigger] winners[i]).user == user
                    ==> after.pending_of(user) == m.pending_of(user) + share(
                    pool,
                    winners.len() as int,
                    i,
                )
            &&& (forall|i: int|
                0 <= i < winners.len() ==> (#[trigger] winners[i]).user != user)
                ==> after.pending_of(user) == m.pending_of(user)
        }),
{
    let round = m.cells.active_round->0;
    let id = round.round_id;
    let stored = m.participants_of(id);
    let users = sorted_addresses(stored);
    let revealed = m.revealed(id, users);
    let winners = closest(revealed, payload.price);
    let stakes = m.precision_stakes(id, users);
    let stake = |u: Address| m.precision_stake(id, u) as int;
    lemma_resolve_pays(m, ctx, payload);
    let one = choose|u: Address| #[trigger]
        stored.contains(u) && m.predictions.dom().contains((id, u));
    assert(stored.contains(one) && m.predictions.dom().contains((id, one)));
    lemma_sorted_once(stored);
    lemma_sorted_keeps(stored);
    assert(users.contains(one));
    let at = choose|at: int| 0 <= at < users.len() && users[at] == one;
    assert(revealed[at] is Some);
    lemma_some_closest(revealed, payload.price);
    lemma_total_exists(m, ctx, payload);
    lemma_running_total(stakes);
    lemma_sum_same(users, stakes, stake, |amount: i128| amount as int);
    lemma_sum_permuted(users, stored, stake);
    let pot = m.staked(round);
    assert(running_total(stakes) == Some(pot));
    let pool = pot - m.precision_fee(pot);
    let payments = m.round_payments(round, payload.price);
    assert(payments == winner_payments(winners, pool));
    assert forall|i: int| 0 <= i < users.len() && (#[trigger] revealed[i]) is Some implies
        revealed[i]->0.user == users[i] by {
        assert(users.contains(users[i]));
        assert(stored.contains(users[i]));
        assert(m.predictions.dom().contains((id, users[i])));
    }
    lemma_winners_are_different(users, revealed, payload.price, users.len());
    lemma_credited_share(winners, pool, user);
}

/// Where nobody is listed as a participant, a round on the price is settled by
/// its older list of predictions: the closest of them share all that is left of
/// the pot after the fee in equal parts, and the first of them also gets what
/// does not divide; nobody else gets anything.
pub proof fn law_older_predictions_share_the_pot(
    m: MarketView,
    ctx: &LedgerContext,
    payload: OraclePayload,
    user: Address,
)
    requires
        m.wf(),
        m.cells.active_round is Some,
        m.cells.active_round->0.mode == RoundMode::Precision,
        m.participants_of(m.cells.active_round->0.round_id).len() == 0,
        !m.has_too_few(m.cells.active_round->0),
        m.precision_legacy is Some,
        m.older_predictions_are_filed(),
        m.staked(m.cells.active_round->0) > 0,
        m.resolve_round(ctx, payload).1 is Ok,
    ensures
        ({
            let round = m.cells.active_round->0;
            let after = m.resolve_round(ctx, payload).0;
            let winners = closest(
                all_made(
                    m.precision_legacy->0.map_values(
                        |entry: (Address, PrecisionPrediction)| entry.1,
                    ),
                ),
                payload.price,
            );
            let pot = m.staked(round);
            let pool = pot - m.precision_fee(pot);
            &&& after.treasury() == m.treasury() + m.precision_fee(pot)
            &&& forall|i: int|
                0 <= i < winners.len() && (#[trigger] winners[i]).user == user
                    ==> after.pending_of(user) == m.pending_of(user) + share(
                    pool,
                    winners.len() as int,
                    i,
                )
            &&& (forall|i: int|
                0 <= i < winners.len() ==> (#[trigger] winners[i]).user != user)
                ==> after.pending_of(user) == m.pending_of(user)
        }),
{
    let round = m.cells.active_round->0;
    let id = round.round_id;
    let entries = m.precision_legacy->0;
    let predictions = entries.map_values(|entry: (Address, PrecisionPrediction)| entry.1);
    let stakes = predictions.map_values(|prediction: PrecisionPrediction| prediction.amount);
    let made = all_made(predictions);
    let winners = closest(made, payload.price);
    let names = entries.map_values(|entry: (Address, PrecisionPrediction)| entry.0);
    let pot = m.staked(round);
    let pool = pot - m.precision_fee(pot);
    lemma_resolve_pays(m, ctx, payload);
    lemma_report_only_checked(m, ctx, payload);
    lemma_sorted_keeps(m.participants_of(id));
    assert(running_total(stakes) is Some) by {
        if entries.len() == 0 {
            assert(stakes =~= Seq::empty());
        }
    }
    lemma_running_total(stakes);
    lemma_sum_same(
        entries,
        stakes,
        |entry: (Address, PrecisionPrediction)| entry.1.amount as int,
        |amount: i128| amount as int,
    );
    assert(running_total(stakes) == Some(pot));
    assert(m.round_payments(round, payload.price) == winner_payments(winners, pool));
    assert(names.no_duplicates()) by {
        assert forall|i: int, j: int| 0 <= i < names.len() && 0 <= j < names.len() && i
            != j implies names[i] != names[j] by {
            if i < j {
                assert(entries[i].0 != entries[j].0);
            } else {
                assert(entries[j].0 != entries[i].0);
            }
        }
    }
    assert forall|i: int| 0 <= i < names.len() && (#[trigger] made[i]) is Some implies
        made[i]->0.user == names[i] by {
        assert(entries[i].1.user == entries[i].0);
    }
    lemma_winners_are_different(names, made, payload.price, names.len());
    lemma_credited_share(winners, pool, user);
}

impl MarketView {
    /// A user has a stake in the older list of a round.
    pub open spec fn has_older_stake(self, round: Round, user: Address, stake: int) -> bool {
        match round.mode {
            RoundMode::UpDown => exists|i: int|
                0 <= i < self.older_positions().len() && (
                #[trigger] self.older_positions()[i]).0 == user
                    && self.older_positions()[i].1.amount == stake,
            RoundMode::Precision => exists|i: int|
                0 <= i < self.older_predictions().len() && (
                #[trigger] self.older_predictions()[i]).user == user
                    && self.older_predictions()[i].amount == stake,
        }
    }

    /// Every prediction of the older list is filed under the user who made it.
    pub open spec fn older_predictions_are_filed(self) -> bool {
        self.precision_legacy matches Some(entries) ==> forall|i: int|
            0 <= i < entries.len() ==> (#[trigger] entries[i]).1.user == entries[i].0
    }
}

/// Of the refunds of the older list, a user gets the user's own stake.
proof fn lemma_older_credited(m: MarketView, round: Round, user: Address, stake: int)
    requires
        m.wf(),
        m.older_predictions_are_filed(),
        stake >= 0,
    ensures
        m.has_older_stake(round, user, stake) ==> credited(m.older_refunds(round), user) == stake,
        (forall|other: int| !#[trigger] m.has_older_stake(round, user, other)) ==> credited(
            m.older_refunds(round),
            user,
        ) == 0,
{
    let payments = m.older_refunds(round);
    match round.mode {
        RoundMode::UpDown => {
            let entries = m.older_positions();
            lemma_credited_entry(
                entries,
                payments,
                |entry: (Address, UserPosition)| entry.1.amount as int,
                user,
            );
            if forall|other: int| !#[trigger] m.has_older_stake(round, user, other) {
                assert forall|i: int| 0 <= i < entries.len() implies (
                #[trigger] entries[i]).0 != user by {
                    assert(!m.has_older_stake(round, user, entries[i].1.amount as int));
                }
            }
        },
        RoundMode::Precision => {
            let list = m.older_predictions();
            let entries = match m.precision_legacy {
                Some(entries) => entries,
                None => Seq::empty(),
            };
            let value = |entry: (Address, PrecisionPrediction)|
                if entry.1.amount > 0 {
                    entry.1.amount as int
                } else {
                    0
                };
            assert forall|i: int| 0 <= i < entries.len() implies #[trigger] payments[i] == (
                entries[i].0,
                value(entries[i]),
            ) by {
                assert(entries[i].1.user == entries[i].0);
                assert(list[i] == entries[i].1);
            }
            lemma_credited_entry(entries, payments, value, user);
            if m.has_older_stake(round, user, stake) {
                let i = choose|i: int|
                    0 <= i < list.len() && (#[trigger] list[i]).user == user && list[i].amount
                        == stake;
                assert(list[i] == entries[i].1);
                assert(entries[i].1.user == entries[i].0);
            }
            if forall|other: int| !#[trigger] m.has_older_stake(round, user, other) {
                assert forall|i: int| 0 <= i < entries.len() implies (
                #[trigger] entries[i]).0 != user by {
                    assert(list[i] == entries[i].1);
                    assert(entries[i].1.user == entries[i].0);
                    assert(!m.has_older_stake(round, user, list[i].amount as int));
                }
            }
        },
    }
}

/// Where nobody is listed as a participant, the cancellation of a round gives
/// every user in the older list exactly the stake back, and nothing to anybody
/// else.
pub proof fn law_cancel_refunds_the_older_stakes(
    m: MarketView,
    sequence: u32,
    reason: u32,
    user: Address,
    stake: int,
)
    requires
        m.wf(),
        m.older_predictions_are_filed(),
        m.cells.active_round matches Some(round) ==> m.participants_of(round.round_id).len() == 0,
        stake >= 0,
        m.cancel_round(sequence, reason).1 is Ok,
    ensures
        m.cells.active_round is Some,
        ({
            let round = m.cells.active_round->0;
            let after = m.cancel_round(sequence, reason).0;
            &&& m.has_older_stake(round, user, stake) ==> after.pending_of(user) == m.pending_of(
                user,
            ) + stake
            &&& (forall|other: int| !#[trigger] m.has_older_stake(round, user, other))
                ==> after.pending_of(user) == m.pending_of(user)
        }),
{
    law_cancel_refunds_the_stakes(m, sequence, reason, user);
    lemma_older_credited(m, m.cells.active_round->0, user, stake);
}

/// Where nobody is listed as a participant and that is too few, a report gives
/// every user in the older list exactly the stake back, and nothing to anybody
/// else; no fee is taken, and the older lists are forgotten.
pub proof fn law_fallback_refunds_the_older_stakes(
    m: MarketView,
    ctx: &LedgerContext,
    payload: OraclePayload,
    user: Address,
    stake: int,
)
    requires
        m.wf(),
        m.older_predictions_are_filed(),
        m.cells.active_round matches Some(round) ==> m.participants_of(round.round_id).len() == 0
            && m.has_too_few(round),
        stake >= 0,
        m.resolve_round(ctx, payload).1 is Ok,
    ensures
        m.cells.active_round is Some,
        ({
            let round = m.cells.active_round->0;
            let after = m.resolve_round(ctx, payload).0;
            &&& m.has_older_stake(round, user, stake) ==> after.pending_of(user) == m.pending_of(
                user,
            ) + stake
            &&& (forall|other: int| !#[trigger] m.has_older_stake(round, user, other))
                ==> after.pending_of(user) == m.pending_of(user)
            &&& after.treasury() == m.treasury()
            &&& after.updown_legacy is None
            &&& after.precision_legacy is None
        }),
{
    lemma_resolve_pays(m, ctx, payload);
    lemma_report_only_checked(m, ctx, payload);
    lemma_older_credited(m, m.cells.active_round->0, user, stake);
}

} // verus!
