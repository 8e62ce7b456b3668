//! Who wins a round on the price, and what each participant gets.

use vstd::prelude::*;
use vstd::arithmetic::div_mod::lemma_fundamental_div_mod;
use crate::accounts::{
    concerns_only, goes_on, is_loser_told, is_untouched, is_winner_paid, lemma_account_carried,
    lemma_records_made, lemma_resolve_is_payment, lemma_steps_apart, lemma_untouched, same_account,
    same_results,
};
use crate::common::lemma_address_order;
use crate::frame::lemma_mode_only_pays;
use crate::laws::law_winners_are_the_closest;
use crate::market::LedgerContext;
use crate::model::{for_each, MarketView};
use crate::payments::{lemma_running_total, lemma_sorted_keeps, lemma_sum_permuted, lemma_sum_same};
use crate::precision::{all_made, lemma_share_fits, lemma_some_closest};
use crate::readings::law_fee_on_a_pot;
use crate::refunds::{lemma_each_done, lemma_older_are_different, stake_told};
use crate::rules::{
    closest, closest_among, distance, is_closest, lose_legacy_step, lose_step, pay_step,
    running_total, share, shares, sorted_addresses,
};
use crate::shares::{lemma_sorted_once, lemma_winners_are_different};
use crate::types::{
    Address, OraclePayload, PrecisionEntry, PrecisionPrediction, Round, RoundMode, UserOutcomeType,
};

verus! {

impl MarketView {
    /// A participant has revealed a price, and no participant has revealed one
    /// that is nearer: the difference to the price is no smaller for any other.
    pub open spec fn is_nearest(self, round: Round, price: u128, user: Address) -> bool {
        let id = round.round_id;
        let users = self.participants_of(id);
        &&& users.contains(user)
        &&& self.predictions.dom().contains((id, user))
        &&& forall|other: Address|
            users.contains(other) && #[trigger] self.predictions.dom().contains((id, other)) ==> {
                let mine = self.predictions[(id, user)].predicted_price;
                let theirs = self.predictions[(id, other)].predicted_price;
                (if mine >= price {
                    mine - price
                } else {
                    price - mine
                }) <= (if theirs >= price {
                    theirs - price
                } else {
                    price - theirs
                })
            }
    }

    /// The same of a user in the older list of predictions.
    pub open spec fn is_nearest_older(self, price: u128, user: Address) -> bool {
        let list = self.older_predictions();
        exists|i: int|
            {
                &&& 0 <= i < list.len()
                &&& (#[trigger] list[i]).user == user
                &&& forall|j: int|
                    0 <= j < list.len() ==> {
                        let mine = list[i].predicted_price;
                        let theirs = (#[trigger] list[j]).predicted_price;
                        (if mine >= price {
                            mine - price
                        } else {
                            price - mine
                        }) <= (if theirs >= price {
                            theirs - price
                        } else {
                            price - theirs
                        })
                    }
            }
    }

    /// What is left of a pot after the fee, which is a number of
    /// ten-thousandths of it, rounded down.
    pub open spec fn left_of_pot(self, pot: int) -> int {
        match self.cells.protocol_fee_bps {
            None => pot,
            Some(bps) => pot - (pot * bps) / 10_000,
        }
    }
}

/// What the nearest get of a pool: equal parts, and what does not divide goes
/// to the one whose address comes first.
pub open spec fn part_of_pool(pool: int, nearest: Set<Address>, user: Address) -> int {
    let n = nearest.len() as int;
    let first = forall|other: Address| #[trigger]
        nearest.contains(other) ==> user.at_or_before(other);
    pool / n + (if first {
        pool % n
    } else {
        0
    })
}

/// The first of the winners is the one at the first place that is closest.
pub proof fn lemma_first_winner(
    predictions: Seq<Option<PrecisionPrediction>>,
    price: u128,
    places: nat,
) -> (at: int)
    requires
        places <= predictions.len(),
        closest_among(predictions, price, places).len() > 0,
    ensures
        0 <= at < places,
        is_closest(predictions, price, at),
        closest_among(predictions, price, places)[0] == predictions[at]->0,
        forall|j: int| 0 <= j < at ==> !#[trigger] is_closest(predictions, price, j),
    decreases places,
{
    let fewer = (places - 1) as nat;
    if closest_among(predictions, price, fewer).len() > 0 {
        lemma_first_winner(predictions, price, fewer)
    } else {
        assert forall|j: int| 0 <= j < fewer implies !#[trigger] is_closest(
            predictions,
            price,
            j,
        ) by {
            if is_closest(predictions, price, j) {
                lemma_closest_counts(predictions, price, fewer, j);
            }
        }
        places - 1
    }
}

/// Where one of the first places is closest, there is a winner among them.
proof fn lemma_closest_counts(
    predictions: Seq<Option<PrecisionPrediction>>,
    price: u128,
    places: nat,
    at: int,
)
    requires
        0 <= at < places,
        is_closest(predictions, price, at),
    ensures
        closest_among(predictions, price, places).len() > 0,
    decreases places,
{
    if at < places - 1 {
        lemma_closest_counts(predictions, price, (places - 1) as nat, at);
    }
}

/// The users at the places that are closest.
pub open spec fn closest_users(
    users: Seq<Address>,
    predictions: Seq<Option<PrecisionPrediction>>,
    price: u128,
) -> Set<Address> {
    Set::new(
        |user: Address|
            exists|j: int|
                0 <= j < users.len() && #[trigger] is_closest(predictions, price, j) && users[j]
                    == user,
    )
}

/// The winners are as many as there are users at closest places, and the share
/// of each is the part that the user gets of the pool.
pub proof fn lemma_winners_ranked(
    users: Seq<Address>,
    predictions: Seq<Option<PrecisionPrediction>>,
    price: u128,
    k: int,
    pool: int,
) -> (i: int)
    requires
        users.len() == predictions.len(),
        users.no_duplicates(),
        forall|a: int, b: int|
            0 <= a < b < users.len() ==> (#[trigger] users[a]).at_or_before(#[trigger] users[b]),
        forall|j: int|
            0 <= j < users.len() && (#[trigger] predictions[j]) is Some ==> predictions[j]->0.user
                == users[j],
        0 <= k < users.len(),
        is_closest(predictions, price, k),
        pool >= 0,
    ensures
        0 <= i < closest(predictions, price).len(),
        closest(predictions, price)[i] == predictions[k]->0,
        closest_users(users, predictions, price).len() == closest(predictions, price).len(),
        closest_users(users, predictions, price).finite(),
        share(pool, closest(predictions, price).len() as int, i) == part_of_pool(
            pool,
            closest_users(users, predictions, price),
            users[k],
        ),
{
    let winners = closest(predictions, price);
    let nearest = closest_users(users, predictions, price);
    let n = winners.len() as int;
    law_winners_are_the_closest(predictions, price, predictions[k]->0);
    assert(winners.contains(predictions[k]->0));
    let i = choose|i: int| 0 <= i < winners.len() && winners[i] == predictions[k]->0;
    lemma_winners_are_different(users, predictions, price, users.len());
    let names = winners.map_values(|winner: PrecisionPrediction| winner.user);
    assert(names.no_duplicates()) by {
        assert forall|a: int, b: int| 0 <= a < names.len() && 0 <= b < names.len() && a
            != b implies names[a] != names[b] by {
            if a < b {
                assert(winners[a].user != winners[b].user);
            } else {
                assert(winners[b].user != winners[a].user);
            }
        }
    }
    names.unique_seq_to_set();
    assert(names.to_set() =~= nearest) by {
        assert forall|user: Address| names.to_set().contains(user) == #[trigger] nearest.contains(
            user,
        ) by {
            if names.to_set().contains(user) {
                let a = choose|a: int| 0 <= a < names.len() && names[a] == user;
                law_winners_are_the_closest(predictions, price, winners[a]);
                assert(winners.contains(winners[a]));
                let j = choose|j: int|
                    0 <= j < predictions.len() && #[trigger] is_closest(predictions, price, j)
                        && predictions[j] == Some(winners[a]);
                assert(users[j] == user);
            }
            if nearest.contains(user) {
                let j = choose|j: int|
                    0 <= j < users.len() && #[trigger] is_closest(predictions, price, j)
                        && users[j] == user;
                law_winners_are_the_closest(predictions, price, predictions[j]->0);
                assert(winners.contains(predictions[j]->0));
                let a = choose|a: int| 0 <= a < winners.len() && winners[a] == predictions[j]->0;
                assert(names[a] == user);
            }
        }
    }
    let first = lemma_first_winner(predictions, price, predictions.len());
    let user = users[k];
    let leads = forall|other: Address| #[trigger]
        nearest.contains(other) ==> user.at_or_before(other);
    assert(nearest.contains(users[first]));
    assert(nearest.contains(user));
    assert((i == 0) == leads) by {
        if i == 0 {
            assert(users[first] == users[k]);
            assert(first == k);
            assert forall|other: Address| #[trigger] nearest.contains(
                other,
            ) implies user.at_or_before(other) by {
                let j = choose|j: int|
                    0 <= j < users.len() && #[trigger] is_closest(predictions, price, j)
                        && users[j] == other;
                assert(j >= first);
                if j > first {
                    assert(users[first].at_or_before(users[j]));
                }
            }
        } else if leads {
            assert(winners[0].user != winners[i].user);
            assert(user.at_or_before(users[first]));
            assert(first <= k);
            assert(users[first].at_or_before(users[k]));
            assert(users[first] == users[k]);
        }
    }
    lemma_fundamental_div_mod(pool, n);
    i
}

/// What the payment of the winners has done to each account.
pub proof fn lemma_winners_paid(
    m: MarketView,
    id: u64,
    winners: Seq<PrecisionPrediction>,
    pot: i128,
    user: Address,
)
    requires
        pot > 0,
        winners.len() > 0,
        forall|i: int, j: int|
            0 <= i < j < winners.len() ==> (#[trigger] winners[i]).user != (
            #[trigger] winners[j]).user,
        m.pay_closest(id, winners, pot).1 is Ok,
    ensures
        ({
            let after = m.pay_closest(id, winners, pot).0;
            let pool = m.left_of_pot(pot as int);
            &&& goes_on(m.events, after.events)
            &&& after.treasury() == m.treasury() + pot - pool
            &&& after.predictions == m.predictions
            &&& after.commitments == m.commitments
            &&& forall|i: int|
                0 <= i < winners.len() && (#[trigger] winners[i]).user == user ==> is_winner_paid(
                    m,
                    after,
                    id,
                    stake_told(
                        user,
                        winners[i].predicted_price,
                        winners[i].amount,
                        share(pool, winners.len() as int, i) as i128,
                        UserOutcomeType::Win,
                    ),
                )
            &&& (forall|i: int| 0 <= i < winners.len() ==> (#[trigger] winners[i]).user != user)
                ==> same_account(m, after, user)
        }),
{
    let split = m.split_fee_precision(id, pot);
    law_fee_on_a_pot(m, id, pot);
    let pool = split.1->Ok_0.0;
    if let Some(bps) = m.cells.protocol_fee_bps {
        assert(pot * bps >= 0) by (nonlinear_arith)
            requires
                pot > 0,
                bps >= 0,
        ;
    }
    assert(pool == m.left_of_pot(pot as int));
    let start = split.0;
    let items = shares(winners, pool);
    let step = pay_step(id);
    let who = |item: (PrecisionPrediction, i128)| item.0.user;
    let steady = |s: MarketView|
        s.cells == start.cells && s.predictions == m.predictions && s.commitments == m.commitments;
    let result = |a: MarketView, b: MarketView, item: (PrecisionPrediction, i128)|
        is_winner_paid(
            a,
            b,
            id,
            stake_told(
                item.0.user,
                item.0.predicted_price,
                item.0.amount,
                item.1,
                UserOutcomeType::Win,
            ),
        );
    assert forall|i: int, j: int| 0 <= i < j < items.len() implies who(#[trigger] items[i]) != who(
        #[trigger] items[j],
    ) by {
        assert(winners[i].user != winners[j].user);
    }
    assert forall|s: MarketView, item: (PrecisionPrediction, i128)| steady(s) implies steady(
        (#[trigger] step(s, item)).0,
    ) && concerns_only(s, step(s, item).0, who(item)) && (step(s, item).1 is Ok ==> result(
        s,
        step(s, item).0,
        item,
    )) by {
        let record = stake_told(
            item.0.user,
            item.0.predicted_price,
            item.0.amount,
            item.1,
            UserOutcomeType::Win,
        );
        lemma_records_made(s, id, record, 0);
    }
    assert forall|
        a: MarketView,
        b: MarketView,
        c: MarketView,
        d: MarketView,
        item: (PrecisionPrediction, i128),
    |
        #![trigger result(b, c, item), result(a, d, item)]
        result(b, c, item) && same_account(a, b, who(item)) && same_results(c, d, who(item))
            && goes_on(a.events, b.events) && goes_on(c.events, d.events) implies result(
        a,
        d,
        item,
    ) by {
        let record = stake_told(
            item.0.user,
            item.0.predicted_price,
            item.0.amount,
            item.1,
            UserOutcomeType::Win,
        );
        lemma_account_carried(a, b, c, d, id, record, 0);
    }
    let after = for_each(start, items, step).0;
    lemma_each_done(start, items, step, who, steady, result);
    lemma_steps_apart(start, items, step, who, steady);
    assert(same_account(m, start, user));
    assert forall|i: int| 0 <= i < winners.len() && (
    #[trigger] winners[i]).user == user implies is_winner_paid(
        m,
        after,
        id,
        stake_told(
            user,
            winners[i].predicted_price,
            winners[i].amount,
            share(pool as int, winners.len() as int, i) as i128,
            UserOutcomeType::Win,
        ),
    ) by {
        assert(result(start, after, items[i]));
        let record = stake_told(
            user,
            winners[i].predicted_price,
            winners[i].amount,
            share(pool as int, winners.len() as int, i) as i128,
            UserOutcomeType::Win,
        );
        lemma_account_carried(m, start, after, after, id, record, 0);
    }
    if forall|i: int| 0 <= i < winners.len() ==> (#[trigger] winners[i]).user != user {
        assert forall|i: int| 0 <= i < items.len() implies who(#[trigger] items[i]) != user by {
            assert(winners[i].user != user);
        }
        assert(same_account(start, after, user));
    }
}

/// What the entries of those who did not win have done to each account.
proof fn lemma_losers_told(m: MarketView, id: u64, entries: Seq<PrecisionEntry>, user: Address)
    requires
        forall|i: int, j: int|
            0 <= i < j < entries.len() ==> (#[trigger] entries[i]).0 != (#[trigger] entries[j]).0,
        for_each(m, entries, lose_step(id)).1 is Ok,
    ensures
        ({
            let after = for_each(m, entries, lose_step(id)).0;
            &&& goes_on(m.events, after.events)
            &&& after.cells == m.cells
            &&& forall|i: int|
                0 <= i < entries.len() && (#[trigger] entries[i]).0 == user && !entries[i].3
                    ==> is_loser_told(
                    m,
                    after,
                    id,
                    stake_told(user, entries[i].2, entries[i].1, 0, UserOutcomeType::Loss),
                    0,
                )
            &&& (forall|i: int|
                0 <= i < entries.len() && (#[trigger] entries[i]).0 == user ==> entries[i].3)
                ==> same_results(m, after, user)
        }),
{
    let who = |entry: PrecisionEntry| entry.0;
    let steady = |s: MarketView| s.cells == m.cells;
    let step = lose_step(id);
    let result = |a: MarketView, b: MarketView, entry: PrecisionEntry|
        if entry.3 {
            same_results(a, b, entry.0)
        } else {
            is_loser_told(
                a,
                b,
                id,
                stake_told(entry.0, entry.2, entry.1, 0, UserOutcomeType::Loss),
                0,
            )
        };
    assert forall|s: MarketView, entry: PrecisionEntry| steady(s) implies steady(
        (#[trigger] step(s, entry)).0,
    ) && concerns_only(s, step(s, entry).0, who(entry)) && (step(s, entry).1 is Ok ==> result(
        s,
        step(s, entry).0,
        entry,
    )) by {
        let record = stake_told(entry.0, entry.2, entry.1, 0, UserOutcomeType::Loss);
        lemma_records_made(s, id, record, 0);
    }
    assert forall|
        a: MarketView,
        b: MarketView,
        c: MarketView,
        d: MarketView,
        entry: PrecisionEntry,
    |
        #![trigger result(b, c, entry), result(a, d, entry)]
        result(b, c, entry) && same_account(a, b, who(entry)) && same_results(c, d, who(entry))
            && goes_on(a.events, b.events) && goes_on(c.events, d.events) implies result(
        a,
        d,
        entry,
    ) by {
        if entry.3 {
            lemma_same_results_carried(a, b, c, d, entry.0);
        } else {
            let record = stake_told(entry.0, entry.2, entry.1, 0, UserOutcomeType::Loss);
            lemma_account_carried(a, b, c, d, id, record, 0);
        }
    }
    lemma_each_done(m, entries, step, who, steady, result);
    lemma_steps_apart(m, entries, step, who, steady);
    let after = for_each(m, entries, step).0;
    assert forall|i: int| 0 <= i < entries.len() && (
    #[trigger] entries[i]).0 == user && !entries[i].3 implies is_loser_told(
        m,
        after,
        id,
        stake_told(user, entries[i].2, entries[i].1, 0, UserOutcomeType::Loss),
        0,
    ) by {
        assert(result(m, after, entries[i]));
    }
    if forall|i: int|
        0 <= i < entries.len() && (#[trigger] entries[i]).0 == user ==> entries[i].3 {
        if exists|i: int| 0 <= i < entries.len() && (#[trigger] entries[i]).0 == user {
            let i = choose|i: int| 0 <= i < entries.len() && (#[trigger] entries[i]).0 == user;
            assert(result(m, after, entries[i]));
        } else {
            assert forall|i: int| 0 <= i < entries.len() implies who(#[trigger] entries[i])
                != user by {}
            assert(same_account(m, after, user));
        }
    }
}

/// What was the same in between was the same.
proof fn lemma_same_results_carried(
    a: MarketView,
    b: MarketView,
    c: MarketView,
    d: MarketView,
    user: Address,
)
    requires
        same_results(a, b, user),
        same_results(b, c, user),
        same_results(c, d, user),
    ensures
        same_results(a, d, user),
{
    assert forall|id: u64| #[trigger]
        a.outcomes.get((id, user)) == d.outcomes.get((id, user)) by {
        assert(a.outcomes.get((id, user)) == b.outcomes.get((id, user)));
        assert(b.outcomes.get((id, user)) == c.outcomes.get((id, user)));
        assert(c.outcomes.get((id, user)) == d.outcomes.get((id, user)));
    }
}

/// A participant is nearest exactly where the prediction is closest at the
/// participant's place.
pub proof fn lemma_nearest_place(
    m: MarketView,
    round: Round,
    price: u128,
    users: Seq<Address>,
    k: int,
)
    requires
        0 <= k < users.len(),
        forall|user: Address| #[trigger]
            users.contains(user) == m.participants_of(round.round_id).contains(user),
    ensures
        m.is_nearest(round, price, users[k]) == is_closest(
            m.revealed(round.round_id, users),
            price,
            k,
        ),
{
    let id = round.round_id;
    let revealed = m.revealed(id, users);
    assert(users.contains(users[k]));
    if m.is_nearest(round, price, users[k]) {
        assert forall|j: int| 0 <= j < revealed.len() && (
        #[trigger] revealed[j]) is Some implies distance(
            revealed[k]->0.predicted_price,
            price,
        ) <= distance(revealed[j]->0.predicted_price, price) by {
            assert(users.contains(users[j]));
            assert(m.predictions.dom().contains((id, users[j])));
        }
    }
    if is_closest(revealed, price, k) {
        assert forall|other: Address|
            m.participants_of(id).contains(other) && #[trigger] m.predictions.dom().contains(
                (id, other),
            ) implies {
            let mine = m.predictions[(id, users[k])].predicted_price;
            let theirs = m.predictions[(id, other)].predicted_price;
            (if mine >= price {
                mine - price
            } else {
                price - mine
            }) <= (if theirs >= price {
                theirs - price
            } else {
                price - theirs
            })
        } by {
            assert(users.contains(other));
            let j = choose|j: int| 0 <= j < users.len() && users[j] == other;
            assert(revealed[j] is Some);
        }
    }
}

/// Addresses in order stand each before those behind it.
pub proof fn lemma_sorted_ascends(addresses: Seq<Address>)
    ensures
        ({
            let users = sorted_addresses(addresses);
            forall|a: int, b: int|
                0 <= a < b < users.len() ==> (#[trigger] users[a]).at_or_before(
                    #[trigger] users[b],
                )
        }),
{
    let leq = |a: Address, b: Address| a.at_or_before(b);
    let users = sorted_addresses(addresses);
    lemma_address_order();
    addresses.lemma_sort_by_ensures(leq);
    assert forall|a: int, b: int| 0 <= a < b < users.len() implies (
    #[trigger] users[a]).at_or_before(#[trigger] users[b]) by {
        assert(leq(users[a], users[b]));
    }
}

/// The nearest are the users at the closest places.
pub proof fn lemma_nearest_are_closest(
    m: MarketView,
    round: Round,
    price: u128,
    users: Seq<Address>,
)
    requires
        forall|user: Address| #[trigger]
            users.contains(user) == m.participants_of(round.round_id).contains(user),
    ensures
        Set::new(|u: Address| m.is_nearest(round, price, u)) == closest_users(
            users,
            m.revealed(round.round_id, users),
            price,
        ),
{
    let nearest = Set::new(|u: Address| m.is_nearest(round, price, u));
    let revealed = m.revealed(round.round_id, users);
    assert forall|u: Address| nearest.contains(u) == closest_users(
        users,
        revealed,
        price,
    ).contains(u) by {
        if nearest.contains(u) {
            assert(users.contains(u));
            let j = choose|j: int| 0 <= j < users.len() && users[j] == u;
            lemma_nearest_place(m, round, price, users, j);
            assert(is_closest(revealed, price, j));
        }
        if closest_users(users, revealed, price).contains(u) {
            let j = choose|j: int|
                0 <= j < users.len() && #[trigger] is_closest(revealed, price, j) && users[j] == u;
            lemma_nearest_place(m, round, price, users, j);
        }
    }
    assert(nearest =~= closest_users(users, revealed, price));
}

/// In a round on the price in which a price was revealed, exactly the
/// participants whose price is nearest win: of two, the one with the smaller
/// difference. They share all that is left of the pot after the fee in equal
/// parts, what does not divide goes to the one whose address comes first, and a
/// win is counted for each. For every other participant a loss is counted. Both
/// are recorded and told; nobody else is concerned.
pub proof fn law_nearest_prices_win(
    m: MarketView,
    ctx: &LedgerContext,
    payload: OraclePayload,
    user: Address,
)
    requires
        m.resolve_round(ctx, payload).1 is Ok,
        m.cells.active_round matches Some(round) ==> {
            &&& m.lists_are_plain(round)
            &&& m.predictions_are_filed(round)
            &&& !m.falls_short(round)
            &&& round.mode == RoundMode::Precision
            &&& !m.none_revealed(round)
            &&& m.staked(round) > 0
            &&& m.left_of_pot(m.staked(round)) >= 0
        },
    ensures
        m.cells.active_round is Some,
        ({
            let round = m.cells.active_round->0;
            let id = round.round_id;
            let after = m.resolve_round(ctx, payload).0;
            let nearest = Set::new(|u: Address| m.is_nearest(round, payload.price, u));
            let pot = m.staked(round);
            let pool = m.left_of_pot(pot);
            let listed = m.participants_of(id).contains(user);
            &&& nearest.finite()
            &&& nearest.len() > 0
            &&& m.is_nearest(round, payload.price, user) ==> is_winner_paid(
                m,
                after,
                id,
                stake_told(
                    user,
                    m.predictions[(id, user)].predicted_price,
                    m.predictions[(id, user)].amount,
                    part_of_pool(pool, nearest, user) as i128,
                    UserOutcomeType::Win,
                ),
            )
            &&& m.is_nearest(round, payload.price, user) ==> i128::MIN <= part_of_pool(
                pool,
                nearest,
                user,
            ) <= i128::MAX
            &&& listed && !m.is_nearest(round, payload.price, user) ==> is_loser_told(
                m,
                after,
                id,
                stake_told(
                    user,
                    if m.predictions.dom().contains((id, user)) {
                        m.predictions[(id, user)].predicted_price
                    } else {
                        0
                    },
                    m.precision_stake(id, user),
                    0,
                    UserOutcomeType::Loss,
                ),
                0,
            )
            &&& !listed ==> is_untouched(m, after, user)
            &&& after.treasury() == m.treasury() + pot - pool
            &&& after.balances == m.balances
        }),
{
    lemma_resolve_is_payment(m, ctx, payload);
    let round = m.cells.active_round->0;
    let id = round.round_id;
    let price = payload.price;
    let checked = m.check_report(ctx, payload).0;
    let stored = m.participants_of(id);
    let users = sorted_addresses(stored);
    let after = m.resolve_round(ctx, payload).0;
    let settled = checked.resolve_precision(id, price).0;
    let revealed = m.revealed(id, users);
    let winners = closest(revealed, price);
    let stakes = m.precision_stakes(id, users);
    let stake = |u: Address| m.precision_stake(id, u) as int;
    let nearest = Set::new(|u: Address| m.is_nearest(round, price, u));
    lemma_mode_only_pays(checked, round, price);
    lemma_sorted_once(stored);
    lemma_sorted_keeps(stored);
    lemma_sorted_ascends(stored);
    assert(checked.revealed(id, users) =~= revealed);
    assert(checked.precision_stakes(id, users) =~= stakes);
    let entries = checked.precision_entries(id, users, price);
    let one = choose|u: Address| #[trigger]
        stored.contains(u) && m.predictions.dom().contains((id, u));
    assert(stored.contains(one) && m.predictions.dom().contains((id, one)));
    assert(users.contains(one));
    let at_one = choose|i: int| 0 <= i < users.len() && users[i] == one;
    assert(revealed[at_one] is Some);
    lemma_some_closest(revealed, price);
    lemma_running_total(stakes);
    lemma_sum_same(users, stakes, stake, |amount: i128| amount as int);
    lemma_sum_permuted(users, stored, stake);
    let pot = m.staked(round);
    let pool = m.left_of_pot(pot);
    assert(running_total(stakes) == Some(pot));
    assert forall|j: int| 0 <= j < users.len() && (#[trigger] revealed[j]) is Some implies
        revealed[j]->0.user == users[j] by {
        assert(users.contains(users[j]));
        assert(stored.contains(users[j]));
        assert(m.predictions.dom().contains((id, users[j])));
    }
    lemma_winners_are_different(users, revealed, price, users.len());
    assert(checked.left_of_pot(pot) == pool);
    let paid = checked.pay_closest(id, winners, pot as i128);
    assert(paid.1 is Ok);
    lemma_winners_paid(checked, id, winners, pot as i128, user);
    assert forall|i: int, j: int| 0 <= i < j < entries.len() implies (
    #[trigger] entries[i]).0 != (#[trigger] entries[j]).0 by {
        assert(users[i] != users[j]);
    }
    assert(settled == for_each(paid.0, entries, lose_step(id)).0);
    lemma_losers_told(paid.0, id, entries, user);
    lemma_nearest_are_closest(m, round, price, users);
    let first = lemma_first_winner(revealed, price, revealed.len());
    let _ = lemma_winners_ranked(users, revealed, price, first, pool);
    if stored.contains(user) {
        assert(users.contains(user));
        let k = choose|k: int| 0 <= k < users.len() && users[k] == user;
        lemma_nearest_place(m, round, price, users, k);
        assert(entries[k].0 == user);
        assert forall|i: int| 0 <= i < entries.len() && (
        #[trigger] entries[i]).0 == user implies i == k by {
            assert(users[i] == users[k]);
        }
        if is_closest(revealed, price, k) {
            let i = lemma_winners_ranked(users, revealed, price, k, pool);
            let part = part_of_pool(pool, nearest, user);
            assert(winners[i].user == user);
            lemma_share_fits(pool, winners.len() as int, i);
            let record = stake_told(
                user,
                m.predictions[(id, user)].predicted_price,
                m.predictions[(id, user)].amount,
                part as i128,
                UserOutcomeType::Win,
            );
            assert(is_winner_paid(checked, paid.0, id, record));
            assert(same_results(paid.0, settled, user));
            assert(same_results(paid.0, after, user)) by {
                lemma_same_results_carried(paid.0, paid.0, settled, after, user);
            }
            assert(goes_on(paid.0.events, after.events));
            lemma_account_carried(m, checked, paid.0, after, id, record, 0);
        } else {
            assert forall|i: int| 0 <= i < winners.len() implies (
            #[trigger] winners[i]).user != user by {
                law_winners_are_the_closest(revealed, price, winners[i]);
                assert(winners.contains(winners[i]));
                let j = choose|j: int|
                    0 <= j < revealed.len() && #[trigger] is_closest(revealed, price, j)
                        && revealed[j] == Some(winners[i]);
                assert(revealed[j]->0.user == users[j]);
                assert(j != k);
                assert(users[j] != users[k]);
            }
            assert(same_account(checked, paid.0, user));
            assert(!entries[k].3);
            let record = stake_told(
                user,
                entries[k].2,
                entries[k].1,
                0,
                UserOutcomeType::Loss,
            );
            assert(is_loser_told(paid.0, settled, id, record, 0));
            lemma_same_results_carried(m, m, checked, paid.0, user);
            assert(goes_on(m.events, paid.0.events));
            lemma_account_carried(m, paid.0, settled, after, id, record, 0);
        }
    } else {
        assert(!users.contains(user));
        assert forall|i: int| 0 <= i < entries.len() implies (#[trigger] entries[i]).0 != user by {
            assert(users.contains(users[i]));
        }
        assert forall|i: int| 0 <= i < winners.len() implies (
        #[trigger] winners[i]).user != user by {
            assert(users.take(users.len() as int) =~= users);
            assert(users.contains(winners[i].user));
        }
        assert(same_account(checked, paid.0, user));
        assert(same_results(paid.0, settled, user));
        lemma_same_results_carried(checked, paid.0, settled, after, user);
        lemma_same_results_carried(m, checked, after, after, user);
        lemma_untouched(m, after, user);
    }
}

/// What the predictions of the older list that did not win have done to each
/// account.
proof fn lemma_older_losers_told(
    m: MarketView,
    id: u64,
    list: Seq<PrecisionPrediction>,
    winners: Seq<PrecisionPrediction>,
    user: Address,
)
    requires
        forall|i: int, j: int|
            0 <= i < j < list.len() ==> (#[trigger] list[i]).user != (#[trigger] list[j]).user,
        for_each(m, list, lose_legacy_step(id, winners)).1 is Ok,
    ensures
        ({
            let after = for_each(m, list, lose_legacy_step(id, winners)).0;
            let won = exists|i: int|
                0 <= i < winners.len() && (#[trigger] winners[i]).user == user;
            &&& goes_on(m.events, after.events)
            &&& after.cells == m.cells
            &&& forall|i: int|
                0 <= i < list.len() && (#[trigger] list[i]).user == user && !won ==> is_loser_told(
                    m,
                    after,
                    id,
                    stake_told(
                        user,
                        list[i].predicted_price,
                        list[i].amount,
                        0,
                        UserOutcomeType::Loss,
                    ),
                    0,
                )
            &&& won || (forall|i: int|
                0 <= i < list.len() ==> (#[trigger] list[i]).user != user) ==> same_results(
                m,
                after,
                user,
            )
        }),
{
    let who = |made: PrecisionPrediction| made.user;
    let steady = |s: MarketView| s.cells == m.cells;
    let step = lose_legacy_step(id, winners);
    let told = |made: PrecisionPrediction|
        stake_told(made.user, made.predicted_price, made.amount, 0, UserOutcomeType::Loss);
    let skipped = |made: PrecisionPrediction|
        exists|i: int| 0 <= i < winners.len() && (#[trigger] winners[i]).user == made.user;
    let result = |a: MarketView, b: MarketView, made: PrecisionPrediction|
        if skipped(made) {
            same_results(a, b, made.user)
        } else {
            is_loser_told(a, b, id, told(made), 0)
        };
    assert forall|s: MarketView, made: PrecisionPrediction| steady(s) implies steady(
        (#[trigger] step(s, made)).0,
    ) && concerns_only(s, step(s, made).0, who(made)) && (step(s, made).1 is Ok ==> result(
        s,
        step(s, made).0,
        made,
    )) by {
        lemma_records_made(s, id, told(made), 0);
    }
    assert forall|
        a: MarketView,
        b: MarketView,
        c: MarketView,
        d: MarketView,
        made: PrecisionPrediction,
    |
        #![trigger result(b, c, made), result(a, d, made)]
        result(b, c, made) && same_account(a, b, who(made)) && same_results(c, d, who(made))
            && goes_on(a.events, b.events) && goes_on(c.events, d.events) implies result(
        a,
        d,
        made,
    ) by {
        if skipped(made) {
            lemma_same_results_carried(a, b, c, d, made.user);
        } else {
            lemma_account_carried(a, b, c, d, id, told(made), 0);
        }
    }
    lemma_each_done(m, list, step, who, steady, result);
    lemma_steps_apart(m, list, step, who, steady);
    let after = for_each(m, list, step).0;
    let won = exists|i: int| 0 <= i < winners.len() && (#[trigger] winners[i]).user == user;
    assert forall|i: int| 0 <= i < list.len() && (
    #[trigger] list[i]).user == user && !won implies is_loser_told(
        m,
        after,
        id,
        stake_told(user, list[i].predicted_price, list[i].amount, 0, UserOutcomeType::Loss),
        0,
    ) by {
        assert(result(m, after, list[i]));
        assert(!skipped(list[i]));
    }
    if exists|i: int| 0 <= i < list.len() && (#[trigger] list[i]).user == user {
        let i = choose|i: int| 0 <= i < list.len() && (#[trigger] list[i]).user == user;
        assert(result(m, after, list[i]));
        if won {
            assert(skipped(list[i]));
        }
    } else {
        assert forall|i: int| 0 <= i < list.len() implies who(#[trigger] list[i]) != user by {}
        assert(same_account(m, after, user));
    }
}

/// The nearest of the older list are the users at the closest places.
pub proof fn lemma_nearest_older_are_closest(m: MarketView, price: u128, names: Seq<Address>)
    requires
        names == m.older_predictions().map_values(
            |prediction: PrecisionPrediction| prediction.user,
        ),
        forall|i: int, j: int|
            0 <= i < j < m.older_predictions().len() ==> (
            #[trigger] m.older_predictions()[i]).user != (
            #[trigger] m.older_predictions()[j]).user,
    ensures
        Set::new(|u: Address| m.is_nearest_older(price, u)) == closest_users(
            names,
            all_made(m.older_predictions()),
            price,
        ),
{
    let list = m.older_predictions();
    let made = all_made(list);
    let nearest = Set::new(|u: Address| m.is_nearest_older(price, u));
    assert forall|k: int| 0 <= k < list.len() implies #[trigger] is_closest(made, price, k)
        == m.is_nearest_older(price, list[k].user) by {
        lemma_nearest_older_place(m, price, k);
    }
    assert forall|u: Address| nearest.contains(u) == closest_users(
        names,
        made,
        price,
    ).contains(u) by {
        if nearest.contains(u) {
            let j = choose|j: int| 0 <= j < list.len() && (#[trigger] list[j]).user == u;
            assert(is_closest(made, price, j));
            assert(names[j] == u);
        }
        if closest_users(names, made, price).contains(u) {
            let j = choose|j: int|
                0 <= j < names.len() && #[trigger] is_closest(made, price, j) && names[j] == u;
            assert(list[j].user == u);
        }
    }
    assert(nearest =~= closest_users(names, made, price));
}

/// Where nobody is listed as a participant, the same holds of the users in the
/// older list of predictions.
pub proof fn law_nearest_older_prices_win(
    m: MarketView,
    ctx: &LedgerContext,
    payload: OraclePayload,
    user: Address,
)
    requires
        m.resolve_round(ctx, payload).1 is Ok,
        m.cells.active_round matches Some(round) ==> {
            &&& m.lists_are_plain(round)
            &&& !m.falls_short(round)
            &&& round.mode == RoundMode::Precision
            &&& m.participants_of(round.round_id).len() == 0
            &&& m.staked(round) > 0
            &&& m.left_of_pot(m.staked(round)) >= 0
        },
    ensures
        m.cells.active_round is Some,
        ({
            let round = m.cells.active_round->0;
            let id = round.round_id;
            let after = m.resolve_round(ctx, payload).0;
            let nearest = Set::new(|u: Address| m.is_nearest_older(payload.price, u));
            let list = m.older_predictions();
            let pot = m.staked(round);
            let pool = m.left_of_pot(pot);
            let won = m.is_nearest_older(payload.price, user);
            &&& nearest.finite()
            &&& nearest.len() > 0
            &&& forall|i: int|
                0 <= i < list.len() && (#[trigger] list[i]).user == user ==> {
                    &&& won ==> is_winner_paid(
                        m,
                        after,
                        id,
                        stake_told(
                            user,
                            list[i].predicted_price,
                            list[i].amount,
                            part_of_pool(pool, nearest, user) as i128,
                            UserOutcomeType::Win,
                        ),
                    )
                    &&& !won ==> is_loser_told(
                        m,
                        after,
                        id,
                        stake_told(
                            user,
                            list[i].predicted_price,
                            list[i].amount,
                            0,
                            UserOutcomeType::Loss,
                        ),
                        0,
                    )
                }
            &&& (forall|i: int| 0 <= i < list.len() ==> (#[trigger] list[i]).user != user)
                ==> is_untouched(m, after, user)
            &&& after.treasury() == m.treasury() + pot - pool
        }),
{
    lemma_resolve_is_payment(m, ctx, payload);
    let round = m.cells.active_round->0;
    let id = round.round_id;
    let price = payload.price;
    let checked = m.check_report(ctx, payload).0;
    let after = m.resolve_round(ctx, payload).0;
    let settled = checked.resolve_precision(id, price).0;
    let list = m.older_predictions();
    let made = all_made(list);
    let winners = closest(made, price);
    let stakes = list.map_values(|prediction: PrecisionPrediction| prediction.amount);
    let names = list.map_values(|prediction: PrecisionPrediction| prediction.user);
    let nearest = Set::new(|u: Address| m.is_nearest_older(price, u));
    let pot = m.staked(round);
    let pool = m.left_of_pot(pot);
    lemma_sorted_keeps(m.participants_of(id));
    lemma_older_are_different(m);
    assert(m.precision_legacy is Some);
    let entries = m.precision_legacy->0;
    lemma_sum_same(
        entries,
        stakes,
        |entry: (Address, PrecisionPrediction)| entry.1.amount as int,
        |amount: i128| amount as int,
    );
    if entries.len() == 0 {
        assert(stakes =~= Seq::empty());
    }
    lemma_running_total(stakes);
    assert(list == entries.map_values(|entry: (Address, PrecisionPrediction)| entry.1));
    assert(checked.resolve_precision(id, price) == checked.resolve_precision_legacy(
        id,
        entries,
        price,
    ));
    assert(running_total(stakes) == Some(pot));
    assert(entries.len() > 0);
    assert(made[0] is Some);
    lemma_some_closest(made, price);
    let paid = checked.pay_closest(id, winners, pot as i128);
    assert(paid.1 is Ok);
    assert(settled == for_each(paid.0, list, lose_legacy_step(id, winners)).0);
    assert(names.no_duplicates()) by {
        assert forall|a: int, b: int| 0 <= a < names.len() && 0 <= b < names.len() && a
            != b implies names[a] != names[b] by {
            if a < b {
                assert(list[a].user != list[b].user);
            } else {
                assert(list[b].user != list[a].user);
            }
        }
    }
    assert forall|a: int, b: int| 0 <= a < b < names.len() implies (
    #[trigger] names[a]).at_or_before(#[trigger] names[b]) by {
        assert(entries[a].1.user == entries[a].0);
        assert(entries[b].1.user == entries[b].0);
        assert(entries[a].0.at_or_before(entries[b].0));
    }
    assert forall|j: int| 0 <= j < names.len() && (#[trigger] made[j]) is Some implies
        made[j]->0.user == names[j] by {}
    lemma_winners_are_different(names, made, price, names.len());
    lemma_winners_paid(checked, id, winners, pot as i128, user);
    lemma_older_losers_told(paid.0, id, list, winners, user);
    assert forall|k: int| 0 <= k < list.len() implies #[trigger] is_closest(made, price, k)
        == m.is_nearest_older(price, list[k].user) by {
        lemma_nearest_older_place(m, price, k);
    }
    lemma_nearest_older_are_closest(m, price, names);
    let first = lemma_first_winner(made, price, made.len());
    let _ = lemma_winners_ranked(names, made, price, first, pool);
    let won = m.is_nearest_older(price, user);
    let paid_for = exists|i: int| 0 <= i < winners.len() && (#[trigger] winners[i]).user == user;
    assert(paid_for ==> won) by {
        if paid_for {
            let i = choose|i: int| 0 <= i < winners.len() && (#[trigger] winners[i]).user == user;
            law_winners_are_the_closest(made, price, winners[i]);
            assert(winners.contains(winners[i]));
            let j = choose|j: int|
                0 <= j < made.len() && #[trigger] is_closest(made, price, j) && made[j] == Some(
                    winners[i],
                );
            assert(list[j].user == user);
        }
    }
    assert forall|k: int| 0 <= k < list.len() && (#[trigger] list[k]).user == user implies {
        &&& won ==> is_winner_paid(
            m,
            after,
            id,
            stake_told(
                user,
                list[k].predicted_price,
                list[k].amount,
                part_of_pool(pool, nearest, user) as i128,
                UserOutcomeType::Win,
            ),
        )
        &&& !won ==> is_loser_told(
            m,
            after,
            id,
            stake_told(user, list[k].predicted_price, list[k].amount, 0, UserOutcomeType::Loss),
            0,
        )
    } by {
        if won {
            assert(is_closest(made, price, k));
            let i = lemma_winners_ranked(names, made, price, k, pool);
            assert(names[k] == user);
            assert(winners[i].user == user);
            let record = stake_told(
                user,
                list[k].predicted_price,
                list[k].amount,
                part_of_pool(pool, nearest, user) as i128,
                UserOutcomeType::Win,
            );
            assert(is_winner_paid(checked, paid.0, id, record));
            assert(same_results(paid.0, settled, user));
            lemma_same_results_carried(paid.0, paid.0, settled, after, user);
            lemma_account_carried(m, checked, paid.0, after, id, record, 0);
        } else {
            let record = stake_told(
                user,
                list[k].predicted_price,
                list[k].amount,
                0,
                UserOutcomeType::Loss,
            );
            assert(same_account(checked, paid.0, user));
            lemma_same_results_carried(m, m, checked, paid.0, user);
            assert(is_loser_told(paid.0, settled, id, record, 0));
            lemma_account_carried(m, paid.0, settled, after, id, record, 0);
        }
    }
    if forall|i: int| 0 <= i < list.len() ==> (#[trigger] list[i]).user != user {
        assert(!won);
        assert(same_account(checked, paid.0, user));
        assert(same_results(paid.0, settled, user));
        lemma_same_results_carried(checked, paid.0, settled, after, user);
        lemma_same_results_carried(m, checked, after, after, user);
        lemma_untouched(m, after, user);
    }
}

/// A user of the older list is nearest exactly where the prediction is closest
/// at the user's place.
pub proof fn lemma_nearest_older_place(m: MarketView, price: u128, k: int)
    requires
        0 <= k < m.older_predictions().len(),
        forall|i: int, j: int|
            0 <= i < j < m.older_predictions().len() ==> (
            #[trigger] m.older_predictions()[i]).user != (
            #[trigger] m.older_predictions()[j]).user,
    ensures
        is_closest(all_made(m.older_predictions()), price, k) == m.is_nearest_older(
            price,
            m.older_predictions()[k].user,
        ),
{
    let list = m.older_predictions();
    let made = all_made(list);
    assert forall|j: int| 0 <= j < made.len() implies #[trigger] made[j] == Some(list[j]) by {}
    if is_closest(made, price, k) {
        assert forall|j: int| 0 <= j < list.len() implies {
            let mine = list[k].predicted_price;
            let theirs = (#[trigger] list[j]).predicted_price;
            (if mine >= price {
                mine - price
            } else {
                price - mine
            }) <= (if theirs >= price {
                theirs - price
            } else {
                price - theirs
            })
        } by {
            assert(made[j] is Some);
        }
        assert(list[k].user == list[k].user);
    }
    if m.is_nearest_older(price, list[k].user) {
        let i = choose|i: int|
            {
                &&& 0 <= i < list.len()
                &&& (#[trigger] list[i]).user == list[k].user
                &&& forall|j: int|
                    0 <= j < list.len() ==> {
                        let mine = list[i].predicted_price;
                        let theirs = (#[trigger] list[j]).predicted_price;
                        (if mine >= price {
                            mine - price
                        } else {
                            price - mine
                        }) <= (if theirs >= price {
                            theirs - price
                        } else {
                            price - theirs
                        })
                    }
            };
        if i < k {
            assert(list[i].user != list[k].user);
        } else if k < i {
            assert(list[k].user != list[i].user);
        }
        assert forall|j: int| 0 <= j < made.len() && (
        #[trigger] made[j]) is Some implies distance(
            made[k]->0.predicted_price,
            price,
        ) <= distance(made[j]->0.predicted_price, price) by {
            assert(made[j] == Some(list[j]));
        }
    }
}

} // verus!
