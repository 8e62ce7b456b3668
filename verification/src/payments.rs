//! What a settlement pays, and to whom.

use vstd::prelude::*;
use vstd::seq_lib::{commutative_foldr, lemma_fold_right_permutation};
use crate::common::lemma_address_order;
use crate::contract::{fee_of, fits_i128, quotient, BPS_DENOMINATOR};
use crate::frame::lemma_archive_keeps;
use crate::model::{for_each, MarketView, Step};
use crate::precision::{lemma_share_fits, lemma_some_closest};
use crate::rules::{
    cancel_prediction_step, closest, give_back_step, lose_legacy_step, lose_step, pay_step,
    refund_entry_step, refund_prediction_step, refund_stake_step, refund_step, running_total,
    settle_entry_step, settle_step, share, shares, sorted_addresses,
};
use crate::types::{
    Address, BetSide, OraclePayload, PrecisionEntry, PrecisionPrediction, Round, RoundArchiveStatus,
    RoundMode, UserOutcomeType, UserPosition,
};

verus! {

/// A sum over items.
pub open spec fn sum<T>(items: Seq<T>, amount: spec_fn(T) -> int) -> int
    decreases items.len(),
{
    if items.len() == 0 {
        0
    } else {
        sum(items.drop_last(), amount) + amount(items.last())
    }
}

/// A payment: to whom, and how much.
pub type Payment = (Address, int);

/// What payments come to.
pub open spec fn total_paid(payments: Seq<Payment>) -> int {
    sum(payments, |payment: Payment| payment.1)
}

/// What payments come to for one user.
pub open spec fn credited(payments: Seq<Payment>, user: Address) -> int {
    sum(
        payments,
        |payment: Payment|
            if payment.0 == user {
                payment.1
            } else {
                0
            },
    )
}

/// From one state to the other, exactly the given payments were added to the
/// users' pending winnings.
pub open spec fn pays(before: MarketView, after: MarketView, payments: Seq<Payment>) -> bool {
    forall|user: Address|
        #![trigger after.pending_of(user)]
        after.pending_of(user) == before.pending_of(user) + credited(payments, user)
}

/// The order of the items does not matter to a sum.
pub proof fn lemma_sum_permuted<T>(a: Seq<T>, b: Seq<T>, amount: spec_fn(T) -> int)
    requires
        a.to_multiset() == b.to_multiset(),
    ensures
        sum(a, amount) == sum(b, amount),
{
    let f = |item: T, before: int| before + amount(item);
    assert(commutative_foldr(f));
    lemma_fold_right_permutation(a, b, f, 0);
    lemma_sum_is_fold(a, amount, 0);
    lemma_sum_is_fold(b, amount, 0);
}

proof fn lemma_sum_is_fold<T>(items: Seq<T>, amount: spec_fn(T) -> int, start: int)
    ensures
        items.fold_right(|item: T, before: int| before + amount(item), start) == start + sum(
            items,
            amount,
        ),
    decreases items.len(),
{
    if items.len() > 0 {
        lemma_sum_is_fold(items.drop_last(), amount, start + amount(items.last()));
    }
}

/// Sums over lists whose items amount to the same, place by place, are equal.
pub proof fn lemma_sum_same<T, U>(
    a: Seq<T>,
    b: Seq<U>,
    amount_a: spec_fn(T) -> int,
    amount_b: spec_fn(U) -> int,
)
    requires
        a.len() == b.len(),
        forall|i: int|
            0 <= i < a.len() ==> amount_a(#[trigger] a[i]) == amount_b(b[i]),
    ensures
        sum(a, amount_a) == sum(b, amount_b),
    decreases a.len(),
{
    if a.len() > 0 {
        let n = a.len() - 1;
        assert(amount_a(a[n]) == amount_b(b[n]));
        assert forall|i: int| 0 <= i < a.drop_last().len() implies amount_a(
            #[trigger] a.drop_last()[i],
        ) == amount_b(b.drop_last()[i]) by {
            assert(a.drop_last()[i] == a[i]);
        }
        lemma_sum_same(a.drop_last(), b.drop_last(), amount_a, amount_b);
    }
}

/// The sum of two amounts for each item is the sum of the two sums.
pub proof fn lemma_sum_of_two<T>(
    items: Seq<T>,
    first: spec_fn(T) -> int,
    second: spec_fn(T) -> int,
    both: spec_fn(T) -> int,
)
    requires
        forall|item: T| #[trigger] both(item) == first(item) + second(item),
    ensures
        sum(items, both) == sum(items, first) + sum(items, second),
    decreases items.len(),
{
    if items.len() > 0 {
        lemma_sum_of_two(items.drop_last(), first, second, both);
        assert(both(items.last()) == first(items.last()) + second(items.last()));
    }
}

/// Steps of which each pays one user pay what their payments say together.
pub proof fn lemma_steps_pay<T>(
    start: MarketView,
    items: Seq<T>,
    step: spec_fn(MarketView, T) -> Step<()>,
    payment: spec_fn(T) -> Payment,
    steady: spec_fn(MarketView) -> bool,
)
    requires
        steady(start),
        forall|m: MarketView, item: T|
            steady(m) && (#[trigger] step(m, item)).1 is Ok ==> steady(step(m, item).0) && pays(
                m,
                step(m, item).0,
                seq![payment(item)],
            ),
        for_each(start, items, step).1 is Ok,
    ensures
        steady(for_each(start, items, step).0),
        pays(start, for_each(start, items, step).0, items.map_values(payment)),
    decreases items.len(),
{
    let payments = items.map_values(payment);
    if items.len() == 0 {
        assert(payments =~= Seq::empty());
    } else {
        let before = for_each(start, items.drop_last(), step);
        lemma_steps_pay(start, items.drop_last(), step, payment, steady);
        let after = step(before.0, items.last());
        assert(payments.drop_last() =~= items.drop_last().map_values(payment));
        assert(payments.last() == payment(items.last()));
        assert forall|user: Address| #[trigger]
            after.0.pending_of(user) == start.pending_of(user) + credited(payments, user) by {
            lemma_credited_one(payment(items.last()), user);
        }
    }
}

/// What a single payment comes to.
pub proof fn lemma_credited_one(payment: Payment, user: Address)
    ensures
        credited(seq![payment], user) == (if payment.0 == user {
            payment.1
        } else {
            0
        }),
{
    let payments = seq![payment];
    assert(payments.drop_last() =~= Seq::<Payment>::empty());
    reveal_with_fuel(sum, 2);
}

/// What a position gets of a pot that the positions of one side share in
/// proportion to their stakes.
pub open spec fn winnings_of(
    position: UserPosition,
    winning_side: BetSide,
    winning_pool: int,
    distributable: int,
) -> int {
    if position.side == winning_side {
        quotient(position.amount * distributable, winning_pool)
    } else {
        0
    }
}

impl MarketView {
    /// The stake of a user's position: nothing unless there is one.
    pub open spec fn position_stake(self, round_id: u64, user: Address) -> int {
        match self.positions.get((round_id, user)) {
            Some(position) => position.amount as int,
            None => 0,
        }
    }

    /// The stake of a user's position on one side.
    pub open spec fn side_stake(self, round_id: u64, user: Address, side: BetSide) -> int {
        match self.positions.get((round_id, user)) {
            Some(position) => if position.side == side {
                position.amount as int
            } else {
                0
            },
            None => 0,
        }
    }

    /// The refunds of the stakes of users' positions.
    pub open spec fn position_refunds(self, round_id: u64, users: Seq<Address>) -> Seq<Payment> {
        users.map_values(|user: Address| (user, self.position_stake(round_id, user)))
    }

    /// What the users' positions get where one side has won.
    pub open spec fn position_winnings(
        self,
        round_id: u64,
        users: Seq<Address>,
        winning_side: BetSide,
        winning_pool: int,
        distributable: int,
    ) -> Seq<Payment> {
        users.map_values(
            |user: Address|
                (
                    user,
                    match self.positions.get((round_id, user)) {
                        Some(position) => winnings_of(
                            position,
                            winning_side,
                            winning_pool,
                            distributable,
                        ),
                        None => 0,
                    },
                ),
        )
    }

    /// The fee on a round of two pools.
    pub open spec fn updown_fee(self, round: Round) -> int {
        match self.cells.protocol_fee_bps {
            Some(bps) => fee_of(round.pool_up + round.pool_down, bps as int),
            None => 0,
        }
    }

    /// Everybody in a round on the direction of the price gets the stake back:
    /// the price is what it was, or only one side was bet on.
    pub open spec fn updown_is_refunded(self, round: Round, price: u128) -> bool {
        price == round.price_start || (round.pool_up == 0) != (round.pool_down == 0)
    }

    /// The fee that the settlement of a round on the direction of the price
    /// takes.
    pub open spec fn updown_round_fee(self, round: Round, price: u128) -> int {
        if self.updown_is_refunded(round, price) || self.updown_payments(round, price).len() == 0 {
            0
        } else {
            self.updown_fee(round)
        }
    }

    /// The payments of a round on the direction of the price.
    pub open spec fn updown_payments(self, round: Round, price: u128) -> Seq<Payment> {
        let users = sorted_addresses(self.participants_of(round.round_id));
        let entries = match self.updown_legacy {
            Some(entries) => entries,
            None => Seq::empty(),
        };
        let (side, winning) = if price > round.price_start {
            (BetSide::Up, round.pool_up as int)
        } else {
            (BetSide::Down, round.pool_down as int)
        };
        let distributable = round.pool_up + round.pool_down - self.updown_fee(round);
        if self.updown_is_refunded(round, price) {
            if users.len() > 0 {
                self.position_refunds(round.round_id, users)
            } else {
                entries.map_values(
                    |entry: (Address, UserPosition)| (entry.0, entry.1.amount as int),
                )
            }
        } else if winning == 0 {
            Seq::empty()
        } else if users.len() > 0 {
            self.position_winnings(round.round_id, users, side, winning, distributable)
        } else {
            entries.map_values(
                |entry: (Address, UserPosition)|
                    (entry.0, winnings_of(entry.1, side, winning, distributable)),
            )
        }
    }
}

/// A quotient is no greater than what was divided.
pub proof fn lemma_quotient_fits(a: int, b: int)
    requires
        b > 0,
        fits_i128(a),
    ensures
        fits_i128(quotient(a, b)),
        a >= 0 ==> 0 <= quotient(a, b) && b * quotient(a, b) <= a,
{
    let size = if a >= 0 { a } else { -a };
    assert(0 <= size / b <= size && b * (size / b) <= size) by (nonlinear_arith)
        requires
            b > 0,
            size >= 0,
    ;
}

/// A fee on a pot that is not negative is not negative, and no greater than
/// the pot where it is no more than the whole of it.
pub proof fn lemma_fee_bounds(pot: int, bps: int)
    requires
        pot >= 0,
        bps >= 0,
    ensures
        fee_of(pot, bps) >= 0,
        bps <= 10_000 ==> fee_of(pot, bps) <= pot,
{
    assert(pot * bps >= 0) by (nonlinear_arith)
        requires
            pot >= 0,
            bps >= 0,
    ;
    if bps <= 10_000 {
        assert(pot * bps <= pot * 10_000) by (nonlinear_arith)
            requires
                pot >= 0,
                bps <= 10_000,
        ;
    }
}

/// What the fee on two pools does: what is taken is what the treasury gets,
/// and no user is paid.
proof fn lemma_split_updown(m: MarketView, round_id: u64, winning: i128, losing: i128)
    requires
        winning >= 0,
        losing >= 0,
        m.split_fee_updown(round_id, winning, losing).1 is Ok,
    ensures
        ({
            let after = m.split_fee_updown(round_id, winning, losing).0;
            let split = m.split_fee_updown(round_id, winning, losing).1->Ok_0;
            &&& split.0 + split.1 + split.2 == winning + losing
            &&& split.2 == (match m.cells.protocol_fee_bps {
                Some(bps) => fee_of(winning + losing, bps as int),
                None => 0,
            })
            &&& split.2 >= 0
            &&& after.treasury() == m.treasury() + split.2
            &&& after.pending == m.pending
            &&& after.positions == m.positions
        }),
{
    if let Some(bps) = m.cells.protocol_fee_bps {
        lemma_fee_bounds(winning + losing, bps as int);
    }
}

/// The settlement of positions after one side has won pays what the payments
/// say.
proof fn lemma_winnings_pay(
    m: MarketView,
    round_id: u64,
    users: Seq<Address>,
    side: BetSide,
    winning: i128,
    losing: i128,
)
    requires
        winning > 0,
        losing >= 0,
        m.record_winnings(round_id, users, side, winning, losing).1 is Ok,
    ensures
        ({
            let after = m.record_winnings(round_id, users, side, winning, losing).0;
            let fee = m.record_winnings(round_id, users, side, winning, losing).1->Ok_0;
            &&& fee == (match m.cells.protocol_fee_bps {
                Some(bps) => fee_of(winning + losing, bps as int),
                None => 0,
            })
            &&& after.treasury() == m.treasury() + fee
            &&& pays(
                m,
                after,
                m.position_winnings(
                    round_id,
                    users,
                    side,
                    winning as int,
                    winning + losing - fee,
                ),
            )
        }),
{
    lemma_split_updown(m, round_id, winning, losing);
    let split = m.split_fee_updown(round_id, winning, losing);
    let distributable = split.1->Ok_0.0 + split.1->Ok_0.1;
    let step = settle_step(round_id, side, winning, distributable);
    let cells = split.0.cells;
    let steady = |s: MarketView| s.positions == m.positions && s.cells == cells;
    let payment = |user: Address|
        (
            user,
            match m.positions.get((round_id, user)) {
                Some(position) => winnings_of(position, side, winning as int, distributable),
                None => 0,
            },
        );
    assert forall|s: MarketView, user: Address|
        steady(s) && (#[trigger] step(s, user)).1 is Ok implies steady(step(s, user).0) && pays(
        s,
        step(s, user).0,
        seq![payment(user)],
    ) by {
        lemma_one_settled(s, round_id, user, side, winning, distributable);
        lemma_credits_one(s, step(s, user).0, payment(user));
    }
    lemma_steps_pay(split.0, users, step, payment, steady);
    let after = m.record_winnings(round_id, users, side, winning, losing).0;
    let payments = m.position_winnings(round_id, users, side, winning as int, distributable);
    assert(users.map_values(payment) =~= payments);
    assert forall|user: Address| #[trigger]
        after.pending_of(user) == m.pending_of(user) + credited(payments, user) by {
        assert(split.0.pending_of(user) == m.pending_of(user));
    }
}

/// A state in which one user has got one payment more.
pub open spec fn one_paid(before: MarketView, after: MarketView, payment: Payment) -> bool {
    &&& after.pending_of(payment.0) == before.pending_of(payment.0) + payment.1
    &&& forall|user: Address|
        user != payment.0 ==> #[trigger] after.pending_of(user) == before.pending_of(user)
}

proof fn lemma_credits_one(before: MarketView, after: MarketView, payment: Payment)
    requires
        one_paid(before, after, payment),
    ensures
        pays(before, after, seq![payment]),
{
    assert forall|user: Address| #[trigger]
        after.pending_of(user) == before.pending_of(user) + credited(seq![payment], user) by {
        lemma_credited_one(payment, user);
    }
}

/// The settlement of one participant's position pays that participant.
proof fn lemma_one_settled(
    m: MarketView,
    round_id: u64,
    user: Address,
    side: BetSide,
    winning: i128,
    distributable: int,
)
    requires
        winning > 0,
        settle_step(round_id, side, winning, distributable)(m, user).1 is Ok,
    ensures
        ({
            let after = settle_step(round_id, side, winning, distributable)(m, user).0;
            &&& after.positions == m.positions
            &&& after.cells == m.cells
            &&& one_paid(
                m,
                after,
                (
                    user,
                    match m.positions.get((round_id, user)) {
                        Some(position) => winnings_of(
                            position,
                            side,
                            winning as int,
                            distributable,
                        ),
                        None => 0,
                    },
                ),
            )
        }),
{
    if let Some(position) = m.positions.get((round_id, user)) {
        if position.side == side {
            lemma_quotient_fits(position.amount * distributable, winning as int);
        }
    }
}

/// The settlement of the older position list after one side has won pays what
/// the payments say.
proof fn lemma_legacy_winnings_pay(
    m: MarketView,
    round_id: u64,
    entries: Seq<(Address, UserPosition)>,
    side: BetSide,
    winning: i128,
    losing: i128,
)
    requires
        winning > 0,
        losing >= 0,
        m.record_winnings_legacy(round_id, entries, side, winning, losing).1 is Ok,
    ensures
        ({
            let after = m.record_winnings_legacy(round_id, entries, side, winning, losing).0;
            let fee = m.record_winnings_legacy(
                round_id,
                entries,
                side,
                winning,
                losing,
            ).1->Ok_0;
            &&& fee == (match m.cells.protocol_fee_bps {
                Some(bps) => fee_of(winning + losing, bps as int),
                None => 0,
            })
            &&& after.treasury() == m.treasury() + fee
            &&& pays(
                m,
                after,
                entries.map_values(
                    |entry: (Address, UserPosition)|
                        (
                            entry.0,
                            winnings_of(
                                entry.1,
                                side,
                                winning as int,
                                winning + losing - fee,
                            ),
                        ),
                ),
            )
        }),
{
    lemma_split_updown(m, round_id, winning, losing);
    let split = m.split_fee_updown(round_id, winning, losing);
    let distributable = split.1->Ok_0.0 + split.1->Ok_0.1;
    let step = settle_entry_step(round_id, side, winning, distributable);
    let cells = split.0.cells;
    let steady = |s: MarketView| s.cells == cells;
    let payment = |entry: (Address, UserPosition)|
        (entry.0, winnings_of(entry.1, side, winning as int, distributable));
    assert forall|s: MarketView, entry: (Address, UserPosition)|
        steady(s) && (#[trigger] step(s, entry)).1 is Ok implies steady(step(s, entry).0) && pays(
        s,
        step(s, entry).0,
        seq![payment(entry)],
    ) by {
        if entry.1.side == side {
            lemma_quotient_fits(entry.1.amount * distributable, winning as int);
        }
        lemma_credits_one(s, step(s, entry).0, payment(entry));
    }
    lemma_steps_pay(split.0, entries, step, payment, steady);
    let after = m.record_winnings_legacy(round_id, entries, side, winning, losing).0;
    let payments = entries.map_values(payment);
    assert(payments =~= entries.map_values(
        |entry: (Address, UserPosition)|
            (entry.0, winnings_of(entry.1, side, winning as int, distributable)),
    ));
    assert forall|user: Address| #[trigger]
        after.pending_of(user) == m.pending_of(user) + credited(payments, user) by {
        assert(split.0.pending_of(user) == m.pending_of(user));
    }
}

/// The refund of users' positions pays the stakes.
pub proof fn lemma_position_refunds_pay(
    m: MarketView,
    round_id: u64,
    round_mode: u32,
    users: Seq<Address>,
)
    requires
        for_each(m, users, refund_step(round_id, round_mode)).1 is Ok,
    ensures
        ({
            let after = for_each(m, users, refund_step(round_id, round_mode)).0;
            &&& after.cells == m.cells
            &&& pays(m, after, m.position_refunds(round_id, users))
        }),
{
    let step = refund_step(round_id, round_mode);
    let steady = |s: MarketView| s.positions == m.positions && s.cells == m.cells;
    let payment = |user: Address| (user, m.position_stake(round_id, user));
    assert forall|s: MarketView, user: Address|
        steady(s) && (#[trigger] step(s, user)).1 is Ok implies steady(step(s, user).0) && pays(
        s,
        step(s, user).0,
        seq![payment(user)],
    ) by {
        lemma_credits_one(s, step(s, user).0, payment(user));
    }
    lemma_steps_pay(m, users, step, payment, steady);
    assert(users.map_values(payment) =~= m.position_refunds(round_id, users));
}

/// The refund of the older position list pays the stakes.
proof fn lemma_entry_refunds_pay(
    m: MarketView,
    round_id: u64,
    entries: Seq<(Address, UserPosition)>,
    outcome: UserOutcomeType,
)
    requires
        for_each(m, entries, refund_entry_step(round_id, outcome)).1 is Ok,
    ensures
        ({
            let after = for_each(m, entries, refund_entry_step(round_id, outcome)).0;
            &&& after.cells == m.cells
            &&& pays(
                m,
                after,
                entries.map_values(
                    |entry: (Address, UserPosition)| (entry.0, entry.1.amount as int),
                ),
            )
        }),
{
    let step = refund_entry_step(round_id, outcome);
    let steady = |s: MarketView| s.cells == m.cells;
    let payment = |entry: (Address, UserPosition)| (entry.0, entry.1.amount as int);
    assert forall|s: MarketView, entry: (Address, UserPosition)|
        steady(s) && (#[trigger] step(s, entry)).1 is Ok implies steady(step(s, entry).0) && pays(
        s,
        step(s, entry).0,
        seq![payment(entry)],
    ) by {
        lemma_credits_one(s, step(s, entry).0, payment(entry));
    }
    lemma_steps_pay(m, entries, step, payment, steady);
}

/// The settlement of a round on the direction of the price pays what the
/// payments say, and the treasury gets the fee.
pub proof fn lemma_updown_pays(m: MarketView, round: Round, price: u128)
    requires
        round.wf(),
        m.resolve_updown(round, price).1 is Ok,
    ensures
        ({
            let after = m.resolve_updown(round, price).0;
            let fee = m.resolve_updown(round, price).1->Ok_0.1;
            &&& pays(m, after, m.updown_payments(round, price))
            &&& after.treasury() == m.treasury() + fee
            &&& fee == m.updown_round_fee(round, price)
        }),
{
    let users = sorted_addresses(m.participants_of(round.round_id));
    let entries = match m.updown_legacy {
        Some(entries) => entries,
        None => Seq::empty(),
    };
    let (side, winning, losing) = if price > round.price_start {
        (BetSide::Up, round.pool_up, round.pool_down)
    } else {
        (BetSide::Down, round.pool_down, round.pool_up)
    };
    let after = m.resolve_updown(round, price).0;
    let payments = m.updown_payments(round, price);
    lemma_sorted_keeps(m.participants_of(round.round_id));
    if users.len() == 0 && entries.len() == 0 {
        assert(payments =~= Seq::empty());
    } else if m.updown_is_refunded(round, price) {
        if users.len() > 0 {
            lemma_position_refunds_pay(m, round.round_id, 0, users);
        } else {
            lemma_entry_refunds_pay(m, round.round_id, entries, UserOutcomeType::Refund);
        }
    } else if winning == 0 {
        assert(payments =~= Seq::empty());
    } else if users.len() > 0 {
        lemma_winnings_pay(m, round.round_id, users, side, winning, losing);
    } else {
        lemma_legacy_winnings_pay(m, round.round_id, entries, side, winning, losing);
    }
}

/// Putting addresses into order neither loses nor adds one.
pub proof fn lemma_sorted_keeps(addresses: Seq<Address>)
    ensures
        sorted_addresses(addresses).to_multiset() == addresses.to_multiset(),
        sorted_addresses(addresses).len() == addresses.len(),
{
    broadcast use vstd::seq_lib::group_to_multiset_ensures;

    lemma_address_order();
    let leq = |a: Address, b: Address| a.at_or_before(b);
    addresses.lemma_sort_by_ensures(leq);
    assert(sorted_addresses(addresses).len() == sorted_addresses(addresses).to_multiset().len());
}

/// What winners get of a pool.
pub open spec fn winner_payments(winners: Seq<PrecisionPrediction>, pool: int) -> Seq<Payment> {
    Seq::new(
        winners.len(),
        |i: int| (winners[i].user, share(pool, winners.len() as int, i)),
    )
}

impl MarketView {
    /// The fee on the pot of a round on the price.
    pub open spec fn precision_fee(self, pot: int) -> int {
        match self.cells.protocol_fee_bps {
            Some(bps) => fee_of(pot, bps as int),
            None => 0,
        }
    }

    /// The refunds of users' stakes on a price.
    pub open spec fn stake_refunds(self, round_id: u64, users: Seq<Address>) -> Seq<Payment> {
        users.map_values(|user: Address| (user, self.precision_stake(round_id, user) as int))
    }

    /// The refunds of users' stakes on a price, where only what is positive
    /// goes back.
    pub open spec fn positive_refunds(self, round_id: u64, users: Seq<Address>) -> Seq<Payment> {
        users.map_values(
            |user: Address|
                (
                    user,
                    if self.precision_stake(round_id, user) > 0 {
                        self.precision_stake(round_id, user) as int
                    } else {
                        0
                    },
                ),
        )
    }

    /// The payments of a round on the price.
    pub open spec fn precision_payments(self, round_id: u64, price: u128) -> Seq<Payment> {
        let users = sorted_addresses(self.participants_of(round_id));
        let winners = closest(self.revealed(round_id, users), price);
        if users.len() == 0 {
            match self.precision_legacy {
                Some(entries) => self.legacy_payments(entries, price),
                None => Seq::empty(),
            }
        } else {
            match running_total(self.precision_stakes(round_id, users)) {
                Some(pot) if pot > 0 => if winners.len() == 0 {
                    self.stake_refunds(round_id, users)
                } else {
                    winner_payments(winners, pot - self.precision_fee(pot))
                },
                _ => Seq::empty(),
            }
        }
    }

    /// The fee that the settlement of a round on the price takes.
    pub open spec fn precision_round_fee(self, round_id: u64, price: u128) -> int {
        let users = sorted_addresses(self.participants_of(round_id));
        if users.len() == 0 {
            match self.precision_legacy {
                Some(entries) => self.legacy_fee(entries),
                None => 0,
            }
        } else {
            match running_total(self.precision_stakes(round_id, users)) {
                Some(pot) if pot > 0 && closest(self.revealed(round_id, users), price).len() > 0
                    => self.precision_fee(pot),
                _ => 0,
            }
        }
    }

    /// The fee that the settlement of the older list of predictions takes.
    pub open spec fn legacy_fee(self, entries: Seq<(Address, PrecisionPrediction)>) -> int {
        let predictions = entries.map_values(|entry: (Address, PrecisionPrediction)| entry.1);
        let stakes = predictions.map_values(|prediction: PrecisionPrediction| prediction.amount);
        match running_total(stakes) {
            Some(pot) if pot > 0 => self.precision_fee(pot),
            _ => 0,
        }
    }

    /// The payments of the older list of predictions.
    pub open spec fn legacy_payments(
        self,
        entries: Seq<(Address, PrecisionPrediction)>,
        price: u128,
    ) -> Seq<Payment> {
        let predictions = entries.map_values(|entry: (Address, PrecisionPrediction)| entry.1);
        let stakes = predictions.map_values(|prediction: PrecisionPrediction| prediction.amount);
        let winners = closest(
            predictions.map_values(|prediction: PrecisionPrediction| Some(prediction)),
            price,
        );
        match running_total(stakes) {
            Some(pot) if pot > 0 => winner_payments(winners, pot - self.precision_fee(pot)),
            _ => Seq::empty(),
        }
    }
}

/// What the fee on a pot does: what is taken is what the treasury gets, and no
/// user is paid.
proof fn lemma_split_precision(m: MarketView, round_id: u64, pot: i128)
    requires
        pot > 0,
        m.split_fee_precision(round_id, pot).1 is Ok,
    ensures
        ({
            let after = m.split_fee_precision(round_id, pot).0;
            let split = m.split_fee_precision(round_id, pot).1->Ok_0;
            &&& split.0 + split.1 == pot
            &&& split.1 == m.precision_fee(pot as int)
            &&& split.1 >= 0
            &&& after.treasury() == m.treasury() + split.1
            &&& after.pending == m.pending
        }),
{
    if let Some(bps) = m.cells.protocol_fee_bps {
        lemma_fee_bounds(pot as int, bps as int);
    }
}

/// The payment of the winners pays each a share, and the treasury the fee.
proof fn lemma_closest_paid(
    m: MarketView,
    round_id: u64,
    winners: Seq<PrecisionPrediction>,
    pot: i128,
)
    requires
        winners.len() > 0,
        pot > 0,
        m.pay_closest(round_id, winners, pot).1 is Ok,
    ensures
        ({
            let after = m.pay_closest(round_id, winners, pot).0;
            let fee = m.pay_closest(round_id, winners, pot).1->Ok_0;
            &&& fee == m.precision_fee(pot as int)
            &&& after.treasury() == m.treasury() + fee
            &&& pays(m, after, winner_payments(winners, pot - fee))
        }),
{
    lemma_split_precision(m, round_id, pot);
    let split = m.split_fee_precision(round_id, pot);
    let pool = split.1->Ok_0.0;
    let items = shares(winners, pool);
    let step = pay_step(round_id);
    let cells = split.0.cells;
    let steady = |s: MarketView| s.cells == cells;
    let payment = |item: (PrecisionPrediction, i128)| (item.0.user, item.1 as int);
    assert forall|s: MarketView, item: (PrecisionPrediction, i128)|
        steady(s) && (#[trigger] step(s, item)).1 is Ok implies steady(step(s, item).0) && pays(
        s,
        step(s, item).0,
        seq![payment(item)],
    ) by {
        lemma_credits_one(s, step(s, item).0, payment(item));
    }
    lemma_steps_pay(split.0, items, step, payment, steady);
    assert(items.map_values(payment) =~= winner_payments(winners, pool as int)) by {
        assert forall|i: int| 0 <= i < winners.len() implies items.map_values(payment)[i]
            == winner_payments(winners, pool as int)[i] by {
            lemma_share_fits(pool as int, winners.len() as int, i);
        }
    }
    let after = m.pay_closest(round_id, winners, pot).0;
    assert forall|user: Address| #[trigger]
        after.pending_of(user) == m.pending_of(user) + credited(
            winner_payments(winners, pool as int),
            user,
        ) by {
        assert(split.0.pending_of(user) == m.pending_of(user));
    }
}

/// Steps that pay nobody leave the pending winnings as they are.
proof fn lemma_steps_pay_nobody<T>(
    start: MarketView,
    items: Seq<T>,
    step: spec_fn(MarketView, T) -> Step<()>,
)
    requires
        forall|m: MarketView, item: T|
            (#[trigger] step(m, item)).0.pending == m.pending && step(m, item).0.cells == m.cells,
    ensures
        for_each(start, items, step).0.pending == start.pending,
        for_each(start, items, step).0.cells == start.cells,
    decreases items.len(),
{
    if items.len() > 0 {
        lemma_steps_pay_nobody(start, items.drop_last(), step);
    }
}

/// The settlement of a round on the price pays what the payments say, and the
/// treasury gets the fee.
pub proof fn lemma_precision_pays(m: MarketView, round_id: u64, price: u128)
    requires
        m.resolve_precision(round_id, price).1 is Ok,
    ensures
        ({
            let after = m.resolve_precision(round_id, price).0;
            let fee = m.resolve_precision(round_id, price).1->Ok_0;
            &&& pays(m, after, m.precision_payments(round_id, price))
            &&& after.treasury() == m.treasury() + fee
            &&& fee == m.precision_round_fee(round_id, price)
        }),
{
    let users = sorted_addresses(m.participants_of(round_id));
    let winners = closest(m.revealed(round_id, users), price);
    let entries = m.precision_entries(round_id, users, price);
    if users.len() == 0 {
        match m.precision_legacy {
            Some(legacy) => {
                lemma_legacy_pays(m, round_id, legacy, price);
            },
            None => {},
        }
    } else {
        let pot = running_total(m.precision_stakes(round_id, users))->0;
        if pot > 0 {
            lemma_running_total(m.precision_stakes(round_id, users));
            if winners.len() == 0 {
                let step = give_back_step(round_id);
                let steady = |s: MarketView| s.cells == m.cells;
                let payment = |entry: PrecisionEntry| (entry.0, entry.1 as int);
                assert forall|s: MarketView, entry: PrecisionEntry|
                    steady(s) && (#[trigger] step(s, entry)).1 is Ok implies steady(
                    step(s, entry).0,
                ) && pays(s, step(s, entry).0, seq![payment(entry)]) by {
                    lemma_credits_one(s, step(s, entry).0, payment(entry));
                }
                lemma_steps_pay(m, entries, step, payment, steady);
                assert(entries.map_values(payment) =~= m.stake_refunds(round_id, users));
            } else {
                lemma_closest_paid(m, round_id, winners, pot as i128);
                let paid = m.pay_closest(round_id, winners, pot as i128);
                lemma_steps_pay_nobody(paid.0, entries, lose_step(round_id));
                lemma_pending_same(m, paid.0, m.resolve_precision(round_id, price).0,
                    winner_payments(winners, pot - m.precision_fee(pot)));
            }
        }
    }
}

/// Where the pending winnings are the same, so are the payments.
proof fn lemma_pending_same(
    before: MarketView,
    after: MarketView,
    later: MarketView,
    payments: Seq<Payment>,
)
    requires
        pays(before, after, payments),
        later.pending == after.pending,
    ensures
        pays(before, later, payments),
{
    assert forall|user: Address| #[trigger]
        later.pending_of(user) == before.pending_of(user) + credited(payments, user) by {
        assert(later.pending_of(user) == after.pending_of(user));
    }
}

/// A running total is within the type `i128`, and is the sum of the stakes.
pub proof fn lemma_running_total(stakes: Seq<i128>)
    ensures
        running_total(stakes) matches Some(total) ==> fits_i128(total) && total == sum(
            stakes,
            |stake: i128| stake as int,
        ),
    decreases stakes.len(),
{
    if stakes.len() > 0 {
        lemma_running_total(stakes.drop_last());
    }
}

/// The settlement of the older list of predictions pays what the payments say.
proof fn lemma_legacy_pays(
    m: MarketView,
    round_id: u64,
    entries: Seq<(Address, PrecisionPrediction)>,
    price: u128,
)
    requires
        m.resolve_precision_legacy(round_id, entries, price).1 is Ok,
    ensures
        ({
            let after = m.resolve_precision_legacy(round_id, entries, price).0;
            let fee = m.resolve_precision_legacy(round_id, entries, price).1->Ok_0;
            &&& pays(m, after, m.legacy_payments(entries, price))
            &&& after.treasury() == m.treasury() + fee
            &&& fee == m.legacy_fee(entries)
        }),
{
    let predictions = entries.map_values(|entry: (Address, PrecisionPrediction)| entry.1);
    let stakes = predictions.map_values(|prediction: PrecisionPrediction| prediction.amount);
    let made = predictions.map_values(|prediction: PrecisionPrediction| Some(prediction));
    let winners = closest(made, price);
    if entries.len() == 0 {
        assert(stakes =~= Seq::empty());
    } else {
        let pot = running_total(stakes)->0;
        lemma_running_total(stakes);
        if pot > 0 {
            lemma_some_closest(made, price);
            lemma_closest_paid(m, round_id, winners, pot as i128);
            let paid = m.pay_closest(round_id, winners, pot as i128);
            lemma_steps_pay_nobody(paid.0, predictions, lose_legacy_step(round_id, winners));
            lemma_pending_same(
                m,
                paid.0,
                m.resolve_precision_legacy(round_id, entries, price).0,
                winner_payments(winners, pot - m.precision_fee(pot)),
            );
        }
    }
}

impl MarketView {
    /// A round has fewer participants than it needs to be settled.
    pub open spec fn has_too_few(self, round: Round) -> bool {
        self.cells.min_participants matches Some(min) && (self.participants_of(
            round.round_id,
        ).len() as u32) < min
    }

    /// The refunds of the stakes in the older list, where only what is positive
    /// goes back of predictions.
    pub open spec fn older_refunds(self, round: Round) -> Seq<Payment> {
        match round.mode {
            RoundMode::UpDown => self.older_positions().map_values(
                |entry: (Address, UserPosition)| (entry.0, entry.1.amount as int),
            ),
            RoundMode::Precision => self.older_predictions().map_values(
                |made: PrecisionPrediction|
                    (
                        made.user,
                        if made.amount > 0 {
                            made.amount as int
                        } else {
                            0
                        },
                    ),
            ),
        }
    }

    /// The payments that the settlement of a round makes.
    pub open spec fn round_payments(self, round: Round, price: u128) -> Seq<Payment> {
        let users = self.participants_of(round.round_id);
        match (self.has_too_few(round), round.mode) {
            (true, _) if users.len() == 0 => self.older_refunds(round),
            (true, RoundMode::UpDown) => self.position_refunds(round.round_id, users),
            (true, RoundMode::Precision) => self.positive_refunds(round.round_id, users),
            (false, RoundMode::UpDown) => self.updown_payments(round, price),
            (false, RoundMode::Precision) => self.precision_payments(round.round_id, price),
        }
    }
}

impl MarketView {
    /// The fee that the settlement of a round takes.
    pub open spec fn round_fee(self, round: Round, price: u128) -> int {
        match (self.has_too_few(round), round.mode) {
            (true, _) => 0,
            (false, RoundMode::UpDown) => self.updown_round_fee(round, price),
            (false, RoundMode::Precision) => self.precision_round_fee(round.round_id, price),
        }
    }

    /// All that was staked in a round.
    pub open spec fn staked(self, round: Round) -> int {
        let users = self.participants_of(round.round_id);
        match round.mode {
            RoundMode::UpDown => if users.len() > 0 {
                sum(users, |user: Address| self.position_stake(round.round_id, user))
            } else {
                match self.updown_legacy {
                    Some(entries) => sum(
                        entries,
                        |entry: (Address, UserPosition)| entry.1.amount as int,
                    ),
                    None => 0,
                }
            },
            RoundMode::Precision => if users.len() > 0 {
                sum(users, |user: Address| self.precision_stake(round.round_id, user) as int)
            } else {
                match self.precision_legacy {
                    Some(entries) => sum(
                        entries,
                        |entry: (Address, PrecisionPrediction)| entry.1.amount as int,
                    ),
                    None => 0,
                }
            },
        }
    }

    /// What the stakes on one side of a round come to.
    pub open spec fn staked_on(self, round: Round, side: BetSide) -> int {
        let users = self.participants_of(round.round_id);
        if users.len() > 0 {
            sum(users, |user: Address| self.side_stake(round.round_id, user, side))
        } else {
            match self.updown_legacy {
                Some(entries) => sum(
                    entries,
                    |entry: (Address, UserPosition)|
                        if entry.1.side == side {
                            entry.1.amount as int
                        } else {
                            0
                        },
                ),
                None => 0,
            }
        }
    }

    /// The books of a round are in order: no stake is negative, and each pool
    /// is what the stakes on its side come to.
    pub open spec fn books_balance(self, round: Round) -> bool {
        let users = self.participants_of(round.round_id);
        match round.mode {
            RoundMode::UpDown => {
                &&& round.pool_up == self.staked_on(round, BetSide::Up)
                &&& round.pool_down == self.staked_on(round, BetSide::Down)
                &&& forall|user: Address| #[trigger]
                    users.contains(user) ==> self.position_stake(round.round_id, user) >= 0
                &&& self.updown_legacy matches Some(entries) ==> forall|i: int|
                    0 <= i < entries.len() ==> (#[trigger] entries[i]).1.amount >= 0
            },
            RoundMode::Precision => {
                &&& forall|user: Address| #[trigger]
                    users.contains(user) ==> self.precision_stake(round.round_id, user) >= 0
                &&& self.precision_legacy matches Some(entries) ==> forall|i: int|
                    0 <= i < entries.len() ==> (#[trigger] entries[i]).1.amount >= 0
            },
        }
    }

    /// The fee, where there is one, is no more than the whole of a pot.
    pub open spec fn fee_is_fair(self) -> bool {
        self.cells.protocol_fee_bps matches Some(bps) ==> bps <= BPS_DENOMINATOR
    }
}

/// The refund of stakes on a price pays what is positive.
pub proof fn lemma_positive_refunds_pay(m: MarketView, round_id: u64, users: Seq<Address>)
    requires
        for_each(m, users, refund_stake_step(round_id)).1 is Ok,
    ensures
        ({
            let after = for_each(m, users, refund_stake_step(round_id)).0;
            &&& after.cells == m.cells
            &&& pays(m, after, m.positive_refunds(round_id, users))
        }),
{
    let step = refund_stake_step(round_id);
    let steady = |s: MarketView|
        s.predictions == m.predictions && s.commitments == m.commitments && s.cells == m.cells;
    let payment = |user: Address|
        (
            user,
            if m.precision_stake(round_id, user) > 0 {
                m.precision_stake(round_id, user) as int
            } else {
                0
            },
        );
    assert forall|s: MarketView, user: Address|
        steady(s) && (#[trigger] step(s, user)).1 is Ok implies steady(step(s, user).0) && pays(
        s,
        step(s, user).0,
        seq![payment(user)],
    ) by {
        lemma_credits_one(s, step(s, user).0, payment(user));
    }
    lemma_steps_pay(m, users, step, payment, steady);
    assert(users.map_values(payment) =~= m.positive_refunds(round_id, users));
}

/// The refund of the older list of predictions pays what is positive.
proof fn lemma_prediction_refunds_pay(m: MarketView, round: Round)
    requires
        round.mode == RoundMode::Precision,
    ensures
        ({
            let refunded = for_each(
                m,
                m.older_predictions(),
                refund_prediction_step(round.round_id),
            );
            refunded.1 is Ok ==> refunded.0.cells == m.cells && pays(
                m,
                refunded.0,
                m.older_refunds(round),
            )
        }),
        ({
            let refunded = for_each(
                m,
                m.older_predictions(),
                cancel_prediction_step(round.round_id),
            );
            refunded.1 is Ok ==> refunded.0.cells == m.cells && pays(
                m,
                refunded.0,
                m.older_refunds(round),
            )
        }),
{
    let id = round.round_id;
    let list = m.older_predictions();
    let steady = |s: MarketView| s.cells == m.cells;
    let payment = |made: PrecisionPrediction|
        (
            made.user,
            if made.amount > 0 {
                made.amount as int
            } else {
                0
            },
        );
    assert forall|s: MarketView, made: PrecisionPrediction|
        steady(s) && (#[trigger] refund_prediction_step(id)(s, made)).1 is Ok implies steady(
        refund_prediction_step(id)(s, made).0,
    ) && pays(s, refund_prediction_step(id)(s, made).0, seq![payment(made)]) by {
        lemma_credits_one(s, refund_prediction_step(id)(s, made).0, payment(made));
    }
    assert forall|s: MarketView, made: PrecisionPrediction|
        steady(s) && (#[trigger] cancel_prediction_step(id)(s, made)).1 is Ok implies steady(
        cancel_prediction_step(id)(s, made).0,
    ) && pays(s, cancel_prediction_step(id)(s, made).0, seq![payment(made)]) by {
        lemma_credits_one(s, cancel_prediction_step(id)(s, made).0, payment(made));
    }
    if for_each(m, list, refund_prediction_step(id)).1 is Ok {
        lemma_steps_pay(m, list, refund_prediction_step(id), payment, steady);
    }
    if for_each(m, list, cancel_prediction_step(id)).1 is Ok {
        lemma_steps_pay(m, list, cancel_prediction_step(id), payment, steady);
    }
    assert(list.map_values(payment) =~= m.older_refunds(round));
}

/// The refund of all stakes in a cancelled round of the older list pays them.
pub proof fn lemma_cancel_pays_older(m: MarketView, round: Round)
    requires
        m.cancel_stakes(round, Seq::empty()).1 is Ok,
    ensures
        pays(m, m.cancel_stakes(round, Seq::empty()).0, m.older_refunds(round)),
{
    match round.mode {
        RoundMode::UpDown => {
            lemma_entry_refunds_pay(
                m,
                round.round_id,
                m.older_positions(),
                UserOutcomeType::Cancel,
            );
        },
        RoundMode::Precision => {
            lemma_prediction_refunds_pay(m, round);
        },
    }
}

/// The refund of all stakes in a round that had too few participants pays what
/// the payments say.
proof fn lemma_refunds_pay(m: MarketView, round: Round, price: u128)
    requires
        m.has_too_few(round),
        m.refund_stakes(round, m.participants_of(round.round_id)).1 is Ok,
    ensures
        ({
            let after = m.refund_stakes(round, m.participants_of(round.round_id)).0;
            &&& after.cells == m.cells
            &&& pays(m, after, m.round_payments(round, price))
        }),
{
    let id = round.round_id;
    let users = m.participants_of(id);
    match (round.mode, users.len() == 0) {
        (RoundMode::UpDown, false) => {
            lemma_position_refunds_pay(m, id, 0, users);
        },
        (RoundMode::Precision, false) => {
            lemma_positive_refunds_pay(m, id, users);
        },
        (RoundMode::UpDown, true) => {
            lemma_entry_refunds_pay(m, id, m.older_positions(), UserOutcomeType::Refund);
        },
        (RoundMode::Precision, true) => {
            lemma_prediction_refunds_pay(m, round);
        },
    }
}

/// Two states in which the same stakes stand under the same rules.
pub open spec fn same_stakes(a: MarketView, b: MarketView) -> bool {
    &&& a.cells.min_participants == b.cells.min_participants
    &&& a.cells.protocol_fee_bps == b.cells.protocol_fee_bps
    &&& a.participants == b.participants
    &&& a.positions == b.positions
    &&& a.predictions == b.predictions
    &&& a.commitments == b.commitments
    &&& a.updown_legacy == b.updown_legacy
    &&& a.precision_legacy == b.precision_legacy
}

/// The payments depend on nothing but the stakes and the rules.
pub proof fn lemma_same_payments(a: MarketView, b: MarketView, round: Round, price: u128)
    requires
        same_stakes(a, b),
    ensures
        a.round_payments(round, price) == b.round_payments(round, price),
{
    let id = round.round_id;
    let users = a.participants_of(id);
    let sorted = sorted_addresses(users);
    assert(a.position_refunds(id, users) =~= b.position_refunds(id, users));
    assert(a.position_refunds(id, sorted) =~= b.position_refunds(id, sorted));
    assert(a.positive_refunds(id, users) =~= b.positive_refunds(id, users));
    assert(a.stake_refunds(id, sorted) =~= b.stake_refunds(id, sorted));
    assert(a.precision_stakes(id, sorted) =~= b.precision_stakes(id, sorted));
    assert(a.revealed(id, sorted) =~= b.revealed(id, sorted));
    let (side, winning) = if price > round.price_start {
        (BetSide::Up, round.pool_up as int)
    } else {
        (BetSide::Down, round.pool_down as int)
    };
    let distributable = round.pool_up + round.pool_down - a.updown_fee(round);
    assert(a.position_winnings(id, sorted, side, winning, distributable)
        =~= b.position_winnings(id, sorted, side, winning, distributable));
}

/// The settlement of a round by a report that has passed all checks pays what
/// the payments say, and the treasury gets the fee.
pub proof fn lemma_settle_pays(m: MarketView, sequence: u32, round: Round, payload: OraclePayload)
    requires
        round.wf(),
        m.settle_round(sequence, round, payload).1 is Ok,
    ensures
        ({
            let after = m.settle_round(sequence, round, payload).0;
            &&& pays(m, after, m.round_payments(round, payload.price))
            &&& after.treasury() == m.treasury() + m.round_fee(round, payload.price)
        }),
{
    let after = m.settle_round(sequence, round, payload).0;
    let users = m.participants_of(round.round_id);
    let payments = m.round_payments(round, payload.price);
    if m.has_too_few(round) {
        let count = users.len() as u32;
        let stored = m.archive(
            sequence,
            round,
            RoundArchiveStatus::FallbackRefund,
            payload.price,
            count,
            0,
        );
        lemma_archive_keeps(
            m,
            sequence,
            round,
            RoundArchiveStatus::FallbackRefund,
            payload.price,
            count,
            0,
        );
        assert(same_stakes(m, stored));
        lemma_same_payments(m, stored, round, payload.price);
        let refunded = stored.refund_stakes(round, users).0;
        lemma_refunds_pay(stored, round, payload.price);
        lemma_pending_same(stored, refunded, after, payments);
        lemma_same_start(stored, m, after, payments);
    } else {
        let paid = m.pay_by_mode(round, payload.price);
        let settled = match round.mode {
            RoundMode::UpDown => {
                lemma_updown_pays(m, round, payload.price);
                m.resolve_updown(round, payload.price).0
            },
            RoundMode::Precision => {
                lemma_precision_pays(m, round.round_id, payload.price);
                m.resolve_precision(round.round_id, payload.price).0
            },
        };
        lemma_archive_keeps(
            paid.0,
            sequence,
            round,
            RoundArchiveStatus::Resolved,
            payload.price,
            users.len() as u32,
            paid.1->Ok_0,
        );
        lemma_pending_same(m, settled, after, payments);
    }
}

/// Where the pending winnings were the same before, so are the payments.
proof fn lemma_same_start(
    before: MarketView,
    earlier: MarketView,
    after: MarketView,
    payments: Seq<Payment>,
)
    requires
        pays(before, after, payments),
        earlier.pending == before.pending,
    ensures
        pays(earlier, after, payments),
{
    assert forall|user: Address| #[trigger]
        after.pending_of(user) == earlier.pending_of(user) + credited(payments, user) by {
        assert(before.pending_of(user) == earlier.pending_of(user));
    }
}

} // verus!
