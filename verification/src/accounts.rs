//! What a settlement does to the account of each user: the pending winnings,
//! the counts of wins and losses, and the record of the round.

use vstd::prelude::*;
use crate::contract::{fits_i128, quotient};
use crate::errors::ContractError;
use crate::frame::{
    lemma_archive_keeps, lemma_mode_only_pays, lemma_report_only_checked, only_checked,
};
use crate::market::LedgerContext;
use crate::model::{for_each, keys_ascend, MarketView, Step};
use crate::payments::{lemma_quotient_fits, lemma_sorted_keeps};
use crate::readings::{
    law_fee_on_two_pools, law_quotients_round_towards_zero, law_records_say_what_was_staked,
};
use crate::reports::law_passing_reports_leave;
use crate::rules::{settle_entry_step, settle_position, settle_step, sorted_addresses};
use crate::shares::lemma_sorted_once;
use crate::summaries::lemma_archive_told;
use crate::types::{
    Address, BetSide, Event, OraclePayload, Round, RoundArchiveStatus, RoundMode, UserOutcomeType,
    UserPosition, UserRoundOutcome, UserStats,
};

verus! {

/// One list of events goes on from another.
pub open spec fn goes_on(before: Seq<Event>, after: Seq<Event>) -> bool {
    &&& before.len() <= after.len()
    &&& forall|i: int| 0 <= i < before.len() ==> #[trigger] after[i] == before[i]
}

/// An event is among those that were told since.
pub open spec fn is_told(before: MarketView, after: MarketView, event: Event) -> bool {
    exists|i: int|
        before.events.len() <= i < after.events.len() && #[trigger] after.events[i] == event
}

/// The winnings, the counts and the records of a user are the same.
pub open spec fn same_results(a: MarketView, b: MarketView, user: Address) -> bool {
    &&& a.pending.get(user) == b.pending.get(user)
    &&& a.stats.get(user) == b.stats.get(user)
    &&& forall|id: u64| #[trigger] a.outcomes.get((id, user)) == b.outcomes.get((id, user))
}

/// All that is recorded of a user is the same.
pub open spec fn same_account(a: MarketView, b: MarketView, user: Address) -> bool {
    &&& same_results(a, b, user)
    &&& forall|id: u64| #[trigger] a.positions.get((id, user)) == b.positions.get((id, user))
    &&& forall|id: u64| #[trigger] a.predictions.get((id, user)) == b.predictions.get((id, user))
    &&& forall|id: u64| #[trigger] a.commitments.get((id, user)) == b.commitments.get((id, user))
}

/// From one state to the other nothing has changed but one user's account and
/// what was told.
pub open spec fn concerns_only(a: MarketView, b: MarketView, user: Address) -> bool {
    &&& forall|other: Address| other != user ==> #[trigger] same_account(a, b, other)
    &&& goes_on(a.events, b.events)
}

/// A step was taken for an item from some state on, in which the account of its
/// user was what it was at the start, and after which it stayed what it is at
/// the end.
pub open spec fn taken<T>(
    start: MarketView,
    end: MarketView,
    at: MarketView,
    step: spec_fn(MarketView, T) -> Step<()>,
    item: T,
    user: Address,
    steady: spec_fn(MarketView) -> bool,
) -> bool {
    &&& steady(at)
    &&& step(at, item).1 is Ok
    &&& same_account(start, at, user)
    &&& same_account(step(at, item).0, end, user)
    &&& goes_on(start.events, at.events)
    &&& goes_on(step(at, item).0.events, end.events)
}

/// A step was taken for an item as if it was the only one.
pub open spec fn was_taken<T>(
    start: MarketView,
    end: MarketView,
    step: spec_fn(MarketView, T) -> Step<()>,
    item: T,
    user: Address,
    steady: spec_fn(MarketView) -> bool,
) -> bool {
    exists|at: MarketView| #[trigger] taken(start, end, at, step, item, user, steady)
}

/// Steps that each concern only the user of their item do not get in each
/// other's way: for every item, the step was taken as if it was the only one.
pub proof fn lemma_steps_apart<T>(
    m: MarketView,
    items: Seq<T>,
    step: spec_fn(MarketView, T) -> Step<()>,
    who: spec_fn(T) -> Address,
    steady: spec_fn(MarketView) -> bool,
)
    requires
        forall|i: int, j: int|
            0 <= i < j < items.len() ==> who(#[trigger] items[i]) != who(#[trigger] items[j]),
        steady(m),
        forall|s: MarketView, item: T|
            steady(s) ==> steady((#[trigger] step(s, item)).0) && concerns_only(
                s,
                step(s, item).0,
                who(item),
            ),
        for_each(m, items, step).1 is Ok,
    ensures
        steady(for_each(m, items, step).0),
        goes_on(m.events, for_each(m, items, step).0.events),
        forall|i: int|
            0 <= i < items.len() ==> was_taken(
                m,
                for_each(m, items, step).0,
                step,
                #[trigger] items[i],
                who(items[i]),
                steady,
            ),
        forall|user: Address|
            (forall|i: int| 0 <= i < items.len() ==> who(#[trigger] items[i]) != user)
                ==> #[trigger] same_account(m, for_each(m, items, step).0, user),
    decreases items.len(),
{
    let end = for_each(m, items, step).0;
    if items.len() == 0 {
    } else {
        let fewer = items.drop_last();
        let last = items.last();
        let before = for_each(m, fewer, step).0;
        assert forall|i: int, j: int| 0 <= i < j < fewer.len() implies who(#[trigger] fewer[i])
            != who(#[trigger] fewer[j]) by {
            assert(who(items[i]) != who(items[j]));
        }
        lemma_steps_apart(m, fewer, step, who, steady);
        assert(concerns_only(before, step(before, last).0, who(last)));
        assert forall|i: int| 0 <= i < items.len() implies was_taken(
            m,
            end,
            step,
            #[trigger] items[i],
            who(items[i]),
            steady,
        ) by {
            if i < fewer.len() {
                assert(fewer[i] == items[i]);
                assert(was_taken(m, before, step, fewer[i], who(fewer[i]), steady));
                let at = choose|at: MarketView| #[trigger]
                    taken(m, before, at, step, fewer[i], who(fewer[i]), steady);
                assert(who(items[i]) != who(items[items.len() - 1]));
                assert(same_account(before, end, who(items[i])));
                assert(taken(m, end, at, step, items[i], who(items[i]), steady));
            } else {
                assert forall|j: int| 0 <= j < fewer.len() implies who(#[trigger] fewer[j]) != who(
                    last,
                ) by {
                    assert(who(items[j]) != who(items[items.len() - 1]));
                }
                assert(same_account(m, before, who(last)));
                assert(taken(m, end, before, step, items[i], who(items[i]), steady));
            }
        }
        assert forall|user: Address|
            (forall|i: int| 0 <= i < items.len() ==> who(#[trigger] items[i]) != user)
                implies #[trigger] same_account(m, end, user) by {
            assert forall|j: int| 0 <= j < fewer.len() implies who(#[trigger] fewer[j])
                != user by {
                assert(who(items[j]) != user);
            }
            assert(same_account(m, before, user));
            assert(who(items[items.len() - 1]) != user);
            assert(same_account(before, end, user));
        }
    }
}

/// Steps that each concern only the user of their item, and none of which is
/// refused as the first one, are all taken.
pub proof fn lemma_steps_are_taken<T>(
    m: MarketView,
    items: Seq<T>,
    step: spec_fn(MarketView, T) -> Step<()>,
    who: spec_fn(T) -> Address,
    steady: spec_fn(MarketView) -> bool,
)
    requires
        forall|i: int, j: int|
            0 <= i < j < items.len() ==> who(#[trigger] items[i]) != who(#[trigger] items[j]),
        steady(m),
        forall|s: MarketView, item: T|
            steady(s) ==> steady((#[trigger] step(s, item)).0) && concerns_only(
                s,
                step(s, item).0,
                who(item),
            ),
        forall|s: MarketView, i: int|
            0 <= i < items.len() && steady(s) && same_account(m, s, who(items[i])) ==> (
            #[trigger] step(s, items[i])).1 is Ok,
    ensures
        for_each(m, items, step).1 is Ok,
    decreases items.len(),
{
    if items.len() > 0 {
        let fewer = items.drop_last();
        assert forall|i: int, j: int| 0 <= i < j < fewer.len() implies who(#[trigger] fewer[i])
            != who(#[trigger] fewer[j]) by {
            assert(who(items[i]) != who(items[j]));
        }
        assert forall|s: MarketView, i: int|
            0 <= i < fewer.len() && steady(s) && same_account(m, s, who(fewer[i])) implies (
        #[trigger] step(s, fewer[i])).1 is Ok by {
            assert(fewer[i] == items[i]);
            assert(step(s, items[i]).1 is Ok);
        }
        lemma_steps_are_taken(m, fewer, step, who, steady);
        lemma_steps_apart(m, fewer, step, who, steady);
        let before = for_each(m, fewer, step).0;
        let n = items.len() - 1;
        assert forall|j: int| 0 <= j < fewer.len() implies who(#[trigger] fewer[j]) != who(
            items[n],
        ) by {
            assert(who(items[j]) != who(items[n]));
        }
        assert(same_account(m, before, who(items[n])));
        assert(step(before, items[n]).1 is Ok);
    }
}

/// A win was counted: one win more, a streak longer by one, and the best streak
/// is the longest.
pub open spec fn has_won(before: UserStats, after: UserStats) -> bool {
    &&& after.total_wins == before.total_wins + 1
    &&& after.total_losses == before.total_losses
    &&& after.current_streak == before.current_streak + 1
    &&& after.best_streak >= before.best_streak && after.best_streak >= after.current_streak
    &&& after.best_streak == before.best_streak || after.best_streak == after.current_streak
}

/// A loss was counted: one loss more, and the streak is over.
pub open spec fn has_lost(before: UserStats, after: UserStats) -> bool {
    &&& after.total_wins == before.total_wins
    &&& after.total_losses == before.total_losses + 1
    &&& after.current_streak == 0
    &&& after.best_streak == before.best_streak
}

/// A user's part in a round is recorded and told, unless there was a record
/// before, which then stands.
pub open spec fn is_recorded(
    before: MarketView,
    after: MarketView,
    id: u64,
    record: UserRoundOutcome,
) -> bool {
    let key = (id, record.user);
    &&& before.outcomes.get(key) is Some ==> after.outcomes.get(key) == before.outcomes.get(key)
    &&& before.outcomes.get(key) is None ==> after.outcomes.get(key) == Some(record) && is_told(
        before,
        after,
        Event::PayoutOutcome {
            round_id: id,
            mode: record.round_mode,
            user: record.user,
            gross_payout: record.payout,
            outcome_type: match record.outcome {
                UserOutcomeType::Loss => 0,
                UserOutcomeType::Win => 1,
                UserOutcomeType::Refund => 2,
                UserOutcomeType::Cancel => 3,
            },
        },
    )
}

/// What is recorded of a user's winnings, counts and parts in rounds is the
/// same.
pub open spec fn is_untouched(before: MarketView, after: MarketView, user: Address) -> bool {
    &&& after.pending_of(user) == before.pending_of(user)
    &&& after.stats_of(user) == before.stats_of(user)
    &&& forall|id: u64| #[trigger]
        after.outcomes.get((id, user)) == before.outcomes.get((id, user))
}

/// A winner got an amount, the win was counted, and it was recorded.
pub open spec fn is_winner_paid(
    before: MarketView,
    after: MarketView,
    id: u64,
    record: UserRoundOutcome,
) -> bool {
    &&& record.outcome == UserOutcomeType::Win
    &&& after.pending_of(record.user) == before.pending_of(record.user) + record.payout
    &&& has_won(before.stats_of(record.user), after.stats_of(record.user))
    &&& is_recorded(before, after, id, record)
}

/// A loser got nothing, the loss was counted, recorded and told.
pub open spec fn is_loser_told(
    before: MarketView,
    after: MarketView,
    id: u64,
    record: UserRoundOutcome,
    side: u32,
) -> bool {
    &&& record.outcome == UserOutcomeType::Loss
    &&& record.payout == 0
    &&& after.pending_of(record.user) == before.pending_of(record.user)
    &&& has_lost(before.stats_of(record.user), after.stats_of(record.user))
    &&& is_recorded(before, after, id, record)
    &&& is_told(
        before,
        after,
        Event::OutcomeLoss {
            user: record.user,
            round_id: id,
            mode: record.round_mode,
            stake: record.stake,
            side,
            predicted_price: record.predicted_price,
        },
    )
}

/// A stake went back, nothing was counted, and it was recorded.
pub open spec fn is_refund_paid(
    before: MarketView,
    after: MarketView,
    id: u64,
    record: UserRoundOutcome,
) -> bool {
    &&& record.payout == record.stake
    &&& after.pending_of(record.user) == before.pending_of(record.user) + record.payout
    &&& after.stats_of(record.user) == before.stats_of(record.user)
    &&& is_recorded(before, after, id, record)
}

/// An event that was told in between was told.
pub proof fn lemma_told_between(
    start: MarketView,
    a: MarketView,
    b: MarketView,
    end: MarketView,
    event: Event,
)
    requires
        goes_on(start.events, a.events),
        goes_on(b.events, end.events),
        is_told(a, b, event),
    ensures
        is_told(start, end, event),
{
    let i = choose|i: int|
        a.events.len() <= i < b.events.len() && #[trigger] b.events[i] == event;
    assert(end.events[i] == event);
}

/// What a win, a loss and a refund do from one state to the next.
pub proof fn lemma_records_made(m: MarketView, id: u64, record: UserRoundOutcome, side: u32)
    ensures
        ({
            let won = m.record_win(id, record);
            let lost = m.record_loss(id, record, side);
            let back = m.record_refund(id, record);
            &&& concerns_only(m, won.0, record.user)
            &&& concerns_only(m, lost.0, record.user)
            &&& concerns_only(m, back.0, record.user)
            &&& won.1 is Ok && record.outcome == UserOutcomeType::Win ==> is_winner_paid(
                m,
                won.0,
                id,
                record,
            )
            &&& lost.1 is Ok && record.outcome == UserOutcomeType::Loss && record.payout == 0
                ==> is_loser_told(m, lost.0, id, record, side)
            &&& back.1 is Ok && record.payout == record.stake ==> is_refund_paid(
                m,
                back.0,
                id,
                record,
            )
        }),
{
    let key = (id, record.user);
    let won = m.record_win(id, record);
    let lost = m.record_loss(id, record, side);
    let back = m.record_refund(id, record);
    let told = Event::PayoutOutcome {
        round_id: id,
        mode: record.round_mode,
        user: record.user,
        gross_payout: record.payout,
        outcome_type: record.outcome.number(),
    };
    let told_loss = Event::OutcomeLoss {
        user: record.user,
        round_id: id,
        mode: record.round_mode,
        stake: record.stake,
        side,
        predicted_price: record.predicted_price,
    };
    if !m.outcomes.dom().contains(key) {
        if won.1 is Ok {
            assert(won.0.events[won.0.events.len() - 1] == told);
        }
        if lost.1 is Ok {
            assert(lost.0.events[lost.0.events.len() - 1] == told);
        }
        if back.1 is Ok {
            assert(back.0.events[back.0.events.len() - 1] == told);
        }
    }
    assert(lost.0.events[m.events.len() as int] == told_loss);
}

/// What a step has done to an account is what the whole has done to it.
pub proof fn lemma_account_carried(
    start: MarketView,
    a: MarketView,
    b: MarketView,
    end: MarketView,
    id: u64,
    record: UserRoundOutcome,
    side: u32,
)
    requires
        same_results(start, a, record.user),
        same_results(b, end, record.user),
        goes_on(start.events, a.events),
        goes_on(b.events, end.events),
    ensures
        is_winner_paid(a, b, id, record) ==> is_winner_paid(start, end, id, record),
        is_loser_told(a, b, id, record, side) ==> is_loser_told(start, end, id, record, side),
        is_refund_paid(a, b, id, record) ==> is_refund_paid(start, end, id, record),
{
    let user = record.user;
    assert(start.outcomes.get((id, user)) == a.outcomes.get((id, user)));
    assert(b.outcomes.get((id, user)) == end.outcomes.get((id, user)));
    assert(start.pending_of(user) == a.pending_of(user));
    assert(start.stats_of(user) == a.stats_of(user));
    assert(b.pending_of(user) == end.pending_of(user));
    assert(b.stats_of(user) == end.stats_of(user));
    let told = Event::PayoutOutcome {
        round_id: id,
        mode: record.round_mode,
        user,
        gross_payout: record.payout,
        outcome_type: match record.outcome {
            UserOutcomeType::Loss => 0,
            UserOutcomeType::Win => 1,
            UserOutcomeType::Refund => 2,
            UserOutcomeType::Cancel => 3,
        },
    };
    let told_loss = Event::OutcomeLoss {
        user,
        round_id: id,
        mode: record.round_mode,
        stake: record.stake,
        side,
        predicted_price: record.predicted_price,
    };
    if is_told(a, b, told) {
        lemma_told_between(start, a, b, end, told);
    }
    if is_told(a, b, told_loss) {
        lemma_told_between(start, a, b, end, told_loss);
    }
}

/// The number of the side of a position.
pub open spec fn side_number(position: UserPosition) -> u32 {
    match position.side {
        BetSide::Up => 0,
        BetSide::Down => 1,
    }
}

/// What is recorded of a position that has become of it what is said.
pub open spec fn position_told(
    user: Address,
    position: UserPosition,
    payout: i128,
    outcome: UserOutcomeType,
) -> UserRoundOutcome {
    UserRoundOutcome {
        user,
        round_mode: 0,
        prediction_side: side_number(position),
        predicted_price: 0,
        stake: position.amount,
        payout,
        outcome,
    }
}

/// The account of a user after the direction of the price was settled: for a
/// position on the side that the price went, a part of the whole in proportion
/// to the stake and a win; for one on the other side, a loss.
pub open spec fn is_position_settled(
    before: MarketView,
    after: MarketView,
    round: Round,
    price: u128,
    whole: int,
    user: Address,
    position: UserPosition,
) -> bool {
    let up = price > round.price_start;
    let won = (position.side == BetSide::Up) == up;
    let pool = if up {
        round.pool_up
    } else {
        round.pool_down
    };
    &&& won ==> exists|payout: i128|
        {
            &&& position.amount >= 0 && whole >= 0 ==> pool * payout <= position.amount * whole
                < pool * (payout + 1)
            &&& is_winner_paid(
                before,
                after,
                round.round_id,
                #[trigger] position_told(user, position, payout, UserOutcomeType::Win),
            )
        }
    &&& !won ==> is_loser_told(
        before,
        after,
        round.round_id,
        position_told(user, position, 0, UserOutcomeType::Loss),
        side_number(position),
    )
}

/// What the settlement of one position does.
pub proof fn lemma_position_settled(
    m: MarketView,
    round: Round,
    price: u128,
    whole: int,
    user: Address,
    position: UserPosition,
)
    requires
        round.pool_up > 0,
        round.pool_down > 0,
    ensures
        ({
            let (side, pool) = if price > round.price_start {
                (BetSide::Up, round.pool_up)
            } else {
                (BetSide::Down, round.pool_down)
            };
            let step = settle_position(m, round.round_id, user, position, side, pool, whole);
            &&& concerns_only(m, step.0, user)
            &&& step.0.cells == m.cells
            &&& step.0.positions == m.positions
            &&& step.1 is Ok ==> is_position_settled(
                m,
                step.0,
                round,
                price,
                whole,
                user,
                position,
            )
        }),
{
    let (side, pool) = if price > round.price_start {
        (BetSide::Up, round.pool_up)
    } else {
        (BetSide::Down, round.pool_down)
    };
    let step = settle_position(m, round.round_id, user, position, side, pool, whole);
    let number = side_number(position);
    let product = position.amount * whole;
    let payout = quotient(product, pool as int) as i128;
    let win = position_told(user, position, payout, UserOutcomeType::Win);
    let loss = position_told(user, position, 0, UserOutcomeType::Loss);
    lemma_records_made(m, round.round_id, win, number);
    lemma_records_made(m, round.round_id, loss, number);
    law_records_say_what_was_staked(
        user,
        0,
        position,
        0,
        0,
        payout,
        UserOutcomeType::Win,
    );
    law_records_say_what_was_staked(user, 0, position, 0, 0, 0, UserOutcomeType::Loss);
    if position.side == side && fits_i128(product) {
        law_quotients_round_towards_zero(product, pool as int);
        lemma_quotient_fits(product, pool as int);
        if position.amount >= 0 && whole >= 0 {
            assert(product >= 0) by (nonlinear_arith)
                requires
                    product == position.amount * whole,
                    position.amount >= 0,
                    whole >= 0,
            ;
        }
        if step.1 is Ok {
            assert(is_winner_paid(m, step.0, round.round_id, win));
        }
    }
}

/// What was done to an account by the settlement of its position is what the
/// whole has done to it.
proof fn lemma_settled_carried(
    start: MarketView,
    a: MarketView,
    b: MarketView,
    end: MarketView,
    round: Round,
    price: u128,
    whole: int,
    user: Address,
    position: UserPosition,
)
    requires
        same_results(start, a, user),
        same_results(b, end, user),
        goes_on(start.events, a.events),
        goes_on(b.events, end.events),
        is_position_settled(a, b, round, price, whole, user, position),
    ensures
        is_position_settled(start, end, round, price, whole, user, position),
{
    let up = price > round.price_start;
    let won = (position.side == BetSide::Up) == up;
    let pool = if up {
        round.pool_up
    } else {
        round.pool_down
    };
    let side = side_number(position);
    if won {
        let payout = choose|payout: i128|
            {
                &&& position.amount >= 0 && whole >= 0 ==> pool * payout <= position.amount * whole
                    < pool * (payout + 1)
                &&& is_winner_paid(
                    a,
                    b,
                    round.round_id,
                    #[trigger] position_told(user, position, payout, UserOutcomeType::Win),
                )
            };
        let record = position_told(user, position, payout, UserOutcomeType::Win);
        lemma_account_carried(start, a, b, end, round.round_id, record, side);
        assert(is_winner_paid(start, end, round.round_id, record));
    } else {
        let record = position_told(user, position, 0, UserOutcomeType::Loss);
        lemma_account_carried(start, a, b, end, round.round_id, record, side);
    }
}

impl MarketView {
    /// A round has fewer listed participants than are asked for.
    pub open spec fn falls_short(self, round: Round) -> bool {
        self.cells.min_participants matches Some(min) && self.participants_of(
            round.round_id,
        ).len() < min
    }

    /// A round on the direction of the price is decided: enough participants,
    /// stakes on both sides, and a price that has moved.
    pub open spec fn is_decided(self, round: Round, price: u128) -> bool {
        &&& round.mode == RoundMode::UpDown
        &&& !self.falls_short(round)
        &&& round.pool_up > 0
        &&& round.pool_down > 0
        &&& price != round.price_start
    }

    /// What is left of both pools after the fee, which is a number of
    /// ten-thousandths of them, rounded down.
    pub open spec fn left_of_pools(self, round: Round) -> int {
        let pot = round.pool_up + round.pool_down;
        match self.cells.protocol_fee_bps {
            None => pot,
            Some(bps) => pot - (pot * bps) / 10_000,
        }
    }
}

/// From a state that was settled on nothing happens to accounts any more: the
/// round goes into the archive and is cleared.
pub proof fn lemma_paid_is_kept(
    m: MarketView,
    paid: MarketView,
    sequence: u32,
    round: Round,
    payload: OraclePayload,
    fee: i128,
)
    requires
        m.pay_by_mode(round, payload.price) == (
            paid,
            Ok::<i128, ContractError>(fee),
        ),
    ensures
        ({
            let after = m.pay_round(sequence, round, payload).0;
            &&& goes_on(paid.events, after.events)
            &&& after.pending == paid.pending
            &&& after.stats == paid.stats
            &&& after.outcomes == paid.outcomes
            &&& after.balances == paid.balances
            &&& after.treasury() == paid.treasury()
            &&& after.events.last() == (Event::RoundResolved {
                round_id: round.round_id,
                price: payload.price,
                mode: match round.mode {
                    RoundMode::UpDown => 0,
                    RoundMode::Precision => 1,
                },
                confidence: payload.confidence,
            })
        }),
{
    let count = m.participants_of(round.round_id).len() as u32;
    lemma_archive_keeps(
        paid,
        sequence,
        round,
        RoundArchiveStatus::Resolved,
        payload.price,
        count,
        fee,
    );
    lemma_archive_told(
        paid,
        sequence,
        round,
        RoundArchiveStatus::Resolved,
        payload.price,
        count,
        fee,
    );
}

/// What the settlement of decided positions has done to each account.
proof fn lemma_positions_settled(m: MarketView, round: Round, price: u128, user: Address)
    requires
        m.is_decided(round, price),
        m.participants_of(round.round_id).no_duplicates(),
        m.participants_of(round.round_id).len() > 0,
        m.resolve_updown(round, price).1 is Ok,
    ensures
        ({
            let after = m.resolve_updown(round, price).0;
            let whole = m.left_of_pools(round);
            let position = m.positions.get((round.round_id, user));
            &&& m.participants_of(round.round_id).contains(user) && position is Some
                ==> is_position_settled(m, after, round, price, whole, user, position->0)
            &&& !m.participants_of(round.round_id).contains(user) || position is None
                ==> is_untouched(m, after, user)
            &&& after.treasury() == m.treasury() + round.pool_up + round.pool_down - whole
            &&& goes_on(m.events, after.events)
        }),
{
    let id = round.round_id;
    let stored = m.participants_of(id);
    let users = sorted_addresses(stored);
    let (side, winning, losing) = if price > round.price_start {
        (BetSide::Up, round.pool_up, round.pool_down)
    } else {
        (BetSide::Down, round.pool_down, round.pool_up)
    };
    let whole = m.left_of_pools(round);
    lemma_sorted_once(stored);
    lemma_sorted_keeps(stored);
    let split = m.split_fee_updown(id, winning, losing);
    assert(m.record_winnings(id, users, side, winning, losing).1 is Ok);
    law_fee_on_two_pools(m, id, winning, losing);
    let start = split.0;
    let distributable = split.1->Ok_0.0 + split.1->Ok_0.1;
    lemma_left_is_distributed(m, round, price);
    assert(distributable == whole);
    let step = settle_step(id, side, winning, whole);
    let who = |u: Address| u;
    let steady = |s: MarketView| s.cells == start.cells && s.positions == start.positions;
    assert forall|s: MarketView, u: Address| steady(s) implies steady((#[trigger] step(s, u)).0)
        && concerns_only(s, step(s, u).0, who(u)) by {
        if let Some(position) = s.positions.get((id, u)) {
            lemma_position_settled(s, round, price, whole, u, position);
        }
    }
    lemma_steps_apart(start, users, step, who, steady);
    let after = for_each(start, users, step).0;
    assert(m.resolve_updown(round, price).0 == after);
    assert(same_account(m, start, user));
    if stored.contains(user) {
        assert(users.contains(user));
        let i = choose|i: int| 0 <= i < users.len() && users[i] == user;
        assert(was_taken(start, after, step, users[i], who(users[i]), steady));
        let at = choose|at: MarketView| #[trigger]
            taken(start, after, at, step, users[i], who(users[i]), steady);
        assert(at.positions.get((id, user)) == m.positions.get((id, user)));
        if let Some(position) = m.positions.get((id, user)) {
            lemma_position_settled(at, round, price, whole, user, position);
            lemma_settled_carried(
                m,
                at,
                step(at, user).0,
                after,
                round,
                price,
                whole,
                user,
                position,
            );
        } else {
            lemma_untouched(m, at, user);
            lemma_untouched(at, after, user);
        }
    } else {
        assert forall|i: int| 0 <= i < users.len() implies who(#[trigger] users[i]) != user by {
            assert(users.contains(users[i]));
        }
        assert(same_account(start, after, user));
        lemma_untouched(start, after, user);
    }
}

/// The same account is an untouched one.
pub proof fn lemma_untouched(a: MarketView, b: MarketView, user: Address)
    requires
        same_results(a, b, user),
    ensures
        is_untouched(a, b, user),
{
    assert forall|id: u64| #[trigger]
        b.outcomes.get((id, user)) == a.outcomes.get((id, user)) by {
        assert(a.outcomes.get((id, user)) == b.outcomes.get((id, user)));
    }
}

/// What is distributed is what is left of both pools.
pub proof fn lemma_left_is_distributed(m: MarketView, round: Round, price: u128)
    requires
        round.pool_up > 0,
        round.pool_down > 0,
    ensures
        ({
            let (winning, losing) = if price > round.price_start {
                (round.pool_up, round.pool_down)
            } else {
                (round.pool_down, round.pool_up)
            };
            let split = m.split_fee_updown(round.round_id, winning, losing);
            split.1 is Ok ==> split.1->Ok_0.0 + split.1->Ok_0.1 == m.left_of_pools(round)
                && split.0.treasury() == m.treasury() + round.pool_up + round.pool_down
                - m.left_of_pools(round)
        }),
{
    let (winning, losing) = if price > round.price_start {
        (round.pool_up, round.pool_down)
    } else {
        (round.pool_down, round.pool_up)
    };
    let split = m.split_fee_updown(round.round_id, winning, losing);
    if split.1 is Ok {
        law_fee_on_two_pools(m, round.round_id, winning, losing);
        let pot = round.pool_up + round.pool_down;
        if let Some(bps) = m.cells.protocol_fee_bps {
            assert(pot * bps >= 0) by (nonlinear_arith)
                requires
                    pot >= 0,
                    bps >= 0,
            ;
        }
    }
}

/// What the settlement of the decided positions of the older list has done to
/// each account.
proof fn lemma_older_positions_settled(m: MarketView, round: Round, price: u128, user: Address)
    requires
        m.is_decided(round, price),
        m.participants_of(round.round_id).len() == 0,
        m.updown_legacy matches Some(entries) ==> keys_ascend(entries),
        m.resolve_updown(round, price).1 is Ok,
    ensures
        ({
            let after = m.resolve_updown(round, price).0;
            let whole = m.left_of_pools(round);
            let entries = m.older_positions();
            &&& forall|i: int|
                0 <= i < entries.len() && (#[trigger] entries[i]).0 == user
                    ==> is_position_settled(m, after, round, price, whole, user, entries[i].1)
            &&& (forall|i: int| 0 <= i < entries.len() ==> (#[trigger] entries[i]).0 != user)
                ==> is_untouched(m, after, user)
            &&& goes_on(m.events, after.events)
            &&& entries.len() > 0 ==> after.treasury() == m.treasury() + round.pool_up
                + round.pool_down - whole
        }),
{
    let id = round.round_id;
    let users = sorted_addresses(m.participants_of(id));
    let entries = m.older_positions();
    let (side, winning, losing) = if price > round.price_start {
        (BetSide::Up, round.pool_up, round.pool_down)
    } else {
        (BetSide::Down, round.pool_down, round.pool_up)
    };
    let whole = m.left_of_pools(round);
    lemma_sorted_keeps(m.participants_of(id));
    if entries.len() > 0 {
        let split = m.split_fee_updown(id, winning, losing);
        assert(m.record_winnings_legacy(id, entries, side, winning, losing).1 is Ok);
        law_fee_on_two_pools(m, id, winning, losing);
        let start = split.0;
        lemma_left_is_distributed(m, round, price);
        let step = settle_entry_step(id, side, winning, whole);
        let who = |entry: (Address, UserPosition)| entry.0;
        let steady = |s: MarketView| s.cells == start.cells;
        assert forall|s: MarketView, entry: (Address, UserPosition)| steady(s) implies steady(
            (#[trigger] step(s, entry)).0,
        ) && concerns_only(s, step(s, entry).0, who(entry)) by {
            lemma_position_settled(s, round, price, whole, entry.0, entry.1);
        }
        lemma_steps_apart(start, entries, step, who, steady);
        let after = for_each(start, entries, step).0;
        assert(m.resolve_updown(round, price).0 == after);
        assert(same_account(m, start, user));
        assert forall|i: int| 0 <= i < entries.len() && (
        #[trigger] entries[i]).0 == user implies is_position_settled(
            m,
            after,
            round,
            price,
            whole,
            user,
            entries[i].1,
        ) by {
            assert(was_taken(start, after, step, entries[i], who(entries[i]), steady));
            let at = choose|at: MarketView| #[trigger]
                taken(start, after, at, step, entries[i], who(entries[i]), steady);
            lemma_position_settled(at, round, price, whole, user, entries[i].1);
            lemma_settled_carried(
                m,
                at,
                step(at, entries[i]).0,
                after,
                round,
                price,
                whole,
                user,
                entries[i].1,
            );
        }
        if forall|i: int| 0 <= i < entries.len() ==> (#[trigger] entries[i]).0 != user {
            assert(same_account(start, after, user));
            lemma_untouched(start, after, user);
        }
    }
}

/// Between a report that has passed and the end of a settlement with enough
/// participants only the payments of the round stand.
pub proof fn lemma_resolve_is_payment(m: MarketView, ctx: &LedgerContext, payload: OraclePayload)
    requires
        m.resolve_round(ctx, payload).1 is Ok,
        m.cells.active_round matches Some(round) ==> {
            &&& m.participants_of(round.round_id).len() <= u32::MAX
            &&& !m.falls_short(round)
        },
    ensures
        m.cells.active_round is Some,
        ({
            let round = m.cells.active_round->0;
            let checked = m.check_report(ctx, payload).0;
            let paid = checked.pay_by_mode(round, payload.price);
            let after = m.resolve_round(ctx, payload).0;
            &&& only_checked(m, checked)
            &&& paid.1 is Ok
            &&& goes_on(m.events, checked.events)
            &&& goes_on(paid.0.events, after.events)
            &&& after.pending == paid.0.pending
            &&& after.stats == paid.0.stats
            &&& after.outcomes == paid.0.outcomes
            &&& after.balances == paid.0.balances
            &&& after.treasury() == paid.0.treasury()
            &&& after.events.last() == (Event::RoundResolved {
                round_id: round.round_id,
                price: payload.price,
                mode: match round.mode {
                    RoundMode::UpDown => 0,
                    RoundMode::Precision => 1,
                },
                confidence: payload.confidence,
            })
            &&& !m.has_too_few(round)
            &&& after == checked.pay_round(ctx.sequence, round, payload).0
        }),
{
    lemma_report_only_checked(m, ctx, payload);
    law_passing_reports_leave(m, ctx, payload);
    let round = m.cells.active_round->0;
    let checked = m.check_report(ctx, payload).0;
    if m.is_beyond_limit(round, payload.price) {
        assert forall|i: int| 0 <= i < m.events.len() implies #[trigger] checked.events[i]
            == m.events[i] by {
            assert(checked.events.drop_last()[i] == m.events[i]);
        }
    }
    let paid = checked.pay_by_mode(round, payload.price);
    if let Ok(fee) = paid.1 {
        lemma_paid_is_kept(checked, paid.0, ctx.sequence, round, payload, fee);
    }
}

/// In a round on the direction of the price that is decided, every participant
/// with a stake on the side that the price went gets a part of what is left of
/// both pools in proportion to the stake, and a win is counted; for a stake on
/// the other side a loss is counted. Both are recorded and told. Nobody else's
/// winnings, counts or records change, and the treasury gets the fee.
pub proof fn law_decided_rounds_are_settled(
    m: MarketView,
    ctx: &LedgerContext,
    payload: OraclePayload,
    user: Address,
)
    requires
        m.resolve_round(ctx, payload).1 is Ok,
        m.cells.active_round matches Some(round) ==> {
            &&& m.is_decided(round, payload.price)
            &&& m.participants_of(round.round_id).no_duplicates()
            &&& 0 < m.participants_of(round.round_id).len() <= u32::MAX
        },
    ensures
        m.cells.active_round is Some,
        ({
            let round = m.cells.active_round->0;
            let after = m.resolve_round(ctx, payload).0;
            let whole = m.left_of_pools(round);
            let position = m.positions.get((round.round_id, user));
            let listed = m.participants_of(round.round_id).contains(user);
            &&& listed && position is Some ==> is_position_settled(
                m,
                after,
                round,
                payload.price,
                whole,
                user,
                position->0,
            )
            &&& !listed || position is None ==> is_untouched(m, after, user)
            &&& after.treasury() == m.treasury() + round.pool_up + round.pool_down - whole
            &&& after.balances == m.balances
        }),
{
    lemma_resolve_is_payment(m, ctx, payload);
    let round = m.cells.active_round->0;
    let checked = m.check_report(ctx, payload).0;
    let settled = checked.resolve_updown(round, payload.price).0;
    let after = m.resolve_round(ctx, payload).0;
    lemma_positions_settled(checked, round, payload.price, user);
    lemma_mode_only_pays(checked, round, payload.price);
    assert(checked.left_of_pools(round) == m.left_of_pools(round));
    let position = m.positions.get((round.round_id, user));
    let listed = m.participants_of(round.round_id).contains(user);
    assert(goes_on(settled.events, after.events));
    if listed && position is Some {
        lemma_settled_carried(
            m,
            checked,
            settled,
            after,
            round,
            payload.price,
            m.left_of_pools(round),
            user,
            position->0,
        );
    } else {
        assert(is_untouched(checked, settled, user));
        assert(is_untouched(m, after, user)) by {
            assert forall|id: u64| #[trigger]
                after.outcomes.get((id, user)) == m.outcomes.get((id, user)) by {
                assert(settled.outcomes.get((id, user)) == checked.outcomes.get((id, user)));
            }
            assert(after.pending_of(user) == settled.pending_of(user));
            assert(after.stats_of(user) == settled.stats_of(user));
        }
    }
}

/// Where nobody is listed as a participant, the same holds of the users in the
/// older list of positions.
pub proof fn law_decided_rounds_of_the_older_list_are_settled(
    m: MarketView,
    ctx: &LedgerContext,
    payload: OraclePayload,
    user: Address,
)
    requires
        m.wf(),
        m.resolve_round(ctx, payload).1 is Ok,
        m.cells.active_round matches Some(round) ==> {
            &&& m.is_decided(round, payload.price)
            &&& m.participants_of(round.round_id).len() == 0
        },
    ensures
        m.cells.active_round is Some,
        ({
            let round = m.cells.active_round->0;
            let after = m.resolve_round(ctx, payload).0;
            let whole = m.left_of_pools(round);
            let entries = m.older_positions();
            &&& forall|i: int|
                0 <= i < entries.len() && (#[trigger] entries[i]).0 == user
                    ==> is_position_settled(
                    m,
                    after,
                    round,
                    payload.price,
                    whole,
                    user,
                    entries[i].1,
                )
            &&& (forall|i: int| 0 <= i < entries.len() ==> (#[trigger] entries[i]).0 != user)
                ==> is_untouched(m, after, user)
            &&& entries.len() > 0 ==> after.treasury() == m.treasury() + round.pool_up
                + round.pool_down - whole
            &&& after.balances == m.balances
        }),
{
    lemma_resolve_is_payment(m, ctx, payload);
    let round = m.cells.active_round->0;
    let checked = m.check_report(ctx, payload).0;
    let settled = checked.resolve_updown(round, payload.price).0;
    let after = m.resolve_round(ctx, payload).0;
    lemma_older_positions_settled(checked, round, payload.price, user);
    lemma_mode_only_pays(checked, round, payload.price);
    assert(checked.left_of_pools(round) == m.left_of_pools(round));
    assert(goes_on(settled.events, after.events));
    let entries = m.older_positions();
    assert forall|i: int| 0 <= i < entries.len() && (
    #[trigger] entries[i]).0 == user implies is_position_settled(
        m,
        after,
        round,
        payload.price,
        m.left_of_pools(round),
        user,
        entries[i].1,
    ) by {
        lemma_settled_carried(
            m,
            checked,
            settled,
            after,
            round,
            payload.price,
            m.left_of_pools(round),
            user,
            entries[i].1,
        );
    }
    if forall|i: int| 0 <= i < entries.len() ==> (#[trigger] entries[i]).0 != user {
        assert(is_untouched(checked, settled, user));
        assert forall|id: u64| #[trigger]
            after.outcomes.get((id, user)) == m.outcomes.get((id, user)) by {
            assert(settled.outcomes.get((id, user)) == checked.outcomes.get((id, user)));
        }
        assert(after.pending_of(user) == settled.pending_of(user));
        assert(after.stats_of(user) == settled.stats_of(user));
    }
}

} // verus!
