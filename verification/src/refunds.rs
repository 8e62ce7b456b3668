//! What a user gets back where a round is refunded or cancelled, and that
//! nothing is counted by it.

use vstd::prelude::*;
use crate::accounts::{
    concerns_only, goes_on, is_refund_paid, is_told, is_untouched, lemma_account_carried,
    lemma_records_made, lemma_resolve_is_payment, lemma_steps_apart, lemma_untouched, position_told,
    same_account, same_results, taken, was_taken,
};
use crate::errors::ContractError;
use crate::frame::{
    lemma_archive_keeps, lemma_cancel_only_pays_out, lemma_mode_only_pays, lemma_refunds_only_pay,
    lemma_report_only_checked,
};
use crate::laws::{law_winners_are_the_closest, lemma_cancel_keeps_stats, lemma_settle_keeps_nonces};
use crate::market::LedgerContext;
use crate::model::{Cells, for_each, keys_ascend, lemma_for_each_keeps, MarketView, Step};
use crate::payments::{lemma_running_total, lemma_sorted_keeps, lemma_sum_permuted, lemma_sum_same};
use crate::readings::law_records_say_what_was_staked;
use crate::reports::law_passing_reports_leave;
use crate::rules::{
    cancel_position_step, cancel_prediction_step, cancel_stake_step, give_back_step,
    refund_entry_step, refund_prediction_step, refund_stake_step, refund_step, sorted_addresses,
};
use crate::shares::lemma_sorted_once;
use crate::summaries::lemma_archive_told;
use crate::types::{
    Action, Address, Event, OraclePayload, PrecisionEntry, PrecisionPrediction, Round,
    RoundArchiveStatus, RoundMode, UserOutcomeType, UserPosition, UserRoundOutcome,
};

verus! {

/// What each step does to the account of the user of its item, it has done to
/// it at the end.
pub proof fn lemma_each_done<T>(
    start: MarketView,
    items: Seq<T>,
    step: spec_fn(MarketView, T) -> Step<()>,
    who: spec_fn(T) -> Address,
    steady: spec_fn(MarketView) -> bool,
    result: spec_fn(MarketView, MarketView, T) -> bool,
)
    requires
        forall|i: int, j: int|
            0 <= i < j < items.len() ==> who(#[trigger] items[i]) != who(#[trigger] items[j]),
        steady(start),
        forall|s: MarketView, item: T|
            steady(s) ==> steady((#[trigger] step(s, item)).0) && concerns_only(
                s,
                step(s, item).0,
                who(item),
            ),
        forall|s: MarketView, item: T|
            steady(s) && (#[trigger] step(s, item)).1 is Ok ==> result(s, step(s, item).0, item),
        forall|a: MarketView, b: MarketView, c: MarketView, d: MarketView, item: T|
            #![trigger result(b, c, item), result(a, d, item)]
            result(b, c, item) && same_account(a, b, who(item)) && same_results(c, d, who(item))
                && goes_on(a.events, b.events) && goes_on(c.events, d.events) ==> result(
                a,
                d,
                item,
            ),
        for_each(start, items, step).1 is Ok,
    ensures
        ({
            let end = for_each(start, items, step).0;
            &&& steady(end)
            &&& goes_on(start.events, end.events)
            &&& forall|i: int|
                0 <= i < items.len() ==> result(start, end, #[trigger] items[i])
            &&& forall|user: Address|
                (forall|i: int| 0 <= i < items.len() ==> who(#[trigger] items[i]) != user)
                    ==> #[trigger] is_untouched(start, end, user)
        }),
{
    lemma_steps_apart(start, items, step, who, steady);
    let end = for_each(start, items, step).0;
    assert forall|i: int| 0 <= i < items.len() implies result(start, end, #[trigger] items[i]) by {
        assert(was_taken(start, end, step, items[i], who(items[i]), steady));
        let at = choose|at: MarketView| #[trigger]
            taken(start, end, at, step, items[i], who(items[i]), steady);
        assert(result(at, step(at, items[i]).0, items[i]));
    }
    assert forall|user: Address|
        (forall|i: int| 0 <= i < items.len() ==> who(#[trigger] items[i]) != user)
            implies #[trigger] is_untouched(start, end, user) by {
        assert(same_account(start, end, user));
        lemma_untouched(start, end, user);
    }
}

/// What was left untouched in between was left untouched.
pub proof fn lemma_untouched_carried(
    start: MarketView,
    a: MarketView,
    b: MarketView,
    end: MarketView,
    user: Address,
)
    requires
        same_results(start, a, user),
        same_results(b, end, user),
        is_untouched(a, b, user),
    ensures
        is_untouched(start, end, user),
{
    assert forall|id: u64| #[trigger]
        end.outcomes.get((id, user)) == start.outcomes.get((id, user)) by {
        assert(start.outcomes.get((id, user)) == a.outcomes.get((id, user)));
        assert(b.outcomes.get((id, user)) == a.outcomes.get((id, user)));
        assert(b.outcomes.get((id, user)) == end.outcomes.get((id, user)));
    }
    assert(start.pending_of(user) == a.pending_of(user));
    assert(b.pending_of(user) == end.pending_of(user));
    assert(start.stats_of(user) == a.stats_of(user));
    assert(b.stats_of(user) == end.stats_of(user));
}

/// What is recorded of a stake on a price that has become of it what is said.
pub open spec fn stake_told(
    user: Address,
    price: u128,
    stake: i128,
    payout: i128,
    outcome: UserOutcomeType,
) -> UserRoundOutcome {
    UserRoundOutcome {
        user,
        round_mode: 1,
        prediction_side: 2,
        predicted_price: price,
        stake,
        payout,
        outcome,
    }
}

/// A position, if there is one, went back, and was recorded as is said.
pub open spec fn is_position_back(
    before: MarketView,
    after: MarketView,
    id: u64,
    user: Address,
    outcome: UserOutcomeType,
) -> bool {
    match before.positions.get((id, user)) {
        Some(position) => is_refund_paid(
            before,
            after,
            id,
            position_told(user, position, position.amount, outcome),
        ),
        None => is_untouched(before, after, user),
    }
}

/// A positive stake on a price went back, and was recorded as a refund.
pub open spec fn is_stake_back(
    before: MarketView,
    after: MarketView,
    id: u64,
    user: Address,
    stake: i128,
) -> bool {
    if stake > 0 {
        is_refund_paid(
            before,
            after,
            id,
            stake_told(user, 0, stake, stake, UserOutcomeType::Refund),
        )
    } else {
        is_untouched(before, after, user)
    }
}

/// The stake of a user on a price is what was revealed, or else what was
/// committed.
proof fn lemma_same_stake(a: MarketView, b: MarketView, id: u64, user: Address)
    requires
        same_account(a, b, user),
    ensures
        a.precision_stake(id, user) == b.precision_stake(id, user),
        a.positions.get((id, user)) == b.positions.get((id, user)),
{
    assert(a.predictions.get((id, user)) == b.predictions.get((id, user)));
    assert(a.commitments.get((id, user)) == b.commitments.get((id, user)));
    assert(a.positions.get((id, user)) == b.positions.get((id, user)));
}

/// The refund or the cancellation of listed positions gives each of them back.
proof fn lemma_positions_back(m: MarketView, id: u64, users: Seq<Address>)
    requires
        users.no_duplicates(),
    ensures
        ({
            let back = for_each(m, users, refund_step(id, 0));
            back.1 is Ok ==> {
                &&& goes_on(m.events, back.0.events)
                &&& forall|user: Address| #[trigger]
                    users.contains(user) ==> is_position_back(
                        m,
                        back.0,
                        id,
                        user,
                        UserOutcomeType::Refund,
                    )
                &&& forall|user: Address|
                    !users.contains(user) ==> #[trigger] is_untouched(m, back.0, user)
            }
        }),
        ({
            let back = for_each(m, users, cancel_position_step(id));
            back.1 is Ok ==> {
                &&& goes_on(m.events, back.0.events)
                &&& forall|user: Address| #[trigger]
                    users.contains(user) ==> is_position_back(
                        m,
                        back.0,
                        id,
                        user,
                        UserOutcomeType::Cancel,
                    )
                &&& forall|user: Address|
                    !users.contains(user) ==> #[trigger] is_untouched(m, back.0, user)
            }
        }),
{
    let who = |user: Address| user;
    let steady = |s: MarketView| s.cells == m.cells;
    let refund = refund_step(id, 0);
    let cancel = cancel_position_step(id);
    let refunded = |a: MarketView, b: MarketView, user: Address|
        is_position_back(a, b, id, user, UserOutcomeType::Refund);
    let cancelled = |a: MarketView, b: MarketView, user: Address|
        is_position_back(a, b, id, user, UserOutcomeType::Cancel);
    assert forall|s: MarketView, user: Address| steady(s) implies steady(
        (#[trigger] refund(s, user)).0,
    ) && concerns_only(s, refund(s, user).0, who(user)) && (refund(s, user).1 is Ok ==> refunded(
        s,
        refund(s, user).0,
        user,
    )) by {
        if let Some(position) = s.positions.get((id, user)) {
            let outcome = UserOutcomeType::Refund;
            let record = position_told(user, position, position.amount, outcome);
            law_records_say_what_was_staked(user, 0, position, 0, 0, position.amount, outcome);
            lemma_records_made(s, id, record, 0);
        }
    }
    assert forall|s: MarketView, user: Address| steady(s) implies steady(
        (#[trigger] cancel(s, user)).0,
    ) && concerns_only(s, cancel(s, user).0, who(user)) && (cancel(s, user).1 is Ok ==> cancelled(
        s,
        cancel(s, user).0,
        user,
    )) by {
        if let Some(position) = s.positions.get((id, user)) {
            let outcome = UserOutcomeType::Cancel;
            let record = position_told(user, position, position.amount, outcome);
            law_records_say_what_was_staked(user, 0, position, 0, 0, position.amount, outcome);
            lemma_records_made(s, id, record, 0);
            let back = s.record_refund(id, record).0;
            lemma_forgotten(s, back, cancel(s, user).0, id, user);
            lemma_account_carried(s, s, back, cancel(s, user).0, id, record, 0);
        }
    }
    lemma_position_back_carried(id, UserOutcomeType::Refund);
    lemma_position_back_carried(id, UserOutcomeType::Cancel);
    assert forall|i: int| 0 <= i < users.len() implies users.contains(#[trigger] users[i]) by {}
    if for_each(m, users, refund).1 is Ok {
        lemma_each_done(m, users, refund, who, steady, refunded);
        lemma_for_members(m, for_each(m, users, refund).0, users, refunded);
    }
    if for_each(m, users, cancel).1 is Ok {
        lemma_each_done(m, users, cancel, who, steady, cancelled);
        lemma_for_members(m, for_each(m, users, cancel).0, users, cancelled);
    }
}

/// What holds of every place of a list holds of every member.
proof fn lemma_for_members(
    m: MarketView,
    end: MarketView,
    users: Seq<Address>,
    result: spec_fn(MarketView, MarketView, Address) -> bool,
)
    requires
        forall|i: int| 0 <= i < users.len() ==> result(m, end, #[trigger] users[i]),
        forall|user: Address|
            (forall|i: int| 0 <= i < users.len() ==> (#[trigger] users[i]) != user)
                ==> #[trigger] is_untouched(m, end, user),
    ensures
        forall|user: Address| #[trigger] users.contains(user) ==> result(m, end, user),
        forall|user: Address|
            !users.contains(user) ==> #[trigger] is_untouched(m, end, user),
{
    assert forall|user: Address| #[trigger] users.contains(user) implies result(m, end, user) by {
        let i = choose|i: int| 0 <= i < users.len() && users[i] == user;
        assert(result(m, end, users[i]));
    }
    assert forall|user: Address| !users.contains(user) implies #[trigger] is_untouched(
        m,
        end,
        user,
    ) by {
        assert forall|i: int| 0 <= i < users.len() implies (#[trigger] users[i]) != user by {
            assert(users.contains(users[i]));
        }
    }
}

/// To forget an entry of a user concerns only that user.
proof fn lemma_forgotten(
    s: MarketView,
    back: MarketView,
    end: MarketView,
    id: u64,
    user: Address,
)
    requires
        concerns_only(s, back, user),
        back.events == end.events,
        back.pending == end.pending,
        back.stats == end.stats,
        back.outcomes == end.outcomes,
        end.positions == back.positions || end.positions == back.positions.remove((id, user)),
        end.predictions == back.predictions || end.predictions == back.predictions.remove(
            (id, user),
        ),
        end.commitments == back.commitments || end.commitments == back.commitments.remove(
            (id, user),
        ),
    ensures
        concerns_only(s, end, user),
        same_results(back, end, user),
{
    assert forall|other: Address| other != user implies #[trigger] same_account(s, end, other) by {
        assert(same_account(s, back, other));
        assert forall|r: u64| #[trigger]
            s.positions.get((r, other)) == end.positions.get((r, other)) by {
            assert(s.positions.get((r, other)) == back.positions.get((r, other)));
        }
        assert forall|r: u64| #[trigger]
            s.predictions.get((r, other)) == end.predictions.get((r, other)) by {
            assert(s.predictions.get((r, other)) == back.predictions.get((r, other)));
        }
        assert forall|r: u64| #[trigger]
            s.commitments.get((r, other)) == end.commitments.get((r, other)) by {
            assert(s.commitments.get((r, other)) == back.commitments.get((r, other)));
        }
    }
}

/// A position that went back in between went back.
proof fn lemma_position_back_carried(id: u64, outcome: UserOutcomeType)
    ensures
        forall|a: MarketView, b: MarketView, c: MarketView, d: MarketView, user: Address|
            #![trigger is_position_back(b, c, id, user, outcome),
                is_position_back(a, d, id, user, outcome)]
            is_position_back(b, c, id, user, outcome) && same_account(a, b, user) && same_results(
                c,
                d,
                user,
            ) && goes_on(a.events, b.events) && goes_on(c.events, d.events) ==> is_position_back(
                a,
                d,
                id,
                user,
                outcome,
            ),
{
    assert forall|a: MarketView, b: MarketView, c: MarketView, d: MarketView, user: Address|
        #![trigger is_position_back(b, c, id, user, outcome),
            is_position_back(a, d, id, user, outcome)]
        is_position_back(b, c, id, user, outcome) && same_account(a, b, user) && same_results(
            c,
            d,
            user,
        ) && goes_on(a.events, b.events) && goes_on(c.events, d.events) implies is_position_back(
        a,
        d,
        id,
        user,
        outcome,
    ) by {
        lemma_same_stake(a, b, id, user);
        if let Some(position) = b.positions.get((id, user)) {
            let record = position_told(user, position, position.amount, outcome);
            lemma_account_carried(a, b, c, d, id, record, 0);
        } else {
            lemma_untouched_carried(a, b, c, d, user);
        }
    }
}

/// A stake on a price that is not negative went back, and was recorded as
/// cancelled.
pub open spec fn is_stake_cancelled(
    before: MarketView,
    after: MarketView,
    id: u64,
    user: Address,
    stake: i128,
) -> bool {
    stake >= 0 ==> is_refund_paid(
        before,
        after,
        id,
        stake_told(user, 0, stake, stake, UserOutcomeType::Cancel),
    )
}

/// What a refund of a stake on a price does, where only what is positive goes
/// back, and what a cancellation of it does.
pub proof fn lemma_stake_steps(s: MarketView, id: u64, user: Address, stake: i128)
    ensures
        ({
            let record = stake_told(user, 0, stake, stake, UserOutcomeType::Refund);
            let back = if stake > 0 {
                s.record_refund(id, record)
            } else {
                (s, Ok(()))
            };
            &&& concerns_only(s, back.0, user)
            &&& back.0.cells == s.cells
            &&& back.1 is Ok ==> is_stake_back(s, back.0, id, user, stake)
        }),
        ({
            let record = stake_told(user, 0, stake, stake, UserOutcomeType::Cancel);
            let paid = if stake > 0 {
                s.accumulate_pending(user, stake)
            } else {
                (s, Ok(()))
            };
            let noted = paid.0.persist_outcome(id, record);
            &&& concerns_only(s, paid.0, user)
            &&& concerns_only(s, noted, user)
            &&& noted.cells == s.cells
            &&& paid.1 is Ok ==> is_stake_cancelled(s, noted, id, user, stake)
        }),
{
    let refund = stake_told(user, 0, stake, stake, UserOutcomeType::Refund);
    lemma_records_made(s, id, refund, 0);
    let record = stake_told(user, 0, stake, stake, UserOutcomeType::Cancel);
    let paid = if stake > 0 {
        s.accumulate_pending(user, stake)
    } else {
        (s, Ok(()))
    };
    let noted = paid.0.persist_outcome(id, record);
    if !s.outcomes.dom().contains((id, user)) {
        assert(noted.events[noted.events.len() - 1] == (Event::PayoutOutcome {
            round_id: id,
            mode: 1,
            user,
            gross_payout: stake,
            outcome_type: 3,
        }));
    }
}

/// The refund and the cancellation of what a user has staked concern only that
/// user.
pub proof fn lemma_refund_steps(s: MarketView, id: u64, user: Address)
    ensures
        concerns_only(s, refund_step(id, 0)(s, user).0, user),
        concerns_only(s, cancel_position_step(id)(s, user).0, user),
        concerns_only(s, refund_stake_step(id)(s, user).0, user),
        concerns_only(s, cancel_stake_step(id)(s, user).0, user),
        refund_step(id, 0)(s, user).0.cells == s.cells,
        cancel_position_step(id)(s, user).0.cells == s.cells,
        refund_stake_step(id)(s, user).0.cells == s.cells,
        cancel_stake_step(id)(s, user).0.cells == s.cells,
{
    if let Some(position) = s.positions.get((id, user)) {
        let refund = position_told(user, position, position.amount, UserOutcomeType::Refund);
        let cancel = position_told(user, position, position.amount, UserOutcomeType::Cancel);
        law_records_say_what_was_staked(
            user,
            0,
            position,
            0,
            0,
            position.amount,
            UserOutcomeType::Refund,
        );
        law_records_say_what_was_staked(
            user,
            0,
            position,
            0,
            0,
            position.amount,
            UserOutcomeType::Cancel,
        );
        lemma_records_made(s, id, refund, 0);
        lemma_records_made(s, id, cancel, 0);
        let back = s.record_refund(id, cancel).0;
        lemma_forgotten(s, back, back, id, user);
        if s.record_refund(id, cancel).1 is Ok {
            lemma_forgotten(s, back, cancel_position_step(id)(s, user).0, id, user);
        }
    }
    let stake = s.precision_stake(id, user);
    lemma_stake_steps(s, id, user, stake);
    let record = stake_told(user, 0, stake, stake, UserOutcomeType::Cancel);
    let paid = if stake > 0 {
        s.accumulate_pending(user, stake)
    } else {
        (s, Ok(()))
    };
    if paid.1 is Ok {
        let noted = paid.0.persist_outcome(id, record);
        lemma_forgotten(s, noted, cancel_stake_step(id)(s, user).0, id, user);
    }
}

/// A stake on a price that went back in between went back.
proof fn lemma_stake_back_carried(
    a: MarketView,
    b: MarketView,
    c: MarketView,
    d: MarketView,
    id: u64,
    user: Address,
    stake: i128,
)
    requires
        same_results(a, b, user),
        same_results(c, d, user),
        goes_on(a.events, b.events),
        goes_on(c.events, d.events),
    ensures
        is_stake_back(b, c, id, user, stake) ==> is_stake_back(a, d, id, user, stake),
        is_stake_cancelled(b, c, id, user, stake) ==> is_stake_cancelled(a, d, id, user, stake),
{
    let refund = stake_told(user, 0, stake, stake, UserOutcomeType::Refund);
    let cancel = stake_told(user, 0, stake, stake, UserOutcomeType::Cancel);
    lemma_account_carried(a, b, c, d, id, refund, 0);
    lemma_account_carried(a, b, c, d, id, cancel, 0);
    if is_untouched(b, c, user) {
        lemma_untouched_carried(a, b, c, d, user);
    }
}

/// The refund or the cancellation of listed stakes on a price gives each of
/// them back.
proof fn lemma_stakes_back(m: MarketView, id: u64, users: Seq<Address>)
    requires
        users.no_duplicates(),
    ensures
        ({
            let back = for_each(m, users, refund_stake_step(id));
            back.1 is Ok ==> {
                &&& goes_on(m.events, back.0.events)
                &&& forall|user: Address| #[trigger]
                    users.contains(user) ==> is_stake_back(
                        m,
                        back.0,
                        id,
                        user,
                        m.precision_stake(id, user),
                    )
                &&& forall|user: Address|
                    !users.contains(user) ==> #[trigger] is_untouched(m, back.0, user)
            }
        }),
        ({
            let back = for_each(m, users, cancel_stake_step(id));
            back.1 is Ok ==> {
                &&& goes_on(m.events, back.0.events)
                &&& forall|user: Address| #[trigger]
                    users.contains(user) ==> is_stake_cancelled(
                        m,
                        back.0,
                        id,
                        user,
                        m.precision_stake(id, user),
                    )
                &&& forall|user: Address|
                    !users.contains(user) ==> #[trigger] is_untouched(m, back.0, user)
            }
        }),
{
    let who = |user: Address| user;
    let steady = |s: MarketView| s.cells == m.cells;
    let refund = refund_stake_step(id);
    let cancel = cancel_stake_step(id);
    let refunded = |a: MarketView, b: MarketView, user: Address|
        is_stake_back(a, b, id, user, a.precision_stake(id, user));
    let cancelled = |a: MarketView, b: MarketView, user: Address|
        is_stake_cancelled(a, b, id, user, a.precision_stake(id, user));
    assert forall|s: MarketView, user: Address| steady(s) implies steady(
        (#[trigger] refund(s, user)).0,
    ) && concerns_only(s, refund(s, user).0, who(user)) && (refund(s, user).1 is Ok ==> refunded(
        s,
        refund(s, user).0,
        user,
    )) by {
        lemma_stake_steps(s, id, user, s.precision_stake(id, user));
    }
    assert forall|s: MarketView, user: Address| steady(s) implies steady(
        (#[trigger] cancel(s, user)).0,
    ) && concerns_only(s, cancel(s, user).0, who(user)) && (cancel(s, user).1 is Ok ==> cancelled(
        s,
        cancel(s, user).0,
        user,
    )) by {
        let stake = s.precision_stake(id, user);
        lemma_stake_steps(s, id, user, stake);
        let record = stake_told(user, 0, stake, stake, UserOutcomeType::Cancel);
        let paid = if stake > 0 {
            s.accumulate_pending(user, stake)
        } else {
            (s, Ok(()))
        };
        let noted = paid.0.persist_outcome(id, record);
        if paid.1 is Ok {
            lemma_forgotten(s, noted, cancel(s, user).0, id, user);
            lemma_stake_back_carried(s, s, noted, cancel(s, user).0, id, user, stake);
        }
    }
    assert forall|a: MarketView, b: MarketView, c: MarketView, d: MarketView, user: Address|
        #![trigger refunded(b, c, user), refunded(a, d, user)]
        refunded(b, c, user) && same_account(a, b, who(user)) && same_results(c, d, who(user))
            && goes_on(a.events, b.events) && goes_on(c.events, d.events) implies refunded(
        a,
        d,
        user,
    ) by {
        lemma_same_stake(a, b, id, user);
        lemma_stake_back_carried(a, b, c, d, id, user, a.precision_stake(id, user));
    }
    assert forall|a: MarketView, b: MarketView, c: MarketView, d: MarketView, user: Address|
        #![trigger cancelled(b, c, user), cancelled(a, d, user)]
        cancelled(b, c, user) && same_account(a, b, who(user)) && same_results(c, d, who(user))
            && goes_on(a.events, b.events) && goes_on(c.events, d.events) implies cancelled(
        a,
        d,
        user,
    ) by {
        lemma_same_stake(a, b, id, user);
        lemma_stake_back_carried(a, b, c, d, id, user, a.precision_stake(id, user));
    }
    if for_each(m, users, refund).1 is Ok {
        lemma_each_done(m, users, refund, who, steady, refunded);
        lemma_for_members(m, for_each(m, users, refund).0, users, refunded);
    }
    if for_each(m, users, cancel).1 is Ok {
        lemma_each_done(m, users, cancel, who, steady, cancelled);
        lemma_for_members(m, for_each(m, users, cancel).0, users, cancelled);
    }
}

/// A position of the older list went back, and was recorded as is said.
pub open spec fn is_entry_back(
    before: MarketView,
    after: MarketView,
    id: u64,
    entry: (Address, UserPosition),
    outcome: UserOutcomeType,
) -> bool {
    is_refund_paid(
        before,
        after,
        id,
        position_told(entry.0, entry.1, entry.1.amount, outcome),
    )
}

/// The refund of the older list of positions gives each of them back.
proof fn lemma_entries_back(
    m: MarketView,
    id: u64,
    entries: Seq<(Address, UserPosition)>,
    outcome: UserOutcomeType,
)
    requires
        keys_ascend(entries),
        for_each(m, entries, refund_entry_step(id, outcome)).1 is Ok,
    ensures
        ({
            let back = for_each(m, entries, refund_entry_step(id, outcome)).0;
            &&& goes_on(m.events, back.events)
            &&& forall|i: int|
                0 <= i < entries.len() ==> is_entry_back(
                    m,
                    back,
                    id,
                    #[trigger] entries[i],
                    outcome,
                )
            &&& forall|user: Address|
                (forall|i: int| 0 <= i < entries.len() ==> (#[trigger] entries[i]).0 != user)
                    ==> #[trigger] is_untouched(m, back, user)
        }),
{
    let who = |entry: (Address, UserPosition)| entry.0;
    let steady = |s: MarketView| s.cells == m.cells;
    let step = refund_entry_step(id, outcome);
    let result = |a: MarketView, b: MarketView, entry: (Address, UserPosition)|
        is_entry_back(a, b, id, entry, outcome);
    assert forall|s: MarketView, entry: (Address, UserPosition)| steady(s) implies steady(
        (#[trigger] step(s, entry)).0,
    ) && concerns_only(s, step(s, entry).0, who(entry)) && (step(s, entry).1 is Ok ==> result(
        s,
        step(s, entry).0,
        entry,
    )) by {
        let record = position_told(entry.0, entry.1, entry.1.amount, outcome);
        law_records_say_what_was_staked(
            entry.0,
            0,
            entry.1,
            0,
            0,
            entry.1.amount,
            outcome,
        );
        lemma_records_made(s, id, record, 0);
    }
    assert forall|
        a: MarketView,
        b: MarketView,
        c: MarketView,
        d: MarketView,
        entry: (Address, UserPosition),
    |
        #![trigger result(b, c, entry), result(a, d, entry)]
        result(b, c, entry) && same_account(a, b, who(entry)) && same_results(c, d, who(entry))
            && goes_on(a.events, b.events) && goes_on(c.events, d.events) implies result(
        a,
        d,
        entry,
    ) by {
        let record = position_told(entry.0, entry.1, entry.1.amount, outcome);
        lemma_account_carried(a, b, c, d, id, record, 0);
    }
    lemma_each_done(m, entries, step, who, steady, result);
    let back = for_each(m, entries, step).0;
    assert forall|i: int| 0 <= i < entries.len() implies is_entry_back(
        m,
        back,
        id,
        #[trigger] entries[i],
        outcome,
    ) by {
        assert(result(m, back, entries[i]));
    }
    assert forall|user: Address|
        (forall|i: int| 0 <= i < entries.len() ==> (#[trigger] entries[i]).0 != user)
            implies #[trigger] is_untouched(m, back, user) by {
        assert forall|i: int| 0 <= i < entries.len() implies who(#[trigger] entries[i])
            != user by {}
    }
}

/// The refund or the cancellation of the older list of predictions gives each
/// of them back.
proof fn lemma_predictions_back(m: MarketView, id: u64, list: Seq<PrecisionPrediction>)
    requires
        forall|i: int, j: int|
            0 <= i < j < list.len() ==> (#[trigger] list[i]).user != (#[trigger] list[j]).user,
    ensures
        ({
            let back = for_each(m, list, refund_prediction_step(id));
            back.1 is Ok ==> {
                &&& goes_on(m.events, back.0.events)
                &&& forall|i: int|
                    0 <= i < list.len() ==> is_stake_back(
                        m,
                        back.0,
                        id,
                        (#[trigger] list[i]).user,
                        list[i].amount,
                    )
                &&& forall|user: Address|
                    (forall|i: int| 0 <= i < list.len() ==> (#[trigger] list[i]).user != user)
                        ==> #[trigger] is_untouched(m, back.0, user)
            }
        }),
        ({
            let back = for_each(m, list, cancel_prediction_step(id));
            back.1 is Ok ==> {
                &&& goes_on(m.events, back.0.events)
                &&& forall|i: int|
                    0 <= i < list.len() ==> is_stake_cancelled(
                        m,
                        back.0,
                        id,
                        (#[trigger] list[i]).user,
                        list[i].amount,
                    )
                &&& forall|user: Address|
                    (forall|i: int| 0 <= i < list.len() ==> (#[trigger] list[i]).user != user)
                        ==> #[trigger] is_untouched(m, back.0, user)
            }
        }),
{
    let who = |made: PrecisionPrediction| made.user;
    let steady = |s: MarketView| s.cells == m.cells;
    let refund = refund_prediction_step(id);
    let cancel = cancel_prediction_step(id);
    let refunded = |a: MarketView, b: MarketView, made: PrecisionPrediction|
        is_stake_back(a, b, id, made.user, made.amount);
    let cancelled = |a: MarketView, b: MarketView, made: PrecisionPrediction|
        is_stake_cancelled(a, b, id, made.user, made.amount);
    assert forall|s: MarketView, made: PrecisionPrediction| steady(s) implies steady(
        (#[trigger] refund(s, made)).0,
    ) && concerns_only(s, refund(s, made).0, who(made)) && (refund(s, made).1 is Ok ==> refunded(
        s,
        refund(s, made).0,
        made,
    )) by {
        lemma_stake_steps(s, id, made.user, made.amount);
    }
    assert forall|s: MarketView, made: PrecisionPrediction| steady(s) implies steady(
        (#[trigger] cancel(s, made)).0,
    ) && concerns_only(s, cancel(s, made).0, who(made)) && (cancel(s, made).1 is Ok ==> cancelled(
        s,
        cancel(s, made).0,
        made,
    )) by {
        lemma_stake_steps(s, id, made.user, made.amount);
    }
    assert forall|
        a: MarketView,
        b: MarketView,
        c: MarketView,
        d: MarketView,
        made: PrecisionPrediction,
    |
        #![trigger refunded(b, c, made), refunded(a, d, made)]
        refunded(b, c, made) && same_account(a, b, who(made)) && same_results(c, d, who(made))
            && goes_on(a.events, b.events) && goes_on(c.events, d.events) implies refunded(
        a,
        d,
        made,
    ) by {
        lemma_stake_back_carried(a, b, c, d, id, made.user, made.amount);
    }
    assert forall|
        a: MarketView,
        b: MarketView,
        c: MarketView,
        d: MarketView,
        made: PrecisionPrediction,
    |
        #![trigger cancelled(b, c, made), cancelled(a, d, made)]
        cancelled(b, c, made) && same_account(a, b, who(made)) && same_results(c, d, who(made))
            && goes_on(a.events, b.events) && goes_on(c.events, d.events) implies cancelled(
        a,
        d,
        made,
    ) by {
        lemma_stake_back_carried(a, b, c, d, id, made.user, made.amount);
    }
    if for_each(m, list, refund).1 is Ok {
        lemma_each_done(m, list, refund, who, steady, refunded);
        lemma_for_entries(m, for_each(m, list, refund).0, list, who, refunded);
    }
    if for_each(m, list, cancel).1 is Ok {
        lemma_each_done(m, list, cancel, who, steady, cancelled);
        lemma_for_entries(m, for_each(m, list, cancel).0, list, who, cancelled);
    }
}

/// The same, said of the users by name.
proof fn lemma_for_entries(
    m: MarketView,
    end: MarketView,
    list: Seq<PrecisionPrediction>,
    who: spec_fn(PrecisionPrediction) -> Address,
    result: spec_fn(MarketView, MarketView, PrecisionPrediction) -> bool,
)
    requires
        who == (|made: PrecisionPrediction| made.user),
        forall|i: int| 0 <= i < list.len() ==> result(m, end, #[trigger] list[i]),
        forall|user: Address|
            (forall|i: int| 0 <= i < list.len() ==> who(#[trigger] list[i]) != user)
                ==> #[trigger] is_untouched(m, end, user),
    ensures
        forall|user: Address|
            (forall|i: int| 0 <= i < list.len() ==> (#[trigger] list[i]).user != user)
                ==> #[trigger] is_untouched(m, end, user),
{
    assert forall|user: Address|
        (forall|i: int| 0 <= i < list.len() ==> (#[trigger] list[i]).user != user)
            implies #[trigger] is_untouched(m, end, user) by {
        assert forall|i: int| 0 <= i < list.len() implies who(#[trigger] list[i]) != user by {}
    }
}

/// Every participant of a round on the price in which nothing was revealed gets
/// the stake back.
proof fn lemma_given_back(m: MarketView, id: u64, entries: Seq<PrecisionEntry>)
    requires
        forall|i: int, j: int|
            0 <= i < j < entries.len() ==> (#[trigger] entries[i]).0 != (#[trigger] entries[j]).0,
        for_each(m, entries, give_back_step(id)).1 is Ok,
    ensures
        ({
            let back = for_each(m, entries, give_back_step(id)).0;
            &&& goes_on(m.events, back.events)
            &&& forall|i: int|
                0 <= i < entries.len() ==> is_refund_paid(
                    m,
                    back,
                    id,
                    stake_told(
                        (#[trigger] entries[i]).0,
                        entries[i].2,
                        entries[i].1,
                        entries[i].1,
                        UserOutcomeType::Refund,
                    ),
                )
            &&& forall|user: Address|
                (forall|i: int| 0 <= i < entries.len() ==> (#[trigger] entries[i]).0 != user)
                    ==> #[trigger] is_untouched(m, back, user)
        }),
{
    let who = |entry: PrecisionEntry| entry.0;
    let steady = |s: MarketView| s.cells == m.cells;
    let step = give_back_step(id);
    let result = |a: MarketView, b: MarketView, entry: PrecisionEntry|
        is_refund_paid(
            a,
            b,
            id,
            stake_told(entry.0, entry.2, entry.1, entry.1, UserOutcomeType::Refund),
        );
    assert forall|s: MarketView, entry: PrecisionEntry| steady(s) implies steady(
        (#[trigger] step(s, entry)).0,
    ) && concerns_only(s, step(s, entry).0, who(entry)) && (step(s, entry).1 is Ok ==> result(
        s,
        step(s, entry).0,
        entry,
    )) by {
        let record = stake_told(entry.0, entry.2, entry.1, entry.1, UserOutcomeType::Refund);
        lemma_records_made(s, id, record, 0);
    }
    assert forall|
        a: MarketView,
        b: MarketView,
        c: MarketView,
        d: MarketView,
        entry: PrecisionEntry,
    |
        #![trigger result(b, c, entry), result(a, d, entry)]
        result(b, c, entry) && same_account(a, b, who(entry)) && same_results(c, d, who(entry))
            && goes_on(a.events, b.events) && goes_on(c.events, d.events) implies result(
        a,
        d,
        entry,
    ) by {
        let record = stake_told(entry.0, entry.2, entry.1, entry.1, UserOutcomeType::Refund);
        lemma_account_carried(a, b, c, d, id, record, 0);
    }
    lemma_each_done(m, entries, step, who, steady, result);
    let back = for_each(m, entries, step).0;
    assert forall|i: int| 0 <= i < entries.len() implies is_refund_paid(
        m,
        back,
        id,
        stake_told(
            (#[trigger] entries[i]).0,
            entries[i].2,
            entries[i].1,
            entries[i].1,
            UserOutcomeType::Refund,
        ),
    ) by {
        assert(result(m, back, entries[i]));
    }
    assert forall|user: Address|
        (forall|i: int| 0 <= i < entries.len() ==> (#[trigger] entries[i]).0 != user)
            implies #[trigger] is_untouched(m, back, user) by {
        assert forall|i: int| 0 <= i < entries.len() implies who(#[trigger] entries[i])
            != user by {}
    }
}

impl MarketView {
    /// The lists of a round are in order: no participant is listed twice, and
    /// every prediction is filed under the user who made it.
    pub open spec fn lists_are_plain(self, round: Round) -> bool {
        let users = self.participants_of(round.round_id);
        &&& users.no_duplicates()
        &&& users.len() <= u32::MAX
        &&& self.older_predictions_are_filed()
        &&& self.updown_legacy matches Some(entries) ==> keys_ascend(entries)
        &&& self.precision_legacy matches Some(entries) ==> keys_ascend(entries)
    }
}

/// A stake on a price went back, as a refund or as a cancellation.
pub open spec fn is_made_good(
    before: MarketView,
    after: MarketView,
    id: u64,
    user: Address,
    stake: i128,
    cancelled: bool,
) -> bool {
    if cancelled {
        is_stake_cancelled(before, after, id, user, stake)
    } else {
        is_stake_back(before, after, id, user, stake)
    }
}

/// All that a user has staked in a round went back and was recorded, for
/// participants that are listed, or else for those in the older list; whoever
/// has staked nothing there was left untouched.
pub open spec fn are_stakes_back(
    before: MarketView,
    after: MarketView,
    round: Round,
    user: Address,
    outcome: UserOutcomeType,
) -> bool {
    let id = round.round_id;
    let users = before.participants_of(id);
    let cancelled = outcome == UserOutcomeType::Cancel;
    if users.len() > 0 {
        if !users.contains(user) {
            is_untouched(before, after, user)
        } else {
            match round.mode {
                RoundMode::UpDown => is_position_back(before, after, id, user, outcome),
                RoundMode::Precision => is_made_good(
                    before,
                    after,
                    id,
                    user,
                    before.precision_stake(id, user),
                    cancelled,
                ),
            }
        }
    } else {
        match round.mode {
            RoundMode::UpDown => {
                let entries = before.older_positions();
                &&& forall|i: int|
                    0 <= i < entries.len() && (#[trigger] entries[i]).0 == user
                        ==> is_entry_back(before, after, id, entries[i], outcome)
                &&& (forall|i: int| 0 <= i < entries.len() ==> (#[trigger] entries[i]).0 != user)
                    ==> is_untouched(before, after, user)
            },
            RoundMode::Precision => {
                let list = before.older_predictions();
                &&& forall|i: int|
                    0 <= i < list.len() && (#[trigger] list[i]).user == user ==> is_made_good(
                        before,
                        after,
                        id,
                        user,
                        list[i].amount,
                        cancelled,
                    )
                &&& (forall|i: int| 0 <= i < list.len() ==> (#[trigger] list[i]).user != user)
                    ==> is_untouched(before, after, user)
            },
        }
    }
}

/// The predictions of the older list are of different users.
pub proof fn lemma_older_are_different(m: MarketView)
    requires
        m.older_predictions_are_filed(),
        m.precision_legacy matches Some(entries) ==> keys_ascend(entries),
    ensures
        forall|i: int, j: int|
            0 <= i < j < m.older_predictions().len() ==> (
            #[trigger] m.older_predictions()[i]).user != (
            #[trigger] m.older_predictions()[j]).user,
{
    let list = m.older_predictions();
    if let Some(entries) = m.precision_legacy {
        assert forall|i: int, j: int| 0 <= i < j < list.len() implies (
        #[trigger] list[i]).user != (#[trigger] list[j]).user by {
            assert(entries[i].1.user == entries[i].0);
            assert(entries[j].1.user == entries[j].0);
            assert(entries[i].0 != entries[j].0);
        }
    }
}

/// The refund of all stakes gives every stake back, as a refund or as a
/// cancellation.
proof fn lemma_all_back(m: MarketView, round: Round, user: Address)
    requires
        m.lists_are_plain(round),
    ensures
        ({
            let users = m.participants_of(round.round_id);
            let refunded = m.refund_stakes(round, users);
            let cancelled = m.cancel_stakes(round, users);
            &&& refunded.1 is Ok ==> goes_on(m.events, refunded.0.events) && are_stakes_back(
                m,
                refunded.0,
                round,
                user,
                UserOutcomeType::Refund,
            )
            &&& cancelled.1 is Ok ==> goes_on(m.events, cancelled.0.events) && are_stakes_back(
                m,
                cancelled.0,
                round,
                user,
                UserOutcomeType::Cancel,
            )
        }),
{
    let id = round.round_id;
    let users = m.participants_of(id);
    if users.len() > 0 {
        lemma_positions_back(m, id, users);
        lemma_stakes_back(m, id, users);
        if !users.contains(user) {
            if m.refund_stakes(round, users).1 is Ok {
                assert(is_untouched(m, m.refund_stakes(round, users).0, user));
            }
            if m.cancel_stakes(round, users).1 is Ok {
                assert(is_untouched(m, m.cancel_stakes(round, users).0, user));
            }
        }
    } else {
        match round.mode {
            RoundMode::UpDown => {
                let entries = m.older_positions();
                if m.refund_stakes(round, users).1 is Ok {
                    lemma_entries_back(m, id, entries, UserOutcomeType::Refund);
                    if forall|i: int|
                        0 <= i < entries.len() ==> (#[trigger] entries[i]).0 != user {
                        assert(is_untouched(m, m.refund_stakes(round, users).0, user));
                    }
                }
                if m.cancel_stakes(round, users).1 is Ok {
                    lemma_entries_back(m, id, entries, UserOutcomeType::Cancel);
                    if forall|i: int|
                        0 <= i < entries.len() ==> (#[trigger] entries[i]).0 != user {
                        assert(is_untouched(m, m.cancel_stakes(round, users).0, user));
                    }
                }
            },
            RoundMode::Precision => {
                let list = m.older_predictions();
                lemma_older_are_different(m);
                lemma_predictions_back(m, id, list);
                if forall|i: int| 0 <= i < list.len() ==> (#[trigger] list[i]).user != user {
                    if m.refund_stakes(round, users).1 is Ok {
                        assert(is_untouched(m, m.refund_stakes(round, users).0, user));
                    }
                    if m.cancel_stakes(round, users).1 is Ok {
                        assert(is_untouched(m, m.cancel_stakes(round, users).0, user));
                    }
                }
            },
        }
    }
}

/// What went back in between went back.
proof fn lemma_all_back_carried(
    start: MarketView,
    a: MarketView,
    b: MarketView,
    end: MarketView,
    round: Round,
    user: Address,
    outcome: UserOutcomeType,
)
    requires
        same_account(start, a, user),
        start.participants_of(round.round_id) == a.participants_of(round.round_id),
        start.updown_legacy == a.updown_legacy,
        start.precision_legacy == a.precision_legacy,
        same_results(b, end, user),
        goes_on(start.events, a.events),
        goes_on(b.events, end.events),
        are_stakes_back(a, b, round, user, outcome),
    ensures
        are_stakes_back(start, end, round, user, outcome),
{
    let id = round.round_id;
    let users = a.participants_of(id);
    lemma_same_stake(start, a, id, user);
    assert(start.older_positions() == a.older_positions());
    assert(start.older_predictions() =~= a.older_predictions());
    if is_untouched(a, b, user) {
        lemma_untouched_carried(start, a, b, end, user);
    }
    if users.len() > 0 {
        if users.contains(user) {
            match round.mode {
                RoundMode::UpDown => {
                    lemma_position_back_carried(id, outcome);
                    assert(is_position_back(a, b, id, user, outcome));
                    assert(is_position_back(start, end, id, user, outcome));
                },
                RoundMode::Precision => {
                    lemma_stake_back_carried(
                        start,
                        a,
                        b,
                        end,
                        id,
                        user,
                        a.precision_stake(id, user),
                    );
                },
            }
        }
    } else {
        match round.mode {
            RoundMode::UpDown => {
                let entries = a.older_positions();
                assert forall|i: int| 0 <= i < entries.len() && (
                #[trigger] entries[i]).0 == user implies is_entry_back(
                    start,
                    end,
                    id,
                    entries[i],
                    outcome,
                ) by {
                    let entry = entries[i];
                    let record = position_told(entry.0, entry.1, entry.1.amount, outcome);
                    lemma_account_carried(start, a, b, end, id, record, 0);
                }
            },
            RoundMode::Precision => {
                let list = a.older_predictions();
                assert forall|i: int| 0 <= i < list.len() && (
                #[trigger] list[i]).user == user implies is_made_good(
                    start,
                    end,
                    id,
                    user,
                    list[i].amount,
                    outcome == UserOutcomeType::Cancel,
                ) by {
                    assert(is_made_good(
                        a,
                        b,
                        id,
                        user,
                        list[i].amount,
                        outcome == UserOutcomeType::Cancel,
                    ));
                    lemma_stake_back_carried(start, a, b, end, id, user, list[i].amount);
                }
            },
        }
    }
}

/// The cancellation of a round gives all that was staked back: every user gets
/// exactly the stake, it is recorded as cancelled and told, and nobody else's
/// winnings, counts or records change. The round is marked as cancelled, and
/// its cancellation is told last, with the reason and the pools.
pub proof fn law_cancelled_rounds_give_all_back(
    m: MarketView,
    sequence: u32,
    reason: u32,
    user: Address,
)
    requires
        m.cancel_round(sequence, reason).1 is Ok,
        m.cells.active_round matches Some(round) ==> m.lists_are_plain(round),
    ensures
        m.cells.active_round is Some,
        ({
            let round = m.cells.active_round->0;
            let after = m.cancel_round(sequence, reason).0;
            &&& are_stakes_back(m, after, round, user, UserOutcomeType::Cancel)
            &&& after.stats == m.stats
            &&& after.balances == m.balances
            &&& after.cells == (Cells { active_round: None, ..m.cells })
            &&& after.cancelled == m.cancelled.insert(round.round_id, true)
            &&& after.participants == m.participants.remove(round.round_id)
            &&& after.nonces == m.nonces
            &&& goes_on(m.events, after.events)
            &&& after.events.last() == (Event::RoundCancelled {
                round_id: round.round_id,
                reason,
                pool_up: round.pool_up,
                pool_down: round.pool_down,
            })
        }),
{
    let round = m.cells.active_round->0;
    let read = m.require_supported_schema().0;
    let users = m.participants_of(round.round_id);
    let refunded = read.cancel_stakes(round, users).0;
    let after = m.cancel_round(sequence, reason).0;
    let count = users.len() as u32;
    let status = RoundArchiveStatus::Cancelled;
    lemma_cancel_keeps_stats(m, sequence, reason);
    lemma_cancel_only_pays_out(read, round, users);
    lemma_all_back(read, round, user);
    lemma_archive_keeps(refunded, sequence, round, status, 0, count, 0);
    lemma_archive_told(refunded, sequence, round, status, 0, count, 0);
    lemma_all_back_carried(
        m,
        read,
        refunded,
        after,
        round,
        user,
        UserOutcomeType::Cancel,
    );
}

/// A cancellation is refused on a schema that is not known, without an
/// administrator and without a round, in this order; the last is told. Else it
/// is refused only where a stake cannot be added to what is pending.
pub proof fn law_cancellations_are_refused(m: MarketView, sequence: u32, reason: u32)
    ensures
        ({
            let answer = m.cancel_round(sequence, reason).1;
            let after = m.cancel_round(sequence, reason).0;
            &&& !m.schema_is_known() ==> answer == Err::<(), ContractError>(
                ContractError::UnsupportedSchemaVersion,
            ) && after.events == m.events
            &&& m.schema_is_known() && m.cells.admin is None ==> answer == Err::<
                (),
                ContractError,
            >(ContractError::AdminNotSet) && after.events == m.events
            &&& m.schema_is_known() && m.cells.admin is Some && m.cells.active_round is None
                ==> answer == Err::<(), ContractError>(
                ContractError::RoundNotCancellable,
            ) && after.events == m.events.push(
                Event::ActionRejected {
                    actor: m.cells.admin->0,
                    action: Action::Cancel,
                    error: ContractError::RoundNotCancellable,
                },
            )
        }),
{
}

/// A round with fewer participants than are asked for gives all that was staked
/// back: every user gets exactly the stake, it is recorded as a refund and
/// told, and nobody else's winnings, counts or records change. No fee is taken,
/// and the fallback is told last, with both numbers.
pub proof fn law_short_rounds_give_all_back(
    m: MarketView,
    ctx: &LedgerContext,
    payload: OraclePayload,
    user: Address,
)
    requires
        m.resolve_round(ctx, payload).1 is Ok,
        m.cells.active_round matches Some(round) ==> m.lists_are_plain(round) && m.falls_short(
            round,
        ),
    ensures
        m.cells.active_round is Some,
        ({
            let round = m.cells.active_round->0;
            let after = m.resolve_round(ctx, payload).0;
            &&& are_stakes_back(m, after, round, user, UserOutcomeType::Refund)
            &&& after.stats == m.stats
            &&& after.balances == m.balances
            &&& after.treasury() == m.treasury()
            &&& after.events.last() == (Event::RoundFallback {
                round_id: round.round_id,
                count: m.participants_of(round.round_id).len() as u32,
                min: m.cells.min_participants->0,
            })
        }),
{
    let round = m.cells.active_round->0;
    let checked = m.check_report(ctx, payload).0;
    let users = m.participants_of(round.round_id);
    let count = users.len() as u32;
    let status = RoundArchiveStatus::FallbackRefund;
    let after = m.resolve_round(ctx, payload).0;
    lemma_report_only_checked(m, ctx, payload);
    lemma_goes_on_checked(m, ctx, payload);
    let stored = checked.archive(ctx.sequence, round, status, payload.price, count, 0);
    lemma_archive_keeps(checked, ctx.sequence, round, status, payload.price, count, 0);
    lemma_archive_told(checked, ctx.sequence, round, status, payload.price, count, 0);
    let refunded = stored.refund_stakes(round, users).0;
    lemma_refunds_only_pay(stored, round, users);
    lemma_refunds_count_nothing(stored, round, users);
    lemma_all_back(stored, round, user);
    lemma_settle_keeps_nonces(checked, ctx.sequence, round, payload);
    lemma_all_back_carried(
        m,
        stored,
        refunded,
        after,
        round,
        user,
        UserOutcomeType::Refund,
    );
}

/// What a report that has passed has told comes behind what was told before.
pub proof fn lemma_goes_on_checked(m: MarketView, ctx: &LedgerContext, payload: OraclePayload)
    requires
        m.check_report(ctx, payload).1 is Ok,
    ensures
        goes_on(m.events, m.check_report(ctx, payload).0.events),
{
    law_passing_reports_leave(m, ctx, payload);
    let round = m.cells.active_round->0;
    let checked = m.check_report(ctx, payload).0;
    if m.is_beyond_limit(round, payload.price) {
        assert forall|i: int| 0 <= i < m.events.len() implies #[trigger] checked.events[i]
            == m.events[i] by {
            assert(checked.events.drop_last()[i] == m.events[i]);
        }
    }
}

/// Refunds leave the counts and the treasury alone.
pub proof fn lemma_refunds_count_nothing(m: MarketView, round: Round, users: Seq<Address>)
    ensures
        m.refund_stakes(round, users).0.stats == m.stats,
        m.refund_stakes(round, users).0.cells == m.cells,
{
    let id = round.round_id;
    let property = |s: MarketView| s.stats == m.stats && s.cells == m.cells;
    let outcome = UserOutcomeType::Refund;
    lemma_for_each_keeps(m, users, refund_step(id, 0), property);
    lemma_for_each_keeps(m, users, refund_stake_step(id), property);
    lemma_for_each_keeps(
        m,
        m.older_positions(),
        refund_entry_step(id, outcome),
        property,
    );
    lemma_for_each_keeps(
        m,
        m.older_predictions(),
        refund_prediction_step(id),
        property,
    );
}

/// A round on the direction of the price is a draw where the price is what it
/// was, or where only one side was bet on.
pub open spec fn is_draw(round: Round, price: u128) -> bool {
    price == round.price_start || (round.pool_up == 0) != (round.pool_down == 0)
}

/// A round on the direction of the price that is a draw gives all that was
/// staked back, and takes no fee; nothing is counted. That only one side was
/// bet on is told.
pub proof fn law_draws_give_all_back(
    m: MarketView,
    ctx: &LedgerContext,
    payload: OraclePayload,
    user: Address,
)
    requires
        m.resolve_round(ctx, payload).1 is Ok,
        m.cells.active_round matches Some(round) ==> {
            &&& m.lists_are_plain(round)
            &&& !m.falls_short(round)
            &&& round.mode == RoundMode::UpDown
            &&& is_draw(round, payload.price)
        },
    ensures
        m.cells.active_round is Some,
        ({
            let round = m.cells.active_round->0;
            let after = m.resolve_round(ctx, payload).0;
            &&& are_stakes_back(m, after, round, user, UserOutcomeType::Refund)
            &&& after.stats == m.stats
            &&& after.balances == m.balances
            &&& after.treasury() == m.treasury()
            &&& (round.pool_up == 0) != (round.pool_down == 0) ==> is_told(
                m,
                after,
                Event::PoolOneSided {
                    round_id: round.round_id,
                    pool_up: round.pool_up,
                    pool_down: round.pool_down,
                },
            )
        }),
{
    lemma_resolve_is_payment(m, ctx, payload);
    let round = m.cells.active_round->0;
    let id = round.round_id;
    let checked = m.check_report(ctx, payload).0;
    let stored = m.participants_of(id);
    let users = sorted_addresses(stored);
    let after = m.resolve_round(ctx, payload).0;
    let settled = checked.resolve_updown(round, payload.price).0;
    let paid = checked.pay_by_mode(round, payload.price).0;
    lemma_sorted_once(stored);
    lemma_sorted_keeps(stored);
    lemma_mode_only_pays(checked, round, payload.price);
    lemma_refunds_count_nothing(checked, round, users);
    let refunded = checked.refund_stakes(round, users);
    if stored.len() > 0 {
        assert(settled == refunded.0);
        lemma_positions_back(checked, id, users);
        if !stored.contains(user) {
            assert(!users.contains(user));
            assert(is_untouched(checked, settled, user));
        } else {
            assert(users.contains(user));
        }
        assert(are_stakes_back(checked, settled, round, user, UserOutcomeType::Refund));
    } else {
        assert(users =~= stored);
        let entries = checked.older_positions();
        if entries.len() > 0 {
            assert(settled == refunded.0);
        } else {
            assert(settled == checked);
        }
        lemma_all_back(checked, round, user);
    }
    assert(goes_on(checked.events, settled.events));
    assert(goes_on(settled.events, after.events));
    lemma_all_back_carried(
        m,
        checked,
        settled,
        after,
        round,
        user,
        UserOutcomeType::Refund,
    );
    if (round.pool_up == 0) != (round.pool_down == 0) {
        let at = settled.events.len() as int;
        assert(paid.events[at] == (Event::PoolOneSided {
            round_id: id,
            pool_up: round.pool_up,
            pool_down: round.pool_down,
        }));
        assert(after.events[at] == paid.events[at]);
    }
}

/// In a round on the price in which nothing was revealed, every participant
/// gets the stake back, and it is recorded as a refund; nothing is counted, and
/// no fee is taken.
pub proof fn law_unrevealed_rounds_give_all_back(
    m: MarketView,
    ctx: &LedgerContext,
    payload: OraclePayload,
    user: Address,
)
    requires
        m.resolve_round(ctx, payload).1 is Ok,
        m.cells.active_round matches Some(round) ==> {
            &&& m.lists_are_plain(round)
            &&& !m.falls_short(round)
            &&& round.mode == RoundMode::Precision
            &&& m.participants_of(round.round_id).len() > 0
            &&& m.none_revealed(round)
            &&& m.staked(round) > 0
        },
    ensures
        m.cells.active_round is Some,
        ({
            let round = m.cells.active_round->0;
            let after = m.resolve_round(ctx, payload).0;
            let stake = m.precision_stake(round.round_id, user);
            &&& m.participants_of(round.round_id).contains(user) ==> is_refund_paid(
                m,
                after,
                round.round_id,
                stake_told(user, 0, stake, stake, UserOutcomeType::Refund),
            )
            &&& !m.participants_of(round.round_id).contains(user) ==> is_untouched(m, after, user)
            &&& after.treasury() == m.treasury()
            &&& after.stats == m.stats
        }),
{
    lemma_resolve_is_payment(m, ctx, payload);
    let round = m.cells.active_round->0;
    let id = round.round_id;
    let checked = m.check_report(ctx, payload).0;
    let stored = m.participants_of(id);
    let users = sorted_addresses(stored);
    let after = m.resolve_round(ctx, payload).0;
    let settled = checked.resolve_precision(id, payload.price).0;
    lemma_sorted_once(stored);
    lemma_sorted_keeps(stored);
    let revealed = checked.revealed(id, users);
    assert forall|i: int| 0 <= i < revealed.len() implies (#[trigger] revealed[i]) is None by {
        assert(users.contains(users[i]));
        assert(stored.contains(users[i]));
    }
    law_winners_are_the_closest(revealed, payload.price, arbitrary());
    let entries = checked.precision_entries(id, users, payload.price);
    let stakes = checked.precision_stakes(id, users);
    let stake = |u: Address| m.precision_stake(id, u) as int;
    lemma_running_total(stakes);
    lemma_sum_same(users, stakes, stake, |amount: i128| amount as int);
    lemma_sum_permuted(users, stored, stake);
    assert forall|i: int, j: int| 0 <= i < j < entries.len() implies (
    #[trigger] entries[i]).0 != (#[trigger] entries[j]).0 by {
        assert(users[i] != users[j]);
    }
    assert(settled == for_each(checked, entries, give_back_step(id)).0);
    lemma_given_back(checked, id, entries);
    let property = |s: MarketView| s.stats == m.stats && s.cells == checked.cells;
    lemma_for_each_keeps(checked, entries, give_back_step(id), property);
    if stored.contains(user) {
        assert(users.contains(user));
        let i = choose|i: int| 0 <= i < users.len() && users[i] == user;
        assert(entries[i].0 == user);
        assert(revealed[i] is None);
        let record = stake_told(
            user,
            0,
            m.precision_stake(id, user),
            m.precision_stake(id, user),
            UserOutcomeType::Refund,
        );
        assert(is_refund_paid(checked, settled, id, record));
        lemma_account_carried(m, checked, settled, after, id, record, 0);
    } else {
        assert forall|i: int| 0 <= i < entries.len() implies (#[trigger] entries[i]).0 != user by {
            assert(users.contains(users[i]));
        }
        assert(is_untouched(checked, settled, user));
        lemma_untouched_carried(m, checked, settled, after, user);
    }
}

} // verus!
