//! Laws of the market: what holds of every state and every call.

use vstd::prelude::*;
use crate::conservation::law_settlement_conserves;
use crate::contract::{
    fee_of, fits_i128, round_phase, MAX_PROTOCOL_FEE_BPS, MIN_ROTATION_EXPIRY_SECONDS,
};
use crate::errors::ContractError;
use crate::frame::{
    about_records, kept_by_payments, lemma_archive_keeps, lemma_cancel_keeps,
    lemma_cancel_only_pays_out,
    lemma_mode_only_pays, lemma_refunds_only_pay, lemma_report_only_checked,
    lemma_resolve_keeps_records, only_checked,
};
use crate::market::LedgerContext;
use crate::model::{for_each, MarketView};
use crate::oracle::deviation_bps;
use crate::payments::{
    credited, lemma_cancel_pays_older, lemma_fee_bounds, lemma_same_payments, lemma_settle_pays,
    lemma_sum_same, pays, same_stakes, total_paid,
};
use crate::precision::{lemma_closest_none, lemma_some_closest};
use crate::rules::{
    cancel_position_step, cancel_prediction_step, cancel_stake_step, closest, closest_among,
    entry_keys, is_closest,
    sorted_addresses,
};
use crate::types::{
    Address, BetSide, DataKey, OraclePayload, PrecisionPrediction, ProtocolStatus, Round,
    RoundArchiveStatus, RoundMode, RoundPhase, RoundStatus, RuntimeMode, UserRoundOutcome,
};

verus! {

/// States with the same stakes have the same books.
pub proof fn lemma_same_books(a: MarketView, b: MarketView, round: Round, price: u128)
    requires
        same_stakes(a, b),
    ensures
        a.staked(round) == b.staked(round),
        a.books_balance(round) == b.books_balance(round),
        a.fee_is_fair() == b.fee_is_fair(),
        a.has_too_few(round) == b.has_too_few(round),
        a.updown_is_refunded(round, price) == b.updown_is_refunded(round, price),
        a.round_payments(round, price) == b.round_payments(round, price),
        a.round_fee(round, price) == b.round_fee(round, price),
{
    let id = round.round_id;
    let users = a.participants_of(id);
    let sorted = sorted_addresses(users);
    lemma_same_payments(a, b, round, price);
    lemma_sum_same(
        users,
        users,
        |user: Address| a.position_stake(id, user),
        |user: Address| b.position_stake(id, user),
    );
    lemma_sum_same(
        users,
        users,
        |user: Address| a.precision_stake(id, user) as int,
        |user: Address| b.precision_stake(id, user) as int,
    );
    lemma_sum_same(
        users,
        users,
        |user: Address| a.side_stake(id, user, BetSide::Up),
        |user: Address| b.side_stake(id, user, BetSide::Up),
    );
    lemma_sum_same(
        users,
        users,
        |user: Address| a.side_stake(id, user, BetSide::Down),
        |user: Address| b.side_stake(id, user, BetSide::Down),
    );
    assert(a.precision_stakes(id, sorted) =~= b.precision_stakes(id, sorted));
    assert(a.revealed(id, sorted) =~= b.revealed(id, sorted));
    if round.mode == RoundMode::UpDown && !a.has_too_few(round) {
        assert(a.updown_payments(round, price) == b.updown_payments(round, price));
    }
}

/// The settlement of the active round pays exactly the users that its payments
/// name, and the treasury exactly the fee.
pub proof fn lemma_resolve_pays(m: MarketView, ctx: &LedgerContext, payload: OraclePayload)
    requires
        m.wf(),
        m.resolve_round(ctx, payload).1 is Ok,
    ensures
        m.cells.active_round is Some,
        ({
            let round = m.cells.active_round->0;
            let after = m.resolve_round(ctx, payload).0;
            &&& pays(m, after, m.round_payments(round, payload.price))
            &&& after.treasury() == m.treasury() + m.round_fee(round, payload.price)
        }),
{
    let checked = m.check_report(ctx, payload);
    let round = checked.1->Ok_0;
    let after = m.resolve_round(ctx, payload).0;
    lemma_report_only_checked(m, ctx, payload);
    assert(same_stakes(m, checked.0));
    lemma_same_books(m, checked.0, round, payload.price);
    lemma_settle_pays(checked.0, ctx.sequence, round, payload);
    assert forall|user: Address| #[trigger]
        after.pending_of(user) == m.pending_of(user) + credited(
            m.round_payments(round, payload.price),
            user,
        ) by {
        assert(checked.0.pending_of(user) == m.pending_of(user));
    }
}

/// The settlement of the active round pays exactly the users that its payments
/// name, and the treasury exactly the fee; together they never come to more
/// than was staked in the round. They come to exactly that in a round on the
/// price, and wherever the stakes go back.
pub proof fn law_resolve_conserves(m: MarketView, ctx: &LedgerContext, payload: OraclePayload)
    requires
        m.wf(),
        m.cells.active_round matches Some(round) ==> m.books_balance(round),
        m.fee_is_fair(),
        m.resolve_round(ctx, payload).1 is Ok,
    ensures
        m.cells.active_round is Some,
        ({
            let round = m.cells.active_round->0;
            let after = m.resolve_round(ctx, payload).0;
            let payments = m.round_payments(round, payload.price);
            let to_treasury = after.treasury() - m.treasury();
            &&& pays(m, after, payments)
            &&& to_treasury == m.round_fee(round, payload.price)
            &&& total_paid(payments) + to_treasury <= m.staked(round)
            &&& round.mode == RoundMode::Precision || m.has_too_few(round) || m.updown_is_refunded(
                round,
                payload.price,
            ) ==> total_paid(payments) + to_treasury == m.staked(round)
        }),
{
    let checked = m.check_report(ctx, payload);
    let round = checked.1->Ok_0;
    lemma_resolve_pays(m, ctx, payload);
    lemma_report_only_checked(m, ctx, payload);
    assert(same_stakes(m, checked.0));
    lemma_same_books(m, checked.0, round, payload.price);
    law_settlement_conserves(checked.0, ctx.sequence, round, payload);
}

/// A round that is not among those that are removed from the archive stays in
/// it, and none comes back by a removal.
proof fn lemma_prune_spares(m: MarketView, ids: Seq<u64>, id: u64)
    ensures
        !ids.contains(id) ==> m.prune(ids).archived.get(id) == m.archived.get(id),
        m.prune(ids).archived.get(id) is Some ==> m.prune(ids).archived.get(id)
            == m.archived.get(id),
    decreases ids.len(),
{
    if ids.len() > 0 {
        lemma_prune_spares(m, ids.drop_last(), id);
        assert(ids.last() == ids[ids.len() - 1]);
        if !ids.contains(id) {
            assert(!ids.drop_last().contains(id)) by {
                if ids.drop_last().contains(id) {
                    let at = choose|at: int| 0 <= at < ids.drop_last().len() && ids.drop_last()[at]
                        == id;
                    assert(ids[at] == id);
                }
            }
        }
    }
}

/// What the archive says of a round that was just entered.
proof fn lemma_just_archived(
    m: MarketView,
    sequence: u32,
    round: Round,
    status: RoundArchiveStatus,
    price: u128,
    count: u32,
    fee: i128,
)
    ensures
        ({
            let after = m.archive(sequence, round, status, price, count, fee);
            let found = after.archived.get(round.round_id);
            &&& found matches Some(summary) ==> summary.status == status
            &&& m.retention() >= 1 && !m.recent_ids().contains(round.round_id) ==> found is Some
        }),
{
    let stored = m.store_summary(sequence, round, status, price, count, fee);
    let ids = stored.recent_ids().push(round.round_id);
    let excess = if ids.len() > stored.retention() {
        ids.len() - stored.retention()
    } else {
        0
    };
    lemma_prune_spares(stored, ids.take(excess), round.round_id);
    if m.retention() >= 1 && !m.recent_ids().contains(round.round_id) {
        assert(!ids.take(excess).contains(round.round_id)) by {
            if ids.take(excess).contains(round.round_id) {
                let at = choose|at: int|
                    0 <= at < ids.take(excess).len() && ids.take(excess)[at] == round.round_id;
                assert(m.recent_ids()[at] == round.round_id);
            }
        }
    }
}

/// The archive keeps no more rounds than its limit, the newest of them: what
/// it lists after one more round are the last of those that it listed before
/// and the new one.
pub proof fn law_archive_is_bounded(
    m: MarketView,
    sequence: u32,
    round: Round,
    status: RoundArchiveStatus,
    price: u128,
    count: u32,
    fee: i128,
)
    ensures
        ({
            let before = m.recent_ids().push(round.round_id);
            let after = m.archive(sequence, round, status, price, count, fee).recent_ids();
            &&& after.len() <= m.retention()
            &&& after.len() == before.len() || after.len() == m.retention()
            &&& after == before.skip(before.len() - after.len())
        }),
{
    let stored = m.store_summary(sequence, round, status, price, count, fee);
    assert(stored.recent_ids() == m.recent_ids());
    assert(stored.retention() == m.retention());
}

/// A round that was settled is over: there is no active round, nothing that
/// its participants entered is left, the market admits claims only, and the
/// round cannot be cancelled any more. Its status tells how it was settled,
/// unless the archive cannot hold it.
pub proof fn law_resolve_ends_the_round(
    m: MarketView,
    ctx: &LedgerContext,
    payload: OraclePayload,
    later: u32,
    reason: u32,
)
    requires
        m.resolve_round(ctx, payload).1 is Ok,
    ensures
        m.cells.active_round is Some,
        ({
            let round = m.cells.active_round->0;
            let after = m.resolve_round(ctx, payload).0;
            &&& after.cells.active_round is None
            &&& after.protocol_status() == ProtocolStatus::ClaimsOnly
            &&& !after.participants.dom().contains(round.round_id)
            &&& forall|user: Address|
                #![trigger after.has(DataKey::Position(round.round_id, user))]
                m.participants_of(round.round_id).contains(user) ==> {
                    &&& !after.has(DataKey::Position(round.round_id, user))
                    &&& !after.has(DataKey::PrecisionPosition(round.round_id, user))
                    &&& !after.has(DataKey::PrecisionCommitment(round.round_id, user))
                }
            &&& m.retention() >= 1 && !m.recent_ids().contains(round.round_id)
                ==> after.round_status(later, round.round_id) == (if m.has_too_few(round) {
                RoundStatus::FallbackRefund
            } else {
                RoundStatus::Resolved
            })
            &&& m.cells.admin is Some ==> after.cancel_round(later, reason).1 == Err::<
                (),
                ContractError,
            >(ContractError::RoundNotCancellable)
        }),
{
    let checked = m.check_report(ctx, payload);
    let round = checked.1->Ok_0;
    let after = m.resolve_round(ctx, payload).0;
    let users = m.participants_of(round.round_id);
    let id = round.round_id;
    lemma_report_only_checked(m, ctx, payload);
    assert(m.schema_supported());
    if m.has_too_few(round) {
        let count = users.len() as u32;
        lemma_archive_keeps(
            checked.0,
            ctx.sequence,
            round,
            RoundArchiveStatus::FallbackRefund,
            payload.price,
            count,
            0,
        );
        lemma_just_archived(
            checked.0,
            ctx.sequence,
            round,
            RoundArchiveStatus::FallbackRefund,
            payload.price,
            count,
            0,
        );
        let stored = checked.0.archive(
            ctx.sequence,
            round,
            RoundArchiveStatus::FallbackRefund,
            payload.price,
            count,
            0,
        );
        lemma_refunds_only_pay(stored, round, users);
    } else {
        let paid = checked.0.pay_by_mode(round, payload.price);
        lemma_mode_only_pays(checked.0, round, payload.price);
        lemma_archive_keeps(
            paid.0,
            ctx.sequence,
            round,
            RoundArchiveStatus::Resolved,
            payload.price,
            users.len() as u32,
            paid.1->Ok_0,
        );
        lemma_just_archived(
            paid.0,
            ctx.sequence,
            round,
            RoundArchiveStatus::Resolved,
            payload.price,
            users.len() as u32,
            paid.1->Ok_0,
        );
    }
    assert forall|user: Address|
        #![trigger after.has(DataKey::Position(id, user))]
        users.contains(user) implies !after.has(DataKey::Position(id, user)) && !after.has(
        DataKey::PrecisionPosition(id, user),
    ) && !after.has(DataKey::PrecisionCommitment(id, user)) by {
        assert(entry_keys(id, users).contains((id, user)));
    }
}

impl MarketView {
    /// What a user gets back where a round is cancelled.
    pub open spec fn refundable(self, round: Round, user: Address) -> int {
        match round.mode {
            RoundMode::UpDown => self.position_stake(round.round_id, user),
            RoundMode::Precision => if self.precision_stake(round.round_id, user) > 0 {
                self.precision_stake(round.round_id, user) as int
            } else {
                0
            },
        }
    }
}

/// What the cancellation of positions has done after some participants.
pub proof fn lemma_positions_cancelled(m: MarketView, round_id: u64, users: Seq<Address>)
    requires
        for_each(m, users, cancel_position_step(round_id)).1 is Ok,
    ensures
        ({
            let after = for_each(m, users, cancel_position_step(round_id)).0;
            &&& after.positions == m.positions.remove_keys(entry_keys(round_id, users))
            &&& forall|user: Address| #[trigger]
                after.pending_of(user) == m.pending_of(user) + (if users.contains(user) {
                    m.position_stake(round_id, user)
                } else {
                    0
                })
        }),
    decreases users.len(),
{
    if users.len() == 0 {
        assert(m.positions.remove_keys(entry_keys(round_id, users)) =~= m.positions);
    } else {
        let fewer = users.drop_last();
        let last = users.last();
        let before = for_each(m, fewer, cancel_position_step(round_id)).0;
        let after = for_each(m, users, cancel_position_step(round_id)).0;
        lemma_positions_cancelled(m, round_id, fewer);
        lemma_one_more_member(users);
        lemma_one_more_key(round_id, users);
        assert(after.positions =~= m.positions.remove_keys(entry_keys(round_id, users)));
        assert(before.position_stake(round_id, last) == (if fewer.contains(last) {
            0
        } else {
            m.position_stake(round_id, last)
        })) by {
            assert(entry_keys(round_id, fewer).contains((round_id, last)) == fewer.contains(last));
        }
        assert forall|user: Address| #[trigger]
            after.pending_of(user) == m.pending_of(user) + (if users.contains(user) {
                m.position_stake(round_id, user)
            } else {
                0
            }) by {
            assert(before.pending_of(user) == m.pending_of(user) + (if fewer.contains(user) {
                m.position_stake(round_id, user)
            } else {
                0
            }));
        }
    }
}

/// What the cancellation of stakes on a price has done after some
/// participants.
pub proof fn lemma_stakes_cancelled(m: MarketView, round: Round, users: Seq<Address>)
    requires
        round.mode == RoundMode::Precision,
        for_each(m, users, cancel_stake_step(round.round_id)).1 is Ok,
    ensures
        ({
            let after = for_each(m, users, cancel_stake_step(round.round_id)).0;
            &&& after.predictions == m.predictions.remove_keys(entry_keys(round.round_id, users))
            &&& after.commitments == m.commitments.remove_keys(entry_keys(round.round_id, users))
            &&& forall|user: Address| #[trigger]
                after.pending_of(user) == m.pending_of(user) + (if users.contains(user) {
                    m.refundable(round, user)
                } else {
                    0
                })
        }),
    decreases users.len(),
{
    let id = round.round_id;
    if users.len() == 0 {
        assert(m.predictions.remove_keys(entry_keys(id, users)) =~= m.predictions);
        assert(m.commitments.remove_keys(entry_keys(id, users)) =~= m.commitments);
    } else {
        let fewer = users.drop_last();
        let last = users.last();
        let before = for_each(m, fewer, cancel_stake_step(id)).0;
        let after = for_each(m, users, cancel_stake_step(id)).0;
        lemma_stakes_cancelled(m, round, fewer);
        lemma_one_more_member(users);
        lemma_one_more_key(id, users);
        assert(after.predictions =~= m.predictions.remove_keys(entry_keys(id, users)));
        assert(after.commitments =~= m.commitments.remove_keys(entry_keys(id, users)));
        assert(before.precision_stake(id, last) == (if fewer.contains(last) {
            0
        } else {
            m.precision_stake(id, last)
        })) by {
            assert(entry_keys(id, fewer).contains((id, last)) == fewer.contains(last));
        }
        assert forall|user: Address| #[trigger]
            after.pending_of(user) == m.pending_of(user) + (if users.contains(user) {
                m.refundable(round, user)
            } else {
                0
            }) by {
            assert(before.pending_of(user) == m.pending_of(user) + (if fewer.contains(user) {
                m.refundable(round, user)
            } else {
                0
            }));
        }
    }
}

/// The members of a list are its last item and those before it.
proof fn lemma_one_more_member(users: Seq<Address>)
    requires
        users.len() > 0,
    ensures
        forall|user: Address| #[trigger]
            users.contains(user) == (users.drop_last().contains(user) || user == users.last()),
{
    assert forall|user: Address| #[trigger] users.contains(user) == (users.drop_last().contains(
        user,
    ) || user == users.last()) by {
        if users.contains(user) && user != users.last() {
            let at = choose|at: int| 0 <= at < users.len() && users[at] == user;
            assert(users.drop_last()[at] == user);
        }
        if users.drop_last().contains(user) {
            let at = choose|at: int|
                0 <= at < users.drop_last().len() && users.drop_last()[at] == user;
            assert(users[at] == user);
        }
        assert(users[users.len() - 1] == users.last());
    }
}

/// The keys of users' entries are those of the last and of the others.
proof fn lemma_one_more_key(round_id: u64, users: Seq<Address>)
    requires
        users.len() > 0,
    ensures
        forall|key: (u64, Address)| #[trigger]
            entry_keys(round_id, users).contains(key) == (entry_keys(
                round_id,
                users.drop_last(),
            ).contains(key) || key == (round_id, users.last())),
{
    lemma_one_more_member(users);
}

/// The cancellation of the active round gives every participant exactly the
/// stake back, revealed or not, and nothing to anybody else. Where no
/// participant is listed, it gives the stakes of the older list back. Neither
/// balances nor the fee treasury change, and it counts neither as won nor as
/// lost.
pub proof fn law_cancel_refunds_the_stakes(m: MarketView, sequence: u32, reason: u32, user: Address)
    requires
        m.cancel_round(sequence, reason).1 is Ok,
    ensures
        m.cells.active_round is Some,
        ({
            let round = m.cells.active_round->0;
            let after = m.cancel_round(sequence, reason).0;
            let users = m.participants_of(round.round_id);
            &&& after.pending_of(user) == m.pending_of(user) + (if users.len() == 0 {
                credited(m.older_refunds(round), user)
            } else if users.contains(user) {
                m.refundable(round, user)
            } else {
                0
            })
            &&& after.balances == m.balances
            &&& after.treasury() == m.treasury()
            &&& after.stats == m.stats
        }),
{
    let round = m.cells.active_round->0;
    let id = round.round_id;
    let read = m.require_supported_schema().0;
    let users = m.participants_of(id);
    let refunded = read.cancel_stakes(round, users).0;
    lemma_cancel_keeps_stats(m, sequence, reason);
    if users.len() == 0 {
        assert(users =~= Seq::empty());
        lemma_cancel_pays_older(read, round);
        assert(read.older_refunds(round) =~= m.older_refunds(round));
    } else {
        match round.mode {
            RoundMode::UpDown => {
                lemma_positions_cancelled(read, id, users);
            },
            RoundMode::Precision => {
                lemma_stakes_cancelled(read, round, users);
            },
        }
    }
    lemma_cancel_only_pays_out(read, round, users);
    lemma_archive_keeps(
        refunded,
        sequence,
        round,
        RoundArchiveStatus::Cancelled,
        0,
        users.len() as u32,
        0,
    );
    let after = m.cancel_round(sequence, reason).0;
    assert(after.pending == refunded.pending);
    assert(after.pending_of(user) == refunded.pending_of(user));
    assert(read.pending_of(user) == m.pending_of(user));
    assert(read.refundable(round, user) == m.refundable(round, user));
}

/// A round that was cancelled is over: it is known as cancelled from then on,
/// whatever the archive can hold, there is no active round, and a second
/// cancellation is refused.
pub proof fn law_cancel_ends_the_round(
    m: MarketView,
    sequence: u32,
    reason: u32,
    later: u32,
    second_reason: u32,
)
    requires
        m.cancel_round(sequence, reason).1 is Ok,
    ensures
        m.cells.active_round is Some,
        ({
            let round = m.cells.active_round->0;
            let after = m.cancel_round(sequence, reason).0;
            &&& after.cells.active_round is None
            &&& after.round_status(later, round.round_id) == RoundStatus::Cancelled
            &&& after.round_cancelled(round.round_id)
            &&& after.protocol_status() == (if m.is_paused() {
                ProtocolStatus::Paused
            } else {
                ProtocolStatus::ClaimsOnly
            })
            &&& !after.participants.dom().contains(round.round_id)
            &&& m.participants_of(round.round_id).len() == 0 ==> match round.mode {
                RoundMode::UpDown => !after.has(DataKey::UpDownPositions),
                RoundMode::Precision => !after.has(DataKey::PrecisionPositions),
            }
            &&& forall|user: Address|
                #![trigger after.has(DataKey::Position(round.round_id, user))]
                m.participants_of(round.round_id).contains(user) ==> match round.mode {
                    RoundMode::UpDown => !after.has(DataKey::Position(round.round_id, user)),
                    RoundMode::Precision => {
                        &&& !after.has(DataKey::PrecisionPosition(round.round_id, user))
                        &&& !after.has(DataKey::PrecisionCommitment(round.round_id, user))
                    },
                }
            &&& after.cancel_round(later, second_reason).1 == Err::<(), ContractError>(
                ContractError::RoundNotCancellable,
            )
        }),
{
    let round = m.cells.active_round->0;
    let id = round.round_id;
    let read = m.require_supported_schema().0;
    let users = m.participants_of(id);
    let refunded = read.cancel_stakes(round, users).0;
    if users.len() > 0 {
        match round.mode {
            RoundMode::UpDown => {
                lemma_positions_cancelled(read, id, users);
            },
            RoundMode::Precision => {
                lemma_stakes_cancelled(read, round, users);
            },
        }
    }
    lemma_cancel_only_pays_out(read, round, users);
    lemma_archive_keeps(
        refunded,
        sequence,
        round,
        RoundArchiveStatus::Cancelled,
        0,
        users.len() as u32,
        0,
    );
    lemma_just_archived(
        refunded,
        sequence,
        round,
        RoundArchiveStatus::Cancelled,
        0,
        users.len() as u32,
        0,
    );
    let after = m.cancel_round(sequence, reason).0;
    assert forall|user: Address|
        #![trigger after.has(DataKey::Position(id, user))]
        users.contains(user) implies match round.mode {
        RoundMode::UpDown => !after.has(DataKey::Position(id, user)),
        RoundMode::Precision => !after.has(DataKey::PrecisionPosition(id, user)) && !after.has(
            DataKey::PrecisionCommitment(id, user),
        ),
    } by {
        assert(entry_keys(id, users).contains((id, user)));
    }
}

/// Without an active round there is nothing to cancel.
pub proof fn law_cancel_needs_a_round(m: MarketView, sequence: u32, reason: u32)
    requires
        m.schema_supported(),
        m.cells.admin is Some,
        m.cells.active_round is None,
    ensures
        m.cancel_round(sequence, reason).1 == Err::<(), ContractError>(
            ContractError::RoundNotCancellable,
        ),
{
}

/// A report that does not pass the checks settles nothing: no stake, no
/// payment and no status changes by it.
pub proof fn law_refused_report_settles_nothing(
    m: MarketView,
    ctx: &LedgerContext,
    payload: OraclePayload,
    sequence: u32,
    round_id: u64,
)
    requires
        m.check_report(ctx, payload).1 is Err,
    ensures
        m.resolve_round(ctx, payload).1 is Err,
        only_checked(m, m.resolve_round(ctx, payload).0),
        m.resolve_round(ctx, payload).0.round_status(sequence, round_id) == m.round_status(
            sequence,
            round_id,
        ),
        m.resolve_round(ctx, payload).0.protocol_status() == m.protocol_status(),
{
    lemma_report_only_checked(m, ctx, payload);
}

/// A round cannot be settled before it has ended: not while it takes bets, and
/// not while it runs. What is wrong with the report is told first; a report
/// with which nothing else is wrong is refused because the round has not
/// ended.
pub proof fn law_resolve_waits_for_the_end(
    m: MarketView,
    ctx: &LedgerContext,
    payload: OraclePayload,
    ended: &LedgerContext,
)
    requires
        m.cells.active_round matches Some(round) && ctx.sequence < round.end_ledger,
        ended.sequence >= m.cells.active_round->0.end_ledger,
        ended.timestamp == ctx.timestamp,
        ended.network_id == ctx.network_id,
        ended.contract == ctx.contract,
    ensures
        m.resolve_round(ctx, payload).1 is Err,
        only_checked(m, m.resolve_round(ctx, payload).0),
        m.resolve_round(ctx, payload).1 == Err::<(), ContractError>(
            match m.check_report(ended, payload).1 {
                Ok(_) => ContractError::RoundNotEnded,
                Err(e) => e,
            },
        ),
{
    lemma_report_only_checked(m, ctx, payload);
}

/// Nothing can be settled while the contract is paused.
pub proof fn law_resolve_is_refused_while_paused(
    m: MarketView,
    ctx: &LedgerContext,
    payload: OraclePayload,
)
    requires
        m.is_paused(),
        m.schema_supported(),
        payload.price != 0,
        m.cells.oracle is Some,
    ensures
        m.resolve_round(ctx, payload).1 == Err::<(), ContractError>(ContractError::ContractPaused),
        only_checked(m, m.resolve_round(ctx, payload).0),
{
    lemma_report_only_checked(m, ctx, payload);
}

/// A nonce settles a round at most once: after a settlement, no report for a
/// round of that number with that nonce settles anything, as long as the
/// nonces that were used are kept.
pub proof fn law_nonce_settles_once(
    m: MarketView,
    ctx: &LedgerContext,
    payload: OraclePayload,
    later: MarketView,
    later_ctx: &LedgerContext,
    replay: OraclePayload,
)
    requires
        m.resolve_round(ctx, payload).1 is Ok,
        m.resolve_round(ctx, payload).0.nonces.submap_of(later.nonces),
        later.cells.active_round matches Some(round) && round.round_id
            == m.cells.active_round->0.round_id,
        replay.nonce == payload.nonce,
    ensures
        later.resolve_round(later_ctx, replay).1 is Err,
{
    let checked = m.check_report(ctx, payload);
    let round = checked.1->Ok_0;
    lemma_report_only_checked(m, ctx, payload);
    lemma_report_only_checked(later, later_ctx, replay);
    lemma_settle_keeps_nonces(checked.0, ctx.sequence, round, payload);
}

/// The settlement of a round keeps the nonces.
pub proof fn lemma_settle_keeps_nonces(
    m: MarketView,
    sequence: u32,
    round: Round,
    payload: OraclePayload,
)
    ensures
        m.settle_round(sequence, round, payload).0.nonces == m.nonces,
        m.settle_round(sequence, round, payload).0.balances == m.balances,
        m.settle_round(sequence, round, payload).0.cancelled == m.cancelled,
{
    let users = m.participants_of(round.round_id);
    let count = users.len() as u32;
    let stored = m.archive(
        sequence,
        round,
        RoundArchiveStatus::FallbackRefund,
        payload.price,
        count,
        0,
    );
    lemma_archive_keeps(
        m,
        sequence,
        round,
        RoundArchiveStatus::FallbackRefund,
        payload.price,
        count,
        0,
    );
    lemma_refunds_only_pay(stored, round, users);
    let paid = m.pay_by_mode(round, payload.price);
    lemma_mode_only_pays(m, round, payload.price);
    if let Ok(fee) = paid.1 {
        lemma_archive_keeps(
            paid.0,
            sequence,
            round,
            RoundArchiveStatus::Resolved,
            payload.price,
            count,
            fee,
        );
    }
}

/// No operation of the market forgets a nonce that was used.
pub proof fn law_nonces_are_kept(
    m: MarketView,
    ctx: &LedgerContext,
    payload: OraclePayload,
    reason: u32,
    user: Address,
)
    ensures
        m.nonces.submap_of(m.resolve_round(ctx, payload).0.nonces),
        m.cancel_round(ctx.sequence, reason).0.nonces == m.nonces,
        m.claim_winnings(user).0.nonces == m.nonces,
{
    let checked = m.check_report(ctx, payload);
    lemma_report_only_checked(m, ctx, payload);
    if let Ok(round) = checked.1 {
        lemma_settle_keeps_nonces(checked.0, ctx.sequence, round, payload);
    }
    if let Some(round) = m.cells.active_round {
        let read = m.require_supported_schema().0;
        let users = m.participants_of(round.round_id);
        lemma_cancel_only_pays_out(read, round, users);
        let refunded = read.cancel_stakes(round, users);
        lemma_archive_keeps(
            refunded.0,
            ctx.sequence,
            round,
            RoundArchiveStatus::Cancelled,
            0,
            users.len() as u32,
            0,
        );
    }
}

/// The armed override of the deviation limit is good for one price: it is used
/// up exactly by a price beyond the limit that it lets pass, and such a price
/// does not pass without it.
pub proof fn law_override_is_good_for_one_price(
    m: MarketView,
    round: Round,
    price: u128,
    second_round: Round,
    second_price: u128,
)
    requires
        m.cells.max_deviation_bps is Some,
        m.check_deviation(round, price).1 is Ok,
    ensures
        ({
            let max_bps = m.cells.max_deviation_bps->0;
            let after = m.check_deviation(round, price).0;
            let beyond = deviation_bps(round.price_start, price) > max_bps;
            &&& beyond ==> m.cells.deviation_override_armed == Some(true)
            &&& after.cells.deviation_override_armed == (if beyond {
                None
            } else {
                m.cells.deviation_override_armed
            })
            &&& beyond && deviation_bps(second_round.price_start, second_price) > max_bps
                ==> after.check_deviation(second_round, second_price).1 is Err
        }),
{
}

/// A claim pays all pending winnings into the balance: their sum stays what it
/// was, nothing is left pending, a second claim pays nothing, and nobody else
/// is concerned.
pub proof fn law_claim_moves_all(m: MarketView, user: Address, other: Address)
    requires
        m.claim_winnings(user).1 is Ok,
        other != user,
    ensures
        ({
            let after = m.claim_winnings(user).0;
            &&& m.claim_winnings(user).1 == Ok::<i128, ContractError>(m.pending_of(user))
            &&& after.pending_of(user) == 0
            &&& after.balance_of(user) == m.balance_of(user) + m.pending_of(user)
            &&& after.pending_of(other) == m.pending_of(other)
            &&& after.balance_of(other) == m.balance_of(other)
            &&& after.claim_winnings(user).1 == Ok::<i128, ContractError>(0)
            &&& after.claim_winnings(user).0.balances == after.balances
        }),
{
}

/// Claims are refused only while the contract is paused, on a schema that is
/// not supported, or where the balance could not hold the sum. A market that
/// admits claims only, or that has no active round, pays them.
pub proof fn law_claims_are_paid_unless_paused(m: MarketView, user: Address)
    requires
        m.schema_supported(),
    ensures
        m.claim_winnings(user).1 is Ok <==> !m.is_paused() && (m.pending_of(user) == 0
            || fits_i128(m.balance_of(user) + m.pending_of(user))),
        m.is_paused() ==> m.claim_winnings(user).1 == Err::<i128, ContractError>(
            ContractError::ContractPaused,
        ),
        m.claim_winnings(user).1 is Err ==> m.claim_winnings(user).0.pending == m.pending
            && m.claim_winnings(user).0.balances == m.balances,
{
}

/// A pause comes before everything else in the status of the market; what is
/// known of a round does not depend on it, and the end of the pause brings the
/// status back.
pub proof fn law_pause_hides_the_status(m: MarketView, sequence: u32, round_id: u64)
    ensures
        m.set_mode(RuntimeMode::FullyPaused).protocol_status() == ProtocolStatus::Paused,
        m.set_mode(RuntimeMode::FullyPaused).round_status(sequence, round_id) == m.round_status(
            sequence,
            round_id,
        ),
        m.set_mode(RuntimeMode::FullyPaused).set_mode(RuntimeMode::Normal).protocol_status() == (
        if m.cells.active_round is Some {
            ProtocolStatus::Active
        } else {
            ProtocolStatus::ClaimsOnly
        }),
{
}

/// To put the contract into a mode that it is in changes nothing, and the last
/// mode counts.
pub proof fn law_mode_is_set(m: MarketView, first: RuntimeMode, second: RuntimeMode)
    ensures
        m.set_mode(first).mode() == first,
        m.set_mode(first).set_mode(first) == m.set_mode(first),
        m.set_mode(first).set_mode(second).mode() == second,
{
}

/// A round goes through its phases in their order: betting before running, and
/// running before the settlement, as the ledger goes on. Each phase starts at
/// its ledger.
pub proof fn law_phases_follow_the_ledger(round: Round, sequence: u32, later: u32)
    requires
        sequence <= later,
    ensures
        round_phase(later, round) == RoundPhase::Betting ==> round_phase(sequence, round)
            == RoundPhase::Betting,
        round_phase(sequence, round) == RoundPhase::Resolvable ==> round_phase(later, round)
            == RoundPhase::Resolvable,
        round_phase(sequence, round) == RoundPhase::Betting <==> sequence < round.bet_end_ledger,
        round.bet_end_ledger <= round.end_ledger ==> (round_phase(sequence, round)
            == RoundPhase::Resolvable <==> sequence >= round.end_ledger),
{
}

/// The status of the active round is the phase that the ledger has it in, and
/// the market is active as long as it is not paused.
pub proof fn law_active_round_is_known(m: MarketView, sequence: u32)
    requires
        m.cells.active_round is Some,
    ensures
        ({
            let round = m.cells.active_round->0;
            m.round_status(sequence, round.round_id) == (match round_phase(sequence, round) {
                RoundPhase::Betting => RoundStatus::Betting,
                RoundPhase::Running => RoundStatus::Running,
                RoundPhase::Resolvable => RoundStatus::AwaitingResolve,
            })
        }),
        !m.is_paused() ==> m.protocol_status() == ProtocolStatus::Active,
{
}

/// A round that is neither active nor in the archive, and that was not
/// cancelled, is not known.
pub proof fn law_unknown_rounds(m: MarketView, sequence: u32, round_id: u64)
    ensures
        m.round_status(sequence, round_id) == RoundStatus::Unknown <==> {
            &&& m.cells.active_round matches Some(round) ==> round.round_id != round_id
            &&& !m.archived.dom().contains(round_id)
            &&& !m.round_cancelled(round_id)
        },
{
}

/// No user's present streak is longer than the best one.
pub open spec fn streaks_hold(m: MarketView) -> bool {
    forall|user: Address|
        (#[trigger] m.stats_of(user)).current_streak <= m.stats_of(user).best_streak
}

/// A win makes the streak longer by one, a loss ends it; the best streak never
/// gets shorter, and each is counted once.
pub proof fn law_streaks(m: MarketView, user: Address)
    requires
        m.stats_of(user).current_streak <= m.stats_of(user).best_streak,
    ensures
        ({
            let before = m.stats_of(user);
            let won = m.update_stats_win(user);
            let lost = m.update_stats_loss(user);
            &&& won.1 is Ok ==> {
                let after = won.0.stats_of(user);
                &&& after.total_wins == before.total_wins + 1
                &&& after.total_losses == before.total_losses
                &&& after.current_streak == before.current_streak + 1
                &&& before.best_streak <= after.best_streak
                &&& after.current_streak <= after.best_streak
            }
            &&& lost.1 is Ok ==> {
                let after = lost.0.stats_of(user);
                &&& after.total_wins == before.total_wins
                &&& after.total_losses == before.total_losses + 1
                &&& after.current_streak == 0
                &&& after.best_streak == before.best_streak
            }
        }),
{
}

/// No operation makes a present streak longer than the best one.
pub proof fn law_streaks_hold(
    m: MarketView,
    ctx: &LedgerContext,
    payload: OraclePayload,
    reason: u32,
    user: Address,
)
    requires
        streaks_hold(m),
    ensures
        streaks_hold(m.resolve_round(ctx, payload).0),
        streaks_hold(m.cancel_round(ctx.sequence, reason).0),
        streaks_hold(m.claim_winnings(user).0),
{
    let property = |s: MarketView| streaks_hold(s);
    assert(about_records(property)) by {
        assert forall|a: MarketView, b: MarketView|
            #![trigger property(a), property(b)]
            a.stats == b.stats && a.outcomes == b.outcomes && property(a) implies property(b) by {
            lemma_same_streaks(a, b);
        }
    }
    assert(kept_by_payments(property)) by {
        assert forall|s: MarketView, id: u64, record: UserRoundOutcome|
            property(s) implies property((#[trigger] s.record_refund(id, record)).0) by {
            lemma_same_streaks(s, s.record_refund(id, record).0);
        }
        assert forall|s: MarketView, id: u64, record: UserRoundOutcome|
            property(s) implies property((#[trigger] s.record_win(id, record)).0) by {
            lemma_win_keeps_streaks(s, id, record);
        }
        assert forall|s: MarketView, id: u64, record: UserRoundOutcome, side: u32|
            property(s) implies property((#[trigger] s.record_loss(id, record, side)).0) by {
            lemma_loss_keeps_streaks(s, id, record, side);
        }
        assert forall|s: MarketView, id: u64, winning: i128, losing: i128|
            property(s) implies property((#[trigger] s.split_fee_updown(id, winning, losing)).0) by {
            lemma_same_streaks(s, s.split_fee_updown(id, winning, losing).0);
        }
        assert forall|s: MarketView, id: u64, pot: i128| property(s) implies property(
            (#[trigger] s.split_fee_precision(id, pot)).0,
        ) by {
            lemma_same_streaks(s, s.split_fee_precision(id, pot).0);
        }
    }
    assert(property(m));
    lemma_resolve_keeps_records(m, ctx, payload, property);
    lemma_cancel_keeps_stats(m, ctx.sequence, reason);
    lemma_same_streaks(m, m.cancel_round(ctx.sequence, reason).0);
    lemma_same_streaks(m, m.claim_winnings(user).0);
}

/// Where the records are the same, so are the streaks.
proof fn lemma_same_streaks(a: MarketView, b: MarketView)
    requires
        a.stats == b.stats,
        streaks_hold(a),
    ensures
        streaks_hold(b),
{
    assert forall|user: Address|
        (#[trigger] b.stats_of(user)).current_streak <= b.stats_of(user).best_streak by {
        assert(b.stats_of(user) == a.stats_of(user));
    }
}

/// The record of a win keeps the streaks in order.
proof fn lemma_win_keeps_streaks(m: MarketView, id: u64, record: UserRoundOutcome)
    requires
        streaks_hold(m),
    ensures
        streaks_hold(m.record_win(id, record).0),
{
    let after = m.record_win(id, record).0;
    assert forall|u: Address|
        (#[trigger] after.stats_of(u)).current_streak <= after.stats_of(u).best_streak by {
        assert(m.stats_of(u).current_streak <= m.stats_of(u).best_streak);
    }
}

/// The record of a loss keeps the streaks in order.
proof fn lemma_loss_keeps_streaks(m: MarketView, id: u64, record: UserRoundOutcome, side: u32)
    requires
        streaks_hold(m),
    ensures
        streaks_hold(m.record_loss(id, record, side).0),
{
    let after = m.record_loss(id, record, side).0;
    assert forall|u: Address|
        (#[trigger] after.stats_of(u)).current_streak <= after.stats_of(u).best_streak by {
        assert(m.stats_of(u).current_streak <= m.stats_of(u).best_streak);
    }
}

/// A cancelled round counts neither as won nor as lost.
pub proof fn lemma_cancel_keeps_stats(m: MarketView, sequence: u32, reason: u32)
    ensures
        m.cancel_round(sequence, reason).0.stats == m.stats,
        m.outcomes.submap_of(m.cancel_round(sequence, reason).0.outcomes),
{
    if let Some(round) = m.cells.active_round {
        let id = round.round_id;
        let read = m.require_supported_schema().0;
        let users = m.participants_of(id);
        let property = |s: MarketView|
            s.stats == m.stats && m.outcomes.submap_of(s.outcomes);
        assert forall|s: MarketView, user: Address| property(s) implies property(
            (#[trigger] cancel_position_step(id)(s, user)).0,
        ) by {
            lemma_persist_keeps(m.outcomes);
        }
        assert forall|s: MarketView, user: Address| property(s) implies property(
            (#[trigger] cancel_stake_step(id)(s, user)).0,
        ) by {
            lemma_persist_keeps(m.outcomes);
        }
        assert forall|s: MarketView, made: PrecisionPrediction| property(s) implies property(
            (#[trigger] cancel_prediction_step(id)(s, made)).0,
        ) by {
            lemma_persist_keeps(m.outcomes);
        }
        assert forall|s: MarketView, at: u64, record: UserRoundOutcome| property(s) implies property(
            (#[trigger] s.record_refund(at, record)).0,
        ) by {
            lemma_persist_keeps(m.outcomes);
        }
        lemma_cancel_keeps(read, round, users, property);
        let refunded = read.cancel_stakes(round, users);
        assert(property(refunded.0));
        lemma_archive_keeps(
            refunded.0,
            sequence,
            round,
            RoundArchiveStatus::Cancelled,
            0,
            users.len() as u32,
            0,
        );
    }
}

/// A record is only ever added where there is none.
proof fn lemma_persist_keeps(outcomes: Map<(u64, Address), UserRoundOutcome>)
    ensures
        forall|m: MarketView, id: u64, record: UserRoundOutcome|
            outcomes.submap_of(m.outcomes) ==> outcomes.submap_of(
                (#[trigger] m.persist_outcome(id, record)).outcomes,
            ),
{
    assert forall|m: MarketView, id: u64, record: UserRoundOutcome|
        outcomes.submap_of(m.outcomes) implies outcomes.submap_of(
        (#[trigger] m.persist_outcome(id, record)).outcomes,
    ) by {
        lemma_one_persisted(outcomes, m, id, record);
    }
}

/// A record that is added leaves the others as they are.
proof fn lemma_one_persisted(
    outcomes: Map<(u64, Address), UserRoundOutcome>,
    m: MarketView,
    id: u64,
    record: UserRoundOutcome,
)
    requires
        outcomes.submap_of(m.outcomes),
    ensures
        outcomes.submap_of(m.persist_outcome(id, record).outcomes),
{
    let before = m.outcomes;
    let after = m.persist_outcome(id, record).outcomes;
    assert forall|key: (u64, Address)| outcomes.dom().contains(key) implies
        #[trigger] after.dom().contains(key) && outcomes[key] == after[key] by {
        assert(before.dom().contains(key));
    }
}

/// What is recorded of a user's part in a round stands: no operation changes
/// it or takes it away.
pub proof fn law_outcomes_stand(
    m: MarketView,
    ctx: &LedgerContext,
    payload: OraclePayload,
    reason: u32,
    user: Address,
)
    ensures
        m.outcomes.submap_of(m.resolve_round(ctx, payload).0.outcomes),
        m.outcomes.submap_of(m.cancel_round(ctx.sequence, reason).0.outcomes),
        m.outcomes.submap_of(m.claim_winnings(user).0.outcomes),
{
    let property = |s: MarketView| m.outcomes.submap_of(s.outcomes);
    lemma_persist_keeps(m.outcomes);
    assert(kept_by_payments(property));
    lemma_resolve_keeps_records(m, ctx, payload, property);
    lemma_cancel_keeps_stats(m, ctx.sequence, reason);
}

/// The fee on two pools comes out of them: what is left of both and the fee
/// are what was there, always, and the treasury gets exactly the fee. The
/// losing pool pays as far as it reaches.
pub proof fn law_updown_fee_is_conserved(m: MarketView, round_id: u64, winning: i128, losing: i128)
    requires
        m.split_fee_updown(round_id, winning, losing).1 is Ok,
    ensures
        ({
            let after = m.split_fee_updown(round_id, winning, losing).0;
            let split = m.split_fee_updown(round_id, winning, losing).1->Ok_0;
            &&& split.0 + split.1 + split.2 == winning + losing
            &&& winning >= 0 && losing >= 0 ==> {
                &&& after.treasury() == m.treasury() + split.2
                &&& split.2 >= 0
                &&& split.2 <= losing ==> split.0 == winning && split.1 == losing - split.2
                &&& split.2 > losing ==> split.1 == 0
            }
        }),
{
    if let Some(bps) = m.cells.protocol_fee_bps {
        if winning >= 0 && losing >= 0 {
            lemma_fee_bounds(winning + losing, bps as int);
        }
    }
}

/// The fee on a pot comes out of it: what is left and the fee are what was
/// there, and the treasury gets exactly the fee.
pub proof fn law_precision_fee_is_conserved(m: MarketView, round_id: u64, pot: i128)
    requires
        m.split_fee_precision(round_id, pot).1 is Ok,
    ensures
        ({
            let after = m.split_fee_precision(round_id, pot).0;
            let split = m.split_fee_precision(round_id, pot).1->Ok_0;
            &&& split.0 + split.1 == pot
            &&& after.treasury() == m.treasury() + split.1
            &&& split.1 >= 0
        }),
{
    if let Some(bps) = m.cells.protocol_fee_bps {
        if pot > 0 {
            lemma_fee_bounds(pot as int, bps as int);
        }
    }
}

/// Where there is no fee, the pools and the whole state stay what they are.
pub proof fn law_no_fee_changes_nothing(
    m: MarketView,
    round_id: u64,
    winning: i128,
    losing: i128,
    pot: i128,
)
    requires
        m.cells.protocol_fee_bps is None,
    ensures
        m.split_fee_updown(round_id, winning, losing) == (
            m,
            Ok::<(i128, i128, i128), ContractError>((winning, losing, 0i128)),
        ),
        m.split_fee_precision(round_id, pot) == (
            m,
            Ok::<(i128, i128), ContractError>((pot, 0i128)),
        ),
{
}

/// A fee that can be configured never takes more than a tenth of a pot.
pub proof fn law_fee_is_capped(pot: int, bps: u32)
    requires
        pot >= 0,
        1 <= bps <= MAX_PROTOCOL_FEE_BPS,
    ensures
        0 <= fee_of(pot, bps as int),
        10 * fee_of(pot, bps as int) <= pot,
{
    lemma_fee_bounds(pot, bps as int);
    assert(pot * bps <= pot * 1_000) by (nonlinear_arith)
        requires
            pot >= 0,
            bps <= 1_000,
    ;
}

/// An amount that is added to pending winnings is added whole or not at all,
/// and the sum never passes the cap.
pub proof fn law_pending_is_added_whole_or_not_at_all(m: MarketView, user: Address, amount: i128)
    ensures
        ({
            let step = m.accumulate_pending(user, amount);
            &&& step.1 is Ok ==> step.0.pending_of(user) == m.pending_of(user) + amount
            &&& step.1 is Ok ==> (m.cells.max_pending_winnings matches Some(cap)
                ==> step.0.pending_of(user) <= cap)
            &&& step.1 is Err ==> step.0 == m
            &&& step.1 is Err <==> {
                ||| !fits_i128(m.pending_of(user) + amount)
                ||| (m.cells.max_pending_winnings matches Some(cap) && m.pending_of(user) + amount
                    > cap)
            }
        }),
{
}

/// The rotation of the oracle takes two steps. A proposal alone does not
/// change the oracle; accepted in its time, it does, and no proposal is left.
pub proof fn law_rotation_takes_two_steps(
    m: MarketView,
    now: u64,
    new_oracle: Address,
    expires_in: u64,
    later: u64,
)
    requires
        m.propose_rotation(now, new_oracle, expires_in).1 is Ok,
        m.cells.oracle is Some,
    ensures
        expires_in >= MIN_ROTATION_EXPIRY_SECONDS,
        ({
            let proposed = m.propose_rotation(now, new_oracle, expires_in).0;
            let accepted = proposed.accept_rotation(later);
            &&& proposed.cells.oracle == m.cells.oracle
            &&& proposed.standing_rotation(later) is Some <==> later <= now + expires_in
            &&& later <= now + expires_in ==> {
                &&& accepted.1 is Ok
                &&& accepted.0.cells.oracle == Some(new_oracle)
                &&& accepted.0.cells.rotation is None
            }
            &&& later > now + expires_in ==> {
                &&& accepted.1 == Err::<(), ContractError>(ContractError::RotationExpired)
                &&& accepted.0.cells.oracle == m.cells.oracle
                &&& accepted.0.cells.rotation is None
            }
        }),
{
}

/// A proposal that was withdrawn, or whose time has run out, never changes the
/// oracle: there is nothing left to accept.
pub proof fn law_withdrawn_rotation_is_over(m: MarketView, now: u64, later: u64)
    requires
        m.cancel_rotation().1 is Ok,
    ensures
        m.cancel_rotation().0.cells.oracle == m.cells.oracle,
        m.cancel_rotation().0.standing_rotation(now) is None,
        m.cancel_rotation().0.accept_rotation(later).1 == Err::<(), ContractError>(
            ContractError::NoPendingRotation,
        ),
        m.look_at_rotation(now).cells.oracle == m.cells.oracle,
        m.look_at_rotation(now).cells.rotation == m.standing_rotation(now),
{
}

/// Every operation keeps the state of the market in order, refused or not.
pub proof fn law_states_stay_in_order(
    m: MarketView,
    ctx: &LedgerContext,
    payload: OraclePayload,
    reason: u32,
    address: Address,
    expires_in: u64,
    mode: RuntimeMode,
)
    requires
        m.wf(),
    ensures
        m.resolve_round(ctx, payload).0.wf(),
        m.cancel_round(ctx.sequence, reason).0.wf(),
        m.claim_winnings(address).0.wf(),
        m.propose_rotation(ctx.timestamp, address, expires_in).0.wf(),
        m.accept_rotation(ctx.timestamp).0.wf(),
        m.cancel_rotation().0.wf(),
        m.look_at_rotation(ctx.timestamp).wf(),
        m.set_mode(mode).wf(),
{
    lemma_resolve_keeps_order(m, ctx, payload);
    lemma_cancel_keeps_order(m, ctx.sequence, reason);
    lemma_small_steps_keep_order(m, ctx.timestamp, address, expires_in, mode);
}

/// The settlement by a report keeps the state of the market in order.
proof fn lemma_resolve_keeps_order(m: MarketView, ctx: &LedgerContext, payload: OraclePayload)
    requires
        m.wf(),
    ensures
        m.resolve_round(ctx, payload).0.wf(),
{
    let checked = m.check_report(ctx, payload);
    lemma_report_only_checked(m, ctx, payload);
    if let Ok(round) = checked.1 {
        lemma_settle_keeps_order(checked.0, ctx.sequence, round, payload);
    }
}

/// The cancellation of a round keeps the state of the market in order.
proof fn lemma_cancel_keeps_order(m: MarketView, sequence: u32, reason: u32)
    requires
        m.wf(),
    ensures
        m.cancel_round(sequence, reason).0.wf(),
{
    if let Some(round) = m.cells.active_round {
        let read = m.require_supported_schema().0;
        let users = m.participants_of(round.round_id);
        lemma_cancel_only_pays_out(read, round, users);
        let refunded = read.cancel_stakes(round, users);
        lemma_archive_keeps(
            refunded.0,
            sequence,
            round,
            RoundArchiveStatus::Cancelled,
            0,
            users.len() as u32,
            0,
        );
    }
}

/// Claims, rotations and modes keep the state of the market in order.
proof fn lemma_small_steps_keep_order(
    m: MarketView,
    now: u64,
    address: Address,
    expires_in: u64,
    mode: RuntimeMode,
)
    requires
        m.wf(),
    ensures
        m.claim_winnings(address).0.wf(),
        m.propose_rotation(now, address, expires_in).0.wf(),
        m.accept_rotation(now).0.wf(),
        m.cancel_rotation().0.wf(),
        m.look_at_rotation(now).wf(),
        m.set_mode(mode).wf(),
{
}

/// The settlement of a round keeps the state of the market in order.
proof fn lemma_settle_keeps_order(
    m: MarketView,
    sequence: u32,
    round: Round,
    payload: OraclePayload,
)
    requires
        m.wf(),
    ensures
        m.settle_round(sequence, round, payload).0.wf(),
{
    let users = m.participants_of(round.round_id);
    let count = users.len() as u32;
    let stored = m.archive(
        sequence,
        round,
        RoundArchiveStatus::FallbackRefund,
        payload.price,
        count,
        0,
    );
    lemma_archive_keeps(
        m,
        sequence,
        round,
        RoundArchiveStatus::FallbackRefund,
        payload.price,
        count,
        0,
    );
    lemma_refunds_only_pay(stored, round, users);
    let paid = m.pay_by_mode(round, payload.price);
    lemma_mode_only_pays(m, round, payload.price);
    if let Ok(fee) = paid.1 {
        lemma_archive_keeps(
            paid.0,
            sequence,
            round,
            RoundArchiveStatus::Resolved,
            payload.price,
            count,
            fee,
        );
    }
}

/// The winners of a round on the price are exactly the predictions that no
/// other is closer than, and there is one wherever a prediction was revealed.
pub proof fn law_winners_are_the_closest(
    predictions: Seq<Option<PrecisionPrediction>>,
    price: u128,
    prediction: PrecisionPrediction,
)
    ensures
        closest(predictions, price).contains(prediction) <==> exists|i: int|
            0 <= i < predictions.len() && #[trigger] is_closest(predictions, price, i)
                && predictions[i] == Some(prediction),
        closest(predictions, price).len() == 0 <==> forall|i: int|
            0 <= i < predictions.len() ==> (#[trigger] predictions[i]) is None,
{
    lemma_closest_members(predictions, price, predictions.len(), prediction);
    if exists|i: int| 0 <= i < predictions.len() && (#[trigger] predictions[i]) is Some {
        lemma_some_closest(predictions, price);
    } else {
        assert forall|i: int| 0 <= i < predictions.len() implies !#[trigger] is_closest(
            predictions,
            price,
            i,
        ) by {
            assert(predictions[i] is None);
        }
        lemma_closest_none(predictions, price, predictions.len());
    }
}

/// The closest predictions among the first places.
proof fn lemma_closest_members(
    predictions: Seq<Option<PrecisionPrediction>>,
    price: u128,
    places: nat,
    prediction: PrecisionPrediction,
)
    requires
        places <= predictions.len(),
    ensures
        closest_among(predictions, price, places).contains(prediction) <==> exists|i: int|
            0 <= i < places && #[trigger] is_closest(predictions, price, i) && predictions[i]
                == Some(prediction),
    decreases places,
{
    if places > 0 {
        let before = closest_among(predictions, price, (places - 1) as nat);
        let after = closest_among(predictions, price, places);
        lemma_closest_members(predictions, price, (places - 1) as nat, prediction);
        if is_closest(predictions, price, places - 1) {
            if before.contains(prediction) {
                let at = choose|at: int| 0 <= at < before.len() && before[at] == prediction;
                assert(after[at] == prediction);
            }
            assert(after[before.len() as int] == predictions[places - 1]->0);
            if after.contains(prediction) && !before.contains(prediction) {
                let at = choose|at: int| 0 <= at < after.len() && after[at] == prediction;
                if at < before.len() {
                    assert(before[at] == prediction);
                }
            }
        }
    }
}

} // verus!
