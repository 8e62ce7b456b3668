//! When a settlement or a cancellation is owed: nothing refuses it but an
//! amount that cannot be added or a count that is full.

use vstd::prelude::*;
use crate::accounts::{
    concerns_only, lemma_left_is_distributed, lemma_position_settled, lemma_records_made,
    lemma_steps_are_taken, same_account,
};
use crate::conservation::lemma_sum_not_negative;
use crate::contract::quotient;
use crate::frame::{lemma_archive_keeps, lemma_report_only_checked, only_checked};
use crate::laws::{law_winners_are_the_closest, lemma_same_books};
use crate::market::LedgerContext;
use crate::model::{for_each, keys_ascend, MarketView};
use crate::nearest::{
    lemma_nearest_are_closest, lemma_nearest_older_are_closest, lemma_nearest_older_place,
    lemma_nearest_place, lemma_sorted_ascends, lemma_winners_paid, lemma_winners_ranked,
    part_of_pool,
};
use crate::payments::{
    lemma_quotient_fits, lemma_sorted_keeps, lemma_sum_permuted, lemma_sum_same, sum,
};
use crate::precision::{all_made, lemma_share_fits, lemma_some_closest};
use crate::readings::{law_fee_on_a_pot, law_fee_on_two_pools, law_quotients_round_towards_zero};
use crate::refunds::{
    is_draw, lemma_older_are_different, lemma_refund_steps, lemma_stake_steps, stake_told,
};
use crate::rules::{
    cancel_position_step, cancel_prediction_step, cancel_stake_step, closest, give_back_step,
    is_closest, lose_legacy_step, lose_step, pay_step, position_record, refund_entry_step,
    refund_prediction_step, refund_stake_step, refund_step, running_total, settle_entry_step,
    settle_position, settle_step, share, shares, sorted_addresses,
};
use crate::shares::{lemma_sorted_once, lemma_winners_are_different};
use crate::types::{
    Address, BetSide, OraclePayload, PrecisionEntry, PrecisionPrediction, Round, RoundArchiveStatus,
    RoundMode, UserOutcomeType, UserPosition, UserRoundOutcome,
};

verus! {

impl MarketView {
    /// An amount can be added to what a user has pending: the sum is a number
    /// of its type, and not above the cap.
    pub open spec fn can_take(self, user: Address, amount: int) -> bool {
        let sum = amount + (match self.pending.get(user) {
            Some(pending) => pending as int,
            None => 0,
        });
        &&& -0x8000_0000_0000_0000_0000_0000_0000_0000 <= sum
            <= 0x7fff_ffff_ffff_ffff_ffff_ffff_ffff_ffff
        &&& self.cells.max_pending_winnings matches Some(cap) ==> sum <= cap
    }

    /// One more win of a user can be counted.
    pub open spec fn can_win(self, user: Address) -> bool {
        self.stats.get(user) matches Some(stats) ==> stats.total_wins < 0xffff_ffff
            && stats.current_streak < 0xffff_ffff
    }

    /// One more loss of a user can be counted.
    pub open spec fn can_lose(self, user: Address) -> bool {
        self.stats.get(user) matches Some(stats) ==> stats.total_losses < 0xffff_ffff
    }

    /// The position of a user in a round, if there is one, can go back.
    pub open spec fn can_take_position(self, id: u64, user: Address) -> bool {
        self.positions.get((id, user)) matches Some(position) ==> self.can_take(
            user,
            position.amount as int,
        )
    }

    /// The stake of a user on the price, where it is positive, can go back.
    pub open spec fn can_take_stake(self, id: u64, user: Address) -> bool {
        self.precision_stake(id, user) > 0 ==> self.can_take(
            user,
            self.precision_stake(id, user) as int,
        )
    }

    /// All that was staked in a round can go back.
    pub open spec fn can_give_back(self, round: Round) -> bool {
        let id = round.round_id;
        let users = self.participants_of(id);
        match (round.mode, users.len() == 0) {
            (RoundMode::UpDown, false) => forall|user: Address| #[trigger]
                users.contains(user) ==> self.can_take_position(id, user),
            (RoundMode::Precision, false) => forall|user: Address| #[trigger]
                users.contains(user) ==> self.can_take_stake(id, user),
            (RoundMode::UpDown, true) => forall|i: int|
                0 <= i < self.older_positions().len() ==> self.can_take(
                    (#[trigger] self.older_positions()[i]).0,
                    self.older_positions()[i].1.amount as int,
                ),
            (RoundMode::Precision, true) => forall|i: int|
                0 <= i < self.older_predictions().len() && (
                #[trigger] self.older_predictions()[i]).amount > 0 ==> self.can_take(
                    self.older_predictions()[i].user,
                    self.older_predictions()[i].amount as int,
                ),
        }
    }
}

/// A record is made where the amount can be taken and the count is not full.
pub proof fn lemma_record_granted(m: MarketView, id: u64, record: UserRoundOutcome, side: u32)
    ensures
        m.can_take(record.user, record.payout as int) ==> {
            &&& m.record_refund(id, record).1 is Ok
            &&& m.accumulate_pending(record.user, record.payout).1 is Ok
            &&& m.can_win(record.user) ==> m.record_win(id, record).1 is Ok
        },
        m.can_lose(record.user) ==> m.record_loss(id, record, side).1 is Ok,
        m.record_refund(id, record).0.cells == m.cells,
        m.record_win(id, record).0.cells == m.cells,
        m.record_loss(id, record, side).0.cells == m.cells,
{
}

/// What can be added to an account can be added to the same account.
pub proof fn lemma_same_grants(a: MarketView, b: MarketView, id: u64, user: Address, amount: int)
    requires
        same_account(a, b, user),
        a.cells.max_pending_winnings == b.cells.max_pending_winnings,
    ensures
        a.can_take(user, amount) == b.can_take(user, amount),
        a.can_win(user) == b.can_win(user),
        a.can_lose(user) == b.can_lose(user),
        a.positions.get((id, user)) == b.positions.get((id, user)),
        a.precision_stake(id, user) == b.precision_stake(id, user),
        a.can_take_position(id, user) == b.can_take_position(id, user),
        a.can_take_stake(id, user) == b.can_take_stake(id, user),
{
    assert(a.predictions.get((id, user)) == b.predictions.get((id, user)));
    assert(a.commitments.get((id, user)) == b.commitments.get((id, user)));
    assert(a.positions.get((id, user)) == b.positions.get((id, user)));
    if let Some(position) = a.positions.get((id, user)) {
        let amount = position.amount as int;
        assert(a.can_take(user, amount) == b.can_take(user, amount));
    }
    let stake = a.precision_stake(id, user) as int;
    assert(a.can_take(user, stake) == b.can_take(user, stake));
}

/// Listed positions that can go back do.
pub proof fn lemma_positions_granted(m: MarketView, id: u64, users: Seq<Address>)
    requires
        users.no_duplicates(),
        forall|i: int| 0 <= i < users.len() ==> m.can_take_position(id, #[trigger] users[i]),
    ensures
        for_each(m, users, refund_step(id, 0)).1 is Ok,
        for_each(m, users, cancel_position_step(id)).1 is Ok,
{
    let who = |user: Address| user;
    let steady = |s: MarketView| s.cells == m.cells;
    let refund = refund_step(id, 0);
    let cancel = cancel_position_step(id);
    assert forall|s: MarketView, user: Address| steady(s) implies steady(
        (#[trigger] refund(s, user)).0,
    ) && concerns_only(s, refund(s, user).0, who(user)) by {
        lemma_refund_steps(s, id, user);
    }
    assert forall|s: MarketView, user: Address| steady(s) implies steady(
        (#[trigger] cancel(s, user)).0,
    ) && concerns_only(s, cancel(s, user).0, who(user)) by {
        lemma_refund_steps(s, id, user);
    }
    assert forall|s: MarketView, i: int|
        0 <= i < users.len() && steady(s) && same_account(m, s, who(users[i])) implies (
    #[trigger] refund(s, users[i])).1 is Ok by {
        lemma_same_grants(m, s, id, users[i], 0);
    }
    assert forall|s: MarketView, i: int|
        0 <= i < users.len() && steady(s) && same_account(m, s, who(users[i])) implies (
    #[trigger] cancel(s, users[i])).1 is Ok by {
        lemma_same_grants(m, s, id, users[i], 0);
    }
    lemma_steps_are_taken(m, users, refund, who, steady);
    lemma_steps_are_taken(m, users, cancel, who, steady);
}

/// Listed stakes on a price that can go back do.
pub proof fn lemma_stakes_granted(m: MarketView, id: u64, users: Seq<Address>)
    requires
        users.no_duplicates(),
        forall|i: int| 0 <= i < users.len() ==> m.can_take_stake(id, #[trigger] users[i]),
    ensures
        for_each(m, users, refund_stake_step(id)).1 is Ok,
        for_each(m, users, cancel_stake_step(id)).1 is Ok,
{
    let who = |user: Address| user;
    let steady = |s: MarketView| s.cells == m.cells;
    let refund = refund_stake_step(id);
    let cancel = cancel_stake_step(id);
    assert forall|s: MarketView, user: Address| steady(s) implies steady(
        (#[trigger] refund(s, user)).0,
    ) && concerns_only(s, refund(s, user).0, who(user)) by {
        lemma_refund_steps(s, id, user);
    }
    assert forall|s: MarketView, user: Address| steady(s) implies steady(
        (#[trigger] cancel(s, user)).0,
    ) && concerns_only(s, cancel(s, user).0, who(user)) by {
        lemma_refund_steps(s, id, user);
    }
    assert forall|s: MarketView, i: int|
        0 <= i < users.len() && steady(s) && same_account(m, s, who(users[i])) implies (
    #[trigger] refund(s, users[i])).1 is Ok by {
        lemma_same_grants(m, s, id, users[i], 0);
    }
    assert forall|s: MarketView, i: int|
        0 <= i < users.len() && steady(s) && same_account(m, s, who(users[i])) implies (
    #[trigger] cancel(s, users[i])).1 is Ok by {
        lemma_same_grants(m, s, id, users[i], 0);
    }
    lemma_steps_are_taken(m, users, refund, who, steady);
    lemma_steps_are_taken(m, users, cancel, who, steady);
}

/// Positions of the older list that can go back do.
pub proof fn lemma_entries_granted(
    m: MarketView,
    id: u64,
    entries: Seq<(Address, UserPosition)>,
    outcome: UserOutcomeType,
)
    requires
        keys_ascend(entries),
        forall|i: int|
            0 <= i < entries.len() ==> m.can_take(
                (#[trigger] entries[i]).0,
                entries[i].1.amount as int,
            ),
    ensures
        for_each(m, entries, refund_entry_step(id, outcome)).1 is Ok,
{
    let who = |entry: (Address, UserPosition)| entry.0;
    let steady = |s: MarketView| s.cells == m.cells;
    let step = refund_entry_step(id, outcome);
    assert forall|s: MarketView, entry: (Address, UserPosition)| steady(s) implies steady(
        (#[trigger] step(s, entry)).0,
    ) && concerns_only(s, step(s, entry).0, who(entry)) by {
        let record = position_record(
            entry.0,
            0,
            entry.1,
            entry.1.amount,
            outcome,
        );
        lemma_records_made(s, id, record, 0);
    }
    assert forall|s: MarketView, i: int|
        0 <= i < entries.len() && steady(s) && same_account(m, s, who(entries[i])) implies (
    #[trigger] step(s, entries[i])).1 is Ok by {
        let entry = entries[i];
        lemma_same_grants(m, s, id, entry.0, entry.1.amount as int);
    }
    assert forall|i: int, j: int| 0 <= i < j < entries.len() implies who(#[trigger] entries[i])
        != who(#[trigger] entries[j]) by {}
    lemma_steps_are_taken(m, entries, step, who, steady);
}

/// Predictions of the older list that can go back do.
pub proof fn lemma_predictions_granted(m: MarketView, id: u64, list: Seq<PrecisionPrediction>)
    requires
        forall|i: int, j: int|
            0 <= i < j < list.len() ==> (#[trigger] list[i]).user != (#[trigger] list[j]).user,
        forall|i: int|
            0 <= i < list.len() && (#[trigger] list[i]).amount > 0 ==> m.can_take(
                list[i].user,
                list[i].amount as int,
            ),
    ensures
        for_each(m, list, refund_prediction_step(id)).1 is Ok,
        for_each(m, list, cancel_prediction_step(id)).1 is Ok,
{
    let who = |made: PrecisionPrediction| made.user;
    let steady = |s: MarketView| s.cells == m.cells;
    let refund = refund_prediction_step(id);
    let cancel = cancel_prediction_step(id);
    assert forall|s: MarketView, made: PrecisionPrediction| steady(s) implies steady(
        (#[trigger] refund(s, made)).0,
    ) && concerns_only(s, refund(s, made).0, who(made)) by {
        lemma_stake_steps(s, id, made.user, made.amount);
    }
    assert forall|s: MarketView, made: PrecisionPrediction| steady(s) implies steady(
        (#[trigger] cancel(s, made)).0,
    ) && concerns_only(s, cancel(s, made).0, who(made)) by {
        lemma_stake_steps(s, id, made.user, made.amount);
    }
    assert forall|s: MarketView, i: int|
        0 <= i < list.len() && steady(s) && same_account(m, s, who(list[i])) implies (
    #[trigger] refund(s, list[i])).1 is Ok by {
        lemma_same_grants(m, s, id, list[i].user, list[i].amount as int);
    }
    assert forall|s: MarketView, i: int|
        0 <= i < list.len() && steady(s) && same_account(m, s, who(list[i])) implies (
    #[trigger] cancel(s, list[i])).1 is Ok by {
        lemma_same_grants(m, s, id, list[i].user, list[i].amount as int);
    }
    assert forall|i: int, j: int| 0 <= i < j < list.len() implies who(#[trigger] list[i]) != who(
        #[trigger] list[j],
    ) by {}
    lemma_steps_are_taken(m, list, refund, who, steady);
    lemma_steps_are_taken(m, list, cancel, who, steady);
}

/// All stakes that can go back do, as refunds and as cancellations.
proof fn lemma_all_granted(m: MarketView, round: Round)
    requires
        m.lists_are_plain(round),
        m.can_give_back(round),
    ensures
        m.refund_stakes(round, m.participants_of(round.round_id)).1 is Ok,
        m.cancel_stakes(round, m.participants_of(round.round_id)).1 is Ok,
{
    let id = round.round_id;
    let users = m.participants_of(id);
    if users.len() > 0 {
        assert forall|i: int| 0 <= i < users.len() implies users.contains(#[trigger] users[i]) by {}
        match round.mode {
            RoundMode::UpDown => {
                lemma_positions_granted(m, id, users);
            },
            RoundMode::Precision => {
                lemma_stakes_granted(m, id, users);
            },
        }
    } else {
        match round.mode {
            RoundMode::UpDown => {
                let entries = m.older_positions();
                lemma_entries_granted(m, id, entries, UserOutcomeType::Refund);
                lemma_entries_granted(m, id, entries, UserOutcomeType::Cancel);
            },
            RoundMode::Precision => {
                lemma_older_are_different(m);
                lemma_predictions_granted(m, id, m.older_predictions());
            },
        }
    }
}

/// What can go back in one state can in another one with the same accounts and
/// lists.
proof fn lemma_give_back_carried(a: MarketView, b: MarketView, round: Round)
    requires
        a.pending == b.pending,
        a.positions == b.positions,
        a.predictions == b.predictions,
        a.commitments == b.commitments,
        a.participants == b.participants,
        a.updown_legacy == b.updown_legacy,
        a.precision_legacy == b.precision_legacy,
        a.cells.max_pending_winnings == b.cells.max_pending_winnings,
        a.lists_are_plain(round),
        a.can_give_back(round),
    ensures
        b.lists_are_plain(round),
        b.can_give_back(round),
{
    let id = round.round_id;
    let users = a.participants_of(id);
    assert(a.older_positions() == b.older_positions());
    assert(a.older_predictions() =~= b.older_predictions());
    assert forall|user: Address, amount: int| #[trigger] a.can_take(user, amount) == b.can_take(
        user,
        amount,
    ) by {}
    assert forall|user: Address| a.precision_stake(id, user) == #[trigger] b.precision_stake(
        id,
        user,
    ) by {}
    assert forall|user: Address| #[trigger] a.can_take_position(
        id,
        user,
    ) implies b.can_take_position(id, user) by {
        if let Some(position) = a.positions.get((id, user)) {
            assert(a.can_take(user, position.amount as int) == b.can_take(
                user,
                position.amount as int,
            ));
        }
    }
    assert forall|user: Address| #[trigger] a.can_take_stake(
        id,
        user,
    ) implies b.can_take_stake(id, user) by {
        let stake = a.precision_stake(id, user) as int;
        assert(b.precision_stake(id, user) == stake);
        assert(a.can_take(user, stake) == b.can_take(user, stake));
    }
    assert forall|i: int|
        0 <= i < a.older_positions().len() implies b.can_take(
            (#[trigger] b.older_positions()[i]).0,
            b.older_positions()[i].1.amount as int,
        ) || !(round.mode == RoundMode::UpDown && users.len() == 0) by {
        let entry = a.older_positions()[i];
        assert(a.can_take(entry.0, entry.1.amount as int) == b.can_take(
            entry.0,
            entry.1.amount as int,
        ));
    }
    assert forall|i: int|
        0 <= i < a.older_predictions().len() && (
        #[trigger] b.older_predictions()[i]).amount > 0 implies b.can_take(
            b.older_predictions()[i].user,
            b.older_predictions()[i].amount as int,
        ) || !(round.mode == RoundMode::Precision && users.len() == 0) by {
        let made = a.older_predictions()[i];
        assert(a.can_take(made.user, made.amount as int) == b.can_take(
            made.user,
            made.amount as int,
        ));
    }
}

/// A cancellation of an active round by the administrator, on a schema that is
/// known, is owed wherever all stakes can go back.
pub proof fn law_cancellations_are_owed(m: MarketView, sequence: u32, reason: u32)
    requires
        m.schema_is_known(),
        m.cells.admin is Some,
        m.cells.active_round matches Some(round) && m.lists_are_plain(round) && m.can_give_back(
            round,
        ),
    ensures
        m.cancel_round(sequence, reason).1 is Ok,
{
    let round = m.cells.active_round->0;
    let read = m.require_supported_schema().0;
    lemma_give_back_carried(m, read, round);
    lemma_all_granted(read, round);
}

impl MarketView {
    /// The fee on a pot can go into the treasury: all numbers on the way are of
    /// their type.
    pub open spec fn can_collect(self, pot: int) -> bool {
        let treasury = match self.cells.protocol_fee_treasury {
            Some(amount) => amount as int,
            None => 0,
        };
        &&& pot <= 0x7fff_ffff_ffff_ffff_ffff_ffff_ffff_ffff
        &&& self.cells.protocol_fee_bps matches Some(bps) ==> {
            &&& pot * bps <= 0x7fff_ffff_ffff_ffff_ffff_ffff_ffff_ffff
            &&& treasury + (pot * bps) / 10_000 <= 0x7fff_ffff_ffff_ffff_ffff_ffff_ffff_ffff
        }
    }

    /// A position can be settled: on the side that the price went, the part of
    /// what is left can be taken and a win counted, on the other a loss.
    pub open spec fn can_settle(
        self,
        round: Round,
        price: u128,
        user: Address,
        position: UserPosition,
    ) -> bool {
        let up = price > round.price_start;
        let pool = if up {
            round.pool_up
        } else {
            round.pool_down
        };
        let share = position.amount * self.left_of_pools(round);
        if (position.side == BetSide::Up) == up {
            &&& 0 <= share <= 0x7fff_ffff_ffff_ffff_ffff_ffff_ffff_ffff
            &&& self.can_take(user, share / (pool as int))
            &&& self.can_win(user)
        } else {
            self.can_lose(user)
        }
    }

    /// All positions of a decided round can be settled.
    pub open spec fn can_pay_positions(self, round: Round, price: u128) -> bool {
        let id = round.round_id;
        let users = self.participants_of(id);
        let entries = self.older_positions();
        &&& self.can_collect(round.pool_up + round.pool_down)
        &&& users.len() > 0 ==> forall|user: Address| #[trigger]
            users.contains(user) && self.positions.dom().contains((id, user)) ==> self.can_settle(
                round,
                price,
                user,
                self.positions[(id, user)],
            )
        &&& users.len() == 0 ==> forall|i: int|
            0 <= i < entries.len() ==> self.can_settle(
                round,
                price,
                (#[trigger] entries[i]).0,
                entries[i].1,
            )
    }
}

/// The fee on two pools is taken where it can be.
proof fn lemma_fee_granted(m: MarketView, id: u64, winning: i128, losing: i128)
    requires
        winning >= 0,
        losing >= 0,
        m.can_collect(winning + losing),
    ensures
        m.split_fee_updown(id, winning, losing).1 is Ok,
        winning + losing > 0 ==> m.split_fee_precision(id, (winning + losing) as i128).1 is Ok,
{
    let pot = winning + losing;
    if let Some(bps) = m.cells.protocol_fee_bps {
        assert(pot * bps >= 0) by (nonlinear_arith)
            requires
                pot >= 0,
                bps >= 0,
        ;
    }
}

/// A position that can be settled in one state can in another one with the same
/// account, and is.
proof fn lemma_settle_granted(
    m: MarketView,
    s: MarketView,
    round: Round,
    price: u128,
    user: Address,
    position: UserPosition,
)
    requires
        round.pool_up > 0,
        round.pool_down > 0,
        m.can_settle(round, price, user, position),
        same_account(m, s, user),
        s.cells.max_pending_winnings == m.cells.max_pending_winnings,
    ensures
        ({
            let (side, pool) = if price > round.price_start {
                (BetSide::Up, round.pool_up)
            } else {
                (BetSide::Down, round.pool_down)
            };
            let whole = m.left_of_pools(round);
            settle_position(s, round.round_id, user, position, side, pool, whole).1 is Ok
        }),
{
    let (side, pool) = if price > round.price_start {
        (BetSide::Up, round.pool_up)
    } else {
        (BetSide::Down, round.pool_down)
    };
    let whole = m.left_of_pools(round);
    let product = position.amount * whole;
    if position.side == side {
        let payout = quotient(product, pool as int);
        law_quotients_round_towards_zero(product, pool as int);
        lemma_quotient_fits(product, pool as int);
        assert(payout == product / (pool as int));
        lemma_same_grants(m, s, round.round_id, user, payout);
        let record = position_record(user, 0, position, payout as i128, UserOutcomeType::Win);
        lemma_record_granted(s, round.round_id, record, 0);
    } else {
        lemma_same_grants(m, s, round.round_id, user, 0);
        let record = position_record(user, 0, position, 0, UserOutcomeType::Loss);
        lemma_record_granted(s, round.round_id, record, position.side.number());
    }
}

/// A decided round is settled where its positions can be.
proof fn lemma_decided_granted(m: MarketView, round: Round, price: u128)
    requires
        m.is_decided(round, price),
        m.lists_are_plain(round),
        m.can_pay_positions(round, price),
    ensures
        m.resolve_updown(round, price).1 is Ok,
{
    let id = round.round_id;
    let stored = m.participants_of(id);
    let users = sorted_addresses(stored);
    let entries = m.older_positions();
    let (side, winning, losing) = if price > round.price_start {
        (BetSide::Up, round.pool_up, round.pool_down)
    } else {
        (BetSide::Down, round.pool_down, round.pool_up)
    };
    let whole = m.left_of_pools(round);
    lemma_sorted_once(stored);
    lemma_sorted_keeps(stored);
    lemma_fee_granted(m, id, winning, losing);
    law_fee_on_two_pools(m, id, winning, losing);
    lemma_left_is_distributed(m, round, price);
    let start = m.split_fee_updown(id, winning, losing).0;
    if users.len() > 0 {
        let step = settle_step(id, side, winning, whole);
        let who = |user: Address| user;
        let steady = |s: MarketView| s.cells == start.cells;
        assert forall|s: MarketView, user: Address| steady(s) implies steady(
            (#[trigger] step(s, user)).0,
        ) && concerns_only(s, step(s, user).0, who(user)) by {
            if let Some(position) = s.positions.get((id, user)) {
                lemma_position_settled(s, round, price, whole, user, position);
            }
        }
        assert forall|s: MarketView, i: int|
            0 <= i < users.len() && steady(s) && same_account(start, s, who(users[i])) implies (
        #[trigger] step(s, users[i])).1 is Ok by {
            let user = users[i];
            assert(users.contains(user));
            assert(stored.contains(user));
            assert(same_account(m, start, user));
            lemma_same_account(m, start, s, user);
            lemma_same_grants(m, s, id, user, 0);
            if let Some(position) = m.positions.get((id, user)) {
                lemma_settle_granted(m, s, round, price, user, position);
            }
        }
        assert forall|i: int, j: int| 0 <= i < j < users.len() implies who(#[trigger] users[i])
            != who(#[trigger] users[j]) by {}
        lemma_steps_are_taken(start, users, step, who, steady);
    } else if entries.len() > 0 {
        let step = settle_entry_step(id, side, winning, whole);
        let who = |entry: (Address, UserPosition)| entry.0;
        let steady = |s: MarketView| s.cells == start.cells;
        assert forall|s: MarketView, entry: (Address, UserPosition)| steady(s) implies steady(
            (#[trigger] step(s, entry)).0,
        ) && concerns_only(s, step(s, entry).0, who(entry)) by {
            lemma_position_settled(s, round, price, whole, entry.0, entry.1);
        }
        assert forall|s: MarketView, i: int|
            0 <= i < entries.len() && steady(s) && same_account(
                start,
                s,
                who(entries[i]),
            ) implies (#[trigger] step(s, entries[i])).1 is Ok by {
            let entry = entries[i];
            assert(same_account(m, start, entry.0));
            lemma_same_account(m, start, s, entry.0);
            lemma_settle_granted(m, s, round, price, entry.0, entry.1);
        }
        assert forall|i: int, j: int| 0 <= i < j < entries.len() implies who(#[trigger] entries[i])
            != who(#[trigger] entries[j]) by {}
        lemma_steps_are_taken(start, entries, step, who, steady);
    }
}

/// The same account as the same account is the same account.
pub proof fn lemma_same_account(a: MarketView, b: MarketView, c: MarketView, user: Address)
    requires
        same_account(a, b, user),
        same_account(b, c, user),
    ensures
        same_account(a, c, user),
{
    assert forall|id: u64| #[trigger]
        a.outcomes.get((id, user)) == c.outcomes.get((id, user)) by {
        assert(a.outcomes.get((id, user)) == b.outcomes.get((id, user)));
    }
    assert forall|id: u64| #[trigger]
        a.positions.get((id, user)) == c.positions.get((id, user)) by {
        assert(a.positions.get((id, user)) == b.positions.get((id, user)));
    }
    assert forall|id: u64| #[trigger]
        a.predictions.get((id, user)) == c.predictions.get((id, user)) by {
        assert(a.predictions.get((id, user)) == b.predictions.get((id, user)));
    }
    assert forall|id: u64| #[trigger]
        a.commitments.get((id, user)) == c.commitments.get((id, user)) by {
        assert(a.commitments.get((id, user)) == b.commitments.get((id, user)));
    }
}

/// Winners whose parts can be taken are paid.
proof fn lemma_winners_granted(
    m: MarketView,
    id: u64,
    winners: Seq<PrecisionPrediction>,
    pot: i128,
)
    requires
        pot > 0,
        winners.len() > 0,
        m.can_collect(pot as int),
        forall|i: int, j: int|
            0 <= i < j < winners.len() ==> (#[trigger] winners[i]).user != (
            #[trigger] winners[j]).user,
        forall|i: int|
            0 <= i < winners.len() ==> m.can_win((#[trigger] winners[i]).user) && m.can_take(
                winners[i].user,
                share(m.left_of_pot(pot as int), winners.len() as int, i),
            ),
    ensures
        m.pay_closest(id, winners, pot).1 is Ok,
{
    lemma_fee_granted(m, id, pot, 0);
    assert((pot + 0) as i128 == pot);
    let split = m.split_fee_precision(id, pot);
    law_fee_on_a_pot(m, id, pot);
    let pool = split.1->Ok_0.0;
    if let Some(bps) = m.cells.protocol_fee_bps {
        assert(pot * bps >= 0) by (nonlinear_arith)
            requires
                pot > 0,
                bps >= 0,
        ;
    }
    assert(pool == m.left_of_pot(pot as int));
    let start = split.0;
    let items = shares(winners, pool);
    let step = pay_step(id);
    let who = |item: (PrecisionPrediction, i128)| item.0.user;
    let steady = |s: MarketView| s.cells == start.cells;
    assert forall|s: MarketView, item: (PrecisionPrediction, i128)| steady(s) implies steady(
        (#[trigger] step(s, item)).0,
    ) && concerns_only(s, step(s, item).0, who(item)) by {
        let record = stake_told(
            item.0.user,
            item.0.predicted_price,
            item.0.amount,
            item.1,
            UserOutcomeType::Win,
        );
        lemma_records_made(s, id, record, 0);
    }
    assert forall|i: int, j: int| 0 <= i < j < items.len() implies who(#[trigger] items[i]) != who(
        #[trigger] items[j],
    ) by {
        assert(winners[i].user != winners[j].user);
    }
    assert forall|s: MarketView, i: int|
        0 <= i < items.len() && steady(s) && same_account(start, s, who(items[i])) implies (
    #[trigger] step(s, items[i])).1 is Ok by {
        let item = items[i];
        let user = winners[i].user;
        assert(item.0 == winners[i]);
        assert(same_account(m, start, user));
        lemma_same_account(m, start, s, user);
        lemma_share_fits(pool as int, winners.len() as int, i);
        assert(item.1 == share(pool as int, winners.len() as int, i));
        lemma_same_grants(m, s, id, user, item.1 as int);
        let record = stake_told(
            user,
            item.0.predicted_price,
            item.0.amount,
            item.1,
            UserOutcomeType::Win,
        );
        lemma_record_granted(s, id, record, 0);
    }
    lemma_steps_are_taken(start, items, step, who, steady);
}

/// Losses that can be counted are.
proof fn lemma_losers_granted(m: MarketView, id: u64, entries: Seq<PrecisionEntry>)
    requires
        forall|i: int, j: int|
            0 <= i < j < entries.len() ==> (#[trigger] entries[i]).0 != (#[trigger] entries[j]).0,
        forall|i: int|
            0 <= i < entries.len() && !(#[trigger] entries[i]).3 ==> m.can_lose(entries[i].0),
    ensures
        for_each(m, entries, lose_step(id)).1 is Ok,
{
    let step = lose_step(id);
    let who = |entry: PrecisionEntry| entry.0;
    let steady = |s: MarketView| s.cells == m.cells;
    assert forall|s: MarketView, entry: PrecisionEntry| steady(s) implies steady(
        (#[trigger] step(s, entry)).0,
    ) && concerns_only(s, step(s, entry).0, who(entry)) by {
        let record = stake_told(entry.0, entry.2, entry.1, 0, UserOutcomeType::Loss);
        lemma_records_made(s, id, record, 0);
    }
    assert forall|s: MarketView, i: int|
        0 <= i < entries.len() && steady(s) && same_account(m, s, who(entries[i])) implies (
    #[trigger] step(s, entries[i])).1 is Ok by {
        let entry = entries[i];
        lemma_same_grants(m, s, id, entry.0, 0);
        let record = stake_told(entry.0, entry.2, entry.1, 0, UserOutcomeType::Loss);
        lemma_record_granted(s, id, record, 0);
    }
    assert forall|i: int, j: int| 0 <= i < j < entries.len() implies who(#[trigger] entries[i])
        != who(#[trigger] entries[j]) by {}
    lemma_steps_are_taken(m, entries, step, who, steady);
}

/// The same of the older list.
proof fn lemma_older_losers_granted(
    m: MarketView,
    id: u64,
    list: Seq<PrecisionPrediction>,
    winners: Seq<PrecisionPrediction>,
)
    requires
        forall|i: int, j: int|
            0 <= i < j < list.len() ==> (#[trigger] list[i]).user != (#[trigger] list[j]).user,
        forall|k: int|
            0 <= k < list.len() && !(exists|i: int|
                0 <= i < winners.len() && (#[trigger] winners[i]).user == list[k].user)
                ==> m.can_lose((#[trigger] list[k]).user),
    ensures
        for_each(m, list, lose_legacy_step(id, winners)).1 is Ok,
{
    let step = lose_legacy_step(id, winners);
    let who = |made: PrecisionPrediction| made.user;
    let steady = |s: MarketView| s.cells == m.cells;
    let told = |made: PrecisionPrediction|
        stake_told(made.user, made.predicted_price, made.amount, 0, UserOutcomeType::Loss);
    assert forall|s: MarketView, made: PrecisionPrediction| steady(s) implies steady(
        (#[trigger] step(s, made)).0,
    ) && concerns_only(s, step(s, made).0, who(made)) by {
        lemma_records_made(s, id, told(made), 0);
    }
    assert forall|s: MarketView, k: int|
        0 <= k < list.len() && steady(s) && same_account(m, s, who(list[k])) implies (
    #[trigger] step(s, list[k])).1 is Ok by {
        lemma_same_grants(m, s, id, list[k].user, 0);
        lemma_record_granted(s, id, told(list[k]), 0);
    }
    assert forall|i: int, j: int| 0 <= i < j < list.len() implies who(#[trigger] list[i]) != who(
        #[trigger] list[j],
    ) by {}
    lemma_steps_are_taken(m, list, step, who, steady);
}

/// Stakes that are not negative and together a number of their type have a
/// total.
proof fn lemma_total_runs(stakes: Seq<i128>)
    requires
        forall|i: int| 0 <= i < stakes.len() ==> (#[trigger] stakes[i]) >= 0,
        sum(stakes, |amount: i128| amount as int) <= i128::MAX,
    ensures
        running_total(stakes) == Some(sum(stakes, |amount: i128| amount as int)),
    decreases stakes.len(),
{
    let amount = |amount: i128| amount as int;
    if stakes.len() > 0 {
        let fewer = stakes.drop_last();
        assert forall|i: int| 0 <= i < fewer.len() implies (#[trigger] fewer[i]) >= 0 by {
            assert(fewer[i] == stakes[i]);
        }
        assert(stakes[stakes.len() - 1] >= 0);
        lemma_sum_not_negative(fewer, amount);
        lemma_total_runs(fewer);
    }
}

impl MarketView {
    /// The nearest participants can take their parts of the pot, and wins and
    /// losses can be counted.
    pub open spec fn can_pay_nearest(self, round: Round, price: u128) -> bool {
        let users = self.participants_of(round.round_id);
        let nearest = Set::new(|u: Address| self.is_nearest(round, price, u));
        let pool = self.left_of_pot(self.staked(round));
        &&& self.can_collect(self.staked(round))
        &&& pool >= 0
        &&& forall|user: Address| #[trigger]
            users.contains(user) ==> if self.is_nearest(round, price, user) {
                self.can_win(user) && self.can_take(user, part_of_pool(pool, nearest, user))
            } else {
                self.can_lose(user)
            }
    }

    /// The same of the users in the older list of predictions.
    pub open spec fn can_pay_nearest_older(self, round: Round, price: u128) -> bool {
        let list = self.older_predictions();
        let nearest = Set::new(|u: Address| self.is_nearest_older(price, u));
        let pool = self.left_of_pot(self.staked(round));
        &&& self.can_collect(self.staked(round))
        &&& pool >= 0
        &&& forall|i: int|
            0 <= i < list.len() ==> if self.is_nearest_older(price, (#[trigger] list[i]).user) {
                self.can_win(list[i].user) && self.can_take(
                    list[i].user,
                    part_of_pool(pool, nearest, list[i].user),
                )
            } else {
                self.can_lose(list[i].user)
            }
    }

    /// All that a settlement of a round at a price adds can be added.
    pub open spec fn can_be_settled(self, round: Round, price: u128) -> bool {
        let id = round.round_id;
        let users = self.participants_of(id);
        if self.falls_short(round) {
            self.can_give_back(round)
        } else {
            match round.mode {
                RoundMode::UpDown => if is_draw(round, price) {
                    self.can_give_back(round)
                } else {
                    round.pool_up > 0 ==> self.can_pay_positions(round, price)
                },
                RoundMode::Precision => {
                    &&& self.books_balance(round)
                    &&& self.staked(round) <= 0x7fff_ffff_ffff_ffff_ffff_ffff_ffff_ffff
                    &&& self.staked(round) > 0 ==> if users.len() == 0 {
                        self.can_pay_nearest_older(round, price)
                    } else if self.none_revealed(round) {
                        forall|user: Address| #[trigger]
                            users.contains(user) ==> self.can_take(
                                user,
                                self.precision_stake(id, user) as int,
                            )
                    } else {
                        self.can_pay_nearest(round, price)
                    }
                },
            }
        }
    }
}

/// A draw gives back what can go back.
proof fn lemma_draw_granted(m: MarketView, round: Round, price: u128)
    requires
        m.lists_are_plain(round),
        m.can_give_back(round),
        round.mode == RoundMode::UpDown,
        is_draw(round, price),
    ensures
        m.resolve_updown(round, price).1 is Ok,
{
    let id = round.round_id;
    let stored = m.participants_of(id);
    let users = sorted_addresses(stored);
    lemma_sorted_once(stored);
    lemma_sorted_keeps(stored);
    if users.len() > 0 {
        assert forall|i: int| 0 <= i < users.len() implies m.can_take_position(
            id,
            #[trigger] users[i],
        ) by {
            assert(users.contains(users[i]));
            assert(stored.contains(users[i]));
        }
        lemma_positions_granted(m, id, users);
    } else {
        lemma_entries_granted(m, id, m.older_positions(), UserOutcomeType::Refund);
    }
}

/// Stakes that can go back where nothing was revealed do.
proof fn lemma_entries_given_back(m: MarketView, id: u64, entries: Seq<PrecisionEntry>)
    requires
        forall|i: int, j: int|
            0 <= i < j < entries.len() ==> (#[trigger] entries[i]).0 != (#[trigger] entries[j]).0,
        forall|i: int|
            0 <= i < entries.len() ==> m.can_take(
                (#[trigger] entries[i]).0,
                entries[i].1 as int,
            ),
    ensures
        for_each(m, entries, give_back_step(id)).1 is Ok,
{
    let step = give_back_step(id);
    let who = |entry: PrecisionEntry| entry.0;
    let steady = |s: MarketView| s.cells == m.cells;
    assert forall|s: MarketView, entry: PrecisionEntry| steady(s) implies steady(
        (#[trigger] step(s, entry)).0,
    ) && concerns_only(s, step(s, entry).0, who(entry)) by {
        let record = stake_told(entry.0, entry.2, entry.1, entry.1, UserOutcomeType::Refund);
        lemma_records_made(s, id, record, 0);
    }
    assert forall|s: MarketView, i: int|
        0 <= i < entries.len() && steady(s) && same_account(m, s, who(entries[i])) implies (
    #[trigger] step(s, entries[i])).1 is Ok by {
        let entry = entries[i];
        lemma_same_grants(m, s, id, entry.0, entry.1 as int);
        let record = stake_told(entry.0, entry.2, entry.1, entry.1, UserOutcomeType::Refund);
        lemma_record_granted(s, id, record, 0);
    }
    assert forall|i: int, j: int| 0 <= i < j < entries.len() implies who(#[trigger] entries[i])
        != who(#[trigger] entries[j]) by {}
    lemma_steps_are_taken(m, entries, step, who, steady);
}

/// A round on the price with listed participants is settled where all can be
/// added.
proof fn lemma_price_granted(m: MarketView, round: Round, price: u128)
    requires
        m.lists_are_plain(round),
        m.predictions_are_filed(round),
        round.mode == RoundMode::Precision,
        m.participants_of(round.round_id).len() > 0,
        !m.falls_short(round),
        m.can_be_settled(round, price),
    ensures
        m.resolve_precision(round.round_id, price).1 is Ok,
{
    let id = round.round_id;
    let stored = m.participants_of(id);
    let users = sorted_addresses(stored);
    let revealed = m.revealed(id, users);
    let winners = closest(revealed, price);
    let entries = m.precision_entries(id, users, price);
    let stakes = m.precision_stakes(id, users);
    let stake = |u: Address| m.precision_stake(id, u) as int;
    let pot = m.staked(round);
    lemma_sorted_once(stored);
    lemma_sorted_keeps(stored);
    lemma_sorted_ascends(stored);
    lemma_sum_same(users, stakes, stake, |amount: i128| amount as int);
    lemma_sum_permuted(users, stored, stake);
    assert forall|i: int| 0 <= i < stakes.len() implies (#[trigger] stakes[i]) >= 0 by {
        assert(users.contains(users[i]));
        assert(stored.contains(users[i]));
    }
    lemma_total_runs(stakes);
    lemma_sum_not_negative(stakes, |amount: i128| amount as int);
    assert forall|i: int, j: int| 0 <= i < j < entries.len() implies (
    #[trigger] entries[i]).0 != (#[trigger] entries[j]).0 by {
        assert(users[i] != users[j]);
    }
    if pot > 0 {
        if m.none_revealed(round) {
            assert forall|i: int| 0 <= i < revealed.len() implies (
            #[trigger] revealed[i]) is None by {
                assert(users.contains(users[i]));
                assert(stored.contains(users[i]));
            }
            assert(winners.len() == 0) by {
                if winners.len() > 0 {
                    law_winners_are_the_closest(revealed, price, winners[0]);
                    assert(winners.contains(winners[0]));
                }
            }
            assert forall|i: int| 0 <= i < entries.len() implies m.can_take(
                (#[trigger] entries[i]).0,
                entries[i].1 as int,
            ) by {
                assert(users.contains(users[i]));
                assert(stored.contains(users[i]));
            }
            lemma_entries_given_back(m, id, entries);
        } else {
            lemma_nearest_granted(m, round, price, users);
        }
    }
}

/// What `lemma_price_granted` says where a price was revealed.
proof fn lemma_nearest_granted(m: MarketView, round: Round, price: u128, users: Seq<Address>)
    requires
        m.lists_are_plain(round),
        m.predictions_are_filed(round),
        users == sorted_addresses(m.participants_of(round.round_id)),
        !m.none_revealed(round),
        0 < m.staked(round) <= i128::MAX,
        m.can_pay_nearest(round, price),
    ensures
        ({
            let id = round.round_id;
            let winners = closest(m.revealed(id, users), price);
            let paid = m.pay_closest(id, winners, m.staked(round) as i128);
            &&& winners.len() > 0
            &&& paid.1 is Ok
            &&& for_each(
                paid.0,
                m.precision_entries(id, users, price),
                lose_step(id),
            ).1 is Ok
        }),
{
    let id = round.round_id;
    let stored = m.participants_of(id);
    let revealed = m.revealed(id, users);
    let winners = closest(revealed, price);
    let n = winners.len() as int;
    let entries = m.precision_entries(id, users, price);
    let pot = m.staked(round);
    let pool = m.left_of_pot(pot);
    let nearest = Set::new(|u: Address| m.is_nearest(round, price, u));
    lemma_sorted_once(stored);
    lemma_sorted_keeps(stored);
    lemma_sorted_ascends(stored);
    let one = choose|u: Address| #[trigger]
        stored.contains(u) && m.predictions.dom().contains((id, u));
    assert(stored.contains(one) && m.predictions.dom().contains((id, one)));
    assert(users.contains(one));
    let at_one = choose|i: int| 0 <= i < users.len() && users[i] == one;
    assert(revealed[at_one] is Some);
    lemma_some_closest(revealed, price);
    assert forall|j: int| 0 <= j < users.len() && (#[trigger] revealed[j]) is Some implies
        revealed[j]->0.user == users[j] by {
        assert(users.contains(users[j]));
        assert(stored.contains(users[j]));
        assert(m.predictions.dom().contains((id, users[j])));
    }
    lemma_winners_are_different(users, revealed, price, users.len());
    lemma_nearest_are_closest(m, round, price, users);
    assert forall|i: int| 0 <= i < winners.len() implies m.can_win(
        (#[trigger] winners[i]).user,
    ) && m.can_take(winners[i].user, share(pool, n, i)) by {
        law_winners_are_the_closest(revealed, price, winners[i]);
        assert(winners.contains(winners[i]));
        let k = choose|k: int|
            0 <= k < revealed.len() && #[trigger] is_closest(revealed, price, k) && revealed[k]
                == Some(winners[i]);
        let user = users[k];
        assert(users.contains(user));
        assert(stored.contains(user));
        lemma_nearest_place(m, round, price, users, k);
        let at = lemma_winners_ranked(users, revealed, price, k, pool);
        if at < i {
            assert(winners[at].user != winners[i].user);
        } else if i < at {
            assert(winners[i].user != winners[at].user);
        }
    }
    lemma_winners_granted(m, id, winners, pot as i128);
    let paid = m.pay_closest(id, winners, pot as i128).0;
    assert forall|i: int| 0 <= i < entries.len() && !(
    #[trigger] entries[i]).3 implies paid.can_lose(entries[i].0) by {
        let user = users[i];
        assert(users.contains(user));
        assert(stored.contains(user));
        lemma_nearest_place(m, round, price, users, i);
        lemma_winners_paid(m, id, winners, pot as i128, user);
        assert forall|j: int| 0 <= j < winners.len() implies (
        #[trigger] winners[j]).user != user by {
            law_winners_are_the_closest(revealed, price, winners[j]);
            assert(winners.contains(winners[j]));
            let k = choose|k: int|
                0 <= k < revealed.len() && #[trigger] is_closest(revealed, price, k)
                    && revealed[k] == Some(winners[j]);
            assert(k != i);
            assert(users[k] != users[i]);
        }
        assert(same_account(m, paid, user));
    }
    assert forall|i: int, j: int| 0 <= i < j < entries.len() implies (
    #[trigger] entries[i]).0 != (#[trigger] entries[j]).0 by {
        assert(users[i] != users[j]);
    }
    lemma_losers_granted(paid, id, entries);
}

/// What is paid to the winners of the older list and counted for the others can
/// be.
proof fn lemma_nearest_older_granted(m: MarketView, round: Round, price: u128)
    requires
        m.lists_are_plain(round),
        m.older_predictions().len() > 0,
        0 < m.staked(round) <= i128::MAX,
        m.can_pay_nearest_older(round, price),
    ensures
        ({
            let id = round.round_id;
            let list = m.older_predictions();
            let winners = closest(all_made(list), price);
            let paid = m.pay_closest(id, winners, m.staked(round) as i128);
            &&& paid.1 is Ok
            &&& for_each(paid.0, list, lose_legacy_step(id, winners)).1 is Ok
        }),
{
    let id = round.round_id;
    let list = m.older_predictions();
    let entries = m.precision_legacy->0;
    let made = all_made(list);
    let winners = closest(made, price);
    let n = winners.len() as int;
    let names = list.map_values(|prediction: PrecisionPrediction| prediction.user);
    let pot = m.staked(round);
    let pool = m.left_of_pot(pot);
    lemma_older_are_different(m);
    assert(made[0] is Some);
    lemma_some_closest(made, price);
    assert(names.no_duplicates()) by {
        assert forall|a: int, b: int| 0 <= a < names.len() && 0 <= b < names.len() && a
            != b implies names[a] != names[b] by {
            if a < b {
                assert(list[a].user != list[b].user);
            } else {
                assert(list[b].user != list[a].user);
            }
        }
    }
    assert forall|a: int, b: int| 0 <= a < b < names.len() implies (
    #[trigger] names[a]).at_or_before(#[trigger] names[b]) by {
        assert(entries[a].1.user == entries[a].0);
        assert(entries[b].1.user == entries[b].0);
        assert(entries[a].0.at_or_before(entries[b].0));
    }
    assert forall|j: int| 0 <= j < names.len() && (#[trigger] made[j]) is Some implies
        made[j]->0.user == names[j] by {}
    lemma_winners_are_different(names, made, price, names.len());
    lemma_nearest_older_are_closest(m, price, names);
    assert forall|i: int| 0 <= i < winners.len() implies m.can_win(
        (#[trigger] winners[i]).user,
    ) && m.can_take(winners[i].user, share(pool, n, i)) by {
        law_winners_are_the_closest(made, price, winners[i]);
        assert(winners.contains(winners[i]));
        let k = choose|k: int|
            0 <= k < made.len() && #[trigger] is_closest(made, price, k) && made[k] == Some(
                winners[i],
            );
        assert(list[k].user == names[k]);
        lemma_nearest_older_place(m, price, k);
        let at = lemma_winners_ranked(names, made, price, k, pool);
        if at < i {
            assert(winners[at].user != winners[i].user);
        } else if i < at {
            assert(winners[i].user != winners[at].user);
        }
    }
    lemma_winners_granted(m, id, winners, pot as i128);
    let paid = m.pay_closest(id, winners, pot as i128).0;
    assert forall|k: int|
        0 <= k < list.len() && !(exists|i: int|
            0 <= i < winners.len() && (#[trigger] winners[i]).user == list[k].user)
            implies paid.can_lose((#[trigger] list[k]).user) by {
        let user = list[k].user;
        lemma_nearest_older_place(m, price, k);
        lemma_winners_paid(m, id, winners, pot as i128, user);
        assert(same_account(m, paid, user));
        if m.is_nearest_older(price, user) {
            law_winners_are_the_closest(made, price, list[k]);
            assert(is_closest(made, price, k));
            assert(winners.contains(list[k]));
            let i = choose|i: int| 0 <= i < winners.len() && winners[i] == list[k];
            assert(winners[i].user == user);
        }
    }
    lemma_older_losers_granted(paid, id, list, winners);
}

/// The same of the older list of predictions.
proof fn lemma_older_price_granted(m: MarketView, round: Round, price: u128)
    requires
        m.lists_are_plain(round),
        round.mode == RoundMode::Precision,
        m.participants_of(round.round_id).len() == 0,
        !m.falls_short(round),
        m.can_be_settled(round, price),
    ensures
        m.resolve_precision(round.round_id, price).1 is Ok,
{
    let id = round.round_id;
    let list = m.older_predictions();
    let entries = match m.precision_legacy {
        Some(entries) => entries,
        None => Seq::empty(),
    };
    let stakes = list.map_values(|prediction: PrecisionPrediction| prediction.amount);
    let pot = m.staked(round);
    lemma_sorted_keeps(m.participants_of(id));
    assert(list =~= entries.map_values(|entry: (Address, PrecisionPrediction)| entry.1));
    assert(m.resolve_precision(id, price) == m.resolve_precision_legacy(id, entries, price));
    if entries.len() > 0 {
        lemma_sum_same(
            entries,
            stakes,
            |entry: (Address, PrecisionPrediction)| entry.1.amount as int,
            |amount: i128| amount as int,
        );
        assert forall|i: int| 0 <= i < stakes.len() implies (#[trigger] stakes[i]) >= 0 by {
            assert(entries[i].1.amount >= 0);
        }
        lemma_total_runs(stakes);
        lemma_sum_not_negative(stakes, |amount: i128| amount as int);
        if pot > 0 {
            lemma_nearest_older_granted(m, round, price);
        }
    }
}

/// What can be settled in one state can in another one with the same accounts,
/// lists and settings.
proof fn lemma_settled_all_the_same(a: MarketView, b: MarketView, round: Round, price: u128)
    requires
        only_checked(a, b),
        a.lists_are_plain(round),
        a.can_be_settled(round, price),
    ensures
        b.lists_are_plain(round),
        b.can_be_settled(round, price),
{
    let id = round.round_id;
    let users = a.participants_of(id);
    assert(a.older_positions() == b.older_positions());
    assert(a.older_predictions() =~= b.older_predictions());
    assert(a.falls_short(round) == b.falls_short(round));
    assert(a.left_of_pools(round) == b.left_of_pools(round));
    lemma_same_books(a, b, round, price);
    if a.can_give_back(round) {
        lemma_give_back_carried(a, b, round);
    }
    assert forall|user: Address, amount: int| #[trigger] a.can_take(user, amount) == b.can_take(
        user,
        amount,
    ) by {}
    if a.can_pay_positions(round, price) {
        assert forall|user: Address, position: UserPosition|
            a.can_settle(round, price, user, position) == #[trigger] b.can_settle(
                round,
                price,
                user,
                position,
            ) by {
            let pool = if price > round.price_start {
                round.pool_up
            } else {
                round.pool_down
            };
            let part = position.amount * a.left_of_pools(round) / (pool as int);
            assert(a.can_take(user, part) == b.can_take(user, part));
        }
        assert(b.can_pay_positions(round, price));
    }
    if round.mode == RoundMode::Precision {
        let pool = a.left_of_pot(a.staked(round));
        assert(a.staked(round) == b.staked(round));
        assert(a.books_balance(round) == b.books_balance(round));
        assert(b.left_of_pot(b.staked(round)) == pool);
        assert forall|user: Address| #[trigger] a.is_nearest(round, price, user) == b.is_nearest(
            round,
            price,
            user,
        ) by {}
        assert forall|user: Address| #[trigger] a.is_nearest_older(price, user)
            == b.is_nearest_older(price, user) by {}
        let nearest = Set::new(|u: Address| a.is_nearest(round, price, u));
        let older = Set::new(|u: Address| a.is_nearest_older(price, u));
        assert(nearest =~= Set::new(|u: Address| b.is_nearest(round, price, u)));
        assert(older =~= Set::new(|u: Address| b.is_nearest_older(price, u)));
        if a.can_pay_nearest(round, price) {
            assert forall|user: Address| #[trigger]
                users.contains(user) implies if b.is_nearest(round, price, user) {
                b.can_win(user) && b.can_take(user, part_of_pool(pool, nearest, user))
            } else {
                b.can_lose(user)
            } by {
                let part = part_of_pool(pool, nearest, user);
                assert(a.is_nearest(round, price, user) == b.is_nearest(round, price, user));
                assert(a.can_take(user, part) == b.can_take(user, part));
            }
            assert(b.can_pay_nearest(round, price));
        }
        if a.can_pay_nearest_older(round, price) {
            let list = b.older_predictions();
            assert forall|i: int| 0 <= i < list.len() implies if b.is_nearest_older(
                price,
                (#[trigger] list[i]).user,
            ) {
                b.can_win(list[i].user) && b.can_take(
                    list[i].user,
                    part_of_pool(pool, older, list[i].user),
                )
            } else {
                b.can_lose(list[i].user)
            } by {
                let user = list[i].user;
                let part = part_of_pool(pool, older, user);
                assert(a.older_predictions()[i].user == user);
                assert(a.is_nearest_older(price, user) == b.is_nearest_older(price, user));
                assert(a.can_take(user, part) == b.can_take(user, part));
            }
            assert(b.can_pay_nearest_older(round, price));
        }
        assert forall|user: Address| #[trigger] a.precision_stake(id, user)
            == b.precision_stake(id, user) by {}
        if forall|user: Address| #[trigger]
            users.contains(user) ==> a.can_take(user, a.precision_stake(id, user) as int) {
            assert forall|user: Address| #[trigger] users.contains(user) implies b.can_take(
                user,
                b.precision_stake(id, user) as int,
            ) by {
                let stake = a.precision_stake(id, user) as int;
                assert(a.can_take(user, stake) == b.can_take(user, stake));
            }
        }
    }
}

/// A settlement by a report that passes is owed wherever all that it adds can
/// be added: the refunds or the parts to what is pending, the wins and losses to
/// the counts, and the fee to the treasury.
pub proof fn law_settlements_are_owed(m: MarketView, ctx: &LedgerContext, payload: OraclePayload)
    requires
        m.wf(),
        m.check_report(ctx, payload).1 is Ok,
        m.cells.active_round matches Some(round) && m.lists_are_plain(round)
            && m.predictions_are_filed(round) && m.can_be_settled(round, payload.price),
    ensures
        m.resolve_round(ctx, payload).1 is Ok,
{
    lemma_report_only_checked(m, ctx, payload);
    let round = m.cells.active_round->0;
    let id = round.round_id;
    let price = payload.price;
    let checked = m.check_report(ctx, payload).0;
    let users = m.participants_of(id);
    lemma_settled_all_the_same(m, checked, round, price);
    if m.falls_short(round) {
        let status = RoundArchiveStatus::FallbackRefund;
        let stored = checked.archive(ctx.sequence, round, status, price, users.len() as u32, 0);
        lemma_archive_keeps(
            checked,
            ctx.sequence,
            round,
            status,
            price,
            users.len() as u32,
            0,
        );
        lemma_give_back_carried(checked, stored, round);
        lemma_all_granted(stored, round);
    } else {
        match round.mode {
            RoundMode::UpDown => {
                if is_draw(round, price) {
                    lemma_draw_granted(checked, round, price);
                } else if round.pool_up > 0 {
                    lemma_decided_granted(checked, round, price);
                }
            },
            RoundMode::Precision => {
                if users.len() > 0 {
                    assert(checked.predictions_are_filed(round));
                    lemma_price_granted(checked, round, price);
                } else {
                    lemma_older_price_granted(checked, round, price);
                }
            },
        }
    }
}

} // verus!
