//! What a settlement does, stated over the market's storage.

use vstd::prelude::*;
use crate::contract::{fits_i128, quotient};
use crate::errors::ContractError;
use crate::market::LedgerContext;
use crate::model::{done, for_each, Cells, MarketView, Step};
use crate::types::{
    Action, Address, BetSide, DataKey, Event, OraclePayload, PrecisionEntry, PrecisionPrediction,
    Round, RoundArchiveStatus, RoundMode, UserOutcomeType, UserPosition, UserRoundOutcome,
    UserStats, PRECISION_SIDE,
};

verus! {

/// The addresses in ascending order.
pub open spec fn sorted_addresses(addresses: Seq<Address>) -> Seq<Address> {
    addresses.sort_by(|a: Address, b: Address| a.at_or_before(b))
}

/// How far a predicted price is from the price.
pub open spec fn distance(predicted_price: u128, price: u128) -> int {
    if predicted_price >= price {
        predicted_price - price
    } else {
        price - predicted_price
    }
}

/// The prediction at a place was made, and no other is closer to the price.
pub open spec fn is_closest(
    predictions: Seq<Option<PrecisionPrediction>>,
    price: u128,
    at: int,
) -> bool {
    &&& predictions[at] is Some
    &&& forall|j: int|
        0 <= j < predictions.len() && (#[trigger] predictions[j]) is Some ==> distance(
            predictions[at]->0.predicted_price,
            price,
        ) <= distance(predictions[j]->0.predicted_price, price)
}

/// The closest of all predictions that stand at the first places.
pub open spec fn closest_among(
    predictions: Seq<Option<PrecisionPrediction>>,
    price: u128,
    places: nat,
) -> Seq<PrecisionPrediction>
    decreases places,
{
    if places == 0 {
        Seq::empty()
    } else {
        let before = closest_among(predictions, price, (places - 1) as nat);
        if is_closest(predictions, price, places - 1) {
            before.push(predictions[places - 1]->0)
        } else {
            before
        }
    }
}

/// The predictions that are closest to the price, in their order.
pub open spec fn closest(
    predictions: Seq<Option<PrecisionPrediction>>,
    price: u128,
) -> Seq<PrecisionPrediction> {
    closest_among(predictions, price, predictions.len())
}

/// The sum of stakes, as long as no sum on the way leaves the type `i128`.
pub open spec fn running_total(stakes: Seq<i128>) -> Option<int>
    decreases stakes.len(),
{
    if stakes.len() == 0 {
        Some(0)
    } else {
        match running_total(stakes.drop_last()) {
            Some(total) if fits_i128(total + stakes.last()) => Some(total + stakes.last()),
            _ => None,
        }
    }
}

/// What the winner at a place gets of a pool that is shared by a number of
/// winners: equal parts, and for the first what does not divide.
pub open spec fn share(pool: int, winners: int, at: int) -> int {
    let part = quotient(pool, winners);
    if at == 0 {
        part + (pool - winners * part)
    } else {
        part
    }
}

/// The winners with what each of them gets of the pool.
pub open spec fn shares(winners: Seq<PrecisionPrediction>, pool: i128) -> Seq<
    (PrecisionPrediction, i128),
> {
    Seq::new(
        winners.len(),
        |i: int| (winners[i], share(pool as int, winners.len() as int, i) as i128),
    )
}

/// The step that pays a winner.
pub open spec fn pay_step(round_id: u64) -> spec_fn(
    MarketView,
    (PrecisionPrediction, i128),
) -> Step<()> {
    |m: MarketView, item: (PrecisionPrediction, i128)|
        m.record_win(
            round_id,
            precision_record(
                item.0.user,
                item.0.predicted_price,
                item.0.amount,
                item.1,
                UserOutcomeType::Win,
            ),
        )
}

/// The step that settles the entry of a participant who did not win.
pub open spec fn lose_step(round_id: u64) -> spec_fn(MarketView, PrecisionEntry) -> Step<()> {
    |m: MarketView, entry: PrecisionEntry|
        if entry.3 {
            (m, Ok(()))
        } else {
            m.record_loss(
                round_id,
                precision_record(entry.0, entry.2, entry.1, 0, UserOutcomeType::Loss),
                0,
            )
        }
}

/// The step that gives a participant the stake back.
pub open spec fn give_back_step(round_id: u64) -> spec_fn(MarketView, PrecisionEntry) -> Step<
    (),
> {
    |m: MarketView, entry: PrecisionEntry|
        m.record_refund(
            round_id,
            precision_record(entry.0, entry.2, entry.1, entry.1, UserOutcomeType::Refund),
        )
}

/// The step that settles a prediction of the older list whose user is not
/// among the winners.
pub open spec fn lose_legacy_step(
    round_id: u64,
    winners: Seq<PrecisionPrediction>,
) -> spec_fn(MarketView, PrecisionPrediction) -> Step<()> {
    |m: MarketView, prediction: PrecisionPrediction|
        if exists|i: int|
            0 <= i < winners.len() && (#[trigger] winners[i]).user == prediction.user {
            (m, Ok(()))
        } else {
            m.record_loss(
                round_id,
                precision_record(
                    prediction.user,
                    prediction.predicted_price,
                    prediction.amount,
                    0,
                    UserOutcomeType::Loss,
                ),
                0,
            )
        }
}

/// What is recorded of a position in a settled round.
pub open spec fn position_record(
    user: Address,
    round_mode: u32,
    position: UserPosition,
    payout: i128,
    outcome: UserOutcomeType,
) -> UserRoundOutcome {
    UserRoundOutcome {
        user,
        round_mode,
        prediction_side: position.side.number(),
        predicted_price: 0,
        stake: position.amount,
        payout,
        outcome,
    }
}

/// What is recorded of a stake on a price in a settled round.
pub open spec fn precision_record(
    user: Address,
    predicted_price: u128,
    stake: i128,
    payout: i128,
    outcome: UserOutcomeType,
) -> UserRoundOutcome {
    UserRoundOutcome {
        user,
        round_mode: RoundMode::Precision.number(),
        prediction_side: PRECISION_SIDE,
        predicted_price,
        stake,
        payout,
        outcome,
    }
}

/// The step that settles one position: a share of what is distributed for a
/// winner, in proportion to the stake, and nothing for a loser.
pub open spec fn settle_position(
    market: MarketView,
    round_id: u64,
    user: Address,
    position: UserPosition,
    winning_side: BetSide,
    winning_pool: i128,
    distributable: int,
) -> Step<()> {
    if position.side == winning_side {
        if !fits_i128(position.amount * distributable) {
            (market, Err(ContractError::PayoutOverflow))
        } else {
            let payout = quotient(position.amount * distributable, winning_pool as int) as i128;
            market.record_win(
                round_id,
                position_record(user, 0, position, payout, UserOutcomeType::Win),
            )
        }
    } else {
        market.record_loss(
            round_id,
            position_record(user, 0, position, 0, UserOutcomeType::Loss),
            position.side.number(),
        )
    }
}

/// The step that refunds a participant's position, if there is one.
pub open spec fn refund_step(round_id: u64, round_mode: u32) -> spec_fn(
    MarketView,
    Address,
) -> Step<()> {
    |m: MarketView, user: Address|
        match m.positions.get((round_id, user)) {
            Some(position) => m.record_refund(
                round_id,
                position_record(
                    user,
                    round_mode,
                    position,
                    position.amount,
                    UserOutcomeType::Refund,
                ),
            ),
            None => (m, Ok(())),
        }
}

/// The step that refunds an entry of the older position list, recorded as the
/// given outcome.
pub open spec fn refund_entry_step(round_id: u64, outcome: UserOutcomeType) -> spec_fn(
    MarketView,
    (Address, UserPosition),
) -> Step<()> {
    |m: MarketView, entry: (Address, UserPosition)|
        m.record_refund(
            round_id,
            position_record(entry.0, 0, entry.1, entry.1.amount, outcome),
        )
}

/// The step that settles a participant's position, if there is one.
pub open spec fn settle_step(
    round_id: u64,
    winning_side: BetSide,
    winning_pool: i128,
    distributable: int,
) -> spec_fn(MarketView, Address) -> Step<()> {
    |m: MarketView, user: Address|
        match m.positions.get((round_id, user)) {
            Some(position) => settle_position(
                m,
                round_id,
                user,
                position,
                winning_side,
                winning_pool,
                distributable,
            ),
            None => (m, Ok(())),
        }
}

/// The step that settles an entry of the older position list.
pub open spec fn settle_entry_step(
    round_id: u64,
    winning_side: BetSide,
    winning_pool: i128,
    distributable: int,
) -> spec_fn(MarketView, (Address, UserPosition)) -> Step<()> {
    |m: MarketView, entry: (Address, UserPosition)|
        settle_position(
            m,
            round_id,
            entry.0,
            entry.1,
            winning_side,
            winning_pool,
            distributable,
        )
}

/// The step that refunds a participant of a round on the price that had too
/// few participants.
pub open spec fn refund_stake_step(round_id: u64) -> spec_fn(MarketView, Address) -> Step<()> {
    |m: MarketView, user: Address|
        {
            let stake = m.precision_stake(round_id, user);
            if stake > 0 {
                m.record_refund(
                    round_id,
                    precision_record(user, 0, stake, stake, UserOutcomeType::Refund),
                )
            } else {
                (m, Ok(()))
            }
        }
}

/// The step that refunds a participant's position in a cancelled round, if
/// there is one, and forgets it.
pub open spec fn cancel_position_step(round_id: u64) -> spec_fn(MarketView, Address) -> Step<()> {
    |m: MarketView, user: Address|
        match m.positions.get((round_id, user)) {
            Some(position) => {
                let refunded = m.record_refund(
                    round_id,
                    position_record(user, 0, position, position.amount, UserOutcomeType::Cancel),
                );
                match refunded.1 {
                    Ok(_) => (
                        MarketView {
                            positions: refunded.0.positions.remove((round_id, user)),
                            ..refunded.0
                        },
                        Ok(()),
                    ),
                    Err(_) => refunded,
                }
            },
            None => (m, Ok(())),
        }
}

/// The step that refunds a participant's stake on a price in a cancelled
/// round, and forgets it.
pub open spec fn cancel_stake_step(round_id: u64) -> spec_fn(MarketView, Address) -> Step<()> {
    |m: MarketView, user: Address|
        {
            let stake = m.precision_stake(round_id, user);
            let paid = if stake > 0 {
                m.accumulate_pending(user, stake)
            } else {
                done(m)
            };
            let recorded = paid.0.persist_outcome(
                round_id,
                precision_record(user, 0, stake, stake, UserOutcomeType::Cancel),
            );
            match paid.1 {
                Ok(_) => (
                    MarketView {
                        predictions: recorded.predictions.remove((round_id, user)),
                        commitments: recorded.commitments.remove((round_id, user)),
                        ..recorded
                    },
                    Ok(()),
                ),
                Err(_) => paid,
            }
        }
}

/// The step that refunds one of the older list of predictions, in a round that
/// had too few participants.
pub open spec fn refund_prediction_step(round_id: u64) -> spec_fn(
    MarketView,
    PrecisionPrediction,
) -> Step<()> {
    |m: MarketView, made: PrecisionPrediction|
        if made.amount > 0 {
            m.record_refund(
                round_id,
                precision_record(
                    made.user,
                    0,
                    made.amount,
                    made.amount,
                    UserOutcomeType::Refund,
                ),
            )
        } else {
            done(m)
        }
}

/// The step that refunds one of the older list of predictions, in a cancelled
/// round.
pub open spec fn cancel_prediction_step(round_id: u64) -> spec_fn(
    MarketView,
    PrecisionPrediction,
) -> Step<()> {
    |m: MarketView, made: PrecisionPrediction|
        {
            let paid = if made.amount > 0 {
                m.accumulate_pending(made.user, made.amount)
            } else {
                done(m)
            };
            match paid.1 {
                Ok(_) => done(
                    paid.0.persist_outcome(
                        round_id,
                        precision_record(
                            made.user,
                            0,
                            made.amount,
                            made.amount,
                            UserOutcomeType::Cancel,
                        ),
                    ),
                ),
                Err(_) => paid,
            }
        }
}

/// The keys of users' entries for a round.
pub open spec fn entry_keys(round_id: u64, users: Seq<Address>) -> Set<(u64, Address)> {
    Set::new(|key: (u64, Address)| key.0 == round_id && users.contains(key.1))
}

impl MarketView {
    /// The count of a win for a user.
    pub open spec fn update_stats_win(self, user: Address) -> Step<()> {
        let old_stats = self.stats_of(user);
        if old_stats.total_wins == u32::MAX || old_stats.current_streak == u32::MAX {
            (self, Err(ContractError::Overflow))
        } else {
            let streak = (old_stats.current_streak + 1) as u32;
            let new_stats = UserStats {
                total_wins: (old_stats.total_wins + 1) as u32,
                total_losses: old_stats.total_losses,
                current_streak: streak,
                best_streak: if streak > old_stats.best_streak {
                    streak
                } else {
                    old_stats.best_streak
                },
            };
            (
                MarketView { stats: self.stats.insert(user, new_stats), ..self }.extend(
                    DataKey::UserStats(user),
                ),
                Ok(()),
            )
        }
    }

    /// The count of a loss for a user, which ends the streak.
    pub open spec fn update_stats_loss(self, user: Address) -> Step<()> {
        let old_stats = self.stats_of(user);
        if old_stats.total_losses == u32::MAX {
            (self, Err(ContractError::Overflow))
        } else {
            let new_stats = UserStats {
                total_losses: (old_stats.total_losses + 1) as u32,
                current_streak: 0,
                ..old_stats
            };
            (
                MarketView { stats: self.stats.insert(user, new_stats), ..self }.extend(
                    DataKey::UserStats(user),
                ),
                Ok(()),
            )
        }
    }

    /// The record of what a user got out of a round. The first record of a
    /// user for a round stands.
    pub open spec fn persist_outcome(self, round_id: u64, record: UserRoundOutcome) -> MarketView {
        if self.outcomes.dom().contains((round_id, record.user)) {
            self
        } else {
            MarketView {
                outcomes: self.outcomes.insert((round_id, record.user), record),
                ..self
            }.extend(DataKey::UserRoundOutcome(round_id, record.user)).emit(
                Event::PayoutOutcome {
                    round_id,
                    mode: record.round_mode,
                    user: record.user,
                    gross_payout: record.payout,
                    outcome_type: record.outcome.number(),
                },
            )
        }
    }

    /// A stake goes back to its user.
    pub open spec fn record_refund(self, round_id: u64, record: UserRoundOutcome) -> Step<()> {
        let paid = self.accumulate_pending(record.user, record.payout);
        match paid.1 {
            Ok(_) => (paid.0.persist_outcome(round_id, record), Ok(())),
            Err(_) => paid,
        }
    }

    /// A winner is paid and counted.
    pub open spec fn record_win(self, round_id: u64, record: UserRoundOutcome) -> Step<()> {
        let paid = self.accumulate_pending(record.user, record.payout);
        match paid.1 {
            Ok(_) => {
                let counted = paid.0.update_stats_win(record.user);
                match counted.1 {
                    Ok(_) => (counted.0.persist_outcome(round_id, record), Ok(())),
                    Err(_) => counted,
                }
            },
            Err(_) => paid,
        }
    }

    /// A loser is told and counted.
    pub open spec fn record_loss(
        self,
        round_id: u64,
        record: UserRoundOutcome,
        told_side: u32,
    ) -> Step<()> {
        let told = self.emit(
            Event::OutcomeLoss {
                user: record.user,
                round_id,
                mode: record.round_mode,
                stake: record.stake,
                side: told_side,
                predicted_price: record.predicted_price,
            },
        );
        let counted = told.update_stats_loss(record.user);
        match counted.1 {
            Ok(_) => (counted.0.persist_outcome(round_id, record), Ok(())),
            Err(_) => counted,
        }
    }

    /// The settlement of participants' positions after the price went one way.
    pub open spec fn record_winnings(
        self,
        round_id: u64,
        users: Seq<Address>,
        winning_side: BetSide,
        winning_pool: i128,
        losing_pool: i128,
    ) -> Step<i128> {
        let split = self.split_fee_updown(round_id, winning_pool, losing_pool);
        if winning_pool == 0 {
            (self, Ok(0i128))
        } else {
            match split.1 {
                Err(e) => (split.0, Err(e)),
                Ok((from_winning, from_losing, fee)) => {
                    let distributable = from_winning + from_losing;
                    let settled = for_each(
                        split.0,
                        users,
                        settle_step(round_id, winning_side, winning_pool, distributable),
                    );
                    if !fits_i128(distributable) {
                        (split.0, Err(ContractError::PayoutOverflow))
                    } else {
                        match settled.1 {
                            Ok(_) => (settled.0, Ok(fee)),
                            Err(e) => (settled.0, Err(e)),
                        }
                    }
                },
            }
        }
    }

    /// The settlement of the older position list after the price went one way.
    pub open spec fn record_winnings_legacy(
        self,
        round_id: u64,
        entries: Seq<(Address, UserPosition)>,
        winning_side: BetSide,
        winning_pool: i128,
        losing_pool: i128,
    ) -> Step<i128> {
        let split = self.split_fee_updown(round_id, winning_pool, losing_pool);
        if winning_pool == 0 {
            (self, Ok(0i128))
        } else {
            match split.1 {
                Err(e) => (split.0, Err(e)),
                Ok((from_winning, from_losing, fee)) => {
                    let distributable = from_winning + from_losing;
                    let settled = for_each(
                        split.0,
                        entries,
                        settle_entry_step(round_id, winning_side, winning_pool, distributable),
                    );
                    if !fits_i128(distributable) {
                        (split.0, Err(ContractError::PayoutOverflow))
                    } else {
                        match settled.1 {
                            Ok(_) => (settled.0, Ok(fee)),
                            Err(e) => (settled.0, Err(e)),
                        }
                    }
                },
            }
        }
    }

    /// The settlement of a round on the direction of the price: whether only
    /// one side was bet on, and the fee. Where the price is what it was, or
    /// only one side was bet on, everybody gets the stake back.
    pub open spec fn resolve_updown(self, round: Round, price: u128) -> Step<(bool, i128)> {
        let one_sided = (round.pool_up == 0) != (round.pool_down == 0);
        let users = sorted_addresses(self.participants_of(round.round_id));
        let entries = match self.updown_legacy {
            Some(entries) => entries,
            None => Seq::empty(),
        };
        let refunded = if users.len() > 0 {
            for_each(self, users, refund_step(round.round_id, 0))
        } else {
            for_each(
                self,
                entries,
                refund_entry_step(round.round_id, UserOutcomeType::Refund),
            )
        };
        let (side, winning, losing) = if price > round.price_start {
            (BetSide::Up, round.pool_up, round.pool_down)
        } else {
            (BetSide::Down, round.pool_down, round.pool_up)
        };
        let settled = if users.len() > 0 {
            self.record_winnings(round.round_id, users, side, winning, losing)
        } else {
            self.record_winnings_legacy(round.round_id, entries, side, winning, losing)
        };
        if users.len() == 0 && entries.len() == 0 {
            (self, Ok((one_sided, 0i128)))
        } else if price == round.price_start || one_sided {
            match refunded.1 {
                Ok(_) => (refunded.0, Ok((one_sided, 0i128))),
                Err(e) => (refunded.0, Err(e)),
            }
        } else {
            match settled.1 {
                Ok(fee) => (settled.0, Ok((one_sided, fee))),
                Err(e) => (settled.0, Err(e)),
            }
        }
    }

    /// The stake of a participant in a round on the price, revealed or not.
    pub open spec fn precision_stake(self, round_id: u64, user: Address) -> i128 {
        match (
            self.predictions.get((round_id, user)),
            self.commitments.get((round_id, user)),
        ) {
            (Some(prediction), _) => prediction.amount,
            (None, Some(commitment)) => commitment.amount,
            (None, None) => 0,
        }
    }

    /// The stakes of participants in a round on the price.
    pub open spec fn precision_stakes(self, round_id: u64, users: Seq<Address>) -> Seq<i128> {
        users.map_values(|user: Address| self.precision_stake(round_id, user))
    }

    /// The predictions of participants, as far as they were revealed.
    pub open spec fn revealed(self, round_id: u64, users: Seq<Address>) -> Seq<
        Option<PrecisionPrediction>,
    > {
        users.map_values(|user: Address| self.predictions.get((round_id, user)))
    }

    /// The entries of participants in a round on the price.
    pub open spec fn precision_entries(
        self,
        round_id: u64,
        users: Seq<Address>,
        price: u128,
    ) -> Seq<PrecisionEntry> {
        Seq::new(
            users.len(),
            |i: int|
                (
                    users[i],
                    self.precision_stake(round_id, users[i]),
                    match self.predictions.get((round_id, users[i])) {
                        Some(prediction) => prediction.predicted_price,
                        None => 0,
                    },
                    is_closest(self.revealed(round_id, users), price, i),
                ),
        )
    }

    /// The payment of the winners of a round on the price, and of the fee.
    pub open spec fn pay_closest(
        self,
        round_id: u64,
        winners: Seq<PrecisionPrediction>,
        pot: i128,
    ) -> Step<i128> {
        let split = self.split_fee_precision(round_id, pot);
        match split.1 {
            Err(e) => (split.0, Err(e)),
            Ok((pool, fee)) => {
                let paid = for_each(split.0, shares(winners, pool), pay_step(round_id));
                match paid.1 {
                    Ok(_) => (paid.0, Ok(fee)),
                    Err(e) => (paid.0, Err(e)),
                }
            },
        }
    }

    /// The settlement of a round on the price, and the fee. The closest of the
    /// revealed predictions share the pot; where none was revealed, everybody
    /// gets the stake back.
    pub open spec fn resolve_precision(self, round_id: u64, price: u128) -> Step<i128> {
        let users = sorted_addresses(self.participants_of(round_id));
        let winners = closest(self.revealed(round_id, users), price);
        let entries = self.precision_entries(round_id, users, price);
        if users.len() == 0 {
            self.resolve_precision_legacy(
                round_id,
                match self.precision_legacy {
                    Some(entries) => entries,
                    None => Seq::empty(),
                },
                price,
            )
        } else {
            match running_total(self.precision_stakes(round_id, users)) {
                None => (self, Err(ContractError::PayoutOverflow)),
                Some(pot) => if pot <= 0 {
                    (self, Ok(0i128))
                } else if winners.len() == 0 {
                    let refunded = for_each(self, entries, give_back_step(round_id));
                    match refunded.1 {
                        Ok(_) => (refunded.0, Ok(0i128)),
                        Err(e) => (refunded.0, Err(e)),
                    }
                } else {
                    let paid = self.pay_closest(round_id, winners, pot as i128);
                    match paid.1 {
                        Err(_) => paid,
                        Ok(fee) => {
                            let lost = for_each(paid.0, entries, lose_step(round_id));
                            match lost.1 {
                                Ok(_) => (lost.0, Ok(fee)),
                                Err(e) => (lost.0, Err(e)),
                            }
                        },
                    }
                },
            }
        }
    }

    /// The settlement of the older list of predictions, and the fee.
    pub open spec fn resolve_precision_legacy(
        self,
        round_id: u64,
        entries: Seq<(Address, PrecisionPrediction)>,
        price: u128,
    ) -> Step<i128> {
        let predictions = entries.map_values(|entry: (Address, PrecisionPrediction)| entry.1);
        let stakes = predictions.map_values(|prediction: PrecisionPrediction| prediction.amount);
        let winners = closest(
            predictions.map_values(|prediction: PrecisionPrediction| Some(prediction)),
            price,
        );
        if entries.len() == 0 {
            (self, Ok(0i128))
        } else {
            match running_total(stakes) {
                None => (self, Err(ContractError::PayoutOverflow)),
                Some(pot) => if pot <= 0 {
                    (self, Ok(0i128))
                } else {
                    let paid = self.pay_closest(round_id, winners, pot as i128);
                    match paid.1 {
                        Err(_) => paid,
                        Ok(fee) => {
                            let lost = for_each(
                                paid.0,
                                predictions,
                                lose_legacy_step(round_id, winners),
                            );
                            match lost.1 {
                                Ok(_) => (lost.0, Ok(fee)),
                                Err(e) => (lost.0, Err(e)),
                            }
                        },
                    }
                },
            }
        }
    }

    /// The removal of all that users have entered for a round.
    pub open spec fn forget_entries(self, round_id: u64, users: Seq<Address>) -> MarketView {
        MarketView {
            positions: self.positions.remove_keys(entry_keys(round_id, users)),
            predictions: self.predictions.remove_keys(entry_keys(round_id, users)),
            commitments: self.commitments.remove_keys(entry_keys(round_id, users)),
            ..self
        }
    }

    /// The end of a round that was settled: nothing of it stays but what the
    /// archive keeps.
    pub open spec fn clear_round(self, round_id: u64, users: Seq<Address>) -> MarketView {
        let forgotten = self.forget_entries(round_id, users);
        MarketView {
            cells: Cells { active_round: None, legacy_positions: false, ..self.cells },
            participants: self.participants.remove(round_id),
            updown_legacy: None,
            precision_legacy: None,
            ..forgotten
        }
    }

    /// The older list of positions.
    pub open spec fn older_positions(self) -> Seq<(Address, UserPosition)> {
        match self.updown_legacy {
            Some(entries) => entries,
            None => Seq::empty(),
        }
    }

    /// The predictions of the older list.
    pub open spec fn older_predictions(self) -> Seq<PrecisionPrediction> {
        match self.precision_legacy {
            Some(entries) => entries.map_values(
                |entry: (Address, PrecisionPrediction)| entry.1,
            ),
            None => Seq::empty(),
        }
    }

    /// The refund of all stakes in a round that had too few participants. Where
    /// none is listed, the stakes are those of the older list.
    pub open spec fn refund_stakes(self, round: Round, users: Seq<Address>) -> Step<()> {
        let id = round.round_id;
        match (round.mode, users.len() == 0) {
            (RoundMode::UpDown, false) => for_each(self, users, refund_step(id, 0)),
            (RoundMode::Precision, false) => for_each(self, users, refund_stake_step(id)),
            (RoundMode::UpDown, true) => for_each(
                self,
                self.older_positions(),
                refund_entry_step(id, UserOutcomeType::Refund),
            ),
            (RoundMode::Precision, true) => for_each(
                self,
                self.older_predictions(),
                refund_prediction_step(id),
            ),
        }
    }

    /// The refund of all stakes in a cancelled round. Where no participant is
    /// listed, the stakes are those of the older list.
    pub open spec fn cancel_stakes(self, round: Round, users: Seq<Address>) -> Step<()> {
        let id = round.round_id;
        match (round.mode, users.len() == 0) {
            (RoundMode::UpDown, false) => for_each(self, users, cancel_position_step(id)),
            (RoundMode::Precision, false) => for_each(self, users, cancel_stake_step(id)),
            (RoundMode::UpDown, true) => for_each(
                self,
                self.older_positions(),
                refund_entry_step(id, UserOutcomeType::Cancel),
            ),
            (RoundMode::Precision, true) => for_each(
                self,
                self.older_predictions(),
                cancel_prediction_step(id),
            ),
        }
    }

    /// The refund of all stakes in a round that had too few participants, and
    /// its end.
    pub open spec fn refund_under_threshold(self, round: Round, users: Seq<Address>) -> Step<()> {
        let refunded = self.refund_stakes(round, users);
        match refunded.1 {
            Ok(_) => (refunded.0.clear_round(round.round_id, users), Ok(())),
            Err(_) => refunded,
        }
    }

    /// The cancellation of the active round: all stakes go back.
    pub open spec fn cancel_round(self, sequence: u32, reason: u32) -> Step<()> {
        let checked = self.require_supported_schema();
        if checked.1 is Err {
            (checked.0, Err(ContractError::UnsupportedSchemaVersion))
        } else {
            match (self.cells.admin, self.cells.active_round) {
                (None, _) => (checked.0, Err(ContractError::AdminNotSet)),
                (Some(admin), None) => (
                    checked.0.emit(
                        Event::ActionRejected {
                            actor: admin,
                            action: Action::Cancel,
                            error: ContractError::RoundNotCancellable,
                        },
                    ),
                    Err(ContractError::RoundNotCancellable),
                ),
                (Some(_), Some(round)) => checked.0.cancel_active(sequence, round, reason),
            }
        }
    }

    /// The cancellation of the given active round. An older list that was
    /// refunded is forgotten.
    pub open spec fn cancel_active(self, sequence: u32, round: Round, reason: u32) -> Step<()> {
        let users = self.participants_of(round.round_id);
        let refunded = self.cancel_stakes(round, users);
        let by_older_list = users.len() == 0;
        match refunded.1 {
            Err(_) => refunded,
            Ok(_) => {
                let archived = refunded.0.archive(
                    sequence,
                    round,
                    RoundArchiveStatus::Cancelled,
                    0,
                    users.len() as u32,
                    0,
                );
                (
                    MarketView {
                        cells: Cells { active_round: None, ..archived.cells },
                        participants: archived.participants.remove(round.round_id),
                        cancelled: archived.cancelled.insert(round.round_id, true),
                        updown_legacy: if by_older_list && round.mode == RoundMode::UpDown {
                            None
                        } else {
                            archived.updown_legacy
                        },
                        precision_legacy: if by_older_list && round.mode == RoundMode::Precision {
                            None
                        } else {
                            archived.precision_legacy
                        },
                        ..archived
                    }.emit(
                        Event::RoundCancelled {
                            round_id: round.round_id,
                            reason,
                            pool_up: round.pool_up,
                            pool_down: round.pool_down,
                        },
                    ),
                    Ok(()),
                )
            },
        }
    }

    /// The payment of a user's pending winnings into the user's balance.
    pub open spec fn claim_winnings(self, user: Address) -> Step<i128> {
        let checked = self.require_supported_schema();
        let running = checked.0.ensure_not_paused();
        let amount = self.pending_of(user);
        let balance = self.balance_of(user) + amount;
        if checked.1 is Err {
            (checked.0, Err(ContractError::UnsupportedSchemaVersion))
        } else if running.1 is Err {
            (running.0, Err(ContractError::ContractPaused))
        } else if amount == 0 {
            (running.0, Ok(0i128))
        } else if !fits_i128(balance) {
            (running.0, Err(ContractError::PayoutOverflow))
        } else {
            (
                MarketView { pending: self.pending.remove(user), ..running.0 }.set_balance(
                    user,
                    balance as i128,
                ).emit(Event::WinningsClaimed { user, amount }),
                Ok(amount),
            )
        }
    }

    /// The settlement of the active round by an oracle's report.
    pub open spec fn resolve_round(self, ctx: &LedgerContext, payload: OraclePayload) -> Step<()> {
        let checked = self.check_report(ctx, payload);
        match checked.1 {
            Err(e) => (checked.0, Err(e)),
            Ok(round) => checked.0.settle_round(ctx.sequence, round, payload),
        }
    }

    /// The settlement of a round by a report that has passed all checks: a
    /// refund where there are too few participants, the payment of the winners
    /// where there are enough.
    pub open spec fn settle_round(
        self,
        sequence: u32,
        round: Round,
        payload: OraclePayload,
    ) -> Step<()> {
        let count = self.participants_of(round.round_id).len() as u32;
        match self.cells.min_participants {
            Some(min) if count < min => self.fall_back(sequence, round, payload.price, min),
            _ => self.pay_round(sequence, round, payload),
        }
    }

    /// The refund of a round that had fewer participants than it needs.
    pub open spec fn fall_back(self, sequence: u32, round: Round, price: u128, min: u32) -> Step<
        (),
    > {
        let users = self.participants_of(round.round_id);
        let count = users.len() as u32;
        let refunded = self.archive(
            sequence,
            round,
            RoundArchiveStatus::FallbackRefund,
            price,
            count,
            0,
        ).refund_under_threshold(round, users);
        match refunded.1 {
            Ok(_) => (
                refunded.0.emit(Event::RoundFallback { round_id: round.round_id, count, min }),
                Ok(()),
            ),
            Err(_) => refunded,
        }
    }

    /// The payments of a round, by its mode, and the fee.
    pub open spec fn pay_by_mode(self, round: Round, price: u128) -> Step<i128> {
        match round.mode {
            RoundMode::Precision => self.resolve_precision(round.round_id, price),
            RoundMode::UpDown => {
                let settled = self.resolve_updown(round, price);
                match settled.1 {
                    Ok((true, fee)) => (
                        settled.0.emit(
                            Event::PoolOneSided {
                                round_id: round.round_id,
                                pool_up: round.pool_up,
                                pool_down: round.pool_down,
                            },
                        ),
                        Ok(fee),
                    ),
                    Ok((false, fee)) => (settled.0, Ok(fee)),
                    Err(e) => (settled.0, Err(e)),
                }
            },
        }
    }

    /// The settlement of a round with enough participants.
    pub open spec fn pay_round(
        self,
        sequence: u32,
        round: Round,
        payload: OraclePayload,
    ) -> Step<()> {
        let users = self.participants_of(round.round_id);
        let paid = self.pay_by_mode(round, payload.price);
        match paid.1 {
            Err(e) => (paid.0, Err(e)),
            Ok(fee) => (
                paid.0.archive(
                    sequence,
                    round,
                    RoundArchiveStatus::Resolved,
                    payload.price,
                    users.len() as u32,
                    fee,
                ).clear_round(round.round_id, users).emit(
                    Event::RoundResolved {
                        round_id: round.round_id,
                        price: payload.price,
                        mode: round.mode.number(),
                        confidence: payload.confidence,
                    },
                ),
                Ok(()),
            ),
        }
    }
}

} // verus!
