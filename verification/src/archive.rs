//! The archive of rounds that have left the market.

use vstd::prelude::*;
use soroban_sdk::Env;
use crate::contract::{fits_i128, VirtualTokenContract};
use crate::host::{AddressList, IdList, PredictionMap};
use crate::market::Market;
use crate::model::MarketView;
use crate::precision::precision_stake;
use crate::types::{
    Address, ArchivedRoundSummary, Event, PrecisionPrediction, Round, RoundArchiveStatus, RoundMode,
};

verus! {

/// The number of archived rounds that are kept unless configured.
pub const DEFAULT_ARCHIVE_RETENTION: u32 = 128;

/// The sum of stakes, without those that would take it out of the type `i128`.
pub open spec fn lenient_total(stakes: Seq<i128>) -> int
    decreases stakes.len(),
{
    if stakes.len() == 0 {
        0
    } else {
        let before = lenient_total(stakes.drop_last());
        if fits_i128(before + stakes.last()) {
            before + stakes.last()
        } else {
            before
        }
    }
}

impl MarketView {
    /// The number of archived rounds that are kept.
    pub open spec fn retention(self) -> u32 {
        match self.cells.archive_retention {
            Some(limit) => limit,
            None => DEFAULT_ARCHIVE_RETENTION,
        }
    }

    /// The numbers of the archived rounds, from the oldest on.
    pub open spec fn recent_ids(self) -> Seq<u64> {
        match self.recent {
            Some(ids) => ids,
            None => Seq::empty(),
        }
    }

    /// The pot of a round, as far as it can still be told.
    pub open spec fn round_pot(self, round: Round) -> int {
        let users = self.participants_of(round.round_id);
        match round.mode {
            RoundMode::UpDown => if fits_i128(round.pool_up + round.pool_down) {
                round.pool_up + round.pool_down
            } else {
                0
            },
            RoundMode::Precision => if users.len() > 0 {
                lenient_total(self.precision_stakes(round.round_id, users))
            } else {
                match self.precision_legacy {
                    Some(entries) => lenient_total(
                        entries.map_values(|entry: (Address, PrecisionPrediction)| entry.1.amount),
                    ),
                    None => 0,
                }
            },
        }
    }

    /// The removal of rounds from the archive, one after the other.
    pub open spec fn prune(self, ids: Seq<u64>) -> MarketView
        decreases ids.len(),
    {
        if ids.len() == 0 {
            self
        } else {
            let before = self.prune(ids.drop_last());
            MarketView { archived: before.archived.remove(ids.last()), ..before }.emit(
                Event::ArchivePruned { round_id: ids.last(), retention_limit: self.retention() },
            )
        }
    }

    /// The record of a round in the archive, of which the outside is told.
    pub open spec fn store_summary(
        self,
        sequence: u32,
        round: Round,
        status: RoundArchiveStatus,
        final_price: u128,
        participant_count: u32,
        fee_amount: i128,
    ) -> MarketView {
        let summary = ArchivedRoundSummary {
            round_id: round.round_id,
            price_start: round.price_start,
            price_final: final_price,
            mode: round.mode,
            status,
            pool_up: round.pool_up,
            pool_down: round.pool_down,
            participant_count,
            settled_at_ledger: sequence,
        };
        MarketView { archived: self.archived.insert(round.round_id, summary), ..self }.emit(
            Event::RoundSummary {
                round_id: round.round_id,
                mode: round.mode.number(),
                price_start: round.price_start,
                price_final: final_price,
                participant_count,
                total_pot: self.round_pot(round) as i128,
                fee_amount,
                status: status.number(),
            },
        )
    }

    /// The numbers of the archived rounds with one more, out of which the
    /// oldest go where there are too many.
    pub open spec fn enlist(self, round_id: u64) -> MarketView {
        let ids = self.recent_ids().push(round_id);
        let excess = if ids.len() > self.retention() {
            ids.len() - self.retention()
        } else {
            0
        };
        MarketView { recent: Some(ids.skip(excess)), ..self.prune(ids.take(excess)) }
    }

    /// The entry of a round into the archive.
    pub open spec fn archive(
        self,
        sequence: u32,
        round: Round,
        status: RoundArchiveStatus,
        final_price: u128,
        participant_count: u32,
        fee_amount: i128,
    ) -> MarketView {
        self.store_summary(
            sequence,
            round,
            status,
            final_price,
            participant_count,
            fee_amount,
        ).enlist(round.round_id)
    }
}

/// Adds a stake to a sum, unless the sum would leave the type `i128`.
fn add_stake(total: i128, amount: i128) -> (sum: i128)
    ensures
        sum == (if fits_i128(total + amount) {
            total + amount
        } else {
            total as int
        }),
{
    match total.checked_add(amount) {
        Some(sum) => sum,
        None => total,
    }
}

/// Returns the pot of a round, as far as it can still be told.
fn round_pot(env: &Env, market: &Market, round: &Round) -> (pot: i128)
    ensures
        pot == market@.round_pot(*round),
{
    match round.mode {
        RoundMode::UpDown => match round.pool_up.checked_add(round.pool_down) {
            Some(sum) => sum,
            None => 0,
        },
        RoundMode::Precision => {
            let participants = market.participants_of(env, round.round_id);
            if participants.len() > 0 {
                stakes_total(market, round.round_id, &participants)
            } else {
                match &market.precision_legacy {
                    Some(entries) => amounts_total(entries),
                    None => 0,
                }
            }
        },
    }
}

/// Adds up the stakes of participants in a round on the price.
fn stakes_total(market: &Market, round_id: u64, participants: &AddressList) -> (total: i128)
    ensures
        total == lenient_total(market@.precision_stakes(round_id, participants@)),
{
    let ghost stakes = market@.precision_stakes(round_id, participants@);
    let mut total: i128 = 0;
    let count: u32 = participants.len();
    let mut i: u32 = 0;
    while i < count
        invariant
            i <= count == participants@.len(),
            stakes == market@.precision_stakes(round_id, participants@),
            total == lenient_total(stakes.take(i as int)),
        decreases count - i,
    {
        if let Some(user) = participants.get(i) {
            total = add_stake(total, precision_stake(market, round_id, user));
        }
        proof {
            assert(stakes.take(i + 1).drop_last() =~= stakes.take(i as int));
            assert(stakes.take(i + 1).last() == stakes[i as int]);
        }
        i = i + 1;
    }
    proof {
        assert(stakes.take(i as int) =~= stakes);
    }
    total
}

/// Adds up the stakes of the older list of predictions.
fn amounts_total(entries: &PredictionMap) -> (total: i128)
    ensures
        total == lenient_total(
            entries@.map_values(|entry: (Address, PrecisionPrediction)| entry.1.amount),
        ),
{
    let ghost stakes = entries@.map_values(
        |entry: (Address, PrecisionPrediction)| entry.1.amount,
    );
    let predictions = entries.values();
    let count: u32 = predictions.len();
    let mut total: i128 = 0;
    let mut i: u32 = 0;
    while i < count
        invariant
            i <= count == entries@.len() == predictions@.len(),
            predictions@ == entries@.map_values(
                |entry: (Address, PrecisionPrediction)| entry.1,
            ),
            stakes == entries@.map_values(
                |entry: (Address, PrecisionPrediction)| entry.1.amount,
            ),
            total == lenient_total(stakes.take(i as int)),
        decreases count - i,
    {
        if let Some(prediction) = predictions.get(i) {
            total = add_stake(total, prediction.amount);
        }
        proof {
            assert(stakes.take(i + 1).drop_last() =~= stakes.take(i as int));
            assert(stakes.take(i + 1).last() == stakes[i as int]);
        }
        i = i + 1;
    }
    proof {
        assert(stakes.take(i as int) =~= stakes);
    }
    total
}

/// Copies a host list without its first item.
fn without_first(env: &Env, ids: &IdList) -> (trimmed: IdList)
    requires
        ids@.len() > 0,
    ensures
        trimmed@ == ids@.skip(1),
{
    let mut trimmed = IdList::new(env);
    let length: u32 = ids.len();
    let mut i: u32 = 1;
    while i < length
        invariant
            1 <= i <= length == ids@.len(),
            trimmed@ == ids@.subrange(1, i as int),
        decreases length - i,
    {
        if let Some(id) = ids.get(i) {
            trimmed.push_back(id);
        }
        i = i + 1;
        proof {
            assert(ids@.subrange(1, i as int) =~= ids@.subrange(1, i - 1).push(ids@[i - 1]));
        }
    }
    proof {
        assert(ids@.subrange(1, i as int) =~= ids@.skip(1));
    }
    trimmed
}

/// Enters a round into the archive.
pub fn _archive_round(
    env: &Env,
    market: &mut Market,
    sequence: u32,
    round: &Round,
    status: RoundArchiveStatus,
    final_price: u128,
    participant_count: u32,
    fee_amount: i128,
)
    requires
        old(market)@.recent_ids().len() < u32::MAX,
    ensures
        final(market)@ == old(market)@.archive(
            sequence,
            *round,
            status,
            final_price,
            participant_count,
            fee_amount,
        ),
{
    let total_pot: i128 = round_pot(env, market, round);
    let summary = ArchivedRoundSummary {
        round_id: round.round_id,
        price_start: round.price_start,
        price_final: final_price,
        mode: round.mode,
        status,
        pool_up: round.pool_up,
        pool_down: round.pool_down,
        participant_count,
        settled_at_ledger: sequence,
    };
    market.archived.insert(round.round_id, summary);
    market.emit(
        Event::RoundSummary {
            round_id: round.round_id,
            mode: round.mode.to_number(),
            price_start: round.price_start,
            price_final: final_price,
            participant_count,
            total_pot,
            fee_amount,
            status: status.to_number(),
        },
    );
    let ghost stored = market@;
    let mut recent: IdList = match market.recent.take() {
        Some(ids) => ids,
        None => IdList::new(env),
    };
    recent.push_back(round.round_id);
    let ghost ids = recent@;
    let retention_limit: u32 = VirtualTokenContract::get_archive_retention(market);
    let ghost mut dropped: int = 0;
    proof {
        assert(ids.take(0) =~= Seq::empty());
        assert(ids.skip(0) =~= ids);
    }
    while recent.len() > retention_limit
        invariant
            0 <= dropped <= ids.len(),
            dropped > 0 ==> ids.len() - dropped >= retention_limit,
            retention_limit == stored.retention(),
            recent@ == ids.skip(dropped),
            market@ == (MarketView { recent: None, ..stored.prune(ids.take(dropped)) }),
        decreases recent@.len(),
    {
        if let Some(oldest) = recent.get(0) {
            market.archived.remove(&oldest);
            market.emit(Event::ArchivePruned { round_id: oldest, retention_limit });
        }
        recent = without_first(env, &recent);
        proof {
            assert(ids.skip(dropped).skip(1) =~= ids.skip(dropped + 1));
            assert(ids.take(dropped + 1).drop_last() =~= ids.take(dropped));
            assert(ids.take(dropped + 1).last() == ids[dropped]);
            dropped = dropped + 1;
        }
    }
    market.recent = Some(recent);
}

} // verus!
