//! The market's storage as mathematics sees it.

use vstd::prelude::*;
use crate::errors::ContractError;
use crate::types::{
    Address, ArchivedRoundSummary, DataKey, Event, OracleRotationProposal, PrecisionCommitment,
    PrecisionPrediction, Round, RuntimeMode, UserPosition, UserRoundOutcome, UserStats,
};

verus! {

/// The entries of the storage that stand alone. An entry that is not there is
/// `None`; `legacy_positions` tells whether the oldest form of the position
/// list is still there.
#[derive(Clone, Copy, Debug, PartialEq, Eq)]
pub struct Cells {
    pub schema_version: Option<u32>,
    pub admin: Option<Address>,
    pub oracle: Option<Address>,
    pub paused: Option<RuntimeMode>,
    pub active_round: Option<Round>,
    pub rotation: Option<OracleRotationProposal>,
    pub max_deviation_bps: Option<u32>,
    pub deviation_override_armed: Option<bool>,
    pub min_confidence_bps: Option<u32>,
    pub strict_mode: Option<bool>,
    pub min_participants: Option<u32>,
    pub max_pending_winnings: Option<i128>,
    pub protocol_fee_bps: Option<u32>,
    pub protocol_fee_treasury: Option<i128>,
    pub archive_retention: Option<u32>,
    pub legacy_positions: bool,
}

/// The whole storage, the events that were published, and the entries whose
/// time to live was extended, both in their order.
#[verifier::ext_equal]
pub struct MarketView {
    pub cells: Cells,
    pub participants: Map<u64, Seq<Address>>,
    pub positions: Map<(u64, Address), UserPosition>,
    pub predictions: Map<(u64, Address), PrecisionPrediction>,
    pub commitments: Map<(u64, Address), PrecisionCommitment>,
    pub nonces: Map<(u64, u64), bool>,
    pub archived: Map<u64, ArchivedRoundSummary>,
    pub recent: Option<Seq<u64>>,
    pub cancelled: Map<u64, bool>,
    pub outcomes: Map<(u64, Address), UserRoundOutcome>,
    pub balances: Map<Address, i128>,
    pub pending: Map<Address, i128>,
    pub stats: Map<Address, UserStats>,
    pub updown_legacy: Option<Seq<(Address, UserPosition)>>,
    pub precision_legacy: Option<Seq<(Address, PrecisionPrediction)>>,
    pub events: Seq<Event>,
    pub extended: Seq<DataKey>,
}

/// What a step leaves behind, and whether it was refused.
pub type Step<T> = (MarketView, Result<T, ContractError>);

/// The keys of a list of entries stand in ascending order, each once.
pub open spec fn keys_ascend<V>(entries: Seq<(Address, V)>) -> bool {
    forall|i: int, j: int|
        0 <= i < j < entries.len() ==> (#[trigger] entries[i]).0 != (#[trigger] entries[j]).0
            && entries[i].0.at_or_before(entries[j].0)
}

impl MarketView {
    /// What holds of every state of the market: the pools of the active round
    /// are not negative, the archive's list has room for one more round, and the
    /// older forms of the position lists are in the order of their keys.
    pub open spec fn wf(self) -> bool {
        &&& self.cells.active_round matches Some(round) ==> round.wf()
        &&& self.cells.archive_retention matches Some(limit) ==> limit < u32::MAX
        &&& self.recent matches Some(ids) ==> ids.len() < u32::MAX
        &&& self.updown_legacy matches Some(entries) ==> keys_ascend(entries)
        &&& self.precision_legacy matches Some(entries) ==> keys_ascend(entries)
    }

    /// There is an entry under the key.
    pub open spec fn has(self, key: DataKey) -> bool {
        match key {
            DataKey::SchemaVersion => self.cells.schema_version is Some,
            DataKey::Admin => self.cells.admin is Some,
            DataKey::Oracle => self.cells.oracle is Some,
            DataKey::Paused => self.cells.paused is Some,
            DataKey::ActiveRound => self.cells.active_round is Some,
            DataKey::OracleRotationProposal => self.cells.rotation is Some,
            DataKey::OracleMaxDeviationBps => self.cells.max_deviation_bps is Some,
            DataKey::OracleDeviationOverrideArmed => self.cells.deviation_override_armed is Some,
            DataKey::OracleMinConfidenceBps => self.cells.min_confidence_bps is Some,
            DataKey::OracleStrictMode => self.cells.strict_mode is Some,
            DataKey::MinParticipants => self.cells.min_participants is Some,
            DataKey::MaxPendingWinnings => self.cells.max_pending_winnings is Some,
            DataKey::ProtocolFeeBps => self.cells.protocol_fee_bps is Some,
            DataKey::ProtocolFeeTreasury => self.cells.protocol_fee_treasury is Some,
            DataKey::ArchiveRetention => self.cells.archive_retention is Some,
            DataKey::RecentArchivedRoundIds => self.recent is Some,
            DataKey::Positions => self.cells.legacy_positions,
            DataKey::UpDownPositions => self.updown_legacy is Some,
            DataKey::PrecisionPositions => self.precision_legacy is Some,
            DataKey::RoundParticipants(id) => self.participants.dom().contains(id),
            DataKey::Position(id, user) => self.positions.dom().contains((id, user)),
            DataKey::PrecisionPosition(id, user) => self.predictions.dom().contains((id, user)),
            DataKey::PrecisionCommitment(id, user) => self.commitments.dom().contains((id, user)),
            DataKey::ConsumedOracleNonce(id, nonce) => self.nonces.dom().contains((id, nonce)),
            DataKey::ArchivedRound(id) => self.archived.dom().contains(id),
            DataKey::CancelledRound(id) => self.cancelled.dom().contains(id),
            DataKey::UserRoundOutcome(id, user) => self.outcomes.dom().contains((id, user)),
            DataKey::Balance(user) => self.balances.dom().contains(user),
            DataKey::PendingWinnings(user) => self.pending.dom().contains(user),
            DataKey::UserStats(user) => self.stats.dom().contains(user),
        }
    }

    /// The state after an event was published.
    pub open spec fn emit(self, event: Event) -> MarketView {
        MarketView { events: self.events.push(event), ..self }
    }

    /// The state after the entry's time to live was extended, if it is there.
    pub open spec fn extend(self, key: DataKey) -> MarketView {
        if self.has(key) {
            MarketView { extended: self.extended.push(key), ..self }
        } else {
            self
        }
    }

    /// The state with other stand-alone entries.
    pub open spec fn with_cells(self, cells: Cells) -> MarketView {
        MarketView { cells, ..self }
    }

    /// The pending winnings of a user: nothing unless recorded.
    pub open spec fn pending_of(self, user: Address) -> i128 {
        match self.pending.get(user) {
            Some(amount) => amount,
            None => 0,
        }
    }

    /// The balance of a user: nothing unless recorded.
    pub open spec fn balance_of(self, user: Address) -> i128 {
        match self.balances.get(user) {
            Some(amount) => amount,
            None => 0,
        }
    }

    /// The record of a user: a blank one unless recorded.
    pub open spec fn stats_of(self, user: Address) -> UserStats {
        match self.stats.get(user) {
            Some(stats) => stats,
            None => UserStats {
                total_wins: 0,
                total_losses: 0,
                current_streak: 0,
                best_streak: 0,
            },
        }
    }

    /// The participants of a round: nobody unless recorded.
    pub open spec fn participants_of(self, round_id: u64) -> Seq<Address> {
        match self.participants.get(round_id) {
            Some(users) => users,
            None => Seq::empty(),
        }
    }

    /// The amount in the protocol fee treasury: nothing unless recorded.
    pub open spec fn treasury(self) -> i128 {
        match self.cells.protocol_fee_treasury {
            Some(amount) => amount,
            None => 0,
        }
    }

    /// The runtime mode: normal unless recorded.
    pub open spec fn mode(self) -> RuntimeMode {
        match self.cells.paused {
            Some(mode) => mode,
            None => RuntimeMode::Normal,
        }
    }

    /// The schema version: the first one unless recorded.
    pub open spec fn schema_version(self) -> u32 {
        match self.cells.schema_version {
            Some(version) => version,
            None => 1,
        }
    }
}

/// A step that was not refused.
pub open spec fn done(market: MarketView) -> Step<()> {
    (market, Ok(()))
}

/// Takes a step for each item in turn, and stops at the first refusal.
pub open spec fn for_each<T>(
    market: MarketView,
    items: Seq<T>,
    step: spec_fn(MarketView, T) -> Step<()>,
) -> Step<()>
    decreases items.len(),
{
    if items.len() == 0 {
        (market, Ok(()))
    } else {
        let before = for_each(market, items.drop_last(), step);
        match before.1 {
            Ok(_) => step(before.0, items.last()),
            Err(_) => before,
        }
    }
}

/// One more item: the step for it is taken where none was refused before.
pub proof fn lemma_for_each_next<T>(
    market: MarketView,
    items: Seq<T>,
    step: spec_fn(MarketView, T) -> Step<()>,
    at: int,
)
    requires
        0 <= at < items.len(),
    ensures
        ({
            let before = for_each(market, items.take(at), step);
            for_each(market, items.take(at + 1), step) == (match before.1 {
                Ok(_) => step(before.0, items[at]),
                Err(_) => before,
            })
        }),
{
    assert(items.take(at + 1).drop_last() =~= items.take(at));
    assert(items.take(at + 1).last() == items[at]);
}

/// A refusal among the first items is the answer for all of them.
pub proof fn lemma_for_each_refused<T>(
    market: MarketView,
    items: Seq<T>,
    step: spec_fn(MarketView, T) -> Step<()>,
    at: int,
)
    requires
        0 <= at <= items.len(),
        for_each(market, items.take(at), step).1 is Err,
    ensures
        for_each(market, items, step) == for_each(market, items.take(at), step),
    decreases items.len() - at,
{
    if at == items.len() {
        assert(items.take(at) =~= items);
    } else {
        lemma_for_each_next(market, items, step, at);
        lemma_for_each_refused(market, items, step, at + 1);
    }
}

/// A property that each step keeps is kept by all of them.
pub proof fn lemma_for_each_keeps<T>(
    market: MarketView,
    items: Seq<T>,
    step: spec_fn(MarketView, T) -> Step<()>,
    property: spec_fn(MarketView) -> bool,
)
    requires
        property(market),
        forall|m: MarketView, item: T| property(m) ==> property((#[trigger] step(m, item)).0),
    ensures
        property(for_each(market, items, step).0),
    decreases items.len(),
{
    if items.len() > 0 {
        lemma_for_each_keeps(market, items.drop_last(), step, property);
    }
}

} // verus!
