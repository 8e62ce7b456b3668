//! The market's storage.

use vstd::prelude::*;
use soroban_sdk::Env;
use crate::host::{AddressList, IdList, PositionMap, PredictionMap};
use crate::model::{Cells, MarketView};
use crate::table::Table;
use crate::types::{
    Address, ArchivedRoundSummary, Bytes32, DataKey, Event, PrecisionCommitment,
    PrecisionPrediction, UserPosition, UserRoundOutcome, UserStats,
};

verus! {

/// What the ledger says of the present call: where and when it runs, and which
/// addresses have authorized it.
pub struct LedgerContext {
    pub sequence: u32,
    pub timestamp: u64,
    pub network_id: Bytes32,
    pub contract: Address,
    pub authorized: Vec<Address>,
}

impl LedgerContext {
    /// The address has authorized the call.
    pub open spec fn has_auth(&self, address: Address) -> bool {
        self.authorized@.contains(address)
    }
}

/// The storage of the market, the events that it has published and the entries
/// whose time to live it has extended.
pub struct Market {
    pub cells: Cells,
    pub participants: Table<u64, AddressList>,
    pub positions: Table<(u64, Address), UserPosition>,
    pub predictions: Table<(u64, Address), PrecisionPrediction>,
    pub commitments: Table<(u64, Address), PrecisionCommitment>,
    pub nonces: Table<(u64, u64), bool>,
    pub archived: Table<u64, ArchivedRoundSummary>,
    pub recent: Option<IdList>,
    pub cancelled: Table<u64, bool>,
    pub outcomes: Table<(u64, Address), UserRoundOutcome>,
    pub balances: Table<Address, i128>,
    pub pending: Table<Address, i128>,
    pub stats: Table<Address, UserStats>,
    pub updown_legacy: Option<PositionMap>,
    pub precision_legacy: Option<PredictionMap>,
    pub events: Vec<Event>,
    pub extended: Vec<DataKey>,
}

impl View for Market {
    type V = MarketView;

    open spec fn view(&self) -> MarketView {
        MarketView {
            cells: self.cells,
            participants: self.participants@.map_values(|users: AddressList| users@),
            positions: self.positions@,
            predictions: self.predictions@,
            commitments: self.commitments@,
            nonces: self.nonces@,
            archived: self.archived@,
            recent: match self.recent {
                Some(ids) => Some(ids@),
                None => None,
            },
            cancelled: self.cancelled@,
            outcomes: self.outcomes@,
            balances: self.balances@,
            pending: self.pending@,
            stats: self.stats@,
            updown_legacy: match self.updown_legacy {
                Some(entries) => Some(entries@),
                None => None,
            },
            precision_legacy: match self.precision_legacy {
                Some(entries) => Some(entries@),
                None => None,
            },
            events: self.events@,
            extended: self.extended@,
        }
    }
}

impl Market {
    /// Makes a market whose storage is empty.
    pub fn new() -> (market: Market)
        ensures
            market@.wf(),
            market@ == (MarketView {
                cells: Cells {
                    schema_version: None,
                    admin: None,
                    oracle: None,
                    paused: None,
                    active_round: None,
                    rotation: None,
                    max_deviation_bps: None,
                    deviation_override_armed: None,
                    min_confidence_bps: None,
                    strict_mode: None,
                    min_participants: None,
                    max_pending_winnings: None,
                    protocol_fee_bps: None,
                    protocol_fee_treasury: None,
                    archive_retention: None,
                    legacy_positions: false,
                },
                participants: Map::empty(),
                positions: Map::empty(),
                predictions: Map::empty(),
                commitments: Map::empty(),
                nonces: Map::empty(),
                archived: Map::empty(),
                recent: None,
                cancelled: Map::empty(),
                outcomes: Map::empty(),
                balances: Map::empty(),
                pending: Map::empty(),
                stats: Map::empty(),
                updown_legacy: None,
                precision_legacy: None,
                events: Seq::empty(),
                extended: Seq::empty(),
            }),
    {
        Market {
            cells: Cells {
                schema_version: None,
                admin: None,
                oracle: None,
                paused: None,
                active_round: None,
                rotation: None,
                max_deviation_bps: None,
                deviation_override_armed: None,
                min_confidence_bps: None,
                strict_mode: None,
                min_participants: None,
                max_pending_winnings: None,
                protocol_fee_bps: None,
                protocol_fee_treasury: None,
                archive_retention: None,
                legacy_positions: false,
            },
            participants: Table::new(),
            positions: Table::new(),
            predictions: Table::new(),
            commitments: Table::new(),
            nonces: Table::new(),
            archived: Table::new(),
            recent: None,
            cancelled: Table::new(),
            outcomes: Table::new(),
            balances: Table::new(),
            pending: Table::new(),
            stats: Table::new(),
            updown_legacy: None,
            precision_legacy: None,
            events: Vec::new(),
            extended: Vec::new(),
        }
    }

    /// Tells whether there is an entry under the key.
    pub fn has(&self, key: &DataKey) -> (result: bool)
        ensures
            result == self@.has(*key),
    {
        match *key {
            DataKey::SchemaVersion => self.cells.schema_version.is_some(),
            DataKey::Admin => self.cells.admin.is_some(),
            DataKey::Oracle => self.cells.oracle.is_some(),
            DataKey::Paused => self.cells.paused.is_some(),
            DataKey::ActiveRound => self.cells.active_round.is_some(),
            DataKey::OracleRotationProposal => self.cells.rotation.is_some(),
            DataKey::OracleMaxDeviationBps => self.cells.max_deviation_bps.is_some(),
            DataKey::OracleDeviationOverrideArmed => {
                self.cells.deviation_override_armed.is_some()
            },
            DataKey::OracleMinConfidenceBps => self.cells.min_confidence_bps.is_some(),
            DataKey::OracleStrictMode => self.cells.strict_mode.is_some(),
            DataKey::MinParticipants => self.cells.min_participants.is_some(),
            DataKey::MaxPendingWinnings => self.cells.max_pending_winnings.is_some(),
            DataKey::ProtocolFeeBps => self.cells.protocol_fee_bps.is_some(),
            DataKey::ProtocolFeeTreasury => self.cells.protocol_fee_treasury.is_some(),
            DataKey::ArchiveRetention => self.cells.archive_retention.is_some(),
            DataKey::RecentArchivedRoundIds => self.recent.is_some(),
            DataKey::Positions => self.cells.legacy_positions,
            DataKey::UpDownPositions => self.updown_legacy.is_some(),
            DataKey::PrecisionPositions => self.precision_legacy.is_some(),
            DataKey::RoundParticipants(id) => self.participants.has(&id),
            DataKey::Position(id, user) => self.positions.has(&(id, user)),
            DataKey::PrecisionPosition(id, user) => self.predictions.has(&(id, user)),
            DataKey::PrecisionCommitment(id, user) => self.commitments.has(&(id, user)),
            DataKey::ConsumedOracleNonce(id, nonce) => self.nonces.has(&(id, nonce)),
            DataKey::ArchivedRound(id) => self.archived.has(&id),
            DataKey::CancelledRound(id) => self.cancelled.has(&id),
            DataKey::UserRoundOutcome(id, user) => self.outcomes.has(&(id, user)),
            DataKey::Balance(user) => self.balances.has(&user),
            DataKey::PendingWinnings(user) => self.pending.has(&user),
            DataKey::UserStats(user) => self.stats.has(&user),
        }
    }

    /// Publishes an event.
    pub fn emit(&mut self, event: Event)
        ensures
            final(self)@ == old(self)@.emit(event),
    {
        self.events.push(event);
    }

    /// Returns a copy of the participants of a round.
    pub fn participants_of(&self, env: &Env, round_id: u64) -> (users: AddressList)
        ensures
            users@ == self@.participants_of(round_id),
    {
        match self.participants.get(&round_id) {
            Some(users) => users.copy(),
            None => AddressList::new(env),
        }
    }

    /// Records who took part in a round.
    pub fn set_participants(&mut self, round_id: u64, users: AddressList)
        ensures
            final(self)@ == (MarketView {
                participants: old(self)@.participants.insert(round_id, users@),
                ..old(self)@
            }),
    {
        let ghost listed = users@;
        self.participants.insert(round_id, users);
        proof {
            assert(self@.participants =~= old(self)@.participants.insert(round_id, listed));
        }
    }

    /// Forgets who took part in a round.
    pub fn remove_participants(&mut self, round_id: u64)
        ensures
            final(self)@ == (MarketView {
                participants: old(self)@.participants.remove(round_id),
                ..old(self)@
            }),
    {
        self.participants.remove(&round_id);
        proof {
            assert(self@.participants =~= old(self)@.participants.remove(round_id));
        }
    }
}

} // verus!
