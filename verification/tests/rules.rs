//! The rules that configurations are held to, and the storage they stand in.

use xlm_prediction_market::contract::VirtualTokenContract;
use xlm_prediction_market::errors::ContractError;
use xlm_prediction_market::market::Market;
use xlm_prediction_market::table::Table;
use xlm_prediction_market::types::{
    Address, DataKey, Round, RoundMode, RoundPhase, RuntimeMode,
};

const USER: Address = Address { kind: 0, high: 5, low: 6 };

#[test]
fn windows_are_held_to_their_limits() {
    assert_eq!(VirtualTokenContract::_validate_windows(6, 12), Ok(()));
    assert_eq!(VirtualTokenContract::_validate_windows(1_440, 2_880), Ok(()));
    assert_eq!(
        VirtualTokenContract::_validate_windows(0, 12),
        Err(ContractError::InvalidDuration)
    );
    assert_eq!(
        VirtualTokenContract::_validate_windows(6, 0),
        Err(ContractError::InvalidDuration)
    );
    assert_eq!(
        VirtualTokenContract::_validate_windows(12, 12),
        Err(ContractError::InvalidDuration)
    );
    assert_eq!(
        VirtualTokenContract::_validate_windows(1_441, 2_880),
        Err(ContractError::WindowOutOfRange)
    );
    assert_eq!(
        VirtualTokenContract::_validate_windows(6, 2_881),
        Err(ContractError::WindowOutOfRange)
    );
}

#[test]
fn caps_on_stakes_are_positive() {
    assert_eq!(VirtualTokenContract::_validate_max_stake(None), Ok(()));
    assert_eq!(VirtualTokenContract::_validate_max_stake(Some(1)), Ok(()));
    assert_eq!(
        VirtualTokenContract::_validate_max_stake(Some(0)),
        Err(ContractError::InvalidBetAmount)
    );
}

#[test]
fn stale_thresholds_are_held_to_their_limits() {
    assert_eq!(VirtualTokenContract::_validate_oracle_stale_threshold(60), Ok(()));
    assert_eq!(VirtualTokenContract::_validate_oracle_stale_threshold(86_400), Ok(()));
    assert_eq!(
        VirtualTokenContract::_validate_oracle_stale_threshold(59),
        Err(ContractError::InvalidDuration)
    );
    assert_eq!(
        VirtualTokenContract::_validate_oracle_stale_threshold(86_401),
        Err(ContractError::InvalidDuration)
    );
}

#[test]
fn deviation_limits_are_held_to_their_limits() {
    assert_eq!(VirtualTokenContract::_validate_oracle_max_deviation_bps(None), Ok(()));
    assert_eq!(VirtualTokenContract::_validate_oracle_max_deviation_bps(Some(100_000)), Ok(()));
    assert_eq!(
        VirtualTokenContract::_validate_oracle_max_deviation_bps(Some(0)),
        Err(ContractError::WindowOutOfRange)
    );
    assert_eq!(
        VirtualTokenContract::_validate_oracle_max_deviation_bps(Some(100_001)),
        Err(ContractError::WindowOutOfRange)
    );
}

#[test]
fn fees_are_held_to_their_cap() {
    assert_eq!(VirtualTokenContract::_validate_protocol_fee_bps(None), Ok(()));
    assert_eq!(VirtualTokenContract::_validate_protocol_fee_bps(Some(1)), Ok(()));
    assert_eq!(VirtualTokenContract::_validate_protocol_fee_bps(Some(1_000)), Ok(()));
    assert_eq!(
        VirtualTokenContract::_validate_protocol_fee_bps(Some(0)),
        Err(ContractError::InvalidProtocolFeeBps)
    );
    assert_eq!(
        VirtualTokenContract::_validate_protocol_fee_bps(Some(1_001)),
        Err(ContractError::InvalidProtocolFeeBps)
    );
}

#[test]
fn schemas_are_known_up_to_the_present_one() {
    let mut market = Market::new();
    assert_eq!(VirtualTokenContract::get_schema_version(&market), 1);
    assert_eq!(VirtualTokenContract::_require_supported_schema(&mut market), Ok(1));
    market.cells.schema_version = Some(3);
    assert_eq!(VirtualTokenContract::get_schema_version(&market), 3);
    assert_eq!(VirtualTokenContract::_require_supported_schema(&mut market), Ok(3));
    assert_eq!(market.extended, vec![DataKey::SchemaVersion]);
    market.cells.schema_version = Some(4);
    assert_eq!(
        VirtualTokenContract::_require_supported_schema(&mut market),
        Err(ContractError::UnsupportedSchemaVersion)
    );
    market.cells.schema_version = Some(0);
    assert_eq!(
        VirtualTokenContract::_require_supported_schema(&mut market),
        Err(ContractError::UnsupportedSchemaVersion)
    );
}

#[test]
fn only_entries_that_are_there_live_longer() {
    let mut market = Market::new();
    VirtualTokenContract::_extend_persistent_ttl(&mut market, &DataKey::Balance(USER));
    assert_eq!(market.extended, Vec::new());
    VirtualTokenContract::_set_balance(&mut market, USER, 5);
    assert_eq!(market.extended, vec![DataKey::Balance(USER)]);
    assert_eq!(VirtualTokenContract::balance(&market, USER), 5);
    assert_eq!(VirtualTokenContract::_read_protocol_fee_bps(&mut market), None);
    market.cells.protocol_fee_bps = Some(7);
    assert_eq!(VirtualTokenContract::_read_protocol_fee_bps(&mut market), Some(7));
    assert_eq!(
        market.extended,
        vec![DataKey::Balance(USER), DataKey::ProtocolFeeBps]
    );
}

#[test]
fn the_phase_follows_the_ledger() {
    let round = Round {
        round_id: 1,
        price_start: 1,
        start_ledger: 10,
        bet_end_ledger: 16,
        end_ledger: 22,
        pool_up: 0,
        pool_down: 0,
        mode: RoundMode::UpDown,
    };
    assert_eq!(VirtualTokenContract::_derive_round_phase(15, &round), RoundPhase::Betting);
    assert_eq!(VirtualTokenContract::_derive_round_phase(16, &round), RoundPhase::Running);
    assert_eq!(VirtualTokenContract::_derive_round_phase(21, &round), RoundPhase::Running);
    assert_eq!(VirtualTokenContract::_derive_round_phase(22, &round), RoundPhase::Resolvable);
}

#[test]
fn configured_values_are_handed_out() {
    let mut market = Market::new();
    assert_eq!(VirtualTokenContract::get_oracle_max_deviation_bps(&market), None);
    assert_eq!(VirtualTokenContract::get_oracle_min_confidence_bps(&market), None);
    assert_eq!(VirtualTokenContract::get_runtime_mode(&market), 0);
    assert_eq!(VirtualTokenContract::get_admin(&market), None);
    assert_eq!(VirtualTokenContract::get_oracle(&market), None);
    assert_eq!(VirtualTokenContract::get_protocol_fee_bps(&market), None);
    assert_eq!(VirtualTokenContract::get_protocol_fee_treasury(&market), 0);
    assert_eq!(VirtualTokenContract::get_max_pending_winnings(&market), None);
    assert_eq!(VirtualTokenContract::get_min_participants(&market), None);
    assert_eq!(VirtualTokenContract::get_archive_retention(&market), 128);
    market.cells.admin = Some(USER);
    market.cells.oracle = Some(USER);
    market.cells.protocol_fee_bps = Some(6);
    market.cells.protocol_fee_treasury = Some(7);
    market.cells.max_pending_winnings = Some(8);
    market.cells.min_participants = Some(9);
    market.cells.archive_retention = Some(10);
    assert_eq!(VirtualTokenContract::get_admin(&market), Some(USER));
    assert_eq!(VirtualTokenContract::get_oracle(&market), Some(USER));
    assert_eq!(VirtualTokenContract::get_protocol_fee_bps(&market), Some(6));
    assert_eq!(VirtualTokenContract::get_protocol_fee_treasury(&market), 7);
    assert_eq!(VirtualTokenContract::get_max_pending_winnings(&market), Some(8));
    assert_eq!(VirtualTokenContract::get_min_participants(&market), Some(9));
    assert_eq!(VirtualTokenContract::get_archive_retention(&market), 10);
    market.cells.max_deviation_bps = Some(4);
    market.cells.min_confidence_bps = Some(5);
    market.cells.paused = Some(RuntimeMode::ClaimsOnly);
    assert_eq!(VirtualTokenContract::get_oracle_max_deviation_bps(&market), Some(4));
    assert_eq!(VirtualTokenContract::get_oracle_min_confidence_bps(&market), Some(5));
    assert_eq!(VirtualTokenContract::get_runtime_mode(&market), 1);
}

#[test]
fn tables_keep_one_value_for_a_key() {
    let mut table: Table<(u64, Address), i128> = Table::new();
    assert_eq!(table.find(&(1, USER)), None);
    table.insert((1, USER), 5);
    table.insert((2, USER), 6);
    table.insert((1, USER), 7);
    assert_eq!(table.find(&(1, USER)), Some(7));
    assert_eq!(table.find(&(2, USER)), Some(6));
    assert!(table.has(&(1, USER)));
    table.remove(&(1, USER));
    assert!(!table.has(&(1, USER)));
    assert_eq!(table.get(&(2, USER)), Some(&6));
}
