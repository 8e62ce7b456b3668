//! What is asked of the oracle, and how it is replaced.

use soroban_sdk::Env;
use xlm_prediction_market::contract::VirtualTokenContract;
use xlm_prediction_market::errors::ContractError;
use xlm_prediction_market::market::{LedgerContext, Market};
use xlm_prediction_market::oracle::{can_count_age, check_report};
use xlm_prediction_market::types::{
    Address, Bytes32, DataKey, Event, OraclePayload, OracleRotationProposal, Round, RoundMode,
    RuntimeMode,
};

const NETWORK: Bytes32 = Bytes32 { high: 7, low: 9 };

const CONTRACT: Address = Address { kind: 1, high: 0, low: 1 };

const ADMIN: Address = Address { kind: 0, high: 0, low: 1 };

const ORACLE: Address = Address { kind: 0, high: 0, low: 2 };

const SUCCESSOR: Address = Address { kind: 0, high: 0, low: 3 };

fn at(timestamp: u64) -> LedgerContext {
    LedgerContext {
        sequence: 12,
        timestamp,
        network_id: NETWORK,
        contract: CONTRACT,
        authorized: vec![ADMIN, ORACLE],
    }
}

fn setup() -> Market {
    let mut market = Market::new();
    market.cells.schema_version = Some(3);
    market.cells.admin = Some(ADMIN);
    market.cells.oracle = Some(ORACLE);
    market.cells.active_round = Some(Round {
        round_id: 4,
        price_start: 10_000,
        start_ledger: 0,
        bet_end_ledger: 6,
        end_ledger: 12,
        pool_up: 0,
        pool_down: 0,
        mode: RoundMode::UpDown,
    });
    market
}

fn report(price: u128) -> OraclePayload {
    OraclePayload {
        price,
        timestamp: 1_000,
        round_id: 0,
        nonce: 1,
        network_id: NETWORK,
        contract_addr: CONTRACT,
        confidence: None,
    }
}

fn check(market: &mut Market, payload: &OraclePayload) -> Result<Round, ContractError> {
    check_report(market, &at(1_000), payload)
}

#[test]
fn a_good_report_names_the_round() {
    let mut market = setup();
    let round = market.cells.active_round.unwrap();
    assert_eq!(check(&mut market, &report(11_000)), Ok(round));
    assert!(market.has(&DataKey::ConsumedOracleNonce(4, 1)));
    assert_eq!(check(&mut market, &report(11_000)), Err(ContractError::OracleNonceReused));
    let mut second = report(11_000);
    second.nonce = 2;
    assert_eq!(check(&mut market, &second), Ok(round));
}

#[test]
fn a_report_needs_a_price_an_oracle_and_a_round() {
    let mut market = setup();
    assert_eq!(check(&mut market, &report(0)), Err(ContractError::InvalidPrice));
    market.cells.active_round = None;
    assert_eq!(check(&mut market, &report(1)), Err(ContractError::NoActiveRound));
    market.cells.oracle = None;
    assert_eq!(check(&mut market, &report(1)), Err(ContractError::OracleNotSet));
    market.cells.schema_version = Some(4);
    assert_eq!(check(&mut market, &report(1)), Err(ContractError::UnsupportedSchemaVersion));
}

#[test]
fn a_report_for_another_contract_is_refused() {
    let mut market = setup();
    let mut payload = report(1);
    payload.contract_addr = ADMIN;
    assert_eq!(check(&mut market, &payload), Err(ContractError::OracleNetworkMismatch));
}

#[test]
fn a_report_can_be_five_minutes_old() {
    let mut market = setup();
    assert!(check_report(&mut market, &at(1_300), &report(11_000)).is_ok());
    let mut market = setup();
    assert_eq!(
        check_report(&mut market, &at(1_301), &report(11_000)),
        Err(ContractError::StaleOracleData)
    );
    let mut market = setup();
    assert_eq!(
        check_report(&mut market, &at(999), &report(11_000)),
        Err(ContractError::FutureOracleData)
    );
}

#[test]
fn a_price_within_the_limit_passes() {
    let mut market = setup();
    market.cells.max_deviation_bps = Some(500);
    market.cells.deviation_override_armed = Some(true);
    assert!(check(&mut market, &report(10_500)).is_ok());
    assert_eq!(market.cells.deviation_override_armed, Some(true));
    let mut low = report(9_500);
    low.nonce = 2;
    assert!(check(&mut market, &low).is_ok());
}

#[test]
fn a_price_beyond_the_limit_is_refused() {
    let mut market = setup();
    market.cells.max_deviation_bps = Some(500);
    assert_eq!(check(&mut market, &report(10_501)), Err(ContractError::OracleDeviationExceeded));
    assert_eq!(
        *market.events.last().unwrap(),
        Event::OracleRejected {
            round_id: 4,
            start_price: 10_000,
            price: 10_501,
            diff_bps: 501,
            max_bps: 500,
        }
    );
    market.cells.deviation_override_armed = Some(false);
    assert_eq!(check(&mut market, &report(9_499)), Err(ContractError::OracleDeviationExceeded));
}

#[test]
fn an_armed_override_lets_one_price_pass() {
    let mut market = setup();
    market.cells.max_deviation_bps = Some(500);
    market.cells.deviation_override_armed = Some(true);
    assert!(check(&mut market, &report(20_000)).is_ok());
    assert_eq!(market.cells.deviation_override_armed, None);
    assert_eq!(
        *market.events.last().unwrap(),
        Event::OracleOverride {
            round_id: 4,
            start_price: 10_000,
            price: 20_000,
            diff_bps: 10_000,
            max_bps: 500,
        }
    );
    let mut second = report(20_000);
    second.nonce = 2;
    assert_eq!(check(&mut market, &second), Err(ContractError::OracleDeviationExceeded));
}

#[test]
fn a_deviation_that_cannot_be_reckoned_is_refused() {
    let mut market = setup();
    market.cells.max_deviation_bps = Some(500);
    assert_eq!(check(&mut market, &report(u128::MAX)), Err(ContractError::Overflow));
    let mut round = market.cells.active_round.unwrap();
    round.price_start = 1;
    market.cells.active_round = Some(round);
    assert_eq!(check(&mut market, &report(429_498)), Err(ContractError::Overflow));
    round.price_start = 0;
    market.cells.active_round = Some(round);
    assert_eq!(check(&mut market, &report(1)), Err(ContractError::InvalidPrice));
}

#[test]
fn a_confidence_is_asked_for() {
    let mut market = setup();
    market.cells.min_confidence_bps = Some(9_000);
    let mut payload = report(11_000);
    payload.confidence = Some(8_999);
    assert_eq!(check(&mut market, &payload), Err(ContractError::InvalidPrice));
    assert_eq!(
        *market.events.last().unwrap(),
        Event::LowConfidence { round_id: 4, confidence_bps: 8_999, min_confidence_bps: 9_000 }
    );
    payload.confidence = Some(10_001);
    assert_eq!(check(&mut market, &payload), Err(ContractError::InvalidPrice));
    payload.confidence = Some(9_000);
    assert!(check(&mut market, &payload).is_ok());
    payload.confidence = Some(10_000);
    payload.nonce = 2;
    assert!(check(&mut market, &payload).is_ok());
}

#[test]
fn a_missing_confidence_is_refused_in_strict_mode_only() {
    let mut market = setup();
    market.cells.min_confidence_bps = Some(9_000);
    assert!(!VirtualTokenContract::get_oracle_strict_mode(&market));
    assert!(check(&mut market, &report(11_000)).is_ok());
    market.cells.strict_mode = Some(true);
    assert!(VirtualTokenContract::get_oracle_strict_mode(&market));
    let mut second = report(11_000);
    second.nonce = 2;
    assert_eq!(check(&mut market, &second), Err(ContractError::InvalidPrice));
    market.cells.min_confidence_bps = None;
    assert!(check(&mut market, &second).is_ok());
}

#[test]
fn a_settlement_tells_the_confidence() {
    let mut market = setup();
    let mut payload = report(11_000);
    payload.confidence = Some(42);
    let result =
        VirtualTokenContract::resolve_round(&Env::default(), &mut market, &at(1_000), &payload);
    assert_eq!(result, Ok(()));
    assert_eq!(
        *market.events.last().unwrap(),
        Event::RoundResolved { round_id: 4, price: 11_000, mode: 0, confidence: Some(42) }
    );
}

#[test]
fn entries_that_are_read_live_longer() {
    let mut market = setup();
    market.cells.paused = Some(RuntimeMode::Normal);
    market.cells.min_confidence_bps = Some(1);
    assert!(check(&mut market, &report(11_000)).is_ok());
    assert_eq!(
        market.extended,
        vec![
            DataKey::SchemaVersion,
            DataKey::Admin,
            DataKey::Oracle,
            DataKey::Paused,
            DataKey::OracleMinConfidenceBps,
        ]
    );
}

#[test]
fn a_rotation_takes_two_steps() {
    let mut market = setup();
    let result =
        VirtualTokenContract::propose_oracle_rotation(&mut market, &at(1_000), SUCCESSOR, 60);
    assert_eq!(result, Ok(()));
    assert_eq!(market.cells.oracle, Some(ORACLE));
    let proposal = OracleRotationProposal {
        new_oracle: SUCCESSOR,
        proposed_at: 1_000,
        expires_at: 1_060,
    };
    assert_eq!(
        VirtualTokenContract::get_oracle_rotation_proposal(&mut market, &at(1_060)),
        Some(proposal)
    );
    assert_eq!(
        *market.events.last().unwrap(),
        Event::RotationProposed { new_oracle: SUCCESSOR, expires_at: 1_060 }
    );

    assert_eq!(VirtualTokenContract::accept_oracle_rotation(&mut market, &at(1_060)), Ok(()));
    assert_eq!(market.cells.oracle, Some(SUCCESSOR));
    assert_eq!(
        *market.events.last().unwrap(),
        Event::RotationAccepted { previous: ORACLE, new_oracle: SUCCESSOR }
    );
    assert_eq!(
        VirtualTokenContract::accept_oracle_rotation(&mut market, &at(1_060)),
        Err(ContractError::NoPendingRotation)
    );
}

#[test]
fn an_expired_rotation_is_taken_away() {
    let expired =
        Event::RotationExpired { new_oracle: SUCCESSOR, proposed_at: 1_000, expires_at: 1_060 };
    let mut market = setup();
    assert_eq!(
        VirtualTokenContract::propose_oracle_rotation(&mut market, &at(1_000), SUCCESSOR, 60),
        Ok(())
    );
    assert_eq!(
        VirtualTokenContract::accept_oracle_rotation(&mut market, &at(1_061)),
        Err(ContractError::RotationExpired)
    );
    assert_eq!(*market.events.last().unwrap(), expired);
    assert_eq!(market.cells.rotation, None);
    assert_eq!(market.cells.oracle, Some(ORACLE));

    assert_eq!(
        VirtualTokenContract::propose_oracle_rotation(&mut market, &at(1_000), SUCCESSOR, 60),
        Ok(())
    );
    assert_eq!(
        VirtualTokenContract::get_oracle_rotation_proposal(&mut market, &at(1_061)),
        None
    );
    assert_eq!(*market.events.last().unwrap(), expired);
    assert_eq!(
        VirtualTokenContract::accept_oracle_rotation(&mut market, &at(1_000)),
        Err(ContractError::NoPendingRotation)
    );
}

#[test]
fn a_rotation_can_be_withdrawn() {
    let mut market = setup();
    assert_eq!(
        VirtualTokenContract::cancel_oracle_rotation(&mut market, &at(1_000)),
        Err(ContractError::NoPendingRotation)
    );
    assert_eq!(
        VirtualTokenContract::propose_oracle_rotation(&mut market, &at(1_000), SUCCESSOR, 60),
        Ok(())
    );
    assert_eq!(VirtualTokenContract::cancel_oracle_rotation(&mut market, &at(1_000)), Ok(()));
    assert_eq!(
        *market.events.last().unwrap(),
        Event::RotationCancelled { new_oracle: SUCCESSOR }
    );
    assert_eq!(
        VirtualTokenContract::accept_oracle_rotation(&mut market, &at(1_000)),
        Err(ContractError::NoPendingRotation)
    );
    assert_eq!(market.cells.oracle, Some(ORACLE));
}

#[test]
fn a_rotation_can_be_refused() {
    let mut market = setup();
    assert_eq!(
        VirtualTokenContract::propose_oracle_rotation(&mut market, &at(1_000), SUCCESSOR, 59),
        Err(ContractError::InvalidDuration)
    );
    assert_eq!(
        VirtualTokenContract::propose_oracle_rotation(&mut market, &at(1_000), SUCCESSOR, u64::MAX),
        Err(ContractError::Overflow)
    );
    market.cells.rotation = Some(OracleRotationProposal {
        new_oracle: SUCCESSOR,
        proposed_at: 0,
        expires_at: 2_000,
    });
    market.cells.oracle = None;
    assert_eq!(
        VirtualTokenContract::accept_oracle_rotation(&mut market, &at(1_000)),
        Err(ContractError::OracleNotSet)
    );
    assert_eq!(VirtualTokenContract::_set_mode(&mut market, RuntimeMode::FullyPaused), Ok(()));
    assert_eq!(
        VirtualTokenContract::propose_oracle_rotation(&mut market, &at(1_000), SUCCESSOR, 60),
        Err(ContractError::ContractPaused)
    );
    assert_eq!(
        VirtualTokenContract::accept_oracle_rotation(&mut market, &at(1_000)),
        Err(ContractError::ContractPaused)
    );
    assert_eq!(
        VirtualTokenContract::cancel_oracle_rotation(&mut market, &at(1_000)),
        Err(ContractError::ContractPaused)
    );
    market.cells.admin = None;
    assert_eq!(
        VirtualTokenContract::propose_oracle_rotation(&mut market, &at(1_000), SUCCESSOR, 60),
        Err(ContractError::AdminNotSet)
    );
    assert_eq!(
        VirtualTokenContract::cancel_oracle_rotation(&mut market, &at(1_000)),
        Err(ContractError::AdminNotSet)
    );
    market.cells.schema_version = Some(4);
    assert_eq!(
        VirtualTokenContract::accept_oracle_rotation(&mut market, &at(1_000)),
        Err(ContractError::UnsupportedSchemaVersion)
    );
}

#[test]
fn an_age_beyond_the_last_second_cannot_be_counted() {
    let market = setup();
    let mut payload = report(1);
    assert!(can_count_age(&market, &at(1_000), &payload));
    payload.timestamp = u64::MAX - 300;
    assert!(can_count_age(&market, &at(u64::MAX), &payload));
    payload.timestamp = u64::MAX - 299;
    assert!(!can_count_age(&market, &at(u64::MAX), &payload));
    assert!(can_count_age(&market, &at(1_000), &payload));
    payload.round_id = 1;
    assert!(can_count_age(&market, &at(u64::MAX), &payload));
}
