//! The legal and illegal transitions of rounds and of the market.

use soroban_sdk::Env;
use xlm_prediction_market::contract::VirtualTokenContract;
use xlm_prediction_market::errors::ContractError;
use xlm_prediction_market::market::{LedgerContext, Market};
use xlm_prediction_market::types::{
    Address, BetSide, Bytes32, OraclePayload, PrecisionPrediction, ProtocolStatus, Round,
    RoundMode, RoundStatus, RuntimeMode, UserPosition,
};

const NETWORK: Bytes32 = Bytes32 { high: 7, low: 9 };

fn address(low: u128) -> Address {
    Address { kind: 0, high: 0, low }
}

fn contract_address() -> Address {
    Address { kind: 1, high: 0, low: 1 }
}

fn admin() -> Address {
    address(1)
}

fn oracle() -> Address {
    address(2)
}

fn user() -> Address {
    address(3)
}

/// The ledger of a call that everybody has authorized.
fn at_ledger(sequence: u32) -> LedgerContext {
    LedgerContext {
        sequence,
        timestamp: 0,
        network_id: NETWORK,
        contract: contract_address(),
        authorized: vec![admin(), oracle(), user()],
    }
}

/// A market with an administrator, an oracle, and a user with funds.
fn setup() -> Market {
    let mut market = Market::new();
    market.cells.schema_version = Some(3);
    market.cells.admin = Some(admin());
    market.cells.oracle = Some(oracle());
    market.balances.insert(user(), 1000_0000000);
    market
}

/// Opens a round with the default windows of 6 and 12 ledgers.
fn open_round(market: &mut Market, round_id: u64, price_start: u128, mode: RoundMode, ledger: u32) {
    market.cells.active_round = Some(Round {
        round_id,
        price_start,
        start_ledger: ledger,
        bet_end_ledger: ledger + 6,
        end_ledger: ledger + 12,
        pool_up: 0,
        pool_down: 0,
        mode,
    });
}

/// Enters a stake on a direction into the active round.
fn bet(market: &mut Market, user: Address, amount: i128, side: BetSide) {
    let mut round = market.cells.active_round.unwrap();
    match side {
        BetSide::Up => round.pool_up += amount,
        BetSide::Down => round.pool_down += amount,
    }
    market.cells.active_round = Some(round);
    market.positions.insert((round.round_id, user), UserPosition { amount, side });
    let mut users = market.participants_of(&Env::default(), round.round_id);
    users.insert(users.len(), user);
    market.set_participants(round.round_id, users);
}

/// Enters a revealed stake on a price into the active round.
fn predict(market: &mut Market, user: Address, amount: i128, predicted_price: u128) {
    let round_id = market.cells.active_round.unwrap().round_id;
    market.predictions.insert(
        (round_id, user),
        PrecisionPrediction { user, predicted_price, amount },
    );
    let mut users = market.participants_of(&Env::default(), round_id);
    users.insert(users.len(), user);
    market.set_participants(round_id, users);
}

fn report(price: u128, round_id: u32, nonce: u64) -> OraclePayload {
    OraclePayload {
        price,
        timestamp: 0,
        round_id,
        nonce,
        network_id: NETWORK,
        contract_addr: contract_address(),
        confidence: None,
    }
}

fn status(market: &Market, ledger: u32, round_id: u64) -> RoundStatus {
    VirtualTokenContract::get_round_status(market, &at_ledger(ledger), round_id)
}

fn protocol_status(market: &Market) -> ProtocolStatus {
    VirtualTokenContract::get_protocol_status(market)
}

fn pause(market: &mut Market) {
    assert_eq!(VirtualTokenContract::_set_mode(market, RuntimeMode::FullyPaused), Ok(()));
}

fn unpause(market: &mut Market) {
    assert_eq!(VirtualTokenContract::_set_mode(market, RuntimeMode::Normal), Ok(()));
}

#[test]
fn test_transition_unknown_to_betting() {
    let mut market = setup();
    assert_eq!(status(&market, 1, 1), RoundStatus::Unknown);
    assert_eq!(protocol_status(&market), ProtocolStatus::ClaimsOnly);

    open_round(&mut market, 1, 1_0000000, RoundMode::UpDown, 1);

    assert_eq!(status(&market, 1, 1), RoundStatus::Betting);
    assert_eq!(protocol_status(&market), ProtocolStatus::Active);
}

#[test]
fn test_transition_claims_only_to_active() {
    let mut market = setup();
    assert_eq!(protocol_status(&market), ProtocolStatus::ClaimsOnly);
    open_round(&mut market, 1, 1_0000000, RoundMode::UpDown, 1);
    assert_eq!(protocol_status(&market), ProtocolStatus::Active);
}

#[test]
fn test_transition_betting_to_running_to_awaiting_resolve() {
    let mut market = setup();
    open_round(&mut market, 1, 1_0000000, RoundMode::UpDown, 1);
    assert_eq!(status(&market, 1, 1), RoundStatus::Betting);
    assert_eq!(protocol_status(&market), ProtocolStatus::Active);

    assert_eq!(status(&market, 8, 1), RoundStatus::Running);
    assert_eq!(protocol_status(&market), ProtocolStatus::Active);

    assert_eq!(status(&market, 14, 1), RoundStatus::AwaitingResolve);
    assert_eq!(protocol_status(&market), ProtocolStatus::Active);
}

#[test]
fn test_transition_awaiting_resolve_to_resolved() {
    let env = Env::default();
    let mut market = setup();
    open_round(&mut market, 1, 1_0000000, RoundMode::UpDown, 1);
    bet(&mut market, user(), 100_0000000, BetSide::Up);
    assert_eq!(status(&market, 20, 1), RoundStatus::AwaitingResolve);

    let result = VirtualTokenContract::resolve_round(
        &env,
        &mut market,
        &at_ledger(20),
        &report(1_5000000, 1, 1),
    );
    assert_eq!(result, Ok(()));

    assert_eq!(status(&market, 20, 1), RoundStatus::Resolved);
    assert_eq!(protocol_status(&market), ProtocolStatus::ClaimsOnly);
}

#[test]
fn test_transition_active_to_claims_only_via_resolve() {
    let env = Env::default();
    let mut market = setup();
    open_round(&mut market, 1, 1_0000000, RoundMode::UpDown, 1);
    bet(&mut market, user(), 100_0000000, BetSide::Up);
    let result = VirtualTokenContract::resolve_round(
        &env,
        &mut market,
        &at_ledger(20),
        &report(1_5000000, 1, 1),
    );
    assert_eq!(result, Ok(()));
    assert_eq!(protocol_status(&market), ProtocolStatus::ClaimsOnly);
}

#[test]
fn test_transition_betting_to_cancelled() {
    let env = Env::default();
    let mut market = setup();
    open_round(&mut market, 1, 1_0000000, RoundMode::UpDown, 1);
    assert_eq!(status(&market, 1, 1), RoundStatus::Betting);

    assert_eq!(VirtualTokenContract::cancel_round(&env, &mut market, &at_ledger(1), 0), Ok(()));

    assert_eq!(status(&market, 1, 1), RoundStatus::Cancelled);
    assert_eq!(protocol_status(&market), ProtocolStatus::ClaimsOnly);
}

#[test]
fn test_transition_running_to_cancelled() {
    let env = Env::default();
    let mut market = setup();
    open_round(&mut market, 1, 1_0000000, RoundMode::UpDown, 1);
    assert_eq!(status(&market, 8, 1), RoundStatus::Running);

    assert_eq!(VirtualTokenContract::cancel_round(&env, &mut market, &at_ledger(8), 0), Ok(()));

    assert_eq!(status(&market, 8, 1), RoundStatus::Cancelled);
}

#[test]
fn test_transition_awaiting_resolve_to_cancelled() {
    let env = Env::default();
    let mut market = setup();
    open_round(&mut market, 1, 1_0000000, RoundMode::UpDown, 1);
    assert_eq!(status(&market, 20, 1), RoundStatus::AwaitingResolve);

    assert_eq!(VirtualTokenContract::cancel_round(&env, &mut market, &at_ledger(20), 0), Ok(()));

    assert_eq!(status(&market, 20, 1), RoundStatus::Cancelled);
}

#[test]
fn test_transition_active_to_paused_to_active() {
    let mut market = setup();
    open_round(&mut market, 1, 1_0000000, RoundMode::UpDown, 1);
    assert_eq!(protocol_status(&market), ProtocolStatus::Active);

    pause(&mut market);
    assert_eq!(protocol_status(&market), ProtocolStatus::Paused);

    unpause(&mut market);
    assert_eq!(protocol_status(&market), ProtocolStatus::Active);
}

#[test]
fn test_transition_claims_only_to_paused_to_claims_only() {
    let mut market = setup();
    assert_eq!(protocol_status(&market), ProtocolStatus::ClaimsOnly);

    pause(&mut market);
    assert_eq!(protocol_status(&market), ProtocolStatus::Paused);

    unpause(&mut market);
    assert_eq!(protocol_status(&market), ProtocolStatus::ClaimsOnly);
}

#[test]
fn test_round_phase_unaffected_by_pause() {
    let mut market = setup();
    open_round(&mut market, 1, 1_0000000, RoundMode::UpDown, 1);
    assert_eq!(status(&market, 1, 1), RoundStatus::Betting);

    pause(&mut market);
    assert_eq!(protocol_status(&market), ProtocolStatus::Paused);
    assert_eq!(status(&market, 1, 1), RoundStatus::Betting);

    assert_eq!(status(&market, 8, 1), RoundStatus::Running);
}

#[test]
fn test_illegal_resolve_before_end_ledger() {
    let env = Env::default();
    let mut market = setup();
    open_round(&mut market, 1, 1_0000000, RoundMode::UpDown, 1);
    bet(&mut market, user(), 100_0000000, BetSide::Up);
    assert_eq!(status(&market, 1, 1), RoundStatus::Betting);

    let result = VirtualTokenContract::resolve_round(
        &env,
        &mut market,
        &at_ledger(1),
        &report(1_5000000, 1, 1),
    );
    assert_eq!(result, Err(ContractError::RoundNotEnded));
}

#[test]
fn test_illegal_resolve_during_running() {
    let env = Env::default();
    let mut market = setup();
    open_round(&mut market, 1, 1_0000000, RoundMode::UpDown, 1);
    bet(&mut market, user(), 100_0000000, BetSide::Up);
    assert_eq!(status(&market, 8, 1), RoundStatus::Running);

    let result = VirtualTokenContract::resolve_round(
        &env,
        &mut market,
        &at_ledger(8),
        &report(1_5000000, 1, 1),
    );
    assert_eq!(result, Err(ContractError::RoundNotEnded));
}

#[test]
fn test_illegal_cancel_no_active_round() {
    let env = Env::default();
    let mut market = setup();
    let result = VirtualTokenContract::cancel_round(&env, &mut market, &at_ledger(1), 0);
    assert_eq!(result, Err(ContractError::RoundNotCancellable));
}

#[test]
fn test_illegal_cancel_after_resolved() {
    let env = Env::default();
    let mut market = setup();
    open_round(&mut market, 1, 1_0000000, RoundMode::UpDown, 1);
    bet(&mut market, user(), 100_0000000, BetSide::Up);
    let result = VirtualTokenContract::resolve_round(
        &env,
        &mut market,
        &at_ledger(20),
        &report(1_5000000, 1, 1),
    );
    assert_eq!(result, Ok(()));
    assert_eq!(status(&market, 20, 1), RoundStatus::Resolved);

    let result = VirtualTokenContract::cancel_round(&env, &mut market, &at_ledger(20), 0);
    assert_eq!(result, Err(ContractError::RoundNotCancellable));
}

#[test]
fn test_illegal_resolve_while_paused() {
    let env = Env::default();
    let mut market = setup();
    open_round(&mut market, 1, 1_0000000, RoundMode::UpDown, 1);
    bet(&mut market, user(), 100_0000000, BetSide::Up);
    pause(&mut market);

    let result = VirtualTokenContract::resolve_round(
        &env,
        &mut market,
        &at_ledger(20),
        &report(1_5000000, 1, 1),
    );
    assert_eq!(result, Err(ContractError::ContractPaused));
}

#[test]
fn test_illegal_resolve_wrong_round_id() {
    let env = Env::default();
    let mut market = setup();
    open_round(&mut market, 1, 1_0000000, RoundMode::UpDown, 1);
    bet(&mut market, user(), 100_0000000, BetSide::Up);

    let result = VirtualTokenContract::resolve_round(
        &env,
        &mut market,
        &at_ledger(20),
        &report(1_5000000, 999, 1),
    );
    assert_eq!(result, Err(ContractError::InvalidOracleRound));
}

#[test]
fn test_mode_alternation_full_cycle() {
    let env = Env::default();
    let mut market = setup();

    // The first round is on the direction of the price.
    open_round(&mut market, 1, 1_0000000, RoundMode::UpDown, 1);
    let r1 = VirtualTokenContract::get_active_round(&market).unwrap();
    assert_eq!(r1.mode, RoundMode::UpDown);
    assert_eq!(r1.round_id, 1);

    bet(&mut market, user(), 100_0000000, BetSide::Up);
    let result = VirtualTokenContract::resolve_round(
        &env,
        &mut market,
        &at_ledger(r1.end_ledger),
        &report(1_5000000, r1.start_ledger, 1),
    );
    assert_eq!(result, Ok(()));
    assert_eq!(status(&market, r1.end_ledger, 1), RoundStatus::Resolved);
    assert_eq!(protocol_status(&market), ProtocolStatus::ClaimsOnly);

    let claimed =
        VirtualTokenContract::claim_winnings(&mut market, &at_ledger(r1.end_ledger), user());
    assert!(claimed.unwrap() > 0);

    // The second is on the price.
    open_round(&mut market, 2, 2_0000000, RoundMode::Precision, r1.end_ledger);
    let r2 = VirtualTokenContract::get_active_round(&market).unwrap();
    assert_eq!(r2.mode, RoundMode::Precision);
    assert_eq!(r2.round_id, 2);

    predict(&mut market, user(), 100_0000000, 2297);
    let result = VirtualTokenContract::resolve_round(
        &env,
        &mut market,
        &at_ledger(r2.end_ledger),
        &report(2297, r2.start_ledger, 2),
    );
    assert_eq!(result, Ok(()));
    assert_eq!(status(&market, r2.end_ledger, 2), RoundStatus::Resolved);
    assert_eq!(protocol_status(&market), ProtocolStatus::ClaimsOnly);

    // The third is on the direction again.
    open_round(&mut market, 3, 3_0000000, RoundMode::UpDown, r2.end_ledger);
    let r3 = VirtualTokenContract::get_active_round(&market).unwrap();
    assert_eq!(r3.mode, RoundMode::UpDown);
    assert_eq!(r3.round_id, 3);

    bet(&mut market, user(), 200_0000000, BetSide::Down);
    let result = VirtualTokenContract::resolve_round(
        &env,
        &mut market,
        &at_ledger(r3.end_ledger),
        &report(2_5000000, r3.start_ledger, 3),
    );
    assert_eq!(result, Ok(()));
    assert_eq!(status(&market, r3.end_ledger, 3), RoundStatus::Resolved);
}

#[test]
fn test_transition_awaiting_resolve_to_fallback_refund() {
    let env = Env::default();
    let mut market = setup();
    market.cells.min_participants = Some(3);
    open_round(&mut market, 1, 1_0000000, RoundMode::UpDown, 1);
    bet(&mut market, user(), 100_0000000, BetSide::Up);
    assert_eq!(status(&market, 20, 1), RoundStatus::AwaitingResolve);

    let result = VirtualTokenContract::resolve_round(
        &env,
        &mut market,
        &at_ledger(20),
        &report(1_5000000, 1, 1),
    );
    assert_eq!(result, Ok(()));

    assert_eq!(status(&market, 20, 1), RoundStatus::FallbackRefund);
    assert_eq!(protocol_status(&market), ProtocolStatus::ClaimsOnly);
}

#[test]
fn test_new_round_after_cancel_is_betting() {
    let env = Env::default();
    let mut market = setup();
    open_round(&mut market, 1, 1_0000000, RoundMode::UpDown, 1);
    assert_eq!(status(&market, 1, 1), RoundStatus::Betting);

    assert_eq!(VirtualTokenContract::cancel_round(&env, &mut market, &at_ledger(1), 0), Ok(()));
    assert_eq!(status(&market, 1, 1), RoundStatus::Cancelled);

    open_round(&mut market, 2, 1_2000000, RoundMode::UpDown, 1);
    assert_eq!(status(&market, 1, 2), RoundStatus::Betting);
    assert_eq!(status(&market, 1, 1), RoundStatus::Cancelled);
}

#[test]
fn test_claims_only_blocks_mutations() {
    let mut market = setup();
    assert_eq!(protocol_status(&market), ProtocolStatus::ClaimsOnly);

    let claimed = VirtualTokenContract::claim_winnings(&mut market, &at_ledger(1), user());
    assert_eq!(claimed, Ok(0));

    assert_eq!(VirtualTokenContract::get_active_round(&market), None);
}

#[test]
fn test_round_status_unknown_for_nonexistent_rounds() {
    let market = setup();
    assert_eq!(status(&market, 1, 0), RoundStatus::Unknown);
    assert_eq!(status(&market, 1, 1), RoundStatus::Unknown);
    assert_eq!(status(&market, 1, 42), RoundStatus::Unknown);
    assert_eq!(status(&market, 1, u64::MAX), RoundStatus::Unknown);
}

#[test]
fn an_active_round_excludes_another() {
    let mut market = setup();
    assert_eq!(VirtualTokenContract::assert_no_active_round(&market), Ok(()));
    open_round(&mut market, 1, 1_0000000, RoundMode::UpDown, 1);
    assert_eq!(
        VirtualTokenContract::assert_no_active_round(&market),
        Err(ContractError::RoundAlreadyActive)
    );
}

#[test]
fn a_phase_starts_at_its_ledger() {
    let mut market = setup();
    open_round(&mut market, 1, 1_0000000, RoundMode::UpDown, 1);
    assert_eq!(status(&market, 6, 1), RoundStatus::Betting);
    assert_eq!(status(&market, 7, 1), RoundStatus::Running);
    assert_eq!(status(&market, 12, 1), RoundStatus::Running);
    assert_eq!(status(&market, 13, 1), RoundStatus::AwaitingResolve);
}

#[test]
fn a_second_cancellation_is_refused() {
    let env = Env::default();
    let mut market = setup();
    open_round(&mut market, 1, 1_0000000, RoundMode::UpDown, 1);
    assert_eq!(VirtualTokenContract::cancel_round(&env, &mut market, &at_ledger(1), 0), Ok(()));
    assert_eq!(
        VirtualTokenContract::cancel_round(&env, &mut market, &at_ledger(1), 0),
        Err(ContractError::RoundNotCancellable)
    );
    assert!(VirtualTokenContract::is_round_cancelled(&market, 1));
    assert!(!VirtualTokenContract::is_round_cancelled(&market, 2));
}

#[test]
fn a_cancelled_round_stays_known_without_an_archive() {
    let env = Env::default();
    let mut market = setup();
    market.cells.archive_retention = Some(0);
    open_round(&mut market, 1, 1_0000000, RoundMode::UpDown, 1);
    assert_eq!(VirtualTokenContract::cancel_round(&env, &mut market, &at_ledger(1), 0), Ok(()));
    assert_eq!(VirtualTokenContract::get_archived_round(&market, 1), None);
    assert_eq!(status(&market, 1, 1), RoundStatus::Cancelled);
}

#[test]
fn a_paused_contract_can_still_cancel() {
    let env = Env::default();
    let mut market = setup();
    open_round(&mut market, 1, 1_0000000, RoundMode::UpDown, 1);
    pause(&mut market);
    assert!(VirtualTokenContract::is_paused(&market));
    assert_eq!(VirtualTokenContract::cancel_round(&env, &mut market, &at_ledger(1), 0), Ok(()));
    assert_eq!(protocol_status(&market), ProtocolStatus::Paused);
    assert_eq!(status(&market, 1, 1), RoundStatus::Cancelled);
}

#[test]
fn statuses_have_their_numbers() {
    assert_eq!(ProtocolStatus::Active.to_number(), 0);
    assert_eq!(ProtocolStatus::Paused.to_number(), 1);
    assert_eq!(ProtocolStatus::ClaimsOnly.to_number(), 2);
    assert_eq!(RoundStatus::Unknown.to_number(), 0);
    assert_eq!(RoundStatus::Betting.to_number(), 1);
    assert_eq!(RoundStatus::Running.to_number(), 2);
    assert_eq!(RoundStatus::AwaitingResolve.to_number(), 3);
    assert_eq!(RoundStatus::Resolved.to_number(), 4);
    assert_eq!(RoundStatus::Cancelled.to_number(), 5);
    assert_eq!(RoundStatus::FallbackRefund.to_number(), 6);
}

#[test]
fn modes_are_set_and_checked() {
    let mut market = setup();
    assert_eq!(VirtualTokenContract::get_runtime_mode(&market), 0);
    assert_eq!(VirtualTokenContract::_ensure_normal_mode(&mut market), Ok(()));

    assert_eq!(VirtualTokenContract::_set_mode(&mut market, RuntimeMode::ClaimsOnly), Ok(()));
    assert_eq!(VirtualTokenContract::get_runtime_mode(&market), 1);
    assert_eq!(
        VirtualTokenContract::_ensure_normal_mode(&mut market),
        Err(ContractError::ContractPaused)
    );
    assert_eq!(VirtualTokenContract::_ensure_not_paused(&mut market), Ok(()));
    assert!(!VirtualTokenContract::is_paused(&market));

    pause(&mut market);
    assert_eq!(VirtualTokenContract::get_runtime_mode(&market), 2);
    assert_eq!(
        VirtualTokenContract::_ensure_not_paused(&mut market),
        Err(ContractError::ContractPaused)
    );
}
