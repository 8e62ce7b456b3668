//! What the market tells the outside.

use soroban_sdk::Env;
use xlm_prediction_market::contract::VirtualTokenContract;
use xlm_prediction_market::errors::ContractError;
use xlm_prediction_market::market::{LedgerContext, Market};
use xlm_prediction_market::types::{
    Action, Address, BetSide, Bytes32, Event, OraclePayload, PrecisionPrediction, Round, RoundMode,
    RuntimeMode, UserPosition,
};

const NETWORK: Bytes32 = Bytes32 { high: 7, low: 9 };

const CONTRACT: Address = Address { kind: 1, high: 0, low: 1 };

const ADMIN: Address = Address { kind: 0, high: 0, low: 1 };

const ORACLE: Address = Address { kind: 0, high: 0, low: 2 };

const USER: Address = Address { kind: 0, high: 0, low: 3 };

const OTHER: Address = Address { kind: 0, high: 0, low: 4 };

fn ledger(sequence: u32, timestamp: u64) -> LedgerContext {
    LedgerContext {
        sequence,
        timestamp,
        network_id: NETWORK,
        contract: CONTRACT,
        authorized: vec![ADMIN, ORACLE, USER, OTHER],
    }
}

fn setup() -> Market {
    let mut market = Market::new();
    market.cells.schema_version = Some(3);
    market.cells.admin = Some(ADMIN);
    market.cells.oracle = Some(ORACLE);
    market
}

fn open(market: &mut Market, round_id: u64, price_start: u128, mode: RoundMode, start: u32) {
    market.cells.active_round = Some(Round {
        round_id,
        price_start,
        start_ledger: start,
        bet_end_ledger: start + 6,
        end_ledger: start + 12,
        pool_up: 0,
        pool_down: 0,
        mode,
    });
}

fn join(market: &mut Market, round_id: u64, user: Address) {
    let mut users = market.participants_of(&Env::default(), round_id);
    users.insert(users.len(), user);
    market.set_participants(round_id, users);
}

fn bet(market: &mut Market, user: Address, amount: i128, side: BetSide) {
    let mut round = market.cells.active_round.unwrap();
    match side {
        BetSide::Up => round.pool_up += amount,
        BetSide::Down => round.pool_down += amount,
    }
    market.cells.active_round = Some(round);
    market.positions.insert((round.round_id, user), UserPosition { amount, side });
    join(market, round.round_id, user);
}

fn predict(market: &mut Market, user: Address, amount: i128, predicted_price: u128) {
    let round_id = market.cells.active_round.unwrap().round_id;
    market.predictions.insert(
        (round_id, user),
        PrecisionPrediction { user, predicted_price, amount },
    );
    join(market, round_id, user);
}

fn report(price: u128, timestamp: u64, round_id: u32, nonce: u64) -> OraclePayload {
    OraclePayload {
        price,
        timestamp,
        round_id,
        nonce,
        network_id: NETWORK,
        contract_addr: CONTRACT,
        confidence: None,
    }
}

/// A market with a round that the user has bet on.
fn with_bet() -> Market {
    let mut market = setup();
    open(&mut market, 1, 1_0000000, RoundMode::UpDown, 0);
    bet(&mut market, USER, 100_0000000, BetSide::Up);
    market
}

fn last_event(market: &Market) -> Event {
    *market.events.last().unwrap()
}

fn summary_of(market: &Market, id: u64) -> Event {
    let mut found: Option<Event> = None;
    for event in market.events.iter() {
        if let Event::RoundSummary { round_id, .. } = event {
            if *round_id == id {
                found = Some(*event);
            }
        }
    }
    found.unwrap()
}

fn resolve_rejection(error: ContractError) -> Event {
    Event::ActionRejected { actor: ORACLE, action: Action::Resolve, error }
}

#[test]
fn test_event_coverage_resolve_round() {
    let env = Env::default();
    let mut market = with_bet();
    let result = VirtualTokenContract::resolve_round(
        &env,
        &mut market,
        &ledger(12, 0),
        &report(1_2000000, 0, 0, 1),
    );
    assert_eq!(result, Ok(()));

    let event = last_event(&market);
    assert_eq!(event.to_topics(), ("round", "resolved"));
    assert_eq!(
        event,
        Event::RoundResolved { round_id: 1, price: 1_2000000, mode: 0, confidence: None }
    );
}

#[test]
fn test_event_coverage_cancel_round() {
    let env = Env::default();
    let mut market = setup();
    open(&mut market, 1, 1_0000000, RoundMode::UpDown, 0);
    assert_eq!(VirtualTokenContract::cancel_round(&env, &mut market, &ledger(0, 0), 99), Ok(()));

    let event = last_event(&market);
    assert_eq!(event.to_topics(), ("round", "cancel"));
    assert_eq!(
        event,
        Event::RoundCancelled { round_id: 1, reason: 99, pool_up: 0, pool_down: 0 }
    );
}

#[test]
fn test_event_coverage_claim_winnings() {
    let env = Env::default();
    let mut market = with_bet();
    let result = VirtualTokenContract::resolve_round(
        &env,
        &mut market,
        &ledger(12, 0),
        &report(1_2000000, 0, 0, 1),
    );
    assert_eq!(result, Ok(()));
    assert_eq!(
        VirtualTokenContract::claim_winnings(&mut market, &ledger(12, 0), USER),
        Ok(100_0000000)
    );

    let event = last_event(&market);
    assert_eq!(event.to_topics(), ("claim", "winnings"));
    assert_eq!(event, Event::WinningsClaimed { user: USER, amount: 100_0000000 });
}

#[test]
fn test_action_rejected_cancel_round_no_active() {
    let env = Env::default();
    let mut market = setup();
    let result = VirtualTokenContract::cancel_round(&env, &mut market, &ledger(0, 0), 0);
    assert_eq!(result, Err(ContractError::RoundNotCancellable));

    let event = last_event(&market);
    assert_eq!(event.to_topics(), ("action", "rejct"));
    assert_eq!(Action::Cancel.to_name(), "cancel");
    assert_eq!(
        event,
        Event::ActionRejected {
            actor: ADMIN,
            action: Action::Cancel,
            error: ContractError::RoundNotCancellable,
        }
    );
}

#[test]
fn test_action_rejected_resolve_round_oracle_nonce_reused() {
    let env = Env::default();
    let mut market = with_bet();
    let payload = report(1_2000000, 0, 0, 1);
    let round = VirtualTokenContract::get_active_round(&market);

    let result =
        VirtualTokenContract::resolve_round(&env, &mut market, &ledger(12, 0), &payload);
    assert_eq!(result, Ok(()));

    // The round is put back, so that the nonce meets the same round again.
    market.cells.active_round = round;

    let result =
        VirtualTokenContract::resolve_round(&env, &mut market, &ledger(12, 0), &payload);
    assert_eq!(result, Err(ContractError::OracleNonceReused));
    assert_eq!(last_event(&market), resolve_rejection(ContractError::OracleNonceReused));
    assert_eq!(Action::Resolve.to_name(), "resolve");
}

#[test]
fn test_action_rejected_resolve_round_invalid_round_id() {
    let env = Env::default();
    let mut market = with_bet();
    let result = VirtualTokenContract::resolve_round(
        &env,
        &mut market,
        &ledger(12, 0),
        &report(1_2000000, 0, 999, 1),
    );
    assert_eq!(result, Err(ContractError::InvalidOracleRound));
    assert_eq!(last_event(&market), resolve_rejection(ContractError::InvalidOracleRound));
}

#[test]
fn test_action_rejected_resolve_round_future_timestamp() {
    let env = Env::default();
    let mut market = with_bet();
    let result = VirtualTokenContract::resolve_round(
        &env,
        &mut market,
        &ledger(12, 0),
        &report(1_2000000, 1000, 0, 1),
    );
    assert_eq!(result, Err(ContractError::FutureOracleData));
    assert_eq!(last_event(&market), resolve_rejection(ContractError::FutureOracleData));
}

#[test]
fn test_action_rejected_resolve_round_stale_data() {
    let env = Env::default();
    let mut market = with_bet();
    let result = VirtualTokenContract::resolve_round(
        &env,
        &mut market,
        &ledger(12, 1_700_000_000),
        &report(1_2000000, 1_699_999_000, 0, 1),
    );
    assert_eq!(result, Err(ContractError::StaleOracleData));
    assert_eq!(last_event(&market), resolve_rejection(ContractError::StaleOracleData));
}

#[test]
fn test_action_rejected_resolve_round_wrong_network() {
    let env = Env::default();
    let mut market = with_bet();
    let ones: u128 = u128::from_be_bytes([1; 16]);
    let mut payload = report(1_2000000, 0, 0, 1);
    payload.network_id = Bytes32 { high: ones, low: ones };
    let result =
        VirtualTokenContract::resolve_round(&env, &mut market, &ledger(12, 0), &payload);
    assert_eq!(result, Err(ContractError::OracleNetworkMismatch));
    assert_eq!(last_event(&market), resolve_rejection(ContractError::OracleNetworkMismatch));
}

#[test]
fn test_action_rejected_resolve_round_not_ended() {
    let env = Env::default();
    let mut market = with_bet();
    let result = VirtualTokenContract::resolve_round(
        &env,
        &mut market,
        &ledger(11, 0),
        &report(1_2000000, 0, 0, 1),
    );
    assert_eq!(result, Err(ContractError::RoundNotEnded));
    assert_eq!(last_event(&market), resolve_rejection(ContractError::RoundNotEnded));
}

#[test]
fn test_event_coverage_round_summary() {
    let env = Env::default();
    let mut market = setup();

    // A round on the direction of the price.
    open(&mut market, 1, 1_0000000, RoundMode::UpDown, 0);
    bet(&mut market, USER, 100_0000000, BetSide::Up);
    bet(&mut market, OTHER, 200_0000000, BetSide::Down);
    let result = VirtualTokenContract::resolve_round(
        &env,
        &mut market,
        &ledger(12, 0),
        &report(1_2000000, 0, 0, 1),
    );
    assert_eq!(result, Ok(()));
    let event = summary_of(&market, 1);
    assert_eq!(event.to_topics(), ("round", "summary"));
    assert_eq!(
        event,
        Event::RoundSummary {
            round_id: 1,
            mode: 0,
            price_start: 1_0000000,
            price_final: 1_2000000,
            participant_count: 2,
            total_pot: 300_0000000,
            fee_amount: 0,
            status: 0,
        }
    );

    // A round on the price.
    open(&mut market, 2, 2000, RoundMode::Precision, 12);
    predict(&mut market, USER, 150_0000000, 2100);
    predict(&mut market, OTHER, 250_0000000, 2200);
    let round = VirtualTokenContract::get_active_round(&market).unwrap();
    let result = VirtualTokenContract::resolve_round(
        &env,
        &mut market,
        &ledger(round.end_ledger, 0),
        &report(2150, 0, round.start_ledger, 2),
    );
    assert_eq!(result, Ok(()));
    assert_eq!(
        summary_of(&market, 2),
        Event::RoundSummary {
            round_id: 2,
            mode: 1,
            price_start: 2000,
            price_final: 2150,
            participant_count: 2,
            total_pot: 400_0000000,
            fee_amount: 0,
            status: 0,
        }
    );

    // A cancelled round.
    open(&mut market, 3, 1_0000000, RoundMode::UpDown, 24);
    bet(&mut market, USER, 50_0000000, BetSide::Up);
    assert_eq!(VirtualTokenContract::cancel_round(&env, &mut market, &ledger(24, 0), 99), Ok(()));
    assert_eq!(
        summary_of(&market, 3),
        Event::RoundSummary {
            round_id: 3,
            mode: 0,
            price_start: 1_0000000,
            price_final: 0,
            participant_count: 1,
            total_pot: 50_0000000,
            fee_amount: 0,
            status: 1,
        }
    );
}

#[test]
fn a_paused_settlement_is_told() {
    let env = Env::default();
    let mut market = with_bet();
    assert_eq!(VirtualTokenContract::_set_mode(&mut market, RuntimeMode::FullyPaused), Ok(()));
    let event = last_event(&market);
    assert_eq!(event.to_topics(), ("mode", "transition"));
    assert_eq!(event, Event::ModeTransition { old_mode: 0, new_mode: 2 });

    let result = VirtualTokenContract::resolve_round(
        &env,
        &mut market,
        &ledger(12, 0),
        &report(1_2000000, 0, 0, 1),
    );
    assert_eq!(result, Err(ContractError::ContractPaused));
    assert_eq!(last_event(&market), resolve_rejection(ContractError::ContractPaused));
}

#[test]
fn a_mode_that_stays_is_not_told() {
    let mut market = setup();
    assert_eq!(VirtualTokenContract::_set_mode(&mut market, RuntimeMode::Normal), Ok(()));
    assert_eq!(market.events.len(), 0);
}

#[test]
fn a_one_sided_pool_is_told() {
    let env = Env::default();
    let mut market = with_bet();
    let result = VirtualTokenContract::resolve_round(
        &env,
        &mut market,
        &ledger(12, 0),
        &report(1_2000000, 0, 0, 1),
    );
    assert_eq!(result, Ok(()));
    let expected = Event::PoolOneSided { round_id: 1, pool_up: 100_0000000, pool_down: 0 };
    assert_eq!(expected.to_topics(), ("pool", "onesided"));
    assert!(market.events.contains(&expected));
}

#[test]
fn a_fallback_is_told() {
    let env = Env::default();
    let mut market = with_bet();
    market.cells.min_participants = Some(3);
    let result = VirtualTokenContract::resolve_round(
        &env,
        &mut market,
        &ledger(12, 0),
        &report(1_2000000, 0, 0, 1),
    );
    assert_eq!(result, Ok(()));
    let event = last_event(&market);
    assert_eq!(event.to_topics(), ("round", "fallback"));
    assert_eq!(event, Event::RoundFallback { round_id: 1, count: 1, min: 3 });
    assert_eq!(
        summary_of(&market, 1),
        Event::RoundSummary {
            round_id: 1,
            mode: 0,
            price_start: 1_0000000,
            price_final: 1_2000000,
            participant_count: 1,
            total_pot: 100_0000000,
            fee_amount: 0,
            status: 2,
        }
    );
}

#[test]
fn winners_and_losers_are_told() {
    let env = Env::default();
    let mut market = setup();
    open(&mut market, 1, 1_0000000, RoundMode::UpDown, 0);
    bet(&mut market, USER, 100, BetSide::Up);
    bet(&mut market, OTHER, 200, BetSide::Down);
    let result = VirtualTokenContract::resolve_round(
        &env,
        &mut market,
        &ledger(12, 0),
        &report(1_2000000, 0, 0, 1),
    );
    assert_eq!(result, Ok(()));
    let won = Event::PayoutOutcome {
        round_id: 1,
        mode: 0,
        user: USER,
        gross_payout: 300,
        outcome_type: 1,
    };
    let lost = Event::PayoutOutcome {
        round_id: 1,
        mode: 0,
        user: OTHER,
        gross_payout: 0,
        outcome_type: 0,
    };
    let loss = Event::OutcomeLoss {
        user: OTHER,
        round_id: 1,
        mode: 0,
        stake: 200,
        side: 1,
        predicted_price: 0,
    };
    assert_eq!(won.to_topics(), ("payout", "outcome"));
    assert_eq!(loss.to_topics(), ("outcome", "loss"));
    assert_eq!(market.events[0], won);
    assert_eq!(market.events[1], loss);
    assert_eq!(market.events[2], lost);
}

#[test]
fn every_event_has_its_topics() {
    let proposed = Event::RotationProposed { new_oracle: USER, expires_at: 1 };
    let expired = Event::RotationExpired { new_oracle: USER, proposed_at: 0, expires_at: 1 };
    let accepted = Event::RotationAccepted { previous: ORACLE, new_oracle: USER };
    let cancelled = Event::RotationCancelled { new_oracle: USER };
    let fee = Event::FeeCollected { round_id: 1, fee_amount: 1, treasury: 1, bps: 1 };
    let rejected = Event::OracleRejected {
        round_id: 1,
        start_price: 1,
        price: 2,
        diff_bps: 10_000,
        max_bps: 1,
    };
    let overridden = Event::OracleOverride {
        round_id: 1,
        start_price: 1,
        price: 2,
        diff_bps: 10_000,
        max_bps: 1,
    };
    let unsure = Event::LowConfidence { round_id: 1, confidence_bps: 1, min_confidence_bps: 2 };
    let pruned = Event::ArchivePruned { round_id: 1, retention_limit: 1 };
    assert_eq!(proposed.to_topics(), ("oracle", "propose"));
    assert_eq!(expired.to_topics(), ("oracle", "expired"));
    assert_eq!(accepted.to_topics(), ("oracle", "accept"));
    assert_eq!(cancelled.to_topics(), ("oracle", "cancel"));
    assert_eq!(fee.to_topics(), ("protocol", "fee_collected"));
    assert_eq!(rejected.to_topics(), ("oracle", "rejected"));
    assert_eq!(overridden.to_topics(), ("oracle", "override"));
    assert_eq!(unsure.to_topics(), ("oracle", "lowconf"));
    assert_eq!(pruned.to_topics(), ("archive", "pruned"));
}
