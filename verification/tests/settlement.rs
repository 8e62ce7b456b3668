//! What settlements, cancellations and claims pay.

use soroban_sdk::Env;
use xlm_prediction_market::common::sort_addresses;
use xlm_prediction_market::contract::VirtualTokenContract;
use xlm_prediction_market::errors::ContractError;
use xlm_prediction_market::host::{AddressList, IdList, PositionMap, PredictionMap};
use xlm_prediction_market::market::{LedgerContext, Market};
use xlm_prediction_market::settlement::{
    _archive_round, _persist_user_outcome, _record_refunds_indexed, _record_refunds_legacy,
    _record_winnings_indexed, _record_winnings_legacy, _refund_under_threshold,
    _resolve_precision_legacy, _resolve_precision_mode, _resolve_updown_mode,
};
use xlm_prediction_market::types::{
    Address, ArchivedRoundSummary, BetSide, Bytes32, DataKey, Event, OraclePayload,
    PrecisionCommitment, PrecisionPrediction, Round, RoundArchiveStatus, RoundMode, RoundStatus,
    RuntimeMode, UserOutcomeType, UserPosition, UserRoundOutcome, UserStats,
};

const NETWORK: Bytes32 = Bytes32 { high: 7, low: 9 };

const CONTRACT: Address = Address { kind: 1, high: 0, low: 1 };

const ADMIN: Address = Address { kind: 0, high: 0, low: 1 };

const ORACLE: Address = Address { kind: 0, high: 0, low: 2 };

const ANN: Address = Address { kind: 0, high: 0, low: 11 };

const BOB: Address = Address { kind: 0, high: 0, low: 12 };

const CAT: Address = Address { kind: 0, high: 0, low: 13 };

const DAN: Address = Address { kind: 0, high: 0, low: 14 };

fn listed(users: &Vec<Address>) -> AddressList {
    AddressList::from_users(&Env::default(), users)
}

fn members(list: &AddressList) -> Vec<Address> {
    let mut users: Vec<Address> = Vec::new();
    while let Some(user) = list.get(users.len() as u32) {
        users.push(user);
    }
    users
}

fn positions(entries: &Vec<(Address, UserPosition)>) -> PositionMap {
    PositionMap::from_entries(&Env::default(), entries)
}

fn predictions(entries: &Vec<(Address, PrecisionPrediction)>) -> PredictionMap {
    PredictionMap::from_entries(&Env::default(), entries)
}

fn ledger() -> LedgerContext {
    LedgerContext {
        sequence: 12,
        timestamp: 1_000,
        network_id: NETWORK,
        contract: CONTRACT,
        authorized: vec![ADMIN, ORACLE, ANN, BOB, CAT, DAN],
    }
}

fn setup() -> Market {
    let mut market = Market::new();
    market.cells.schema_version = Some(3);
    market.cells.admin = Some(ADMIN);
    market.cells.oracle = Some(ORACLE);
    market
}

fn round(round_id: u64, mode: RoundMode) -> Round {
    Round {
        round_id,
        price_start: 10_000,
        start_ledger: 0,
        bet_end_ledger: 6,
        end_ledger: 12,
        pool_up: 0,
        pool_down: 0,
        mode,
    }
}

fn open(market: &mut Market, round_id: u64, mode: RoundMode) {
    market.cells.active_round = Some(round(round_id, mode));
}

fn join(market: &mut Market, round_id: u64, user: Address) {
    let mut users = market.participants_of(&Env::default(), round_id);
    users.insert(users.len(), user);
    market.set_participants(round_id, users);
}

fn bet(market: &mut Market, user: Address, amount: i128, side: BetSide) {
    let mut round = market.cells.active_round.unwrap();
    match side {
        BetSide::Up => round.pool_up += amount,
        BetSide::Down => round.pool_down += amount,
    }
    market.cells.active_round = Some(round);
    market.positions.insert((round.round_id, user), UserPosition { amount, side });
    join(market, round.round_id, user);
}

fn predict(market: &mut Market, user: Address, amount: i128, predicted_price: u128) {
    let round_id = market.cells.active_round.unwrap().round_id;
    market.predictions.insert(
        (round_id, user),
        PrecisionPrediction { user, predicted_price, amount },
    );
    join(market, round_id, user);
}

fn commit(market: &mut Market, user: Address, amount: i128) {
    let round_id = market.cells.active_round.unwrap().round_id;
    market.commitments.insert(
        (round_id, user),
        PrecisionCommitment { hash: Bytes32 { high: 1, low: 2 }, amount },
    );
    join(market, round_id, user);
}

fn resolve(market: &mut Market, price: u128) -> Result<(), ContractError> {
    let payload = OraclePayload {
        price,
        timestamp: 1_000,
        round_id: 0,
        nonce: 1,
        network_id: NETWORK,
        contract_addr: CONTRACT,
        confidence: None,
    };
    VirtualTokenContract::resolve_round(&Env::default(), market, &ledger(), &payload)
}

fn cancel(market: &mut Market) -> Result<(), ContractError> {
    VirtualTokenContract::cancel_round(&Env::default(), market, &ledger(), 5)
}

fn pending(market: &Market, user: Address) -> i128 {
    VirtualTokenContract::get_pending_winnings(market, user)
}

fn outcome(market: &Market, user: Address) -> UserRoundOutcome {
    VirtualTokenContract::get_user_archived_participation(market, user, 1).unwrap()
}

#[test]
fn winners_share_the_pot_in_proportion() {
    let mut market = setup();
    open(&mut market, 1, RoundMode::UpDown);
    bet(&mut market, ANN, 500, BetSide::Up);
    bet(&mut market, BOB, 300, BetSide::Down);
    assert_eq!(resolve(&mut market, 10_100), Ok(()));
    assert_eq!(pending(&market, ANN), 800);
    assert_eq!(pending(&market, BOB), 0);
    assert_eq!(outcome(&market, ANN).outcome, UserOutcomeType::Win);
    assert_eq!(outcome(&market, ANN).payout, 800);
    assert_eq!(outcome(&market, BOB).outcome, UserOutcomeType::Loss);
    assert_eq!(outcome(&market, BOB).prediction_side, 1);
}

#[test]
fn a_fall_of_the_price_pays_the_other_side() {
    let mut market = setup();
    open(&mut market, 1, RoundMode::UpDown);
    bet(&mut market, ANN, 500, BetSide::Up);
    bet(&mut market, BOB, 300, BetSide::Down);
    assert_eq!(resolve(&mut market, 9_999), Ok(()));
    assert_eq!(pending(&market, ANN), 0);
    assert_eq!(pending(&market, BOB), 800);
}

#[test]
fn parts_are_rounded_down() {
    let mut market = setup();
    open(&mut market, 1, RoundMode::UpDown);
    bet(&mut market, ANN, 1, BetSide::Up);
    bet(&mut market, BOB, 2, BetSide::Up);
    bet(&mut market, CAT, 5, BetSide::Down);
    assert_eq!(resolve(&mut market, 10_001), Ok(()));
    // Eighths of three parts: two and two thirds, five and one third.
    assert_eq!(pending(&market, ANN), 2);
    assert_eq!(pending(&market, BOB), 5);
    assert_eq!(pending(&market, CAT), 0);
}

#[test]
fn the_fee_comes_out_of_the_pot() {
    let mut market = setup();
    market.cells.protocol_fee_bps = Some(500);
    open(&mut market, 1, RoundMode::UpDown);
    bet(&mut market, ANN, 600, BetSide::Up);
    bet(&mut market, BOB, 400, BetSide::Down);
    assert_eq!(resolve(&mut market, 10_100), Ok(()));
    assert_eq!(market.cells.protocol_fee_treasury, Some(50));
    assert_eq!(pending(&market, ANN), 950);
    assert!(market.events.contains(&Event::FeeCollected {
        round_id: 1,
        fee_amount: 50,
        treasury: 50,
        bps: 500,
    }));
}

#[test]
fn a_thin_losing_pool_leaves_the_rest_of_the_fee_to_the_winners() {
    let mut market = setup();
    market.cells.protocol_fee_bps = Some(1_000);
    assert_eq!(
        VirtualTokenContract::_apply_protocol_fee_updown(&mut market, 1, 990, 10),
        Ok((900, 0, 100))
    );
    assert_eq!(market.cells.protocol_fee_treasury, Some(100));
    assert_eq!(
        VirtualTokenContract::_apply_protocol_fee_updown(&mut market, 1, 500, 500),
        Ok((500, 400, 100))
    );
    assert_eq!(market.cells.protocol_fee_treasury, Some(200));
}

#[test]
fn a_fee_of_nothing_changes_nothing() {
    let mut market = setup();
    assert_eq!(
        VirtualTokenContract::_apply_protocol_fee_updown(&mut market, 1, 7, 5),
        Ok((7, 5, 0))
    );
    assert_eq!(VirtualTokenContract::_apply_protocol_fee_precision(&mut market, 1, 7), Ok((7, 0)));
    market.cells.protocol_fee_bps = Some(1);
    assert_eq!(
        VirtualTokenContract::_apply_protocol_fee_updown(&mut market, 1, 7, 5),
        Ok((7, 5, 0))
    );
    assert_eq!(VirtualTokenContract::_apply_protocol_fee_precision(&mut market, 1, 0), Ok((0, 0)));
    assert_eq!(
        VirtualTokenContract::_apply_protocol_fee_precision(&mut market, 1, -4),
        Ok((-4, 0))
    );
    assert_eq!(market.cells.protocol_fee_treasury, None);
    assert_eq!(market.events.len(), 0);
}

#[test]
fn fees_that_cannot_be_reckoned_are_refused() {
    let mut market = setup();
    market.cells.protocol_fee_bps = Some(1_000);
    assert_eq!(
        VirtualTokenContract::_apply_protocol_fee_updown(&mut market, 1, i128::MAX, 1),
        Err(ContractError::PayoutOverflow)
    );
    assert_eq!(
        VirtualTokenContract::_apply_protocol_fee_updown(&mut market, 1, i128::MAX, 0),
        Err(ContractError::Overflow)
    );
    assert_eq!(
        VirtualTokenContract::_apply_protocol_fee_precision(&mut market, 1, i128::MAX),
        Err(ContractError::Overflow)
    );
    market.cells.protocol_fee_treasury = Some(i128::MAX);
    assert_eq!(
        VirtualTokenContract::_apply_protocol_fee_precision(&mut market, 1, 1_000),
        Err(ContractError::Overflow)
    );
    assert_eq!(
        VirtualTokenContract::_collect_protocol_fee(&mut market, 1, 1, None),
        Err(ContractError::Overflow)
    );
    assert_eq!(VirtualTokenContract::_collect_protocol_fee(&mut market, 1, 0, None), Ok(()));
    assert_eq!(VirtualTokenContract::_collect_protocol_fee(&mut market, 1, -1, None), Ok(()));
}

#[test]
fn an_unchanged_price_gives_the_stakes_back() {
    let mut market = setup();
    market.cells.protocol_fee_bps = Some(500);
    open(&mut market, 1, RoundMode::UpDown);
    bet(&mut market, ANN, 500, BetSide::Up);
    bet(&mut market, BOB, 300, BetSide::Down);
    assert_eq!(resolve(&mut market, 10_000), Ok(()));
    assert_eq!(pending(&market, ANN), 500);
    assert_eq!(pending(&market, BOB), 300);
    assert_eq!(outcome(&market, ANN).outcome, UserOutcomeType::Refund);
    assert_eq!(outcome(&market, BOB).outcome, UserOutcomeType::Refund);
    assert_eq!(market.cells.protocol_fee_treasury, None);
    assert_eq!(
        VirtualTokenContract::get_user_stats(&market, ANN),
        UserStats { total_wins: 0, total_losses: 0, current_streak: 0, best_streak: 0 }
    );
}

#[test]
fn a_one_sided_round_gives_the_stakes_back() {
    for price in [9_000u128, 11_000u128] {
        let mut market = setup();
        open(&mut market, 1, RoundMode::UpDown);
        bet(&mut market, ANN, 500, BetSide::Up);
        bet(&mut market, BOB, 300, BetSide::Up);
        assert_eq!(resolve(&mut market, price), Ok(()));
        assert_eq!(pending(&market, ANN), 500);
        assert_eq!(pending(&market, BOB), 300);
    }
}

#[test]
fn a_round_without_participants_pays_nobody() {
    let mut market = setup();
    open(&mut market, 1, RoundMode::UpDown);
    assert_eq!(resolve(&mut market, 11_000), Ok(()));
    let mut market = setup();
    open(&mut market, 1, RoundMode::Precision);
    assert_eq!(resolve(&mut market, 11_000), Ok(()));
    assert_eq!(
        market.events,
        vec![
            Event::RoundSummary {
                round_id: 1,
                mode: 1,
                price_start: 10_000,
                price_final: 11_000,
                participant_count: 0,
                total_pot: 0,
                fee_amount: 0,
                status: 0,
            },
            Event::RoundResolved { round_id: 1, price: 11_000, mode: 1, confidence: None },
        ]
    );
}

#[test]
fn the_closest_prediction_takes_the_pot() {
    let mut market = setup();
    open(&mut market, 1, RoundMode::Precision);
    predict(&mut market, CAT, 300, 2_500);
    predict(&mut market, ANN, 100, 2_100);
    predict(&mut market, BOB, 200, 2_290);
    assert_eq!(resolve(&mut market, 2_300), Ok(()));
    assert_eq!(pending(&market, ANN), 0);
    assert_eq!(pending(&market, BOB), 600);
    assert_eq!(pending(&market, CAT), 0);
    assert_eq!(
        outcome(&market, BOB),
        UserRoundOutcome {
            user: BOB,
            round_mode: 1,
            prediction_side: 2,
            predicted_price: 2_290,
            stake: 200,
            payout: 600,
            outcome: UserOutcomeType::Win,
        }
    );
    assert_eq!(outcome(&market, CAT).outcome, UserOutcomeType::Loss);
    assert_eq!(outcome(&market, CAT).predicted_price, 2_500);
}

#[test]
fn equally_close_predictions_share_and_the_first_gets_the_rest() {
    let mut market = setup();
    open(&mut market, 1, RoundMode::Precision);
    predict(&mut market, CAT, 40, 2_310);
    predict(&mut market, ANN, 30, 2_290);
    predict(&mut market, BOB, 30, 2_310);
    assert_eq!(resolve(&mut market, 2_300), Ok(()));
    assert_eq!(pending(&market, ANN), 34);
    assert_eq!(pending(&market, BOB), 33);
    assert_eq!(pending(&market, CAT), 33);
}

#[test]
fn a_closer_prediction_displaces_those_before() {
    let mut market = setup();
    open(&mut market, 1, RoundMode::Precision);
    predict(&mut market, ANN, 10, 2_200);
    predict(&mut market, BOB, 10, 2_400);
    predict(&mut market, CAT, 10, 2_301);
    predict(&mut market, DAN, 10, 2_299);
    assert_eq!(resolve(&mut market, 2_300), Ok(()));
    assert_eq!(pending(&market, ANN), 0);
    assert_eq!(pending(&market, BOB), 0);
    assert_eq!(pending(&market, CAT), 20);
    assert_eq!(pending(&market, DAN), 20);
    assert_eq!(VirtualTokenContract::get_user_stats(&market, ANN).total_losses, 1);
    assert_eq!(VirtualTokenContract::get_user_stats(&market, BOB).total_losses, 1);
    assert_eq!(VirtualTokenContract::get_user_stats(&market, CAT).total_wins, 1);
    assert_eq!(VirtualTokenContract::get_user_stats(&market, DAN).total_wins, 1);
}

#[test]
fn a_commitment_that_was_not_revealed_is_lost_to_the_winner() {
    let mut market = setup();
    market.cells.protocol_fee_bps = Some(1_000);
    open(&mut market, 1, RoundMode::Precision);
    commit(&mut market, ANN, 60);
    predict(&mut market, BOB, 40, 9_999_999);
    assert_eq!(resolve(&mut market, 2_300), Ok(()));
    assert_eq!(pending(&market, ANN), 0);
    assert_eq!(pending(&market, BOB), 90);
    assert_eq!(market.cells.protocol_fee_treasury, Some(10));
    assert_eq!(outcome(&market, ANN).stake, 60);
    assert_eq!(outcome(&market, ANN).predicted_price, 0);
}

#[test]
fn unrevealed_commitments_go_back() {
    let mut market = setup();
    market.cells.protocol_fee_bps = Some(1_000);
    open(&mut market, 1, RoundMode::Precision);
    commit(&mut market, ANN, 60);
    commit(&mut market, BOB, 40);
    assert_eq!(resolve(&mut market, 2_300), Ok(()));
    assert_eq!(pending(&market, ANN), 60);
    assert_eq!(pending(&market, BOB), 40);
    assert_eq!(market.cells.protocol_fee_treasury, None);
    assert_eq!(outcome(&market, ANN).outcome, UserOutcomeType::Refund);
}

#[test]
fn a_pot_that_cannot_be_summed_up_is_refused() {
    let mut market = setup();
    open(&mut market, 1, RoundMode::Precision);
    predict(&mut market, ANN, i128::MAX, 1);
    predict(&mut market, BOB, 1, 1);
    assert_eq!(
        _resolve_precision_mode(&Env::default(), &mut market, 1, 1),
        Err(ContractError::PayoutOverflow)
    );
    assert_eq!(pending(&market, ANN), 0);
    assert_eq!(pending(&market, BOB), 0);
    assert_eq!(market.cells.protocol_fee_treasury, None);
    let mut market = setup();
    market.precision_legacy = Some(predictions(&vec![
        (ANN, PrecisionPrediction { user: ANN, predicted_price: 1, amount: i128::MAX }),
        (BOB, PrecisionPrediction { user: BOB, predicted_price: 1, amount: 1 }),
    ]));
    assert_eq!(
        _resolve_precision_mode(&Env::default(), &mut market, 1, 1),
        Err(ContractError::PayoutOverflow)
    );
}

#[test]
fn an_older_list_of_predictions_is_settled() {
    let mut market = setup();
    market.cells.protocol_fee_bps = Some(100);
    market.precision_legacy = Some(predictions(&vec![
        (ANN, PrecisionPrediction { user: ANN, predicted_price: 90, amount: 100 }),
        (BOB, PrecisionPrediction { user: BOB, predicted_price: 110, amount: 100 }),
        (CAT, PrecisionPrediction { user: CAT, predicted_price: 200, amount: 101 }),
    ]));
    assert_eq!(_resolve_precision_mode(&Env::default(), &mut market, 1, 100), Ok(3));
    assert_eq!(pending(&market, ANN), 149);
    assert_eq!(pending(&market, BOB), 149);
    assert_eq!(pending(&market, CAT), 0);
    assert_eq!(VirtualTokenContract::get_user_stats(&market, CAT).total_losses, 1);
    assert_eq!(outcome(&market, CAT).predicted_price, 200);
}

#[test]
fn an_empty_older_list_pays_nobody() {
    let env = Env::default();
    let mut market = setup();
    assert_eq!(
        _resolve_precision_legacy(&env, &mut market, 1, &predictions(&Vec::new()), 100),
        Ok(0)
    );
    let entries = predictions(&vec![
        (ANN, PrecisionPrediction { user: ANN, predicted_price: 90, amount: 0 }),
    ]);
    assert_eq!(_resolve_precision_legacy(&env, &mut market, 1, &entries, 100), Ok(0));
    assert_eq!(market.events.len(), 0);
}

#[test]
fn an_older_list_of_positions_is_settled() {
    let mut market = setup();
    let mut old_round = round(1, RoundMode::UpDown);
    old_round.pool_up = 100;
    old_round.pool_down = 50;
    market.updown_legacy = Some(positions(&vec![
        (ANN, UserPosition { amount: 100, side: BetSide::Up }),
        (BOB, UserPosition { amount: 50, side: BetSide::Down }),
    ]));
    assert_eq!(
        _resolve_updown_mode(&Env::default(), &mut market, &old_round, 10_001),
        Ok((false, 0))
    );
    assert_eq!(pending(&market, ANN), 150);
    assert_eq!(pending(&market, BOB), 0);

    market.pending.remove(&ANN);
    assert_eq!(
        _resolve_updown_mode(&Env::default(), &mut market, &old_round, 10_000),
        Ok((false, 0))
    );
    assert_eq!(pending(&market, ANN), 100);
    assert_eq!(pending(&market, BOB), 50);

    market.cells.active_round = Some(old_round);
    assert_eq!(resolve(&mut market, 10_001), Ok(()));
    assert!(market.updown_legacy.is_none());
}

#[test]
fn a_one_sided_round_in_the_older_list_gives_the_stakes_back() {
    for (side, pool_up, pool_down) in [(BetSide::Up, 150, 0), (BetSide::Down, 0, 150)] {
        for price in [9_999u128, 10_000u128, 10_001u128] {
            let mut market = setup();
            market.cells.protocol_fee_bps = Some(1_000);
            let mut old_round = round(1, RoundMode::UpDown);
            old_round.pool_up = pool_up;
            old_round.pool_down = pool_down;
            market.updown_legacy = Some(positions(&vec![
                (ANN, UserPosition { amount: 100, side }),
                (BOB, UserPosition { amount: 50, side }),
            ]));
            assert_eq!(
                _resolve_updown_mode(&Env::default(), &mut market, &old_round, price),
                Ok((true, 0))
            );
            assert_eq!(pending(&market, ANN), 100);
            assert_eq!(pending(&market, BOB), 50);
            assert_eq!(pending(&market, CAT), 0);
            assert_eq!(outcome(&market, ANN).outcome, UserOutcomeType::Refund);
            assert_eq!(outcome(&market, BOB).outcome, UserOutcomeType::Refund);
            assert_eq!(market.cells.protocol_fee_treasury, None);
            assert_eq!(VirtualTokenContract::get_user_stats(&market, ANN).total_losses, 0);
        }
    }
}

#[test]
fn a_one_sided_round_in_the_older_list_is_resolved() {
    let mut market = setup();
    market.cells.protocol_fee_bps = Some(1_000);
    let mut old_round = round(1, RoundMode::UpDown);
    old_round.pool_up = 100;
    market.cells.active_round = Some(old_round);
    market.updown_legacy =
        Some(positions(&vec![(ANN, UserPosition { amount: 100, side: BetSide::Up })]));
    assert_eq!(resolve(&mut market, 10_001), Ok(()));
    assert_eq!(pending(&market, ANN), 100);
    assert_eq!(market.cells.protocol_fee_treasury, None);
    assert!(market.updown_legacy.is_none());
    assert!(market.events.contains(&Event::PoolOneSided {
        round_id: 1,
        pool_up: 100,
        pool_down: 0
    }));
}

#[test]
fn a_cancelled_round_gives_older_positions_back() {
    let mut market = setup();
    open(&mut market, 1, RoundMode::UpDown);
    market.updown_legacy = Some(positions(&vec![
        (ANN, UserPosition { amount: 500, side: BetSide::Up }),
        (BOB, UserPosition { amount: 300, side: BetSide::Down }),
    ]));
    market.precision_legacy = Some(predictions(&Vec::new()));
    assert_eq!(cancel(&mut market), Ok(()));
    assert_eq!(pending(&market, ANN), 500);
    assert_eq!(pending(&market, BOB), 300);
    assert_eq!(pending(&market, CAT), 0);
    assert_eq!(outcome(&market, ANN).outcome, UserOutcomeType::Cancel);
    assert_eq!(outcome(&market, BOB).payout, 300);
    assert_eq!(VirtualTokenContract::get_user_stats(&market, ANN).total_wins, 0);
    assert!(market.updown_legacy.is_none());
    assert!(market.precision_legacy.is_some());
    assert_eq!(cancel(&mut market), Err(ContractError::RoundNotCancellable));
    assert_eq!(pending(&market, ANN), 500);
}

#[test]
fn a_cancelled_round_gives_older_predictions_back() {
    let mut market = setup();
    open(&mut market, 1, RoundMode::Precision);
    market.precision_legacy = Some(predictions(&vec![
        (ANN, PrecisionPrediction { user: ANN, predicted_price: 90, amount: 60 }),
        (BOB, PrecisionPrediction { user: BOB, predicted_price: 95, amount: 0 }),
    ]));
    assert_eq!(cancel(&mut market), Ok(()));
    assert_eq!(pending(&market, ANN), 60);
    assert_eq!(pending(&market, BOB), 0);
    assert_eq!(outcome(&market, ANN).outcome, UserOutcomeType::Cancel);
    assert_eq!(outcome(&market, BOB).outcome, UserOutcomeType::Cancel);
    assert!(market.precision_legacy.is_none());
}

#[test]
fn a_listed_round_leaves_the_older_list_alone_when_cancelled() {
    let mut market = setup();
    open(&mut market, 1, RoundMode::UpDown);
    bet(&mut market, BOB, 300, BetSide::Down);
    market.updown_legacy =
        Some(positions(&vec![(ANN, UserPosition { amount: 500, side: BetSide::Up })]));
    assert_eq!(cancel(&mut market), Ok(()));
    assert_eq!(pending(&market, ANN), 0);
    assert_eq!(pending(&market, BOB), 300);
    assert!(market.updown_legacy.is_some());
}

#[test]
fn too_few_participants_give_the_older_list_back() {
    let mut market = setup();
    market.cells.min_participants = Some(2);
    market.cells.protocol_fee_bps = Some(1_000);
    open(&mut market, 1, RoundMode::UpDown);
    market.updown_legacy = Some(positions(&vec![
        (ANN, UserPosition { amount: 500, side: BetSide::Up }),
        (BOB, UserPosition { amount: 300, side: BetSide::Down }),
    ]));
    assert_eq!(resolve(&mut market, 11_000), Ok(()));
    assert_eq!(pending(&market, ANN), 500);
    assert_eq!(pending(&market, BOB), 300);
    assert_eq!(outcome(&market, BOB).outcome, UserOutcomeType::Refund);
    assert_eq!(market.cells.protocol_fee_treasury, None);
    assert!(market.updown_legacy.is_none());

    let mut market = setup();
    market.cells.min_participants = Some(2);
    open(&mut market, 1, RoundMode::Precision);
    market.precision_legacy = Some(predictions(&vec![
        (ANN, PrecisionPrediction { user: ANN, predicted_price: 90, amount: 60 }),
        (BOB, PrecisionPrediction { user: BOB, predicted_price: 95, amount: 40 }),
    ]));
    assert_eq!(resolve(&mut market, 11_000), Ok(()));
    assert_eq!(pending(&market, ANN), 60);
    assert_eq!(pending(&market, BOB), 40);
    assert_eq!(outcome(&market, ANN).outcome, UserOutcomeType::Refund);
    assert_eq!(
        VirtualTokenContract::get_round_status(&market, &ledger(), 1),
        RoundStatus::FallbackRefund
    );
    assert!(market.precision_legacy.is_none());
}

#[test]
fn refunds_of_the_older_list_keep_to_the_cap() {
    for mode in [RoundMode::UpDown, RoundMode::Precision] {
        let mut market = setup();
        market.cells.max_pending_winnings = Some(10);
        open(&mut market, 1, mode);
        market.updown_legacy =
            Some(positions(&vec![(ANN, UserPosition { amount: 11, side: BetSide::Up })]));
        market.precision_legacy = Some(predictions(&vec![
            (ANN, PrecisionPrediction { user: ANN, predicted_price: 90, amount: 11 }),
        ]));
        let active = market.cells.active_round.unwrap();
        assert_eq!(
            _refund_under_threshold(&mut market, &active, &listed(&Vec::new())),
            Err(ContractError::PendingWinningsCapExceeded)
        );
        assert_eq!(cancel(&mut market), Err(ContractError::PendingWinningsCapExceeded));
        assert_eq!(pending(&market, ANN), 0);
    }
}

#[test]
fn pools_that_nobody_won_pay_nobody() {
    let mut market = setup();
    let users = listed(&vec![ANN]);
    assert_eq!(
        _record_winnings_indexed(&mut market, 1, &users, BetSide::Up, 0, 100),
        Ok(0)
    );
    let entries = positions(&vec![(ANN, UserPosition { amount: 5, side: BetSide::Up })]);
    assert_eq!(
        _record_winnings_legacy(&mut market, 1, &entries, BetSide::Up, 0, 100),
        Ok(0)
    );
    assert_eq!(pending(&market, ANN), 0);
    assert_eq!(market.events.len(), 0);
}

#[test]
fn payouts_that_cannot_be_reckoned_are_refused() {
    let mut market = setup();
    open(&mut market, 1, RoundMode::UpDown);
    bet(&mut market, ANN, i128::MAX / 2, BetSide::Up);
    bet(&mut market, BOB, 10, BetSide::Down);
    assert_eq!(resolve(&mut market, 10_001), Err(ContractError::PayoutOverflow));
    assert_eq!(
        VirtualTokenContract::payout_mul(i128::MAX, 2),
        Err(ContractError::PayoutOverflow)
    );
    assert_eq!(VirtualTokenContract::payout_mul(-3, 2), Ok(-6));
    assert_eq!(
        VirtualTokenContract::payout_add(i128::MAX, 1),
        Err(ContractError::PayoutOverflow)
    );
    assert_eq!(VirtualTokenContract::payout_add(-3, 2), Ok(-1));
}

#[test]
fn refunds_stop_at_the_first_refusal() {
    let mut market = setup();
    market.cells.max_pending_winnings = Some(10);
    market.positions.insert((1, ANN), UserPosition { amount: 10, side: BetSide::Up });
    market.positions.insert((1, BOB), UserPosition { amount: 11, side: BetSide::Up });
    market.positions.insert((1, CAT), UserPosition { amount: 1, side: BetSide::Up });
    let users = listed(&vec![ANN, BOB, CAT]);
    assert_eq!(
        _record_refunds_indexed(&mut market, 1, 0, &users),
        Err(ContractError::PendingWinningsCapExceeded)
    );
    assert_eq!(pending(&market, ANN), 10);
    assert_eq!(pending(&market, BOB), 0);
    assert_eq!(pending(&market, CAT), 0);
    let entries = positions(&vec![
        (BOB, UserPosition { amount: 4, side: BetSide::Down }),
        (CAT, UserPosition { amount: 5, side: BetSide::Up }),
    ]);
    assert_eq!(_record_refunds_legacy(&mut market, 2, &entries), Ok(()));
    assert_eq!(pending(&market, BOB), 4);
    assert_eq!(pending(&market, CAT), 5);
}

#[test]
fn pending_winnings_keep_to_their_cap() {
    let mut market = setup();
    market.cells.max_pending_winnings = Some(100);
    assert_eq!(VirtualTokenContract::_accumulate_pending(&mut market, ANN, 60), Ok(()));
    assert_eq!(VirtualTokenContract::_accumulate_pending(&mut market, ANN, 40), Ok(()));
    assert_eq!(
        VirtualTokenContract::_accumulate_pending(&mut market, ANN, 1),
        Err(ContractError::PendingWinningsCapExceeded)
    );
    assert_eq!(pending(&market, ANN), 100);
    market.cells.max_pending_winnings = None;
    market.pending.insert(ANN, i128::MAX);
    assert_eq!(
        VirtualTokenContract::_accumulate_pending(&mut market, ANN, 1),
        Err(ContractError::PayoutOverflow)
    );
    assert_eq!(pending(&market, ANN), i128::MAX);
}

#[test]
fn too_few_participants_get_their_stakes_back() {
    let mut market = setup();
    market.cells.min_participants = Some(3);
    open(&mut market, 1, RoundMode::UpDown);
    bet(&mut market, ANN, 500, BetSide::Up);
    bet(&mut market, BOB, 300, BetSide::Down);
    assert_eq!(resolve(&mut market, 11_000), Ok(()));
    assert_eq!(pending(&market, ANN), 500);
    assert_eq!(pending(&market, BOB), 300);
    assert!(market.cells.active_round.is_none());
    assert!(!market.has(&DataKey::Position(1, ANN)));
    assert!(!market.has(&DataKey::RoundParticipants(1)));
}

#[test]
fn too_few_predictions_get_their_stakes_back() {
    let mut market = setup();
    market.cells.min_participants = Some(4);
    open(&mut market, 1, RoundMode::Precision);
    predict(&mut market, ANN, 500, 1);
    commit(&mut market, BOB, 300);
    join(&mut market, 1, CAT);
    assert_eq!(resolve(&mut market, 11_000), Ok(()));
    assert_eq!(pending(&market, ANN), 500);
    assert_eq!(pending(&market, BOB), 300);
    assert_eq!(pending(&market, CAT), 0);
    assert_eq!(
        VirtualTokenContract::get_user_archived_participation(&market, CAT, 1),
        None
    );
    assert_eq!(outcome(&market, ANN).predicted_price, 0);
    assert!(!market.has(&DataKey::PrecisionPosition(1, ANN)));
    assert!(!market.has(&DataKey::PrecisionCommitment(1, BOB)));
}

#[test]
fn just_enough_participants_are_settled() {
    let mut market = setup();
    market.cells.min_participants = Some(2);
    open(&mut market, 1, RoundMode::UpDown);
    bet(&mut market, ANN, 500, BetSide::Up);
    bet(&mut market, BOB, 300, BetSide::Down);
    assert_eq!(resolve(&mut market, 11_000), Ok(()));
    assert_eq!(pending(&market, ANN), 800);
    assert_eq!(
        VirtualTokenContract::get_round_status(&market, &ledger(), 1),
        RoundStatus::Resolved
    );
}

#[test]
fn a_refused_refund_refuses_the_fallback() {
    let mut market = setup();
    market.cells.max_pending_winnings = Some(1);
    open(&mut market, 1, RoundMode::UpDown);
    bet(&mut market, ANN, 500, BetSide::Up);
    let active = market.cells.active_round.unwrap();
    let users = listed(&vec![ANN]);
    assert_eq!(
        _refund_under_threshold(&mut market, &active, &users),
        Err(ContractError::PendingWinningsCapExceeded)
    );
    market.cells.max_pending_winnings = None;
    assert_eq!(_refund_under_threshold(&mut market, &active, &users), Ok(()));
    assert_eq!(pending(&market, ANN), 500);
}

#[test]
fn a_cancelled_round_gives_the_stakes_back() {
    let mut market = setup();
    market.cells.protocol_fee_bps = Some(1_000);
    open(&mut market, 1, RoundMode::UpDown);
    bet(&mut market, ANN, 500, BetSide::Up);
    bet(&mut market, BOB, 300, BetSide::Down);
    assert_eq!(cancel(&mut market), Ok(()));
    assert_eq!(pending(&market, ANN), 500);
    assert_eq!(pending(&market, BOB), 300);
    assert_eq!(outcome(&market, BOB).outcome, UserOutcomeType::Cancel);
    assert_eq!(market.cells.protocol_fee_treasury, None);
    assert!(!market.has(&DataKey::Position(1, ANN)));
    assert_eq!(
        VirtualTokenContract::get_archived_round(&market, 1),
        Some(ArchivedRoundSummary {
            round_id: 1,
            price_start: 10_000,
            price_final: 0,
            mode: RoundMode::UpDown,
            status: RoundArchiveStatus::Cancelled,
            pool_up: 500,
            pool_down: 300,
            participant_count: 2,
            settled_at_ledger: 12,
        })
    );
}

#[test]
fn a_cancelled_round_on_the_price_gives_the_stakes_back() {
    let mut market = setup();
    open(&mut market, 1, RoundMode::Precision);
    predict(&mut market, ANN, 500, 77);
    commit(&mut market, BOB, 300);
    join(&mut market, 1, CAT);
    join(&mut market, 1, ANN);
    assert_eq!(cancel(&mut market), Ok(()));
    assert_eq!(pending(&market, ANN), 500);
    assert_eq!(pending(&market, BOB), 300);
    assert_eq!(pending(&market, CAT), 0);
    assert_eq!(outcome(&market, ANN).stake, 500);
    assert_eq!(outcome(&market, ANN).predicted_price, 0);
    assert_eq!(outcome(&market, CAT).payout, 0);
    assert!(!market.has(&DataKey::PrecisionPosition(1, ANN)));
    assert!(!market.has(&DataKey::PrecisionCommitment(1, BOB)));
    let summary = market.events[market.events.len() - 2];
    assert_eq!(
        summary,
        Event::RoundSummary {
            round_id: 1,
            mode: 1,
            price_start: 10_000,
            price_final: 0,
            participant_count: 4,
            total_pot: 0,
            fee_amount: 0,
            status: 1,
        }
    );
}

#[test]
fn a_cancellation_can_be_refused() {
    let mut market = setup();
    market.cells.admin = None;
    assert_eq!(cancel(&mut market), Err(ContractError::AdminNotSet));
    market.cells.schema_version = Some(4);
    assert_eq!(cancel(&mut market), Err(ContractError::UnsupportedSchemaVersion));
    market.cells.schema_version = Some(0);
    assert_eq!(cancel(&mut market), Err(ContractError::UnsupportedSchemaVersion));

    let mut market = setup();
    market.cells.max_pending_winnings = Some(10);
    open(&mut market, 1, RoundMode::UpDown);
    bet(&mut market, ANN, 500, BetSide::Up);
    assert_eq!(cancel(&mut market), Err(ContractError::PendingWinningsCapExceeded));
    let mut market = setup();
    market.cells.max_pending_winnings = Some(10);
    open(&mut market, 1, RoundMode::Precision);
    commit(&mut market, ANN, 500);
    assert_eq!(cancel(&mut market), Err(ContractError::PendingWinningsCapExceeded));
}

#[test]
fn a_claim_moves_pending_winnings_to_the_balance() {
    let mut market = setup();
    market.balances.insert(ANN, 10);
    market.pending.insert(ANN, 90);
    market.pending.insert(BOB, 7);
    assert_eq!(VirtualTokenContract::claim_winnings(&mut market, &ledger(), ANN), Ok(90));
    assert_eq!(VirtualTokenContract::balance(&market, ANN), 100);
    assert_eq!(pending(&market, ANN), 0);
    assert!(!market.has(&DataKey::PendingWinnings(ANN)));
    assert_eq!(pending(&market, BOB), 7);
    assert_eq!(VirtualTokenContract::balance(&market, BOB), 0);
    assert_eq!(VirtualTokenContract::claim_winnings(&mut market, &ledger(), ANN), Ok(0));
    assert_eq!(VirtualTokenContract::balance(&market, ANN), 100);
    assert_eq!(market.events.len(), 1);
}

#[test]
fn a_claim_can_be_refused() {
    let mut market = setup();
    market.pending.insert(ANN, 1);
    market.balances.insert(ANN, i128::MAX);
    assert_eq!(
        VirtualTokenContract::claim_winnings(&mut market, &ledger(), ANN),
        Err(ContractError::PayoutOverflow)
    );
    assert_eq!(pending(&market, ANN), 1);
    assert_eq!(VirtualTokenContract::_set_mode(&mut market, RuntimeMode::FullyPaused), Ok(()));
    assert_eq!(
        VirtualTokenContract::claim_winnings(&mut market, &ledger(), ANN),
        Err(ContractError::ContractPaused)
    );
    market.cells.schema_version = Some(9);
    assert_eq!(
        VirtualTokenContract::claim_winnings(&mut market, &ledger(), ANN),
        Err(ContractError::UnsupportedSchemaVersion)
    );
}

#[test]
fn a_market_for_claims_only_pays_claims() {
    let mut market = setup();
    market.pending.insert(ANN, 5);
    assert_eq!(VirtualTokenContract::_set_mode(&mut market, RuntimeMode::ClaimsOnly), Ok(()));
    assert_eq!(VirtualTokenContract::claim_winnings(&mut market, &ledger(), ANN), Ok(5));
}

#[test]
fn streaks_grow_with_wins_and_end_with_losses() {
    let mut market = setup();
    assert_eq!(VirtualTokenContract::_update_stats_win(&mut market, ANN), Ok(()));
    assert_eq!(VirtualTokenContract::_update_stats_win(&mut market, ANN), Ok(()));
    assert_eq!(VirtualTokenContract::_update_stats_loss(&mut market, ANN), Ok(()));
    assert_eq!(VirtualTokenContract::_update_stats_win(&mut market, ANN), Ok(()));
    assert_eq!(
        VirtualTokenContract::get_user_stats(&market, ANN),
        UserStats { total_wins: 3, total_losses: 1, current_streak: 1, best_streak: 2 }
    );
}

#[test]
fn counts_that_are_full_are_refused() {
    let mut market = setup();
    let full_wins = UserStats {
        total_wins: u32::MAX,
        total_losses: 0,
        current_streak: 0,
        best_streak: 0,
    };
    let full_streak = UserStats {
        total_wins: 0,
        total_losses: u32::MAX,
        current_streak: u32::MAX,
        best_streak: u32::MAX,
    };
    market.stats.insert(ANN, full_wins);
    market.stats.insert(BOB, full_streak);
    assert_eq!(
        VirtualTokenContract::_update_stats_win(&mut market, ANN),
        Err(ContractError::Overflow)
    );
    assert_eq!(
        VirtualTokenContract::_update_stats_win(&mut market, BOB),
        Err(ContractError::Overflow)
    );
    assert_eq!(
        VirtualTokenContract::_update_stats_loss(&mut market, BOB),
        Err(ContractError::Overflow)
    );
    assert_eq!(VirtualTokenContract::get_user_stats(&market, ANN), full_wins);
    assert_eq!(VirtualTokenContract::get_user_stats(&market, BOB), full_streak);
}

#[test]
fn the_first_outcome_stands() {
    let mut market = setup();
    _persist_user_outcome(&mut market, 1, 0, &ANN, 0, 0, 10, 20, UserOutcomeType::Win);
    _persist_user_outcome(&mut market, 1, 0, &ANN, 0, 0, 10, 0, UserOutcomeType::Loss);
    assert_eq!(outcome(&market, ANN).outcome, UserOutcomeType::Win);
    assert_eq!(market.events.len(), 1);
    assert_eq!(market.extended, vec![DataKey::UserRoundOutcome(1, ANN)]);
}

#[test]
fn a_settled_round_leaves_nothing_behind() {
    let mut market = setup();
    market.cells.legacy_positions = true;
    market.precision_legacy = Some(predictions(&Vec::new()));
    open(&mut market, 1, RoundMode::UpDown);
    bet(&mut market, ANN, 500, BetSide::Up);
    bet(&mut market, BOB, 300, BetSide::Down);
    market.positions.insert((2, ANN), UserPosition { amount: 1, side: BetSide::Up });
    assert_eq!(resolve(&mut market, 11_000), Ok(()));
    assert!(!market.has(&DataKey::ActiveRound));
    assert!(!market.has(&DataKey::Positions));
    assert!(!market.has(&DataKey::PrecisionPositions));
    assert!(!market.has(&DataKey::RoundParticipants(1)));
    assert!(!market.has(&DataKey::Position(1, ANN)));
    assert!(!market.has(&DataKey::Position(1, BOB)));
    assert!(market.has(&DataKey::Position(2, ANN)));
    assert!(market.has(&DataKey::ConsumedOracleNonce(1, 1)));
}

#[test]
fn the_archive_drops_the_oldest_rounds() {
    let env = Env::default();
    let mut market = setup();
    market.cells.archive_retention = Some(2);
    for id in [5u64, 6, 7, 8] {
        let mut archived = round(id, RoundMode::UpDown);
        archived.pool_up = 3;
        archived.pool_down = 4;
        _archive_round(
            &env,
            &mut market,
            40,
            &archived,
            RoundArchiveStatus::Resolved,
            9,
            2,
            1,
        );
    }
    let recent = market.recent.as_ref().unwrap().to_ids();
    assert_eq!(recent, vec![7, 8]);
    assert!(!market.has(&DataKey::ArchivedRound(5)));
    assert!(!market.has(&DataKey::ArchivedRound(6)));
    assert!(market.has(&DataKey::ArchivedRound(7)));
    assert!(market.has(&DataKey::ArchivedRound(8)));
    assert_eq!(
        market.events[market.events.len() - 2],
        Event::RoundSummary {
            round_id: 8,
            mode: 0,
            price_start: 10_000,
            price_final: 9,
            participant_count: 2,
            total_pot: 7,
            fee_amount: 1,
            status: 0,
        }
    );
    assert_eq!(
        *market.events.last().unwrap(),
        Event::ArchivePruned { round_id: 6, retention_limit: 2 }
    );
}

#[test]
fn a_smaller_limit_drops_several_rounds_at_once() {
    let env = Env::default();
    let mut market = setup();
    let ids: Vec<u64> = vec![1, 2, 3, 4];
    market.recent = Some(IdList::from_ids(&env, &ids));
    market.cells.archive_retention = Some(2);
    _archive_round(
        &env,
        &mut market,
        1,
        &round(5, RoundMode::UpDown),
        RoundArchiveStatus::Cancelled,
        0,
        0,
        0,
    );
    assert_eq!(market.recent.as_ref().unwrap().to_ids(), vec![4, 5]);
    assert_eq!(market.events.len(), 4);
}

#[test]
fn the_archive_holds_many_rounds_by_default() {
    let env = Env::default();
    let mut market = setup();
    let ids: Vec<u64> = (1..=128).collect();
    market.recent = Some(IdList::from_ids(&env, &ids));
    _archive_round(
        &env,
        &mut market,
        1,
        &round(129, RoundMode::UpDown),
        RoundArchiveStatus::Resolved,
        0,
        0,
        0,
    );
    let kept = market.recent.as_ref().unwrap().to_ids();
    assert_eq!(kept.len(), 128);
    assert_eq!(kept[0], 2);
    assert_eq!(kept[127], 129);
}

#[test]
fn a_pot_that_is_too_large_is_told_as_far_as_it_goes() {
    let env = Env::default();
    let mut market = setup();
    let mut large = round(1, RoundMode::UpDown);
    large.pool_up = i128::MAX;
    large.pool_down = 1;
    _archive_round(&env, &mut market, 1, &large, RoundArchiveStatus::Resolved, 0, 0, 0);
    open(&mut market, 2, RoundMode::Precision);
    predict(&mut market, ANN, i128::MAX, 1);
    predict(&mut market, BOB, 1, 1);
    let active = market.cells.active_round.unwrap();
    _archive_round(&env, &mut market, 1, &active, RoundArchiveStatus::Resolved, 0, 0, 0);
    market.precision_legacy = Some(predictions(&vec![
        (ANN, PrecisionPrediction { user: ANN, predicted_price: 1, amount: 5 }),
        (BOB, PrecisionPrediction { user: BOB, predicted_price: 1, amount: i128::MAX }),
        (CAT, PrecisionPrediction { user: CAT, predicted_price: 1, amount: 6 }),
    ]));
    let older = round(3, RoundMode::Precision);
    _archive_round(&env, &mut market, 1, &older, RoundArchiveStatus::Resolved, 0, 0, 0);
    let mut pots: Vec<i128> = Vec::new();
    for event in market.events.iter() {
        if let Event::RoundSummary { total_pot, .. } = event {
            pots.push(*total_pot);
        }
    }
    assert_eq!(pots, vec![0, i128::MAX, 11]);
}

#[test]
fn host_lists_hold_what_was_put_in() {
    let env = Env::default();
    let ids: Vec<u64> = vec![3, 1, 2, u64::MAX];
    assert_eq!(IdList::from_ids(&env, &ids).to_ids(), ids);
    assert_eq!(IdList::from_ids(&env, &Vec::new()).to_ids(), Vec::<u64>::new());
}

#[test]
fn host_lists_of_addresses_hold_what_was_put_in() {
    let users: Vec<Address> = vec![CAT, ANN, CAT];
    let mut list = listed(&users);
    assert_eq!(list.len(), 3);
    assert_eq!(members(&list), users);
    let copy = list.copy();
    list.insert(1, BOB);
    assert_eq!(members(&list), vec![CAT, BOB, ANN, CAT]);
    assert_eq!(members(&copy), users);
    assert_eq!(list.get(4), None);
    assert_eq!(AddressList::new(&Env::default()).len(), 0);
}

#[test]
fn host_maps_keep_the_order_of_the_addresses() {
    let mut entries: Vec<(Address, UserPosition)> = Vec::new();
    for kind in [0u32, 1u32] {
        for high in [0u128, 1u128, 1u128 << 60, u128::MAX] {
            for low in [0u128, 1u128, (1u128 << 56) - 1, 1u128 << 56, u128::MAX] {
                let side = if low == 1 { BetSide::Up } else { BetSide::Down };
                let amount: i128 = entries.len() as i128 - 7;
                entries.push((Address { kind, high, low }, UserPosition { amount, side }));
            }
        }
    }
    let map = positions(&entries);
    assert_eq!(map.len() as usize, entries.len());
    let keys: Vec<Address> = entries.iter().map(|entry| entry.0).collect();
    assert_eq!(members(&map.keys()), keys);
    for entry in entries.iter() {
        assert_eq!(map.get(&entry.0), Some(entry.1));
    }
    assert_eq!(map.get(&Address { kind: 2, high: 0, low: 0 }), None);
    assert_eq!(predictions(&Vec::new()).len(), 0);
}

#[test]
fn addresses_are_put_in_order() {
    let contract = Address { kind: 1, high: 0, low: 0 };
    let high = Address { kind: 0, high: 1, low: 0 };
    assert_eq!(
        members(&sort_addresses(
            &Env::default(),
            &listed(&vec![contract, CAT, high, ANN, BOB, ANN])
        )),
        vec![ANN, ANN, BOB, CAT, high, contract]
    );
    assert!(ANN.is_at_or_before(&ANN));
    assert!(!contract.is_at_or_before(&high));
}

#[test]
fn the_order_of_the_participants_does_not_matter() {
    let mut first = setup();
    open(&mut first, 1, RoundMode::Precision);
    predict(&mut first, ANN, 10, 90);
    predict(&mut first, BOB, 11, 110);
    predict(&mut first, CAT, 12, 110);
    let mut second = setup();
    open(&mut second, 1, RoundMode::Precision);
    predict(&mut second, CAT, 12, 110);
    predict(&mut second, BOB, 11, 110);
    predict(&mut second, ANN, 10, 90);
    assert_eq!(resolve(&mut first, 100), Ok(()));
    assert_eq!(resolve(&mut second, 100), Ok(()));
    for user in [ANN, BOB, CAT] {
        assert_eq!(pending(&first, user), 11);
        assert_eq!(pending(&second, user), 11);
    }
    assert_eq!(first.events, second.events);
}

#[test]
fn a_settlement_pays_out_what_was_staked() {
    let mut market = setup();
    market.cells.protocol_fee_bps = Some(250);
    open(&mut market, 1, RoundMode::UpDown);
    bet(&mut market, ANN, 333, BetSide::Up);
    bet(&mut market, BOB, 334, BetSide::Up);
    bet(&mut market, CAT, 777, BetSide::Down);
    bet(&mut market, DAN, 1, BetSide::Up);
    assert_eq!(resolve(&mut market, 20_000), Ok(()));
    let fee = market.cells.protocol_fee_treasury.unwrap();
    let paid: i128 = [ANN, BOB, CAT, DAN].iter().map(|user| pending(&market, *user)).sum();
    assert_eq!(fee, 36);
    assert_eq!(pending(&market, ANN), 702);
    assert_eq!(pending(&market, BOB), 704);
    assert_eq!(pending(&market, DAN), 2);
    assert!(paid + fee <= 1_445);
    assert_eq!(1_445 - paid - fee, 1);
}
