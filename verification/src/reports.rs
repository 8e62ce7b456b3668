//! Which reports settle a round, told by what they say and what is recorded.

use vstd::prelude::*;
use crate::errors::ContractError;
use crate::frame::{lemma_report_only_checked, only_checked};
use crate::laws::lemma_settle_keeps_nonces;
use crate::market::LedgerContext;
use crate::model::{Cells, MarketView};
use crate::types::{Action, DataKey, Event, OraclePayload, Round, RuntimeMode};

verus! {

/// The key of an entry that is there, and nothing for one that is not.
pub open spec fn if_there(there: bool, key: DataKey) -> Seq<DataKey> {
    if there {
        seq![key]
    } else {
        Seq::empty()
    }
}

/// A quotient is within a bound exactly if what is divided is less than one
/// more than the bound, times the divisor.
pub proof fn lemma_quotient_within(a: int, b: int, bound: int)
    requires
        a >= 0,
        b > 0,
    ensures
        a / b <= bound <==> a < (bound + 1) * b,
{
    assert(a / b <= bound <==> a < (bound + 1) * b) by (nonlinear_arith)
        requires
            a >= 0,
            b > 0,
    ;
}

impl MarketView {
    /// The stored schema is one of the first three; an unmarked one counts as
    /// the first.
    pub open spec fn schema_is_known(self) -> bool {
        self.cells.schema_version matches Some(version) ==> 1 <= version <= 3
    }

    /// The contract is not fully paused.
    pub open spec fn is_running(self) -> bool {
        self.cells.paused != Some(RuntimeMode::FullyPaused)
    }

    /// A price is so far from the one that the round started with that the
    /// distance in basis points cannot be told within 32 bits.
    pub open spec fn is_beyond_telling(self, round: Round, price: u128) -> bool {
        let gap = if price >= round.price_start {
            price - round.price_start
        } else {
            round.price_start - price
        };
        gap * 10_000 > u128::MAX || gap * 10_000 >= 0x1_0000_0000 * round.price_start
    }

    /// A price is more basis points away from the one that the round started
    /// with than the limit allows.
    pub open spec fn is_beyond_limit(self, round: Round, price: u128) -> bool {
        let gap = if price >= round.price_start {
            price - round.price_start
        } else {
            round.price_start - price
        };
        self.cells.max_deviation_bps matches Some(limit) && gap * 10_000 >= (limit + 1)
            * round.price_start
    }

    /// The price of a report is near enough to the one that the round started
    /// with, or an armed override lets it pass.
    pub open spec fn price_is_near(self, round: Round, price: u128) -> bool {
        self.cells.max_deviation_bps is Some ==> {
            &&& round.price_start > 0
            &&& !self.is_beyond_telling(round, price)
            &&& self.is_beyond_limit(round, price) ==> self.cells.deviation_override_armed == Some(
                true,
            )
        }
    }

    /// The oracle is sure enough of its price: a confidence that it states is
    /// within the bounds, in strict mode or not, and only in strict mode has it
    /// to state one.
    pub open spec fn oracle_is_sure(self, payload: OraclePayload) -> bool {
        self.cells.min_confidence_bps matches Some(least) ==> match payload.confidence {
            Some(stated) => least <= stated <= 10_000,
            None => self.cells.strict_mode != Some(true),
        }
    }
}

/// A report names the round by its start ledger, the network and the contract.
pub open spec fn is_from_here(ctx: &LedgerContext, payload: OraclePayload, round: Round) -> bool {
    &&& payload.round_id == round.start_ledger
    &&& payload.network_id == ctx.network_id
    &&& payload.contract_addr == ctx.contract
}

/// A report is not from the future and at most five minutes old.
pub open spec fn is_of_now(ctx: &LedgerContext, payload: OraclePayload) -> bool {
    payload.timestamp <= ctx.timestamp <= payload.timestamp + 300
}

/// What the check of the deviation says of a price.
proof fn lemma_deviation_told(m: MarketView, round: Round, price: u128)
    ensures
        ({
            let step = m.check_deviation(round, price);
            let gap = if price >= round.price_start {
                price - round.price_start
            } else {
                round.price_start - price
            };
            &&& step.1 is Ok <==> m.price_is_near(round, price)
            &&& m.cells.max_deviation_bps is Some && round.price_start == 0 ==> step.1 == Err::<
                (),
                ContractError,
            >(ContractError::InvalidPrice)
            &&& m.cells.max_deviation_bps is Some && round.price_start > 0
                && m.is_beyond_telling(round, price) ==> step.1 == Err::<(), ContractError>(
                ContractError::Overflow,
            )
            &&& m.cells.max_deviation_bps is Some && round.price_start > 0
                && !m.is_beyond_telling(round, price) && !m.price_is_near(round, price) ==> step.1
                == Err::<(), ContractError>(ContractError::OracleDeviationExceeded)
            &&& step.0.cells == (if m.price_is_near(round, price) && m.is_beyond_limit(
                round,
                price,
            ) {
                Cells { deviation_override_armed: None, ..m.cells }
            } else {
                m.cells
            })
            &&& step.0.extended == m.extended + if_there(
                m.cells.max_deviation_bps is Some,
                DataKey::OracleMaxDeviationBps,
            )
            &&& m.cells.max_deviation_bps is Some && round.price_start > 0
                && !m.is_beyond_telling(round, price) && m.is_beyond_limit(round, price)
                ==> exists|bps: u32|
                {
                    &&& bps * round.price_start <= gap * 10_000 < (bps + 1) * round.price_start
                    &&& #[trigger] told_of_deviation(m, step.0, round, price, bps)
                }
            &&& !(m.cells.max_deviation_bps is Some && round.price_start > 0
                && !m.is_beyond_telling(round, price) && m.is_beyond_limit(round, price))
                ==> step.0.events == m.events
            &&& step.0.nonces == m.nonces
        }),
{
    let gap = if price >= round.price_start {
        price - round.price_start
    } else {
        round.price_start - price
    };
    let start = round.price_start as int;
    let step = m.check_deviation(round, price);
    assert(step.0.extended =~= m.extended + if_there(
        m.cells.max_deviation_bps is Some,
        DataKey::OracleMaxDeviationBps,
    ));
    if let Some(limit) = m.cells.max_deviation_bps {
        if start > 0 {
            lemma_quotient_within(gap * 10_000, start, limit as int);
            lemma_quotient_within(gap * 10_000, start, u32::MAX as int);
            let bps = (gap * 10_000) / start;
            vstd::arithmetic::div_mod::lemma_fundamental_div_mod(gap * 10_000, start);
            assert(bps >= 0 && bps * start <= gap * 10_000 < (bps + 1) * start)
                by (nonlinear_arith)
                requires
                    start > 0,
                    gap >= 0,
                    bps == (gap * 10_000) / start,
            ;
            if !m.is_beyond_telling(round, price) && m.is_beyond_limit(round, price) {
                assert(told_of_deviation(m, step.0, round, price, bps as u32));
            }
        }
    }
}

/// Of a price beyond the limit the outside is told, with its distance, whether
/// it was let pass or not.
pub open spec fn told_of_deviation(
    before: MarketView,
    after: MarketView,
    round: Round,
    price: u128,
    bps: u32,
) -> bool {
    let max_bps = before.cells.max_deviation_bps->0;
    after.events == before.events.push(
        if before.cells.deviation_override_armed == Some(true) {
            Event::OracleOverride {
                round_id: round.round_id,
                start_price: round.price_start,
                price,
                diff_bps: bps,
                max_bps,
            }
        } else {
            Event::OracleRejected {
                round_id: round.round_id,
                start_price: round.price_start,
                price,
                diff_bps: bps,
                max_bps,
            }
        },
    )
}

/// What the check of the confidence says of a report.
proof fn lemma_confidence_told(m: MarketView, round_id: u64, payload: OraclePayload)
    ensures
        ({
            let step = m.check_confidence(round_id, payload.confidence);
            &&& step.1 == (if m.oracle_is_sure(payload) {
                Ok(())
            } else {
                Err::<(), ContractError>(ContractError::InvalidPrice)
            })
            &&& step.0.cells == m.cells
            &&& step.0.nonces == m.nonces
            &&& step.0.events == (if m.oracle_is_sure(payload) || payload.confidence is None {
                m.events
            } else {
                m.events.push(
                    Event::LowConfidence {
                        round_id,
                        confidence_bps: payload.confidence->0,
                        min_confidence_bps: m.cells.min_confidence_bps->0,
                    },
                )
            })
            &&& step.0.extended == m.extended + if_there(
                m.cells.min_confidence_bps is Some,
                DataKey::OracleMinConfidenceBps,
            ) + if_there(m.cells.strict_mode is Some, DataKey::OracleStrictMode)
        }),
{
    let step = m.check_confidence(round_id, payload.confidence);
    assert(step.0.extended =~= m.extended + if_there(
        m.cells.min_confidence_bps is Some,
        DataKey::OracleMinConfidenceBps,
    ) + if_there(m.cells.strict_mode is Some, DataKey::OracleStrictMode));
}

/// A report passes exactly if the schema is known, the price is not zero, there
/// is an oracle, the contract runs, the report is from here and of now for the
/// active round, its price is near, the oracle is sure of it, its nonce was not
/// used for the round, and the round has ended.
pub proof fn law_reports_pass_exactly(m: MarketView, ctx: &LedgerContext, payload: OraclePayload)
    ensures
        m.check_report(ctx, payload).1 is Ok <==> {
            &&& m.schema_is_known()
            &&& payload.price != 0
            &&& m.cells.oracle is Some
            &&& m.is_running()
            &&& m.cells.active_round matches Some(round) && {
                &&& is_from_here(ctx, payload, round)
                &&& is_of_now(ctx, payload)
                &&& m.price_is_near(round, payload.price)
                &&& m.oracle_is_sure(payload)
                &&& !m.nonces.dom().contains((round.round_id, payload.nonce))
                &&& ctx.sequence >= round.end_ledger
            }
        },
{
    let checked = m.require_supported_schema().0;
    let read = checked.extend(DataKey::Oracle);
    let running = read.ensure_not_paused().0;
    lemma_ready(m);
    if let Some(round) = m.cells.active_round {
        let near = running.check_deviation(round, payload.price);
        lemma_deviation_told(running, round, payload.price);
        lemma_confidence_told(near.0, round.round_id, payload);
        assert(running.price_is_near(round, payload.price) == m.price_is_near(
            round,
            payload.price,
        ));
        assert(near.0.oracle_is_sure(payload) == m.oracle_is_sure(payload));
    }
}

/// What stands where the contents of a report are looked at.
proof fn lemma_ready(m: MarketView)
    ensures
        ({
            let read = m.require_supported_schema().0.extend(DataKey::Oracle);
            let running = read.ensure_not_paused();
            &&& m.schema_is_known() == m.schema_supported()
            &&& m.is_running() == running.1 is Ok
            &&& running.0.cells == m.cells
            &&& running.0.events == m.events
            &&& running.0.nonces == m.nonces
            &&& running.0.extended == m.extended + if_there(
                m.cells.schema_version is Some,
                DataKey::SchemaVersion,
            ) + if_there(m.cells.admin is Some, DataKey::Admin) + if_there(
                m.cells.oracle is Some,
                DataKey::Oracle,
            ) + if_there(m.cells.paused is Some, DataKey::Paused)
        }),
{
    let running = m.require_supported_schema().0.extend(DataKey::Oracle).ensure_not_paused().0;
    assert(running.extended =~= m.extended + if_there(
        m.cells.schema_version is Some,
        DataKey::SchemaVersion,
    ) + if_there(m.cells.admin is Some, DataKey::Admin) + if_there(
        m.cells.oracle is Some,
        DataKey::Oracle,
    ) + if_there(m.cells.paused is Some, DataKey::Paused));
}

/// A report that passes uses its nonce up, and an override exactly if its price
/// is beyond the limit; of that the outside is told, and of nothing else. The
/// entries that were read live longer.
pub proof fn law_passing_reports_leave(m: MarketView, ctx: &LedgerContext, payload: OraclePayload)
    requires
        m.check_report(ctx, payload).1 is Ok,
    ensures
        m.cells.active_round is Some,
        ({
            let round = m.cells.active_round->0;
            let after = m.check_report(ctx, payload).0;
            let far = m.is_beyond_limit(round, payload.price);
            &&& m.check_report(ctx, payload).1->Ok_0 == round
            &&& after.nonces == m.nonces.insert((round.round_id, payload.nonce), true)
            &&& after.cells.deviation_override_armed == (if far {
                None
            } else {
                m.cells.deviation_override_armed
            })
            &&& !far ==> after.events == m.events
            &&& far ==> after.events.len() == m.events.len() + 1 && after.events.drop_last()
                == m.events && after.events.last() is OracleOverride
            &&& after.extended == m.extended + if_there(
                m.cells.schema_version is Some,
                DataKey::SchemaVersion,
            ) + if_there(m.cells.admin is Some, DataKey::Admin) + if_there(
                m.cells.oracle is Some,
                DataKey::Oracle,
            ) + if_there(m.cells.paused is Some, DataKey::Paused) + if_there(
                m.cells.max_deviation_bps is Some,
                DataKey::OracleMaxDeviationBps,
            ) + if_there(m.cells.min_confidence_bps is Some, DataKey::OracleMinConfidenceBps)
                + if_there(m.cells.strict_mode is Some, DataKey::OracleStrictMode)
        }),
{
    let running = m.require_supported_schema().0.extend(DataKey::Oracle).ensure_not_paused().0;
    lemma_ready(m);
    lemma_report_only_checked(m, ctx, payload);
    let round = m.cells.active_round->0;
    let near = running.check_deviation(round, payload.price).0;
    let sure = near.check_confidence(round.round_id, payload.confidence).0;
    lemma_deviation_told(running, round, payload.price);
    lemma_confidence_told(near, round.round_id, payload);
    let after = m.check_report(ctx, payload).0;
    assert(after == MarketView {
        nonces: sure.nonces.insert((round.round_id, payload.nonce), true),
        ..sure
    });
    if m.is_beyond_limit(round, payload.price) {
        let bps = choose|bps: u32| #[trigger]
            told_of_deviation(running, near, round, payload.price, bps);
        assert(told_of_deviation(running, near, round, payload.price, bps));
        assert(after.events.drop_last() =~= m.events);
    }
}

/// A round is only settled by a report that passes: where a least confidence is
/// configured, a stated one reaches it, in strict mode or not, and one has to
/// be stated in strict mode; a price beyond the limit needs the override.
pub proof fn law_settled_only_by_a_good_report(
    m: MarketView,
    ctx: &LedgerContext,
    payload: OraclePayload,
)
    requires
        m.resolve_round(ctx, payload).1 is Ok,
    ensures
        m.cells.active_round is Some,
        ({
            let round = m.cells.active_round->0;
            let gap = if payload.price >= round.price_start {
                payload.price - round.price_start
            } else {
                round.price_start - payload.price
            };
            &&& payload.price > 0
            &&& m.cells.schema_version matches Some(version) ==> 1 <= version <= 3
            &&& m.cells.oracle is Some
            &&& m.cells.paused != Some(RuntimeMode::FullyPaused)
            &&& payload.round_id == round.start_ledger
            &&& payload.network_id == ctx.network_id
            &&& payload.contract_addr == ctx.contract
            &&& payload.timestamp <= ctx.timestamp <= payload.timestamp + 300
            &&& ctx.sequence >= round.end_ledger
            &&& !m.nonces.dom().contains((round.round_id, payload.nonce))
            &&& m.resolve_round(ctx, payload).0.nonces == m.nonces.insert(
                (round.round_id, payload.nonce),
                true,
            )
            &&& m.cells.min_confidence_bps is Some && payload.confidence is Some
                ==> m.cells.min_confidence_bps->0 <= payload.confidence->0 <= 10_000
            &&& m.cells.min_confidence_bps is Some && payload.confidence is None
                ==> m.cells.strict_mode != Some(true)
            &&& m.cells.max_deviation_bps matches Some(limit) ==> {
                &&& round.price_start > 0
                &&& gap * 10_000 >= (limit + 1) * round.price_start
                    ==> m.cells.deviation_override_armed == Some(true)
            }
        }),
{
    law_reports_pass_exactly(m, ctx, payload);
    law_passing_reports_leave(m, ctx, payload);
    lemma_report_only_checked(m, ctx, payload);
    let checked = m.check_report(ctx, payload);
    lemma_settle_keeps_nonces(
        checked.0,
        ctx.sequence,
        checked.1->Ok_0,
        payload,
    );
}

/// A report is refused with the first fault that it has, in this order: the
/// schema, a price of zero, no oracle, a pause, no round, another round, another
/// network or contract, a time that has not come, an age of more than five
/// minutes, a price too far off, an oracle that is not sure, a nonce that was
/// used, a round that has not ended. Nothing is settled by it.
pub proof fn law_first_fault_is_told(m: MarketView, ctx: &LedgerContext, payload: OraclePayload)
    ensures
        ({
            let answer = m.resolve_round(ctx, payload).1;
            let told = m.resolve_round(ctx, payload).0.events;
            let by_schema = m.schema_is_known();
            let priced = by_schema && payload.price != 0;
            let asked = priced && m.cells.oracle is Some;
            let up = asked && m.is_running();
            &&& !by_schema ==> answer == Err::<(), ContractError>(
                ContractError::UnsupportedSchemaVersion,
            ) && told == m.events
            &&& by_schema && payload.price == 0 ==> answer == Err::<(), ContractError>(
                ContractError::InvalidPrice,
            ) && told == m.events
            &&& priced && m.cells.oracle is None ==> answer == Err::<(), ContractError>(
                ContractError::OracleNotSet,
            ) && told == m.events
            &&& asked && !m.is_running() ==> answer == Err::<(), ContractError>(
                ContractError::ContractPaused,
            ) && told == m.events.push(rejection(m, ContractError::ContractPaused))
            &&& up && m.cells.active_round is None ==> answer == Err::<(), ContractError>(
                ContractError::NoActiveRound,
            ) && told == m.events
        }),
        m.schema_is_known() && payload.price != 0 && m.cells.oracle is Some && m.is_running()
            && m.cells.active_round is Some ==> {
            let round = m.cells.active_round->0;
            let answer = m.resolve_round(ctx, payload).1;
            let told = m.resolve_round(ctx, payload).0.events;
            let named = payload.round_id == round.start_ledger;
            let here = named && payload.network_id == ctx.network_id && payload.contract_addr
                == ctx.contract;
            let come = here && payload.timestamp <= ctx.timestamp;
            let fresh = come && ctx.timestamp <= payload.timestamp + 300;
            let near = fresh && m.price_is_near(round, payload.price);
            let sure = near && m.oracle_is_sure(payload);
            let once = sure && !m.nonces.dom().contains((round.round_id, payload.nonce));
            &&& !named ==> answer == Err::<(), ContractError>(ContractError::InvalidOracleRound)
                && told == m.events.push(rejection(m, ContractError::InvalidOracleRound))
            &&& named && !here ==> answer == Err::<(), ContractError>(
                ContractError::OracleNetworkMismatch,
            ) && told == m.events.push(rejection(m, ContractError::OracleNetworkMismatch))
            &&& here && !come ==> answer == Err::<(), ContractError>(
                ContractError::FutureOracleData,
            ) && told == m.events.push(rejection(m, ContractError::FutureOracleData))
            &&& come && !fresh ==> answer == Err::<(), ContractError>(
                ContractError::StaleOracleData,
            ) && told == m.events.push(rejection(m, ContractError::StaleOracleData))
            &&& fresh && !near ==> answer == Err::<(), ContractError>(
                if round.price_start == 0 {
                    ContractError::InvalidPrice
                } else if m.is_beyond_telling(round, payload.price) {
                    ContractError::Overflow
                } else {
                    ContractError::OracleDeviationExceeded
                },
            )
            &&& near && !sure ==> answer == Err::<(), ContractError>(ContractError::InvalidPrice)
            &&& sure && !once ==> answer == Err::<(), ContractError>(
                ContractError::OracleNonceReused,
            ) && told.last() == rejection(m, ContractError::OracleNonceReused)
            &&& once && ctx.sequence < round.end_ledger ==> answer == Err::<(), ContractError>(
                ContractError::RoundNotEnded,
            ) && told.last() == rejection(m, ContractError::RoundNotEnded)
        },
        m.check_report(ctx, payload).1 is Err ==> only_checked(
            m,
            m.resolve_round(ctx, payload).0,
        ),
{
    law_reports_pass_exactly(m, ctx, payload);
    lemma_report_only_checked(m, ctx, payload);
    let checked = m.require_supported_schema().0;
    let read = checked.extend(DataKey::Oracle);
    let running = read.ensure_not_paused().0;
    lemma_ready(m);
    if let Some(round) = m.cells.active_round {
        let near = running.check_deviation(round, payload.price);
        lemma_deviation_told(running, round, payload.price);
        lemma_confidence_told(near.0, round.round_id, payload);
        assert(running.price_is_near(round, payload.price) == m.price_is_near(
            round,
            payload.price,
        ));
        assert(near.0.oracle_is_sure(payload) == m.oracle_is_sure(payload));
    }
}

/// The event that tells of the refusal of a settlement.
pub open spec fn rejection(m: MarketView, error: ContractError) -> Event {
    Event::ActionRejected { actor: m.cells.oracle->0, action: Action::Resolve, error }
}

/// What the outside is told of a report whose price is too far off, or whose
/// oracle is not sure: the distance in whole basis points and the limit, or the
/// two confidences.
pub proof fn law_refused_prices_are_told(m: MarketView, round: Round, payload: OraclePayload)
    requires
        m.cells.max_deviation_bps is Some,
        round.price_start > 0,
        !m.is_beyond_telling(round, payload.price),
        m.is_beyond_limit(round, payload.price),
    ensures
        ({
            let gap = if payload.price >= round.price_start {
                payload.price - round.price_start
            } else {
                round.price_start - payload.price
            };
            let armed = m.cells.deviation_override_armed == Some(true);
            let step = m.check_deviation(round, payload.price);
            &&& step.1 is Ok <==> armed
            &&& exists|bps: u32|
                {
                    &&& bps * round.price_start <= gap * 10_000 < (bps + 1) * round.price_start
                    &&& #[trigger] told_of_deviation(m, step.0, round, payload.price, bps)
                }
        }),
        m.oracle_is_sure(payload) || payload.confidence is None || m.check_confidence(
            round.round_id,
            payload.confidence,
        ).0.events == m.events.push(
            Event::LowConfidence {
                round_id: round.round_id,
                confidence_bps: payload.confidence->0,
                min_confidence_bps: m.cells.min_confidence_bps->0,
            },
        ),
{
    lemma_deviation_told(m, round, payload.price);
    lemma_confidence_told(m, round.round_id, payload);
}

} // verus!
