//! What the archive says of a round, and what the outside is told of it.

use vstd::prelude::*;
use crate::accounts::{goes_on, is_told, lemma_resolve_is_payment, lemma_told_between};
use crate::archive::lenient_total;
use crate::conservation::lemma_sum_not_negative;
use crate::frame::{
    kept_by_payments, lemma_archive_keeps, lemma_cancel_keeps, lemma_cancel_only_pays_out,
    lemma_mode_only_pays, lemma_precision_keeps, lemma_refunds_keep, lemma_refunds_only_pay,
    lemma_report_only_checked, lemma_updown_keeps,
};
use crate::laws::lemma_stakes_cancelled;
use crate::market::LedgerContext;
use crate::model::{Cells, MarketView};
use crate::payments::{lemma_precision_pays, lemma_sum_same, lemma_updown_pays, sum};
use crate::refunds::{lemma_goes_on_checked, lemma_refunds_count_nothing};
use crate::reports::law_passing_reports_leave;
use crate::rules::entry_keys;
use crate::types::{
    Address, ArchivedRoundSummary, Event, OraclePayload, PrecisionPrediction, Round,
    RoundArchiveStatus, RoundMode,
};

verus! {

/// The events that tell that rounds have left the archive.
pub open spec fn pruned_events(ids: Seq<u64>, limit: u32) -> Seq<Event> {
    ids.map_values(|id: u64| Event::ArchivePruned { round_id: id, retention_limit: limit })
}

/// What the removal of rounds from the archive leaves and tells.
proof fn lemma_prune_told(m: MarketView, ids: Seq<u64>)
    ensures
        m.prune(ids).events == m.events + pruned_events(ids, m.retention()),
        m.prune(ids).cells == m.cells,
        forall|id: u64| #[trigger]
            m.prune(ids).archived.get(id) == (if ids.contains(id) {
                None
            } else {
                m.archived.get(id)
            }),
    decreases ids.len(),
{
    if ids.len() == 0 {
        assert(m.events + pruned_events(ids, m.retention()) =~= m.events);
    } else {
        let fewer = ids.drop_last();
        lemma_prune_told(m, fewer);
        assert(m.prune(ids).events =~= m.events + pruned_events(ids, m.retention()));
        assert forall|id: u64| #[trigger]
            m.prune(ids).archived.get(id) == (if ids.contains(id) {
                None
            } else {
                m.archived.get(id)
            }) by {
            assert(m.prune(fewer).archived.get(id) == (if fewer.contains(id) {
                None
            } else {
                m.archived.get(id)
            }));
            assert(ids.contains(id) == (fewer.contains(id) || id == ids.last())) by {
                if ids.contains(id) && id != ids.last() {
                    let at = choose|at: int| 0 <= at < ids.len() && ids[at] == id;
                    assert(fewer[at] == id);
                }
                if fewer.contains(id) {
                    let at = choose|at: int| 0 <= at < fewer.len() && fewer[at] == id;
                    assert(ids[at] == id);
                }
                assert(ids[ids.len() - 1] == ids.last());
            }
        }
    }
}

/// The numbers of archived rounds that leave the archive where one more comes.
pub open spec fn leaving(m: MarketView, round_id: u64) -> Seq<u64> {
    let ids = m.recent_ids().push(round_id);
    let limit = m.retention() as int;
    if ids.len() > limit {
        ids.take(ids.len() - limit)
    } else {
        Seq::empty()
    }
}

/// A round that goes into the archive is summed up there by what it was, how
/// and when it left the market, and at what price; the oldest rounds leave so
/// that no more than the limit stay, and the others stay what they are. All of
/// that is told, the summary first.
pub proof fn lemma_archive_told(
    m: MarketView,
    sequence: u32,
    round: Round,
    status: RoundArchiveStatus,
    price: u128,
    count: u32,
    fee: i128,
)
    ensures
        ({
            let after = m.archive(sequence, round, status, price, count, fee);
            let gone = leaving(m, round.round_id);
            let ids = m.recent_ids().push(round.round_id);
            &&& forall|id: u64| #[trigger]
                after.archived.get(id) == (if gone.contains(id) {
                    None
                } else if id == round.round_id {
                    Some(
                        ArchivedRoundSummary {
                            round_id: round.round_id,
                            price_start: round.price_start,
                            price_final: price,
                            mode: round.mode,
                            status,
                            pool_up: round.pool_up,
                            pool_down: round.pool_down,
                            participant_count: count,
                            settled_at_ledger: sequence,
                        },
                    )
                } else {
                    m.archived.get(id)
                })
            &&& after.recent == Some(ids.skip(gone.len() as int))
            &&& after.events == m.events.push(
                Event::RoundSummary {
                    round_id: round.round_id,
                    mode: match round.mode {
                        RoundMode::UpDown => 0,
                        RoundMode::Precision => 1,
                    },
                    price_start: round.price_start,
                    price_final: price,
                    participant_count: count,
                    total_pot: m.round_pot(round) as i128,
                    fee_amount: fee,
                    status: match status {
                        RoundArchiveStatus::Resolved => 0,
                        RoundArchiveStatus::Cancelled => 1,
                        RoundArchiveStatus::FallbackRefund => 2,
                    },
                },
            ) + pruned_events(gone, m.retention())
            &&& goes_on(m.events, after.events)
        }),
{
    let stored = m.store_summary(sequence, round, status, price, count, fee);
    let after = m.archive(sequence, round, status, price, count, fee);
    let gone = leaving(m, round.round_id);
    let ids = m.recent_ids().push(round.round_id);
    lemma_archive_keeps(m, sequence, round, status, price, count, fee);
    lemma_prune_told(stored, gone);
    assert(stored.recent_ids() == m.recent_ids());
    assert(ids.take(0) =~= Seq::<u64>::empty());
    assert(after == MarketView {
        recent: Some(ids.skip(gone.len() as int)),
        ..stored.prune(gone)
    });
}

/// What the archive says of a round that has left the market.
pub open spec fn summed_up(
    round: Round,
    status: RoundArchiveStatus,
    price: u128,
    count: nat,
    sequence: u32,
) -> ArchivedRoundSummary {
    ArchivedRoundSummary {
        round_id: round.round_id,
        price_start: round.price_start,
        price_final: price,
        mode: round.mode,
        status,
        pool_up: round.pool_up,
        pool_down: round.pool_down,
        participant_count: count as u32,
        settled_at_ledger: sequence,
    }
}

/// What the outside is told of a round that has left the market.
pub open spec fn summary_told(
    round: Round,
    status: RoundArchiveStatus,
    price: u128,
    count: nat,
    pot: i128,
    fee: i128,
) -> Event {
    Event::RoundSummary {
        round_id: round.round_id,
        mode: match round.mode {
            RoundMode::UpDown => 0,
            RoundMode::Precision => 1,
        },
        price_start: round.price_start,
        price_final: price,
        participant_count: count as u32,
        total_pot: pot,
        fee_amount: fee,
        status: match status {
            RoundArchiveStatus::Resolved => 0,
            RoundArchiveStatus::Cancelled => 1,
            RoundArchiveStatus::FallbackRefund => 2,
        },
    }
}

/// The numbers of the rounds in the archive, the oldest first, and one more.
pub open spec fn listed_with(m: MarketView, id: u64) -> Seq<u64> {
    match m.recent {
        Some(ids) => ids.push(id),
        None => seq![id],
    }
}

/// How many rounds the archive keeps.
pub open spec fn most_kept(m: MarketView) -> u32 {
    match m.cells.archive_retention {
        Some(limit) => limit,
        None => 128,
    }
}

/// How many rounds are too many for the archive where one more comes.
pub open spec fn beyond(m: MarketView, id: u64) -> int {
    if listed_with(m, id).len() > most_kept(m) {
        listed_with(m, id).len() - most_kept(m)
    } else {
        0
    }
}

/// The archive has taken a round in under a summary: it is there and listed
/// last, the oldest beyond the limit are gone, and the others are what they
/// were.
pub open spec fn is_taken_in(
    before: MarketView,
    after: MarketView,
    summary: ArchivedRoundSummary,
) -> bool {
    let id = summary.round_id;
    let listed = listed_with(before, id);
    let excess = beyond(before, id);
    &&& after.recent == Some(listed.skip(excess))
    &&& forall|i: int|
        0 <= i < excess ==> after.archived.get(#[trigger] listed_with(before, id)[i]) is None
    &&& most_kept(before) >= 1 && !listed.drop_last().contains(id) ==> after.archived.get(id)
        == Some(summary)
    &&& forall|other: u64|
        other != id && !listed.take(excess).contains(other) ==> #[trigger] after.archived.get(other)
            == before.archived.get(other)
    &&& forall|i: int|
        0 <= i < excess ==> is_told(
            before,
            after,
            Event::ArchivePruned {
                round_id: #[trigger] listed_with(before, id)[i],
                retention_limit: most_kept(before),
            },
        )
}

/// The entry into the archive takes the round in.
proof fn lemma_taken_in(
    m: MarketView,
    sequence: u32,
    round: Round,
    status: RoundArchiveStatus,
    price: u128,
    count: nat,
    fee: i128,
)
    ensures
        ({
            let after = m.archive(sequence, round, status, price, count as u32, fee);
            &&& is_taken_in(m, after, summed_up(round, status, price, count, sequence))
            &&& is_told(
                m,
                after,
                summary_told(round, status, price, count, m.round_pot(round) as i128, fee),
            )
        }),
{
    let after = m.archive(sequence, round, status, price, count as u32, fee);
    let id = round.round_id;
    lemma_archive_told(m, sequence, round, status, price, count as u32, fee);
    let listed = listed_with(m, id);
    let excess = beyond(m, id);
    let gone = leaving(m, id);
    assert(listed =~= m.recent_ids().push(id));
    assert(most_kept(m) == m.retention());
    assert(listed.take(0) =~= Seq::<u64>::empty());
    assert(gone == listed.take(excess));
    assert(listed.drop_last() =~= m.recent_ids());
    assert forall|i: int| 0 <= i < excess implies after.archived.get(
        #[trigger] listed_with(m, id)[i],
    ) is None by {
        assert(gone[i] == listed[i]);
        assert(gone.contains(listed[i]));
    }
    if most_kept(m) >= 1 && !listed.drop_last().contains(id) {
        assert(!gone.contains(id)) by {
            if gone.contains(id) {
                let i = choose|i: int| 0 <= i < gone.len() && gone[i] == id;
                assert(listed.drop_last()[i] == id);
            }
        }
    }
    let at = m.events.len() as int;
    assert(after.events[at] == summary_told(
        round,
        status,
        price,
        count,
        m.round_pot(round) as i128,
        fee,
    ));
    assert forall|i: int| 0 <= i < excess implies is_told(
        m,
        after,
        Event::ArchivePruned {
            round_id: #[trigger] listed_with(m, id)[i],
            retention_limit: most_kept(m),
        },
    ) by {
        assert(gone[i] == listed[i]);
        assert(after.events[at + 1 + i] == pruned_events(gone, m.retention())[i]);
    }
}

/// What was taken in in between was taken in.
proof fn lemma_taken_in_carried(
    start: MarketView,
    a: MarketView,
    b: MarketView,
    end: MarketView,
    summary: ArchivedRoundSummary,
)
    requires
        start.recent == a.recent,
        start.archived == a.archived,
        start.cells.archive_retention == a.cells.archive_retention,
        b.recent == end.recent,
        b.archived == end.archived,
        goes_on(start.events, a.events),
        goes_on(b.events, end.events),
        is_taken_in(a, b, summary),
    ensures
        is_taken_in(start, end, summary),
{
    let id = summary.round_id;
    assert(listed_with(start, id) == listed_with(a, id));
    assert(beyond(start, id) == beyond(a, id));
    assert forall|i: int| 0 <= i < beyond(start, id) implies is_told(
        start,
        end,
        Event::ArchivePruned {
            round_id: #[trigger] listed_with(start, id)[i],
            retention_limit: most_kept(start),
        },
    ) by {
        let event = Event::ArchivePruned {
            round_id: listed_with(a, id)[i],
            retention_limit: most_kept(a),
        };
        assert(is_told(a, b, event));
        lemma_told_between(start, a, b, end, event);
    }
}

/// Where no stake is negative and all of them together are a number of their
/// type, the pot that is told is their sum.
proof fn lemma_told_pot(stakes: Seq<i128>)
    requires
        forall|i: int| 0 <= i < stakes.len() ==> (#[trigger] stakes[i]) >= 0,
        sum(stakes, |amount: i128| amount as int) <= i128::MAX,
    ensures
        lenient_total(stakes) == sum(stakes, |amount: i128| amount as int),
    decreases stakes.len(),
{
    let amount = |amount: i128| amount as int;
    if stakes.len() > 0 {
        let fewer = stakes.drop_last();
        assert forall|i: int| 0 <= i < fewer.len() implies (#[trigger] fewer[i]) >= 0 by {
            assert(fewer[i] == stakes[i]);
        }
        assert(stakes[stakes.len() - 1] >= 0);
        lemma_sum_not_negative(fewer, amount);
        lemma_told_pot(fewer);
    }
}

impl MarketView {
    /// The pot of a round: both pools, or all stakes on the price.
    pub open spec fn is_pot_of(self, round: Round, pot: i128) -> bool {
        match round.mode {
            RoundMode::UpDown => {
                let both = round.pool_up + round.pool_down;
                pot == (if -0x8000_0000_0000_0000_0000_0000_0000_0000 <= both
                    <= 0x7fff_ffff_ffff_ffff_ffff_ffff_ffff_ffff {
                    both
                } else {
                    0
                })
            },
            RoundMode::Precision => self.books_balance(round) && self.staked(round)
                <= 0x7fff_ffff_ffff_ffff_ffff_ffff_ffff_ffff ==> pot == self.staked(round),
        }
    }
}

/// The pot that the archive tells is the pot of the round.
proof fn lemma_pot_is_told(m: MarketView, round: Round)
    ensures
        m.is_pot_of(round, m.round_pot(round) as i128),
{
    let id = round.round_id;
    let users = m.participants_of(id);
    let amount = |amount: i128| amount as int;
    if round.mode == RoundMode::Precision && m.books_balance(round) && m.staked(round)
        <= i128::MAX {
        if users.len() > 0 {
            let stakes = m.precision_stakes(id, users);
            lemma_sum_same(
                users,
                stakes,
                |user: Address| m.precision_stake(id, user) as int,
                amount,
            );
            assert forall|i: int| 0 <= i < stakes.len() implies (#[trigger] stakes[i]) >= 0 by {
                assert(users.contains(users[i]));
            }
            lemma_sum_not_negative(stakes, amount);
            lemma_told_pot(stakes);
        } else if let Some(entries) = m.precision_legacy {
            let stakes = entries.map_values(
                |entry: (Address, PrecisionPrediction)| entry.1.amount,
            );
            lemma_sum_same(
                entries,
                stakes,
                |entry: (Address, PrecisionPrediction)| entry.1.amount as int,
                amount,
            );
            assert forall|i: int| 0 <= i < stakes.len() implies (#[trigger] stakes[i]) >= 0 by {
                assert(entries[i].1.amount >= 0);
            }
            lemma_sum_not_negative(stakes, amount);
            lemma_told_pot(stakes);
        }
    }
}

/// States with the same stakes tell the same pot.
proof fn lemma_same_pot(a: MarketView, b: MarketView, round: Round)
    requires
        a.participants == b.participants,
        a.predictions == b.predictions,
        a.commitments == b.commitments,
        a.precision_legacy == b.precision_legacy,
    ensures
        a.round_pot(round) == b.round_pot(round),
{
    let id = round.round_id;
    let users = a.participants_of(id);
    assert(a.precision_stakes(id, users) =~= b.precision_stakes(id, users));
}

/// What `law_settled_rounds_are_summed_up` says, of a round with too few
/// participants.
proof fn lemma_short_summed_up(m: MarketView, ctx: &LedgerContext, payload: OraclePayload)
    requires
        m.resolve_round(ctx, payload).1 is Ok,
        m.cells.active_round matches Some(round) ==> m.falls_short(round),
    ensures
        ({
            let round = m.cells.active_round->0;
            let after = m.resolve_round(ctx, payload).0;
            let count = m.participants_of(round.round_id).len();
            let status = RoundArchiveStatus::FallbackRefund;
            let pot = m.round_pot(round) as i128;
            &&& is_taken_in(
                m,
                after,
                summed_up(round, status, payload.price, count, ctx.sequence),
            )
            &&& is_told(m, after, summary_told(round, status, payload.price, count, pot, 0))
            &&& after.treasury() == m.treasury()
        }),
{
    lemma_report_only_checked(m, ctx, payload);
    lemma_goes_on_checked(m, ctx, payload);
    let round = m.cells.active_round->0;
    let checked = m.check_report(ctx, payload).0;
    let after = m.resolve_round(ctx, payload).0;
    let users = m.participants_of(round.round_id);
    let count = users.len();
    let pot = m.round_pot(round) as i128;
    let status = RoundArchiveStatus::FallbackRefund;
    let price = payload.price;
    let stored = checked.archive(ctx.sequence, round, status, price, count as u32, 0);
    lemma_archive_keeps(checked, ctx.sequence, round, status, price, count as u32, 0);
    lemma_taken_in(checked, ctx.sequence, round, status, price, count, 0);
    lemma_same_pot(m, checked, round);
    lemma_refunds_only_pay(stored, round, users);
    lemma_refunds_count_nothing(stored, round, users);
    let start = stored.events;
    let on = |s: MarketView| goes_on(start, s.events);
    lemma_payments_go_on(start);
    lemma_refunds_keep(stored, round, users, on);
    assert(on(stored.refund_stakes(round, users).0));
    assert(goes_on(stored.events, after.events));
    let summary = summed_up(round, status, price, count, ctx.sequence);
    lemma_taken_in_carried(m, checked, stored, after, summary);
    lemma_told_between(
        m,
        checked,
        stored,
        after,
        summary_told(round, status, price, count, pot, 0),
    );
}

/// What `law_settled_rounds_are_summed_up` says, of a round with enough
/// participants.
proof fn lemma_full_summed_up(m: MarketView, ctx: &LedgerContext, payload: OraclePayload)
    requires
        m.wf(),
        m.resolve_round(ctx, payload).1 is Ok,
        m.cells.active_round matches Some(round) ==> {
            &&& m.participants_of(round.round_id).len() <= u32::MAX
            &&& !m.falls_short(round)
        },
    ensures
        ({
            let round = m.cells.active_round->0;
            let after = m.resolve_round(ctx, payload).0;
            let count = m.participants_of(round.round_id).len();
            let status = RoundArchiveStatus::Resolved;
            let pot = m.round_pot(round) as i128;
            let fee = (after.treasury() - m.treasury()) as i128;
            &&& is_taken_in(
                m,
                after,
                summed_up(round, status, payload.price, count, ctx.sequence),
            )
            &&& is_told(m, after, summary_told(round, status, payload.price, count, pot, fee))
        }),
{
    lemma_report_only_checked(m, ctx, payload);
    lemma_goes_on_checked(m, ctx, payload);
    lemma_resolve_is_payment(m, ctx, payload);
    let round = m.cells.active_round->0;
    let checked = m.check_report(ctx, payload).0;
    let after = m.resolve_round(ctx, payload).0;
    let count = m.participants_of(round.round_id).len();
    let pot = m.round_pot(round) as i128;
    let status = RoundArchiveStatus::Resolved;
    let price = payload.price;
    let paid = checked.pay_by_mode(round, price).0;
    let fee = checked.pay_by_mode(round, price).1->Ok_0;
    lemma_mode_only_pays(checked, round, price);
    lemma_fee_is_treasury(checked, round, price);
    let stored = paid.archive(ctx.sequence, round, status, price, count as u32, fee);
    lemma_archive_keeps(paid, ctx.sequence, round, status, price, count as u32, fee);
    lemma_taken_in(paid, ctx.sequence, round, status, price, count, fee);
    lemma_same_pot(m, paid, round);
    let start = m.events;
    let on = |s: MarketView| goes_on(start, s.events);
    lemma_payments_go_on(start);
    lemma_updown_keeps(checked, round, price, on);
    lemma_precision_keeps(checked, round.round_id, price, on);
    assert(on(paid));
    let summary = summed_up(round, status, price, count, ctx.sequence);
    lemma_taken_in_carried(m, paid, stored, after, summary);
    lemma_told_between(
        m,
        paid,
        stored,
        after,
        summary_told(round, status, price, count, pot, fee),
    );
}

/// A round that was settled is summed up in the archive: by its number, mode,
/// start price and pools, the price of the report, whether it had enough
/// participants, how many it had, and the ledger of the settlement. That is
/// told, with the pot and with the fee that the treasury got.
pub proof fn law_settled_rounds_are_summed_up(
    m: MarketView,
    ctx: &LedgerContext,
    payload: OraclePayload,
)
    requires
        m.wf(),
        m.resolve_round(ctx, payload).1 is Ok,
        m.cells.active_round matches Some(round) ==> m.participants_of(round.round_id).len()
            <= u32::MAX,
    ensures
        m.cells.active_round is Some,
        ({
            let round = m.cells.active_round->0;
            let after = m.resolve_round(ctx, payload).0;
            let count = m.participants_of(round.round_id).len();
            let status = if m.falls_short(round) {
                RoundArchiveStatus::FallbackRefund
            } else {
                RoundArchiveStatus::Resolved
            };
            let fee = (after.treasury() - m.treasury()) as i128;
            &&& is_taken_in(
                m,
                after,
                summed_up(round, status, payload.price, count, ctx.sequence),
            )
            &&& exists|pot: i128|
                {
                    &&& #[trigger] m.is_pot_of(round, pot)
                    &&& is_told(
                        m,
                        after,
                        summary_told(round, status, payload.price, count, pot, fee),
                    )
                }
        }),
{
    lemma_report_only_checked(m, ctx, payload);
    let round = m.cells.active_round->0;
    let pot = m.round_pot(round) as i128;
    lemma_pot_is_told(m, round);
    assert(m.is_pot_of(round, pot));
    if m.falls_short(round) {
        lemma_short_summed_up(m, ctx, payload);
    } else {
        lemma_full_summed_up(m, ctx, payload);
    }
}

/// The fee of a settlement is what the treasury gets.
proof fn lemma_fee_is_treasury(m: MarketView, round: Round, price: u128)
    requires
        round.wf(),
        m.pay_by_mode(round, price).1 is Ok,
    ensures
        m.pay_by_mode(round, price).0.treasury() == m.treasury() + m.pay_by_mode(
            round,
            price,
        ).1->Ok_0,
{
    match round.mode {
        RoundMode::UpDown => {
            lemma_updown_pays(m, round, price);
        },
        RoundMode::Precision => {
            lemma_precision_pays(m, round.round_id, price);
        },
    }
}

/// Payments only add to what was told.
proof fn lemma_payments_go_on(start: Seq<Event>)
    ensures
        kept_by_payments(|s: MarketView| goes_on(start, s.events)),
{
}

/// A round that was cancelled is summed up in the archive: by its number, mode,
/// start price and pools, without a final price, how many participants it had,
/// and the ledger of the cancellation. That is told; nothing is left in the pot
/// of listed stakes on the price by then.
pub proof fn law_cancelled_rounds_are_summed_up(m: MarketView, sequence: u32, reason: u32)
    requires
        m.cancel_round(sequence, reason).1 is Ok,
        m.cells.active_round matches Some(round) ==> m.participants_of(round.round_id).len()
            <= u32::MAX,
    ensures
        m.cells.active_round is Some,
        ({
            let round = m.cells.active_round->0;
            let after = m.cancel_round(sequence, reason).0;
            let count = m.participants_of(round.round_id).len();
            &&& is_taken_in(
                m,
                after,
                summed_up(round, RoundArchiveStatus::Cancelled, 0, count, sequence),
            )
            &&& exists|pot: i128|
                {
                    &&& round.mode == RoundMode::Precision && count > 0 ==> pot == 0
                    &&& round.mode == RoundMode::UpDown || count == 0 ==> m.is_pot_of(round, pot)
                    &&& #[trigger] is_told(
                        m,
                        after,
                        summary_told(round, RoundArchiveStatus::Cancelled, 0, count, pot, 0),
                    )
                }
        }),
{
    let round = m.cells.active_round->0;
    let id = round.round_id;
    let read = m.require_supported_schema().0;
    let users = m.participants_of(id);
    let count = users.len();
    let refunded = read.cancel_stakes(round, users).0;
    let after = m.cancel_round(sequence, reason).0;
    let status = RoundArchiveStatus::Cancelled;
    lemma_cancel_only_pays_out(read, round, users);
    let stored = refunded.archive(sequence, round, status, 0, count as u32, 0);
    lemma_archive_keeps(refunded, sequence, round, status, 0, count as u32, 0);
    lemma_taken_in(refunded, sequence, round, status, 0, count, 0);
    let start = m.events;
    let on = |s: MarketView| goes_on(start, s.events);
    lemma_cancel_keeps(read, round, users, on);
    assert(on(refunded));
    lemma_taken_in_carried(
        m,
        refunded,
        stored,
        after,
        summed_up(round, status, 0, count, sequence),
    );
    let pot = refunded.round_pot(round) as i128;
    if round.mode == RoundMode::Precision && count > 0 {
        lemma_stakes_cancelled(read, round, users);
        let stakes = refunded.precision_stakes(id, users);
        assert forall|i: int| 0 <= i < stakes.len() implies (#[trigger] stakes[i]) == 0 by {
            assert(users.contains(users[i]));
            assert(entry_keys(id, users).contains((id, users[i])));
        }
        lemma_nothing_left(stakes);
    } else {
        lemma_pot_is_told(m, round);
        if round.mode == RoundMode::Precision {
            assert(refunded.round_pot(round) == m.round_pot(round));
        }
    }
    lemma_told_between(
        m,
        refunded,
        stored,
        after,
        summary_told(round, RoundArchiveStatus::Cancelled, 0, count, pot, 0),
    );
}

/// Where every stake is nothing, so is the pot.
proof fn lemma_nothing_left(stakes: Seq<i128>)
    requires
        forall|i: int| 0 <= i < stakes.len() ==> (#[trigger] stakes[i]) == 0,
    ensures
        lenient_total(stakes) == 0,
    decreases stakes.len(),
{
    if stakes.len() > 0 {
        let fewer = stakes.drop_last();
        assert forall|i: int| 0 <= i < fewer.len() implies (#[trigger] fewer[i]) == 0 by {
            assert(fewer[i] == stakes[i]);
        }
        lemma_nothing_left(fewer);
        assert(stakes[stakes.len() - 1] == 0);
    }
}

/// A settlement leaves the rest of the market alone: the balances, the entries
/// of other rounds and of users who took no part, the marks of cancelled
/// rounds, and all that is configured.
pub proof fn law_settlements_leave_the_rest(
    m: MarketView,
    ctx: &LedgerContext,
    payload: OraclePayload,
    id: u64,
    user: Address,
)
    requires
        m.resolve_round(ctx, payload).1 is Ok,
    ensures
        m.cells.active_round is Some,
        ({
            let round = m.cells.active_round->0;
            let after = m.resolve_round(ctx, payload).0;
            let mine = id == round.round_id && m.participants_of(id).contains(user);
            &&& after.balances == m.balances
            &&& after.cancelled == m.cancelled
            &&& after.participants == m.participants.remove(round.round_id)
            &&& after.updown_legacy is None
            &&& after.precision_legacy is None
            &&& after.cells == (Cells {
                active_round: None,
                legacy_positions: false,
                deviation_override_armed: after.cells.deviation_override_armed,
                protocol_fee_treasury: after.cells.protocol_fee_treasury,
                ..m.cells
            })
            &&& mine ==> {
                &&& !after.positions.dom().contains((id, user))
                &&& !after.predictions.dom().contains((id, user))
                &&& !after.commitments.dom().contains((id, user))
            }
            &&& !mine ==> {
                &&& after.positions.get((id, user)) == m.positions.get((id, user))
                &&& after.predictions.get((id, user)) == m.predictions.get((id, user))
                &&& after.commitments.get((id, user)) == m.commitments.get((id, user))
            }
            &&& after.cells.deviation_override_armed == (if m.is_beyond_limit(
                round,
                payload.price,
            ) {
                None
            } else {
                m.cells.deviation_override_armed
            })
        }),
{
    lemma_report_only_checked(m, ctx, payload);
    law_passing_reports_leave(m, ctx, payload);
    let round = m.cells.active_round->0;
    let checked = m.check_report(ctx, payload).0;
    let users = m.participants_of(round.round_id);
    let count = users.len() as u32;
    let stored = checked.archive(
        ctx.sequence,
        round,
        RoundArchiveStatus::FallbackRefund,
        payload.price,
        count,
        0,
    );
    lemma_archive_keeps(
        checked,
        ctx.sequence,
        round,
        RoundArchiveStatus::FallbackRefund,
        payload.price,
        count,
        0,
    );
    lemma_refunds_only_pay(stored, round, users);
    let paid = checked.pay_by_mode(round, payload.price);
    lemma_mode_only_pays(checked, round, payload.price);
    if let Ok(fee) = paid.1 {
        lemma_archive_keeps(
            paid.0,
            ctx.sequence,
            round,
            RoundArchiveStatus::Resolved,
            payload.price,
            count,
            fee,
        );
    }
    assert(entry_keys(round.round_id, users).contains((id, user)) == (id == round.round_id
        && users.contains(user)));
}

} // verus!
