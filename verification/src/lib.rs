//! A price prediction market, settled from an oracle's reports.
//!
//! Users stake on a round: on the direction that the price will take, or on
//! the price itself. Once the round has ended, the oracle reports a price, and
//! the market pays the winners, counts wins and losses, takes a fee, and moves
//! the round into an archive. A round can also be cancelled, or fall back to a
//! refund where it has too few participants.
//!
//! The state of the market is a [`market::Market`]; its mathematical form, a
//! `model::MarketView`, says what each operation does to it. An operation that
//! is refused may have changed the state and told the outside of the refusal;
//! the host takes all of that back.
//!
//! - [`contract`] has the entry points and the rules that they share,
//!   [`settlement`], [`precision`], [`oracle`] and [`archive`] do the work.
//! - `rules` states what a settlement does; `payments`, `conservation`,
//!   `shares`, `order`, `frame` and `laws` prove what holds of it.
//! - `readings`, `reports`, `accounts`, `nearest`, `refunds`, `summaries`,
//!   `tellings` and `grants` prove, by plain numbers and entries, when a report
//!   passes, what each user gets and is counted for, what the archive says, what
//!   is told, and when an operation is owed.
//! - [`host`] holds the lists and maps that live inside the host.

pub mod accounts;
pub mod archive;
pub mod common;
pub mod conservation;
pub mod contract;
pub mod errors;
pub mod frame;
pub mod grants;
pub mod host;
pub mod laws;
pub mod market;
pub mod model;
pub mod nearest;
pub mod oracle;
pub mod order;
pub mod payments;
pub mod precision;
pub mod readings;
pub mod refunds;
pub mod reports;
pub mod rules;
pub mod settlement;
pub mod shares;
pub mod summaries;
pub mod table;
pub mod tellings;
pub mod types;

