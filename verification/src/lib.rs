//! A price-time priority order matching core.
//!
//! `types` holds the shared records. `order_bucket` is one price level,
//! `order_book` the two-sided book of one security, `engine` the
//! dispatcher that owns one book per security. `cross`, `ladder` and
//! `book_state` are the mathematical model that the contracts of those
//! three speak of, and `theorems` is what follows from it. `protocol`
//! cuts a byte stream into frames and maps messages to commands and
//! events to reports.

pub mod book_state;
mod clock;
pub mod cross;
pub mod engine;
pub mod ladder;
pub mod order_book;
pub mod order_bucket;
pub mod protocol;
pub mod theorems;
pub mod trade_id;
pub mod types;
