//! A price-time priority matching engine for a centralized exchange, with
//! balance locking and settlement, verified with Verus.

pub mod types;
pub mod trading_pair;
mod clock;
pub mod order;
pub mod trade;
pub mod level_info;
pub mod order_modify;
pub mod book_model;
pub mod orderbook;
pub mod users;
pub mod snowflake;
pub mod engine_model;
pub mod engine;
pub mod matching_engine;
pub mod wal;
