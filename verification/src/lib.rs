//! Order book state kept from a stream of per-block order diffs.

pub mod error;
pub mod listeners;
pub mod order_book;
pub mod types;
