//! Change-detecting market-data pipeline: a bounded ring buffer and the
//! producer/consumer stages built on it.

pub mod actor;
pub mod base;
pub mod learning;
pub mod market_data;
pub mod parser;
pub mod text;
