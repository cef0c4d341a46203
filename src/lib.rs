//! A single-instrument limit order book with price-time priority matching.
//!
//! Prices are whole ticks, so crossing tests are exact integer comparisons.
pub mod book;
pub mod ids;
