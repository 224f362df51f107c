//! Wick: five-minute parimutuel binary price prediction markets.
//!
//! Bettors stake on whether an asset closes above or below a reference
//! price after a short window; winners split the pot in proportion to
//! their stake, less a fee. Settlement reads the oracle at a pinned
//! timestamp so the outcome never depends on who settles or when.

pub mod division;
pub mod table;
pub mod math;
pub mod ninetails;
pub mod prediction_types;
pub mod prediction_store;
pub mod prediction;
pub mod prediction_laws;
pub mod prediction_funds;
pub mod test_oracle;
pub mod fair_market;
pub mod fair_market_laws;
pub mod wick_predict;
pub mod wick_predict_laws;
