//! A multi-asset market-day simulator.
//!
//! Trader agents hold cash and per-asset share counts. Each simulated day,
//! every trader may submit at most one single-unit buy or sell order per
//! asset; per-asset order books are matched through a price-priority call
//! auction with stable tie-breaking, trades settle against the shared trader
//! ledger, and the resulting price is appended to that asset's history.
//!
//! Prices and cash are integer quantities in a caller-chosen unit. The
//! matching engine and the day pipeline are specified exactly: conservation
//! of cash and of shares, the trade-count bound, and price persistence on
//! tradeless days are proved, not sampled.

pub mod engine;
pub mod intents;
pub mod rng;
pub mod sim;
pub mod sorting;
pub mod types;
