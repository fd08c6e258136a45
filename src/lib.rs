//! A single-instrument limit order book matching engine with account
//! bookkeeping and a bounded journal of finished orders.
//!
//! Prices are fixed-point numbers counted in ticks of `1 / PRICE_SCALE` of a
//! currency unit, cash balances are counted in the same ticks, and timestamps
//! are nanoseconds since the Unix epoch.
pub mod account;
pub mod api;
pub mod fresh;
pub mod laws;
pub mod market;
pub mod order;
pub mod side;
