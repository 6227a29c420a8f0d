//! Decision logic of a negative-risk arbitrage scanner for Polymarket-style
//! order books: decimal prices, the per-market price cache, the arbitrage
//! decision, market rotation, the terminal dashboard state and the text that
//! goes out on the wire.
pub mod decimal;
pub mod text;
pub mod json;
pub mod websocket;
pub mod discord;
pub mod tui;
pub mod market;
pub mod arb;
pub mod scan;
pub mod keys;
pub mod config;
pub mod laws;
