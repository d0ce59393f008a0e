//! A deterministic, tick-driven backtesting engine: it replays a fixed sequence of bid/ask
//! quotes, keeps rolling indicators over them, executes orders against the current quote,
//! and keeps an exact ledger of cash, positions and trades.

pub mod account;
pub mod bar;
pub mod bar_producer;
pub mod engine;
pub mod error;
pub mod indicators;
pub mod keys;
pub mod position;
pub mod rational;
