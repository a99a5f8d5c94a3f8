//! A strategy-execution engine for simulated trading: technical indicators,
//! signal evaluation, an average-cost position ledger, a strategy registry
//! and a bounded price broadcast hub.
//!
//! All money, prices and quantities are fixed-point integers whose scale is
//! chosen by the caller: a price is an amount of money per unit of quantity,
//! and the cost of a fill is `price * quantity`.

pub mod config;
pub mod error;
pub mod hub;
pub mod ids;
pub mod indicators;
pub mod keyed;
pub mod ledger;
pub mod market;
pub mod model;
pub mod paper_trading;
pub mod registry;
pub mod signals;
pub mod strategies;
