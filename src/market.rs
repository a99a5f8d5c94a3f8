//! Messages of the market data edge.

use vstd::prelude::*;

verus! {

#[derive(Clone, Debug, PartialEq, Eq)]
pub struct MarketPriceRequest {
    pub symbol: String,
}

/// A quoted price as the exchange writes it, with its time in milliseconds.
#[derive(Clone, Debug, PartialEq, Eq)]
pub struct MarketPriceResponse {
    pub symbol: String,
    pub price: String,
    pub timestamp: u64,
}

#[derive(Clone, Debug, PartialEq, Eq)]
pub struct ErrorResponse {
    pub error: String,
}

} // verus!
