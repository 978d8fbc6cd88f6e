//! Messages passed between the services through the streams.

use vstd::prelude::*;
use crate::decimal::Decimal;

verus! {

/// A limit order of a plan: `side` ("BUY" or "SELL") `amount` of the base asset of
/// `symbol` at `price`.
#[derive(Debug)]
pub struct Order {
    pub symbol: String,
    pub price: Decimal,
    pub amount: Decimal,
    pub side: String,
}

/// Three orders that walk a triangle, with the expected profit in percent.
#[derive(Debug)]
pub struct ArbitragePlan {
    pub orders: [Order; 3],
    pub profit_percent: Decimal,
    pub timestamp: u64,
}

/// The top of the order book of one symbol: levels are `[price, quantity]`.
#[derive(Debug)]
pub struct DepthUpdate {
    pub symbol: String,
    pub bid_levels: Vec<[Decimal; 2]>,
    pub ask_levels: Vec<[Decimal; 2]>,
    pub timestamp: u64,
}

} // verus!
