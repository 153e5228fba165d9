//! Pure price-time matching predicates.
use vstd::prelude::*;

use crate::domain::{Price, Side};

verus! {

/// Whether a taker on `taker_side` with optional limit crosses a maker resting at `maker_price`:
/// a buy pays at most its limit, a sell accepts at least its limit, and a market order (no
/// limit) crosses any price.
pub open spec fn spec_price_crosses(taker_side: Side, taker_limit: Option<Price>, maker_price: Price) -> bool {
    match taker_limit {
        None => true,
        Some(limit) => match taker_side {
            Side::Buy => maker_price.0 <= limit.0,
            Side::Sell => maker_price.0 >= limit.0,
        },
    }
}

/// Whether a stop on `side` with trigger `stop_price` fires on a `last_trade` print: a buy stop
/// when the market has risen to the stop, a sell stop when it has fallen to it.
pub open spec fn spec_stop_triggered(side: Side, stop_price: Price, last_trade: Price) -> bool {
    match side {
        Side::Buy => last_trade.0 >= stop_price.0,
        Side::Sell => last_trade.0 <= stop_price.0,
    }
}

/// Does an aggressor cross a resting maker at `maker_price`?
pub fn price_crosses(taker_side: Side, taker_limit: Option<Price>, maker_price: Price) -> (r: bool)
    ensures
        r == spec_price_crosses(taker_side, taker_limit, maker_price),
{
    match taker_limit {
        None => true,
        Some(limit) => match taker_side {
            Side::Buy => maker_price.0 <= limit.0,
            Side::Sell => maker_price.0 >= limit.0,
        },
    }
}

/// Is a stop order triggered by the last trade price?
pub fn stop_triggered(side: Side, stop_price: Price, last_trade: Price) -> (r: bool)
    ensures
        r == spec_stop_triggered(side, stop_price, last_trade),
{
    match side {
        Side::Buy => last_trade.0 >= stop_price.0,
        Side::Sell => last_trade.0 <= stop_price.0,
    }
}

} // verus!
