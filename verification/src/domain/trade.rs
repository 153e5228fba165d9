//! Executed trades and aggregated level-2 snapshots.
use vstd::prelude::*;

use crate::domain::ids::{OrderId, Price, Qty, SeqNum};
use crate::domain::order::Side;

verus! {

/// One execution between an aggressing (taker) order and a resting (maker) order. Trades print
/// at the maker's resting price.
#[derive(Debug, Clone, Copy, PartialEq, Eq, Structural)]
pub struct Trade {
    pub seq: SeqNum,
    pub taker_order: OrderId,
    pub maker_order: OrderId,
    pub price: Price,
    pub quantity: Qty,
    pub taker_side: Side,
}

/// One aggregated price level: the total resting quantity at a price.
#[derive(Debug, Clone, Copy, PartialEq, Eq, Structural)]
pub struct BookLevel {
    pub price: Price,
    pub quantity: Qty,
}

/// An aggregated level-2 view: bids best (highest) first, asks best (lowest) first.
#[derive(Debug, Clone, PartialEq, Eq)]
pub struct BookSnapshot {
    pub bids: Vec<BookLevel>,
    pub asks: Vec<BookLevel>,
    /// Sequence number of the last event reflected in this snapshot.
    pub seq: SeqNum,
}

impl Default for BookSnapshot {
    fn default() -> (r: BookSnapshot)
        ensures
            r.bids@.len() == 0,
            r.asks@.len() == 0,
            r.seq.0 == 0,
    {
        BookSnapshot { bids: Vec::new(), asks: Vec::new(), seq: SeqNum(0) }
    }
}

/// The price of the first level of a list, if any.
pub open spec fn first_price(levels: Seq<BookLevel>) -> Option<Price> {
    if levels.len() == 0 {
        None
    } else {
        Some(levels[0].price)
    }
}

/// Best ask minus best bid, when both are present and the difference is not negative.
pub open spec fn spec_spread(bids: Seq<BookLevel>, asks: Seq<BookLevel>) -> Option<u64> {
    match (first_price(bids), first_price(asks)) {
        (Some(b), Some(a)) => if b.0 <= a.0 {
            Some((a.0 - b.0) as u64)
        } else {
            None
        },
        _ => None,
    }
}

impl BookSnapshot {
    /// Best (highest) bid price: the price of the first bid level.
    pub fn best_bid(&self) -> (r: Option<Price>)
        ensures
            r == first_price(self.bids@),
    {
        if self.bids.len() == 0 {
            None
        } else {
            Some(self.bids[0].price)
        }
    }

    /// Best (lowest) ask price: the price of the first ask level.
    pub fn best_ask(&self) -> (r: Option<Price>)
        ensures
            r == first_price(self.asks@),
    {
        if self.asks.len() == 0 {
            None
        } else {
            Some(self.asks[0].price)
        }
    }

    /// Spread in ticks (best ask minus best bid), if both sides are present and the book is not
    /// crossed.
    pub fn spread(&self) -> (r: Option<u64>)
        ensures
            r == spec_spread(self.bids@, self.asks@),
    {
        match (self.best_bid(), self.best_ask()) {
            (Some(b), Some(a)) => a.get().checked_sub(b.get()),
            _ => None,
        }
    }
}

} // verus!
