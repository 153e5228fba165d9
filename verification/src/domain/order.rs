//! Order side, order type, self-trade-prevention policy, and the working order.
use vstd::prelude::*;

use crate::domain::ids::{AccountId, OrderId, Price, Qty, SeqNum};

verus! {

/// Which side of the book an order sits on.
#[derive(Debug, Clone, Copy, PartialEq, Eq, Hash, Structural)]
pub enum Side {
    /// Bid: wants to buy. Best price is the highest.
    Buy,
    /// Ask: wants to sell. Best price is the lowest.
    Sell,
}

/// The opposing side, as a spec function.
pub open spec fn opposite_side(s: Side) -> Side {
    match s {
        Side::Buy => Side::Sell,
        Side::Sell => Side::Buy,
    }
}

impl Side {
    /// The opposing side: the side an incoming order matches against.
    pub fn opposite(self) -> (r: Side)
        ensures
            r == opposite_side(self),
    {
        match self {
            Side::Buy => Side::Sell,
            Side::Sell => Side::Buy,
        }
    }
}

/// The behavior of an order: price handling and time in force in one exhaustive enum.
#[derive(Debug, Clone, Copy, PartialEq, Eq, Hash, Structural)]
pub enum OrderType {
    /// Match at the limit price or better; rest the remainder (good-til-cancel).
    Limit,
    /// Sweep the opposing side at any price until filled; never rests.
    Market,
    /// Fill whatever is available now, cancel the remainder.
    ImmediateOrCancel,
    /// Fill the entire quantity immediately or reject the whole order.
    FillOrKill,
    /// Must rest as a maker; rejected if it would immediately match.
    PostOnly,
    /// Dormant until the last trade price reaches `stop_price`, then a market order.
    Stop,
    /// Dormant until triggered, then a limit order at `limit_price`.
    StopLimit,
}

/// Whether an unmatched remainder of an order of this type may rest in the book.
pub open spec fn spec_rests_when_unfilled(t: OrderType) -> bool {
    t == OrderType::Limit || t == OrderType::PostOnly
}

/// Whether an order of this type is dormant until a stop trigger fires.
pub open spec fn spec_is_stop(t: OrderType) -> bool {
    t == OrderType::Stop || t == OrderType::StopLimit
}

impl OrderType {
    /// Whether an unmatched remainder of this order type may rest in the book.
    pub fn rests_when_unfilled(self) -> (r: bool)
        ensures
            r == spec_rests_when_unfilled(self),
    {
        match self {
            OrderType::Limit | OrderType::PostOnly => true,
            _ => false,
        }
    }

    /// Whether this order type is dormant until a stop trigger fires.
    pub fn is_stop(self) -> (r: bool)
        ensures
            r == spec_is_stop(self),
    {
        match self {
            OrderType::Stop | OrderType::StopLimit => true,
            _ => false,
        }
    }
}

/// Self-trade prevention: what happens when an incoming order would match a resting order of
/// the same account.
#[derive(Debug, Clone, Copy, PartialEq, Eq, Structural)]
pub enum StpPolicy {
    /// Cancel the incoming order's remaining quantity (the default).
    CancelNewest,
    /// Cancel the resting order and keep matching the incoming one.
    CancelOldest,
    /// Take the smaller of the two quantities off both orders, then keep matching.
    DecrementBoth,
}

impl Default for StpPolicy {
    fn default() -> (r: StpPolicy)
        ensures
            r == StpPolicy::CancelNewest,
    {
        StpPolicy::CancelNewest
    }
}

/// A working order, freshly submitted or resting.
///
/// `limit_price` is `None` for market orders; `stop_price` is `Some` only for stop and
/// stop-limit orders; `seq` is assigned by the engine on acceptance.
#[derive(Debug, Clone, Copy, PartialEq, Eq, Structural)]
pub struct Order {
    pub id: OrderId,
    pub account: AccountId,
    pub side: Side,
    pub order_type: OrderType,
    /// Limit price; `None` for market orders.
    pub limit_price: Option<Price>,
    /// Trigger price for stop and stop-limit orders.
    pub stop_price: Option<Price>,
    /// Remaining unfilled quantity.
    pub quantity: Qty,
    /// Engine-assigned time-priority sequence (0 until accepted).
    pub seq: SeqNum,
}

impl Order {
    /// A plain limit order.
    pub fn limit(id: OrderId, account: AccountId, side: Side, price: Price, quantity: Qty) -> (r: Self)
        ensures
            r == (Order {
                id,
                account,
                side,
                order_type: OrderType::Limit,
                limit_price: Some(price),
                stop_price: None,
                quantity,
                seq: SeqNum(0),
            }),
    {
        Order {
            id,
            account,
            side,
            order_type: OrderType::Limit,
            limit_price: Some(price),
            stop_price: None,
            quantity,
            seq: SeqNum(0),
        }
    }

    /// A market order.
    pub fn market(id: OrderId, account: AccountId, side: Side, quantity: Qty) -> (r: Self)
        ensures
            r == (Order {
                id,
                account,
                side,
                order_type: OrderType::Market,
                limit_price: None,
                stop_price: None,
                quantity,
                seq: SeqNum(0),
            }),
    {
        Order {
            id,
            account,
            side,
            order_type: OrderType::Market,
            limit_price: None,
            stop_price: None,
            quantity,
            seq: SeqNum(0),
        }
    }
}

/// Choosing the opposite side twice gives back the side one started from.
pub proof fn law_opposite_is_involutive(s: Side)
    ensures
        opposite_side(opposite_side(s)) == s,
        opposite_side(s) != s,
{
}

} // verus!
