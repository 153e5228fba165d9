//! Engine output events and business-level rejection reasons.
use vstd::prelude::*;

use crate::domain::ids::{OrderId, Price, Qty};
use crate::domain::trade::Trade;

verus! {

/// Why the engine declined a well-formed order (a business outcome, not a failure).
#[derive(Debug, Clone, Copy, PartialEq, Eq, Structural)]
pub enum RejectReason {
    /// Quantity was zero.
    ZeroQuantity,
    /// A limit, post-only or stop-limit order arrived without a limit price.
    MissingLimitPrice,
    /// A stop or stop-limit order arrived without a stop price.
    MissingStopPrice,
    /// A post-only order would have crossed the spread.
    PostOnlyWouldCross,
    /// A fill-or-kill order could not be filled in full.
    FillOrKillUnfillable,
    /// A market order found no liquidity.
    NoLiquidity,
    /// Self-trade prevention canceled the aggressor.
    SelfTradePrevented,
    /// An order with this id already rests in the book.
    DuplicateOrderId,
}

/// Everything the engine emits.
#[derive(Debug, Clone, Copy, PartialEq, Eq, Structural)]
pub enum EngineEvent {
    /// The order passed validation and entered the matching pipeline.
    OrderAccepted { id: OrderId },
    /// The order was rejected for the given reason.
    OrderRejected { id: OrderId, reason: RejectReason },
    /// A fill occurred.
    Trade(Trade),
    /// An order was canceled (on request, or by an order-type rule such as an IOC remainder).
    OrderCanceled { id: OrderId, remaining: Qty },
    /// A resting order was amended; `repriced` tells whether it lost time priority.
    OrderAmended { id: OrderId, new_quantity: Qty, new_price: Option<Price>, repriced: bool },
    /// The aggregated book changed; consumers should refresh their snapshot.
    BookUpdated,
}

} // verus!
