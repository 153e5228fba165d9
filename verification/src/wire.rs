//! The gateway's wire types: REST request and response bodies, WebSocket server messages, and the
//! validation every inbound order passes before it reaches the engine.
//!
//! All prices are integer ticks (1 tick = 0.01 quote units).
use vstd::prelude::*;

use crate::domain::trade::{first_price, spec_spread};
use crate::domain::{
    AccountId, BookLevel, BookSnapshot, EngineEvent, Order, OrderId, OrderType, Price, Qty,
    RejectReason, SeqNum, Side, Trade,
};
use crate::engine::rules::spec_validate;

verus! {

/// An inbound order from `POST /orders`.
#[derive(Debug, Clone, Copy, PartialEq, Eq, Structural)]
pub struct NewOrderRequest {
    pub side: Side,
    pub order_type: OrderType,
    pub price: Option<u64>,
    pub stop_price: Option<u64>,
    pub quantity: u64,
    pub account: Option<u64>,
}

/// An inbound amend from `PUT /orders/{id}`.
#[derive(Debug, Clone, Copy, PartialEq, Eq, Structural)]
pub struct AmendRequest {
    pub quantity: u64,
    pub price: Option<u64>,
}

/// A single field-level validation error.
#[derive(Debug, Clone, Copy)]
pub struct FieldError {
    pub field: &'static str,
    pub message: &'static str,
}

/// A field error as text: its field and its message.
pub open spec fn error_view(e: FieldError) -> (Seq<char>, Seq<char>) {
    (e.field@, e.message@)
}

/// A run of field errors as text.
pub open spec fn error_views(errs: Seq<FieldError>) -> Seq<(Seq<char>, Seq<char>)> {
    errs.map_values(|e: FieldError| error_view(e))
}

/// Whether an order type needs a limit price.
pub open spec fn needs_limit(t: OrderType) -> bool {
    t == OrderType::Limit || t == OrderType::PostOnly || t == OrderType::StopLimit
}

/// Whether an order type needs a stop price.
pub open spec fn needs_stop(t: OrderType) -> bool {
    t == OrderType::Stop || t == OrderType::StopLimit
}

/// The field errors of a request, in the order they are reported: a zero quantity, a missing
/// limit price, a missing stop price.
pub open spec fn request_errors(r: NewOrderRequest) -> Seq<(Seq<char>, Seq<char>)> {
    let a: Seq<(Seq<char>, Seq<char>)> = if r.quantity == 0 {
        seq![("quantity"@, "must be greater than zero"@)]
    } else {
        Seq::empty()
    };
    let b = if needs_limit(r.order_type) && r.price is None {
        a.push(("price"@, "required for this order type"@))
    } else {
        a
    };
    if needs_stop(r.order_type) && r.stop_price is None {
        b.push(("stop_price"@, "required for stop orders"@))
    } else {
        b
    }
}

/// A price in ticks, if there is one.
pub open spec fn price_of(p: Option<u64>) -> Option<Price> {
    match p {
        Some(v) => Some(Price(v)),
        None => None,
    }
}

/// The engine order a valid request becomes under the server-assigned `id`: account 0 when none
/// is given, and no sequence number yet.
pub open spec fn request_order(r: NewOrderRequest, id: u64) -> Order {
    Order {
        id: OrderId(id),
        account: AccountId(
            match r.account {
                Some(a) => a,
                None => 0,
            },
        ),
        side: r.side,
        order_type: r.order_type,
        limit_price: price_of(r.price),
        stop_price: price_of(r.stop_price),
        quantity: Qty(r.quantity),
        seq: SeqNum(0),
    }
}

/// Convert an optional tick count to a price.
fn to_price(p: Option<u64>) -> (r: Option<Price>)
    ensures
        r == price_of(p),
{
    match p {
        Some(v) => Some(Price(v)),
        None => None,
    }
}

impl NewOrderRequest {
    /// Validate and convert into an engine order with the server-assigned `id`. Every error is
    /// reported, not only the first. An order that passes here also passes the engine's own
    /// validation.
    pub fn into_order(self, id: u64) -> (r: Result<Order, Vec<FieldError>>)
        ensures
            match r {
                Ok(o) => request_errors(self).len() == 0 && o == request_order(self, id),
                Err(errs) => request_errors(self).len() > 0 && error_views(errs@) == request_errors(self),
            },
            r is Ok ==> spec_validate(r->Ok_0) is None,
    {
        let mut errors: Vec<FieldError> = Vec::new();
        if self.quantity == 0 {
            errors.push(FieldError { field: "quantity", message: "must be greater than zero" });
        }
        let needs_limit = match self.order_type {
            OrderType::Limit | OrderType::PostOnly | OrderType::StopLimit => true,
            _ => false,
        };
        if needs_limit && self.price.is_none() {
            errors.push(FieldError { field: "price", message: "required for this order type" });
        }
        let needs_stop = match self.order_type {
            OrderType::Stop | OrderType::StopLimit => true,
            _ => false,
        };
        if needs_stop && self.stop_price.is_none() {
            errors.push(FieldError { field: "stop_price", message: "required for stop orders" });
        }
        proof {
            assert(error_views(errors@) =~= request_errors(self));
        }
        if errors.len() > 0 {
            return Err(errors);
        }
        let account = match self.account {
            Some(a) => a,
            None => 0,
        };
        Ok(
            Order {
                id: OrderId(id),
                account: AccountId(account),
                side: self.side,
                order_type: self.order_type,
                limit_price: to_price(self.price),
                stop_price: to_price(self.stop_price),
                quantity: Qty(self.quantity),
                seq: SeqNum(0),
            },
        )
    }
}

impl AmendRequest {
    /// Validate an amend: the new quantity must be positive. Yields the new quantity and the
    /// optional new price.
    pub fn into_amend(self) -> (r: Result<(Qty, Option<Price>), Vec<FieldError>>)
        ensures
            match r {
                Ok(v) => self.quantity > 0 && v == (Qty(self.quantity), price_of(self.price)),
                Err(errs) => self.quantity == 0 && error_views(errs@) == seq![
                    ("quantity"@, "must be greater than zero"@),
                ],
            },
    {
        if self.quantity == 0 {
            let mut errors: Vec<FieldError> = Vec::new();
            errors.push(FieldError { field: "quantity", message: "must be greater than zero" });
            proof {
                assert(error_views(errors@) =~= seq![("quantity"@, "must be greater than zero"@)]);
            }
            return Err(errors);
        }
        Ok((Qty(self.quantity), to_price(self.price)))
    }
}

/// The acknowledgement of `POST /orders`: the engine is asynchronous, so this confirms intake
/// only; the outcome arrives over the WebSocket.
#[derive(Debug, Clone, Copy, PartialEq, Eq, Structural)]
pub struct OrderAck {
    pub id: u64,
    pub accepted: bool,
}

/// A book level on the wire.
#[derive(Debug, Clone, Copy, PartialEq, Eq, Structural)]
pub struct LevelDto {
    pub price: u64,
    pub quantity: u64,
}

/// The messages pushed to WebSocket clients.
#[derive(Debug, Clone, PartialEq, Eq)]
pub enum ServerMessage {
    Book {
        bids: Vec<LevelDto>,
        asks: Vec<LevelDto>,
        seq: u64,
        best_bid: Option<u64>,
        best_ask: Option<u64>,
        spread: Option<u64>,
    },
    Trade {
        seq: u64,
        price: u64,
        quantity: u64,
        taker_side: Side,
        taker_order: u64,
        maker_order: u64,
    },
    OrderAccepted { id: u64 },
    OrderRejected { id: u64, reason: String },
    OrderCanceled { id: u64, remaining: u64 },
    OrderAmended { id: u64, quantity: u64, price: Option<u64>, repriced: bool },
}

/// A book level as it goes on the wire.
pub open spec fn level_dto(l: BookLevel) -> LevelDto {
    LevelDto { price: l.price.0, quantity: l.quantity.0 }
}

/// The tick count of an optional price.
pub open spec fn ticks_of(p: Option<Price>) -> Option<u64> {
    match p {
        Some(v) => Some(v.0),
        None => None,
    }
}

/// The name a rejection reason goes by on the wire.
pub open spec fn reason_name(r: RejectReason) -> Seq<char> {
    match r {
        RejectReason::ZeroQuantity => "ZeroQuantity"@,
        RejectReason::MissingLimitPrice => "MissingLimitPrice"@,
        RejectReason::MissingStopPrice => "MissingStopPrice"@,
        RejectReason::PostOnlyWouldCross => "PostOnlyWouldCross"@,
        RejectReason::FillOrKillUnfillable => "FillOrKillUnfillable"@,
        RejectReason::NoLiquidity => "NoLiquidity"@,
        RejectReason::SelfTradePrevented => "SelfTradePrevented"@,
        RejectReason::DuplicateOrderId => "DuplicateOrderId"@,
    }
}

/// The wire name of a rejection reason.
pub fn reason_text(r: RejectReason) -> (s: String)
    ensures
        s@ == reason_name(r),
{
    match r {
        RejectReason::ZeroQuantity => String::from_str("ZeroQuantity"),
        RejectReason::MissingLimitPrice => String::from_str("MissingLimitPrice"),
        RejectReason::MissingStopPrice => String::from_str("MissingStopPrice"),
        RejectReason::PostOnlyWouldCross => String::from_str("PostOnlyWouldCross"),
        RejectReason::FillOrKillUnfillable => String::from_str("FillOrKillUnfillable"),
        RejectReason::NoLiquidity => String::from_str("NoLiquidity"),
        RejectReason::SelfTradePrevented => String::from_str("SelfTradePrevented"),
        RejectReason::DuplicateOrderId => String::from_str("DuplicateOrderId"),
    }
}

/// Book levels as they go on the wire, in the same order.
fn level_dtos(levels: &Vec<BookLevel>) -> (r: Vec<LevelDto>)
    ensures
        r@ == levels@.map_values(|l: BookLevel| level_dto(l)),
{
    let mut out: Vec<LevelDto> = Vec::new();
    let mut i: usize = 0;
    while i < levels.len()
        invariant
            0 <= i <= levels@.len(),
            out@ == levels@.subrange(0, i as int).map_values(|l: BookLevel| level_dto(l)),
        decreases levels@.len() - i,
    {
        let l = levels[i];
        out.push(LevelDto { price: l.price.0, quantity: l.quantity.0 });
        i = i + 1;
        proof {
            assert(out@ =~= levels@.subrange(0, i as int).map_values(|l: BookLevel| level_dto(l)));
        }
    }
    proof {
        assert(levels@.subrange(0, levels@.len() as int) =~= levels@);
    }
    out
}

impl ServerMessage {
    /// A `Book` message from an engine snapshot: its levels, its sequence number, its best
    /// prices and its spread.
    pub fn from_snapshot(s: &BookSnapshot) -> (r: Self)
        ensures
            book_message_of(r, *s),
    {
        let best_bid = match s.best_bid() {
            Some(p) => Some(p.get()),
            None => None,
        };
        let best_ask = match s.best_ask() {
            Some(p) => Some(p.get()),
            None => None,
        };
        ServerMessage::Book {
            bids: level_dtos(&s.bids),
            asks: level_dtos(&s.asks),
            seq: s.seq.get(),
            best_bid,
            best_ask,
            spread: s.spread(),
        }
    }

    /// The server message of an engine event, if the UI shows it: every event but a book update,
    /// whose state the snapshots carry.
    pub fn from_event(ev: &EngineEvent) -> (r: Option<Self>)
        ensures
            event_message_of(r, *ev),
    {
        match ev {
            EngineEvent::Trade(t) => Some(Self::trade(t)),
            EngineEvent::OrderAccepted { id } => Some(ServerMessage::OrderAccepted { id: id.get() }),
            EngineEvent::OrderRejected { id, reason } => Some(
                ServerMessage::OrderRejected { id: id.get(), reason: reason_text(*reason) },
            ),
            EngineEvent::OrderCanceled { id, remaining } => Some(
                ServerMessage::OrderCanceled { id: id.get(), remaining: remaining.get() },
            ),
            EngineEvent::OrderAmended { id, new_quantity, new_price, repriced } => {
                let price = match new_price {
                    Some(p) => Some(p.get()),
                    None => None,
                };
                Some(ServerMessage::OrderAmended { id: id.get(), quantity: new_quantity.get(), price, repriced: *repriced })
            },
            EngineEvent::BookUpdated => None,
        }
    }

    /// The `Trade` message of a trade.
    fn trade(t: &Trade) -> (r: Self)
        ensures
            r == trade_message(*t),
    {
        ServerMessage::Trade {
            seq: t.seq.get(),
            price: t.price.get(),
            quantity: t.quantity.get(),
            taker_side: t.taker_side,
            taker_order: t.taker_order.get(),
            maker_order: t.maker_order.get(),
        }
    }
}

/// The `Trade` message of a trade.
pub open spec fn trade_message(t: Trade) -> ServerMessage {
    ServerMessage::Trade {
        seq: t.seq.0,
        price: t.price.0,
        quantity: t.quantity.0,
        taker_side: t.taker_side,
        taker_order: t.taker_order.0,
        maker_order: t.maker_order.0,
    }
}

/// `m` is the `Book` message of snapshot `s`: its levels, its sequence number, its best prices
/// and its spread.
pub open spec fn book_message_of(m: ServerMessage, s: BookSnapshot) -> bool {
    match m {
        ServerMessage::Book { bids, asks, seq, best_bid, best_ask, spread } => {
            &&& bids@ == s.bids@.map_values(|l: BookLevel| level_dto(l))
            &&& asks@ == s.asks@.map_values(|l: BookLevel| level_dto(l))
            &&& seq == s.seq.0
            &&& best_bid == ticks_of(first_price(s.bids@))
            &&& best_ask == ticks_of(first_price(s.asks@))
            &&& spread == spec_spread(s.bids@, s.asks@)
        },
        _ => false,
    }
}

/// `r` is the server message of event `ev`: every event but a book update has one.
pub open spec fn event_message_of(r: Option<ServerMessage>, ev: EngineEvent) -> bool {
    match ev {
        EngineEvent::Trade(t) => r == Some(trade_message(t)),
        EngineEvent::OrderAccepted { id } => r == Some(ServerMessage::OrderAccepted { id: id.0 }),
        EngineEvent::OrderRejected { id, reason } => match r {
            Some(ServerMessage::OrderRejected { id: i, reason: text }) => i == id.0 && text@ == reason_name(reason),
            _ => false,
        },
        EngineEvent::OrderCanceled { id, remaining } => r == Some(
            ServerMessage::OrderCanceled { id: id.0, remaining: remaining.0 },
        ),
        EngineEvent::OrderAmended { id, new_quantity, new_price, repriced } => r == Some(
            ServerMessage::OrderAmended {
                id: id.0,
                quantity: new_quantity.0,
                price: ticks_of(new_price),
                repriced,
            },
        ),
        EngineEvent::BookUpdated => r is None,
    }
}

} // verus!
