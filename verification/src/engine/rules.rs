//! The matching rules, stated over the book model: validation, the price-time matching loop
//! with self-trade prevention, each order type, stop triggering, and the three commands
//! (submit, cancel, amend). The engine's operations are proved to follow these definitions.
use vstd::prelude::*;

use crate::book::model::{BookModel, RestingOrder};
use crate::domain::ids::next_seq_value;
use crate::domain::order::{opposite_side, spec_is_stop};
use crate::domain::{
    EngineError, EngineEvent, Order, OrderId, OrderType, Price, Qty, RejectReason, SeqNum, StpPolicy, Trade,
};
use crate::matcher::{spec_price_crosses, spec_stop_triggered};

verus! {

/// The state of an engine: its book, the next sequence number, the last trade price, the
/// self-trade-prevention policy, the dormant stop orders (oldest first), and the events of the
/// current command.
pub struct EngineModel {
    pub book: BookModel,
    pub seq: u64,
    pub last_trade: Option<Price>,
    pub stp: StpPolicy,
    pub stops: Seq<Order>,
    pub events: Seq<EngineEvent>,
}

impl EngineModel {
    /// This state with `ev` appended to the events.
    pub open spec fn emit(self, ev: EngineEvent) -> EngineModel {
        EngineModel { events: self.events.push(ev), ..self }
    }

    /// This state with a different book.
    pub open spec fn with_book(self, book: BookModel) -> EngineModel {
        EngineModel { book, ..self }
    }

    /// This state with the sequence counter advanced.
    pub open spec fn bumped(self) -> EngineModel {
        EngineModel { seq: next_seq_value(self.seq), ..self }
    }

    /// This state with no events (the start of a command).
    pub open spec fn cleared(self) -> EngineModel {
        EngineModel { events: Seq::empty(), ..self }
    }
}

/// Structural validation of an incoming order.
pub open spec fn spec_validate(o: Order) -> Option<RejectReason> {
    if o.quantity.0 == 0 {
        Some(RejectReason::ZeroQuantity)
    } else {
        match o.order_type {
            OrderType::Limit | OrderType::PostOnly => if o.limit_price is None {
                Some(RejectReason::MissingLimitPrice)
            } else {
                None
            },
            OrderType::StopLimit => if o.limit_price is None {
                Some(RejectReason::MissingLimitPrice)
            } else if o.stop_price is None {
                Some(RejectReason::MissingStopPrice)
            } else {
                None
            },
            OrderType::Stop => if o.stop_price is None {
                Some(RejectReason::MissingStopPrice)
            } else {
                None
            },
            _ => None,
        }
    }
}

/// The smaller of two quantities.
pub open spec fn min_u64(a: u64, b: u64) -> u64 {
    if a <= b {
        a
    } else {
        b
    }
}

/// The price-time matching loop: fill `taker` (with `remaining` left and price bound `limit`)
/// against the oldest order at the best opposing price, one maker at a time, until the taker is
/// filled, the opposing side is empty, the best maker does not cross, or self-trade prevention
/// (cancel-newest) stops it. Each fill emits a trade at the maker's price with the next
/// sequence number and sets the last trade price. With the same account on both sides the
/// policy decides: cancel-newest stops, cancel-oldest cancels the maker and goes on,
/// decrement-both takes the smaller quantity off both (canceling a maker left with nothing)
/// and goes on. Yields the final state, the taker's remainder, and whether self-trade
/// prevention stopped it. `fuel` bounds the number of makers consumed.
pub open spec fn match_loop(e: EngineModel, taker: Order, limit: Option<Price>, remaining: u64, fuel: nat) -> (EngineModel, u64, bool)
    decreases fuel,
{
    if remaining == 0 || fuel == 0 {
        (e, remaining, false)
    } else {
        match e.book.best_maker(opposite_side(taker.side)) {
            None => (e, remaining, false),
            Some(m) => if !spec_price_crosses(taker.side, limit, m.price) {
                (e, remaining, false)
            } else if m.account == taker.account {
                match e.stp {
                    StpPolicy::CancelNewest => (e, remaining, true),
                    StpPolicy::CancelOldest => match_loop(
                        e.with_book(e.book.remove_order(m.id.0)).emit(
                            EngineEvent::OrderCanceled { id: m.id, remaining: m.quantity },
                        ),
                        taker,
                        limit,
                        remaining,
                        (fuel - 1) as nat,
                    ),
                    StpPolicy::DecrementBoth => {
                        let dec = min_u64(remaining, m.quantity.0);
                        let e1 = e.with_book(e.book.reduce_order(m.id.0, dec));
                        let e2 = if m.quantity.0 - dec == 0 {
                            e1.emit(EngineEvent::OrderCanceled { id: m.id, remaining: Qty(0) })
                        } else {
                            e1
                        };
                        match_loop(e2, taker, limit, (remaining - dec) as u64, (fuel - 1) as nat)
                    },
                }
            } else {
                let fill = min_u64(remaining, m.quantity.0);
                let trade = Trade {
                    seq: SeqNum(e.seq),
                    taker_order: taker.id,
                    maker_order: m.id,
                    price: m.price,
                    quantity: Qty(fill),
                    taker_side: taker.side,
                };
                let e1 = e.bumped().emit(EngineEvent::Trade(trade));
                let e2 = EngineModel {
                    last_trade: Some(m.price),
                    ..e1.with_book(e1.book.reduce_order(m.id.0, fill))
                };
                match_loop(e2, taker, limit, (remaining - fill) as u64, (fuel - 1) as nat)
            },
        }
    }
}

/// Matching from the start of a command: the fuel is the number of resting orders.
pub open spec fn match_all(e: EngineModel, taker: Order, limit: Option<Price>, remaining: u64) -> (EngineModel, u64, bool) {
    match_loop(e, taker, limit, remaining, e.book.len())
}

/// Would an order on `side` with `limit` cross the best opposing maker?
pub open spec fn would_cross(e: EngineModel, side: crate::domain::Side, limit: Option<Price>) -> bool {
    match e.book.best_maker(opposite_side(side)) {
        None => false,
        Some(m) => spec_price_crosses(side, limit, m.price),
    }
}

/// Rest `qty` of `o` at its limit price, when it has one. When the book cannot take it (its
/// arena is full, or its level cannot count one more order or add `qty` to its total), the
/// quantity is canceled instead.
pub open spec fn rest(e: EngineModel, o: Order, qty: u64) -> EngineModel {
    match o.limit_price {
        None => e,
        Some(p) => if e.book.can_rest(o.id.0, o.side, p.0, qty) {
            e.with_book(
                e.book.push_order(
                    RestingOrder {
                        id: o.id,
                        account: o.account,
                        side: o.side,
                        price: p,
                        quantity: Qty(qty),
                        seq: o.seq,
                    },
                ),
            )
        } else {
            e.emit(EngineEvent::OrderCanceled { id: o.id, remaining: Qty(qty) })
        },
    }
}

/// Emit a cancel of the remainder when there is one.
pub open spec fn cancel_remainder(e: EngineModel, id: OrderId, remaining: u64) -> EngineModel {
    if remaining != 0 {
        e.emit(EngineEvent::OrderCanceled { id, remaining: Qty(remaining) })
    } else {
        e
    }
}

/// An active (non-stop) order through the rules of its type.
pub open spec fn process_active(e: EngineModel, o: Order) -> EngineModel {
    let limit = o.limit_price;
    let q = o.quantity.0;
    match o.order_type {
        OrderType::PostOnly => if would_cross(e, o.side, limit) {
            e.emit(EngineEvent::OrderRejected { id: o.id, reason: RejectReason::PostOnlyWouldCross })
        } else {
            rest(e, o, q).emit(EngineEvent::BookUpdated)
        },
        OrderType::FillOrKill => if e.book.available(o.side, limit) < q {
            e.emit(EngineEvent::OrderRejected { id: o.id, reason: RejectReason::FillOrKillUnfillable })
        } else {
            let r = match_all(e, o, limit, q);
            cancel_remainder(r.0, o.id, r.1).emit(EngineEvent::BookUpdated)
        },
        OrderType::Market => {
            let r = match_all(e, o, None, q);
            if r.1 == q {
                r.0.emit(EngineEvent::OrderRejected { id: o.id, reason: RejectReason::NoLiquidity })
            } else {
                cancel_remainder(r.0, o.id, r.1).emit(EngineEvent::BookUpdated)
            }
        },
        OrderType::ImmediateOrCancel => {
            let r = match_all(e, o, limit, q);
            cancel_remainder(r.0, o.id, r.1).emit(EngineEvent::BookUpdated)
        },
        OrderType::Limit => {
            let r = match_all(e, o, limit, q);
            let e2 = if r.1 != 0 {
                if r.2 {
                    r.0.emit(EngineEvent::OrderCanceled { id: o.id, remaining: Qty(r.1) })
                } else {
                    rest(r.0, o, r.1)
                }
            } else {
                r.0
            };
            e2.emit(EngineEvent::BookUpdated)
        },
        OrderType::Stop | OrderType::StopLimit => e,
    }
}

/// What a triggered stop becomes: a stop a market order, a stop-limit a limit order.
pub open spec fn activated(o: Order) -> Order {
    match o.order_type {
        OrderType::Stop => Order { order_type: OrderType::Market, limit_price: None, ..o },
        OrderType::StopLimit => Order { order_type: OrderType::Limit, ..o },
        _ => o,
    }
}

/// Whether the dormant stop `o` fires on a last trade at `last`.
pub open spec fn is_triggered(o: Order, last: Price) -> bool {
    match o.stop_price {
        Some(sp) => spec_stop_triggered(o.side, sp, last),
        None => false,
    }
}

/// The position of the oldest dormant stop that fires on `last`, if any.
pub open spec fn first_triggered(stops: Seq<Order>, last: Price) -> Option<int> {
    if exists|i: int| 0 <= i < stops.len() && #[trigger] is_triggered(stops[i], last) {
        Some(
            choose|i: int|
                0 <= i < stops.len() && is_triggered(stops[i], last) && forall|j: int|
                    0 <= j < i ==> !#[trigger] is_triggered(stops[j], last),
        )
    } else {
        None
    }
}

/// Activate dormant stops, oldest triggered first, as long as the last trade price triggers
/// one; an activation may trade and so trigger more. `fuel` bounds the number of activations.
pub open spec fn trigger_stops(e: EngineModel, fuel: nat) -> EngineModel
    decreases fuel,
{
    if fuel == 0 {
        e
    } else {
        match e.last_trade {
            None => e,
            Some(last) => match first_triggered(e.stops, last) {
                None => e,
                Some(i) => trigger_stops(
                    process_active(EngineModel { stops: e.stops.remove(i), ..e }, activated(e.stops[i])),
                    (fuel - 1) as nat,
                ),
            },
        }
    }
}

/// Activate every stop the last trade price triggers.
pub open spec fn trigger_all(e: EngineModel) -> EngineModel {
    trigger_stops(e, e.stops.len())
}

/// A newly accepted stop: activated at once when the last trade price already triggers it,
/// else kept dormant.
pub open spec fn handle_stop(e: EngineModel, o: Order) -> EngineModel {
    let fires = match (e.last_trade, o.stop_price) {
        (Some(last), Some(stop)) => spec_stop_triggered(o.side, stop, last),
        _ => false,
    };
    if fires {
        process_active(e, activated(o))
    } else {
        EngineModel { stops: e.stops.push(o), ..e }
    }
}

/// Submitting an order: rejected when invalid or when an order with its id already exists
/// (resting, or a dormant stop); otherwise accepted with the next sequence number, processed
/// (or kept dormant as a stop), and followed by any stop activations.
pub open spec fn submit(e: EngineModel, o: Order) -> EngineModel {
    let e0 = e.cleared();
    match spec_validate(o) {
        Some(reason) => e0.emit(EngineEvent::OrderRejected { id: o.id, reason }),
        None => if e0.book.contains(o.id.0) || stop_position(e0.stops, o.id) is Some {
            e0.emit(EngineEvent::OrderRejected { id: o.id, reason: RejectReason::DuplicateOrderId })
        } else {
            let o1 = Order { seq: SeqNum(e0.seq), ..o };
            let e1 = e0.bumped().emit(EngineEvent::OrderAccepted { id: o.id });
            let e2 = if spec_is_stop(o.order_type) {
                handle_stop(e1, o1)
            } else {
                process_active(e1, o1)
            };
            trigger_all(e2)
        },
    }
}

/// The position of the oldest dormant stop with this id, if any.
pub open spec fn stop_position(stops: Seq<Order>, id: OrderId) -> Option<int> {
    if exists|i: int| 0 <= i < stops.len() && #[trigger] stops[i].id == id {
        Some(
            choose|i: int|
                0 <= i < stops.len() && stops[i].id == id && forall|j: int|
                    0 <= j < i ==> #[trigger] stops[j].id != id,
        )
    } else {
        None
    }
}

/// Canceling an order: a dormant stop is dropped; a resting order leaves the book; an unknown
/// id is an error.
pub open spec fn cancel(e: EngineModel, id: OrderId) -> Result<EngineModel, EngineError> {
    let e0 = e.cleared();
    match stop_position(e0.stops, id) {
        Some(i) => Ok(
            EngineModel { stops: e0.stops.remove(i), ..e0 }.emit(
                EngineEvent::OrderCanceled { id, remaining: e0.stops[i].quantity },
            ),
        ),
        None => if e0.book.contains(id.0) {
            Ok(
                e0.with_book(e0.book.remove_order(id.0)).emit(
                    EngineEvent::OrderCanceled { id, remaining: e0.book.orders[id.0].quantity },
                ).emit(EngineEvent::BookUpdated),
            )
        } else {
            Err(EngineError::UnknownOrder(id))
        },
    }
}

/// Amending (cancel-replace) a resting order. A zero quantity is an error, as is an id that
/// does not rest. A pure decrease at the same price keeps time priority; a reprice or an
/// increase takes the order out and re-enters it as a limit aggressor with a new sequence
/// number, followed by any stop activations.
pub open spec fn amend(e: EngineModel, id: OrderId, new_qty: Qty, new_price: Option<Price>) -> Result<
    EngineModel,
    EngineError,
> {
    let e0 = e.cleared();
    if new_qty.0 == 0 {
        Err(EngineError::InvalidAmendQuantity)
    } else if !e0.book.contains(id.0) {
        Err(EngineError::UnknownOrder(id))
    } else {
        let r = e0.book.orders[id.0];
        let target = match new_price {
            Some(p) => p,
            None => r.price,
        };
        if target == r.price && new_qty.0 <= r.quantity.0 {
            Ok(
                e0.with_book(e0.book.set_quantity(id.0, new_qty.0)).emit(
                    EngineEvent::OrderAmended {
                        id,
                        new_quantity: new_qty,
                        new_price: Some(target),
                        repriced: false,
                    },
                ).emit(EngineEvent::BookUpdated),
            )
        } else {
            let e1 = e0.with_book(e0.book.remove_order(id.0)).emit(
                EngineEvent::OrderAmended {
                    id,
                    new_quantity: new_qty,
                    new_price: Some(target),
                    repriced: true,
                },
            );
            let o = Order {
                id,
                account: r.account,
                side: r.side,
                order_type: OrderType::Limit,
                limit_price: Some(target),
                stop_price: None,
                quantity: new_qty,
                seq: SeqNum(e1.seq),
            };
            Ok(trigger_all(process_active(e1.bumped(), o)))
        }
    }
}

} // verus!
