//! The matching engine: validation, the price-time matching loop, order-type semantics,
//! self-trade prevention, and stop triggering. Single-threaded and free of I/O; the events of
//! each command go to a reused buffer whose contents each command returns.
use vstd::prelude::*;

use crate::book::model::BookModel;
use crate::book::OrderBook;
use crate::domain::{
    BookSnapshot, EngineError, EngineEvent, Order, OrderId, OrderType, Price, Qty, RejectReason,
    SeqNum, Side, StpPolicy, Trade,
};
use crate::engine::rules;
use crate::engine::rules::EngineModel;
use crate::engine::laws::{
    engine_invariant, law_amend, law_cancel, law_initial_invariant, law_submit_keeps_invariant,
    stops_settled, trades_positive,
};
use crate::matcher::{price_crosses, stop_triggered};

verus! {

/// Owns the book and all matching state.
pub struct MatchingEngine {
    book: OrderBook,
    seq: SeqNum,
    last_trade_price: Option<Price>,
    stp: StpPolicy,
    pending_stops: Vec<Order>,
    events: Vec<EngineEvent>,
}

impl View for MatchingEngine {
    type V = EngineModel;

    closed spec fn view(&self) -> EngineModel {
        EngineModel {
            book: self.book@,
            seq: self.seq.0,
            last_trade: self.last_trade_price,
            stp: self.stp,
            stops: self.pending_stops@,
            events: self.events@,
        }
    }
}

/// The state of a new engine.
pub open spec fn initial_state(stp: StpPolicy) -> EngineModel {
    EngineModel {
        book: BookModel::empty(),
        seq: 1,
        last_trade: None,
        stp,
        stops: Seq::empty(),
        events: Seq::empty(),
    }
}

/// The sequence number last assigned, when `seq` is the next one to assign.
pub open spec fn last_seq(seq: u64) -> u64 {
    if seq == 0 {
        u64::MAX
    } else {
        (seq - 1) as u64
    }
}

/// Structural validation of an order: the engine's own guard, so the library is safe to call
/// directly.
pub fn validate(order: &Order) -> (r: Option<RejectReason>)
    ensures
        r == rules::spec_validate(*order),
{
    if order.quantity.is_zero() {
        return Some(RejectReason::ZeroQuantity);
    }
    match order.order_type {
        OrderType::Limit | OrderType::PostOnly => {
            if order.limit_price.is_none() {
                return Some(RejectReason::MissingLimitPrice);
            }
        },
        OrderType::StopLimit => {
            if order.limit_price.is_none() {
                return Some(RejectReason::MissingLimitPrice);
            }
            if order.stop_price.is_none() {
                return Some(RejectReason::MissingStopPrice);
            }
        },
        OrderType::Stop => {
            if order.stop_price.is_none() {
                return Some(RejectReason::MissingStopPrice);
            }
        },
        OrderType::Market | OrderType::ImmediateOrCancel | OrderType::FillOrKill => {},
    }
    None
}

impl MatchingEngine {
    /// Well-formedness of the book alone, which the steps of a command keep.
    closed spec fn book_ok(&self) -> bool {
        self.book.wf()
    }

    /// Well-formedness: the book is well formed, the engine invariant holds (the book is not
    /// crossed, its quantities are positive, the dormant stops are valid, and no two orders
    /// share an id), and no dormant stop fires on the last trade price.
    pub closed spec fn wf(&self) -> bool {
        &&& self.book.wf()
        &&& engine_invariant(self@)
        &&& stops_settled(self@)
    }

    /// A well-formed engine holds the engine invariant, and its dormant stops are settled.
    pub proof fn lemma_invariant(&self)
        requires
            self.wf(),
        ensures
            engine_invariant(self@),
            stops_settled(self@),
    {
    }

    /// A new engine with an empty book pre-sized for `capacity` orders.
    pub fn with_capacity(capacity: usize, stp: StpPolicy) -> (r: Self)
        ensures
            r.wf(),
            r@ == initial_state(stp),
    {
        proof {
            law_initial_invariant(stp);
        }
        MatchingEngine {
            book: OrderBook::with_capacity(capacity),
            seq: SeqNum(1),
            last_trade_price: None,
            stp,
            pending_stops: Vec::new(),
            events: Vec::new(),
        }
    }

    /// Take the next sequence number. The counter wraps after the last `u64`.
    fn next_seq(&mut self) -> (r: SeqNum)
        ensures
            r.0 == old(self)@.seq,
            final(self)@ == old(self)@.bumped(),
            final(self).book == old(self).book,
    {
        let s = self.seq;
        self.seq = SeqNum(self.seq.0.wrapping_add(1));
        s
    }

    /// The price of the last trade, if any.
    pub fn last_trade_price(&self) -> (r: Option<Price>)
        ensures
            r == self@.last_trade,
    {
        self.last_trade_price
    }

    /// Best bid price.
    pub fn best_bid(&self) -> (r: Option<Price>)
        requires
            self.wf(),
        ensures
            match r {
                None => self@.book.best_price(Side::Buy) is None,
                Some(p) => self@.book.best_price(Side::Buy) == Some(p.0),
            },
    {
        self.book.best_bid()
    }

    /// Best ask price.
    pub fn best_ask(&self) -> (r: Option<Price>)
        requires
            self.wf(),
        ensures
            match r {
                None => self@.book.best_price(Side::Sell) is None,
                Some(p) => self@.book.best_price(Side::Sell) == Some(p.0),
            },
    {
        self.book.best_ask()
    }

    /// An L2 snapshot with `depth` levels per side (0 = all), stamped with the sequence number
    /// of the last event it reflects (0 before any).
    pub fn snapshot(&self, depth: usize) -> (r: BookSnapshot)
        requires
            self.wf(),
        ensures
            r.bids@ == self@.book.depth_levels(Side::Buy, depth),
            r.asks@ == self@.book.depth_levels(Side::Sell, depth),
            r.seq.0 == last_seq(self@.seq),
    {
        let last = if self.seq.0 == 0 {
            u64::MAX
        } else {
            self.seq.0 - 1
        };
        self.book.snapshot(depth, SeqNum(last))
    }

    /// The price-time matching loop: fills `taker` against the best opposing orders in FIFO
    /// order, emitting a trade per fill and applying self-trade prevention. Returns the
    /// unfilled remainder and whether self-trade prevention (cancel-newest) stopped it.
    fn match_aggressor(&mut self, taker: &Order, limit: Option<Price>, start: Qty) -> (r: (Qty, bool))
        requires
            old(self).book_ok(),
        ensures
            final(self).book_ok(),
            (final(self)@, r.0.0, r.1) == rules::match_all(old(self)@, *taker, limit, start.0),
            final(self)@.stops == old(self)@.stops,
    {
        let ghost e0 = self@;
        let mut remaining = start;
        let ghost mut fuel: nat = self@.book.len();
        loop
            invariant
                self.book_ok(),
                e0 == old(self)@,
                self@.stops == e0.stops,
                rules::match_loop(self@, *taker, limit, remaining.0, fuel) == rules::match_all(e0, *taker, limit, start.0),
                remaining.0 == 0 || fuel >= self@.book.len(),
            decreases fuel,
        {
            if remaining.is_zero() {
                assert(rules::match_loop(self@, *taker, limit, remaining.0, fuel) == (self@, remaining.0, false));
                return (remaining, false);
            }
            let maker = match self.book.best_maker(taker.side.opposite()) {
                None => {
                    assert(self@.book.best_maker(crate::domain::order::opposite_side(taker.side)) is None);
                    assert(rules::match_loop(self@, *taker, limit, remaining.0, fuel) == (self@, remaining.0, false));
                    return (remaining, false);
                },
                Some(m) => m,
            };
            proof {
                self.book.lemma_model_wf();
                crate::book::model::lemma_best_maker_rests(self@.book, crate::domain::order::opposite_side(taker.side));
                self.book.lemma_key_of(maker.id.0);
            }
            if !price_crosses(taker.side, limit, maker.price) {
                return (remaining, false);
            }
            let ghost before = self@;
            if maker.account == taker.account {
                match self.stp {
                    StpPolicy::CancelNewest => {
                        return (remaining, true);
                    },
                    StpPolicy::CancelOldest => {
                        let rem = maker.quantity;
                        let _ = self.book.cancel(maker.id);
                        self.events.push(EngineEvent::OrderCanceled { id: maker.id, remaining: rem });
                        proof {
                            crate::book::model::lemma_remove_wf(before.book, maker.id.0);
                            fuel = (fuel - 1) as nat;
                        }
                        continue;
                    },
                    StpPolicy::DecrementBoth => {
                        let dec = remaining.min(maker.quantity);
                        let maker_left = match maker.quantity.checked_sub(dec) {
                            Some(q) => q,
                            None => Qty(0),
                        };
                        self.book.reduce_maker(maker.node, dec);
                        if maker_left.is_zero() {
                            self.events.push(EngineEvent::OrderCanceled { id: maker.id, remaining: Qty(0) });
                        }
                        remaining = match remaining.checked_sub(dec) {
                            Some(q) => q,
                            None => Qty(0),
                        };
                        proof {
                            if maker_left.0 == 0 {
                                crate::book::model::lemma_remove_wf(before.book, maker.id.0);
                            }
                            fuel = (fuel - 1) as nat;
                        }
                        continue;
                    },
                }
            }
            let fill = remaining.min(maker.quantity);
            let seq = self.next_seq();
            self.events.push(
                EngineEvent::Trade(
                    Trade {
                        seq,
                        taker_order: taker.id,
                        maker_order: maker.id,
                        price: maker.price,
                        quantity: fill,
                        taker_side: taker.side,
                    },
                ),
            );
            self.book.reduce_maker(maker.node, fill);
            self.last_trade_price = Some(maker.price);
            remaining = match remaining.checked_sub(fill) {
                Some(q) => q,
                None => Qty(0),
            };
            proof {
                if fill.0 == maker.quantity.0 {
                    crate::book::model::lemma_remove_wf(before.book, maker.id.0);
                }
                fuel = (fuel - 1) as nat;
            }
        }
    }

    /// Would an order on `side` with `limit` cross the best opposing maker?
    fn would_cross(&self, side: Side, limit: Option<Price>) -> (r: bool)
        requires
            self.book_ok(),
        ensures
            r == rules::would_cross(self@, side, limit),
    {
        match self.book.best_maker(side.opposite()) {
            None => false,
            Some(m) => price_crosses(side, limit, m.price),
        }
    }

    /// Rest `qty` of `order` at its limit price (a refusal of the book leaves it unchanged).
    fn rest(&mut self, order: &Order, qty: Qty)
        requires
            old(self).book_ok(),
        ensures
            final(self).book_ok(),
            final(self)@ == rules::rest(old(self)@, *order, qty.0),
            final(self)@.stops == old(self)@.stops,
    {
        if let Some(price) = order.limit_price {
            if self.book.insert(order.id, order.account, order.side, price, qty, order.seq).is_err() {
                self.events.push(EngineEvent::OrderCanceled { id: order.id, remaining: qty });
            }
        }
    }

    /// Emit a cancel of the remainder when there is one.
    fn cancel_remainder(&mut self, id: OrderId, remaining: Qty)
        ensures
            final(self)@ == rules::cancel_remainder(old(self)@, id, remaining.0),
            final(self).book == old(self).book,
    {
        if !remaining.is_zero() {
            self.events.push(EngineEvent::OrderCanceled { id, remaining });
        }
    }

    /// Dispatch an active (non-stop) order through its type-specific matching rules.
    fn process_active(&mut self, order: Order)
        requires
            old(self).book_ok(),
        ensures
            final(self).book_ok(),
            final(self)@ == rules::process_active(old(self)@, order),
            final(self)@.stops == old(self)@.stops,
    {
        let limit = order.limit_price;
        match order.order_type {
            OrderType::PostOnly => {
                if self.would_cross(order.side, limit) {
                    self.events.push(
                        EngineEvent::OrderRejected { id: order.id, reason: RejectReason::PostOnlyWouldCross },
                    );
                    return;
                }
                self.rest(&order, order.quantity);
                self.events.push(EngineEvent::BookUpdated);
            },
            OrderType::FillOrKill => {
                if self.book.available_against(order.side, limit).0 < order.quantity.0 {
                    self.events.push(
                        EngineEvent::OrderRejected { id: order.id, reason: RejectReason::FillOrKillUnfillable },
                    );
                    return;
                }
                let (remaining, _) = self.match_aggressor(&order, limit, order.quantity);
                self.cancel_remainder(order.id, remaining);
                self.events.push(EngineEvent::BookUpdated);
            },
            OrderType::Market => {
                let (remaining, _) = self.match_aggressor(&order, None, order.quantity);
                if remaining.0 == order.quantity.0 {
                    self.events.push(
                        EngineEvent::OrderRejected { id: order.id, reason: RejectReason::NoLiquidity },
                    );
                    return;
                }
                self.cancel_remainder(order.id, remaining);
                self.events.push(EngineEvent::BookUpdated);
            },
            OrderType::ImmediateOrCancel => {
                let (remaining, _) = self.match_aggressor(&order, limit, order.quantity);
                self.cancel_remainder(order.id, remaining);
                self.events.push(EngineEvent::BookUpdated);
            },
            OrderType::Limit => {
                let (remaining, stp_aborted) = self.match_aggressor(&order, limit, order.quantity);
                if !remaining.is_zero() {
                    if stp_aborted {
                        // Self-trade prevention (cancel-newest) canceled the aggressor: the
                        // remainder must not rest, or the account's own orders would cross.
                        self.events.push(EngineEvent::OrderCanceled { id: order.id, remaining });
                    } else {
                        self.rest(&order, remaining);
                    }
                }
                self.events.push(EngineEvent::BookUpdated);
            },
            OrderType::Stop | OrderType::StopLimit => {
                // Stops are converted by `activate_stop` before they get here.
            },
        }
    }

    /// Activate a triggered stop: a stop becomes a market order, a stop-limit a limit order.
    fn activate_stop(&mut self, order: Order)
        requires
            old(self).book_ok(),
        ensures
            final(self).book_ok(),
            final(self)@ == rules::process_active(old(self)@, rules::activated(order)),
            final(self)@.stops == old(self)@.stops,
    {
        let active = match order.order_type {
            OrderType::Stop => Order { order_type: OrderType::Market, limit_price: None, ..order },
            OrderType::StopLimit => Order { order_type: OrderType::Limit, ..order },
            _ => order,
        };
        self.process_active(active);
    }

    /// A newly accepted stop: activated at once if the last trade already triggers it, else
    /// kept dormant.
    fn handle_stop_submission(&mut self, order: Order)
        requires
            old(self).book_ok(),
        ensures
            final(self).book_ok(),
            final(self)@ == rules::handle_stop(old(self)@, order),
    {
        let triggered = match (self.last_trade_price, order.stop_price) {
            (Some(last), Some(stop)) => stop_triggered(order.side, stop, last),
            _ => false,
        };
        if triggered {
            self.activate_stop(order);
        } else {
            self.pending_stops.push(order);
        }
    }

    /// The position of the oldest dormant stop that fires on `last`, if any.
    fn find_triggered(&self, last: Price) -> (r: Option<usize>)
        ensures
            match r {
                None => rules::first_triggered(self@.stops, last) is None,
                Some(i) => rules::first_triggered(self@.stops, last) == Some(i as int) && i < self@.stops.len(),
            },
    {
        let n = self.pending_stops.len();
        let mut i: usize = 0;
        while i < n
            invariant
                n == self.pending_stops@.len(),
                0 <= i <= n,
                forall|j: int| 0 <= j < i ==> !#[trigger] rules::is_triggered(self.pending_stops@[j], last),
            decreases n - i,
        {
            let o = &self.pending_stops[i];
            let fires = match o.stop_price {
                Some(sp) => stop_triggered(o.side, sp, last),
                None => false,
            };
            if fires {
                proof {
                    let stops = self@.stops;
                    assert(rules::is_triggered(stops[i as int], last));
                    let k = choose|k: int|
                        0 <= k < stops.len() && rules::is_triggered(stops[k], last) && forall|j: int|
                            0 <= j < k ==> !#[trigger] rules::is_triggered(stops[j], last);
                    if k < i {
                        assert(!rules::is_triggered(stops[k], last));
                    }
                    if k > i {
                        assert(!rules::is_triggered(stops[i as int], last));
                    }
                    assert(k == i);
                }
                return Some(i);
            }
            i = i + 1;
        }
        None
    }

    /// Re-scan dormant stops after the last trade price moves; activate any now triggered,
    /// oldest first, cascading until none fires.
    fn trigger_stops(&mut self)
        requires
            old(self).book_ok(),
        ensures
            final(self).book_ok(),
            final(self)@ == rules::trigger_all(old(self)@),
    {
        let ghost e0 = self@;
        let ghost mut fuel: nat = self@.stops.len();
        loop
            invariant
                self.book_ok(),
                e0 == old(self)@,
                fuel == self@.stops.len(),
                rules::trigger_stops(self@, fuel) == rules::trigger_all(e0),
            decreases fuel,
        {
            let last = match self.last_trade_price {
                None => {
                    assert(rules::trigger_stops(self@, fuel) == self@);
                    return;
                },
                Some(l) => l,
            };
            let i = match self.find_triggered(last) {
                None => {
                    assert(rules::trigger_stops(self@, fuel) == self@);
                    return;
                },
                Some(i) => i,
            };
            let ghost before = self@;
            let stop = self.pending_stops.remove(i);
            let ghost mid = self@;
            proof {
                assert(mid == EngineModel { stops: before.stops.remove(i as int), ..before });
                assert(stop == before.stops[i as int]);
                assert(rules::trigger_stops(before, fuel) == rules::trigger_stops(
                    rules::process_active(mid, rules::activated(stop)),
                    (fuel - 1) as nat,
                ));
            }
            self.activate_stop(stop);
            proof {
                fuel = (fuel - 1) as nat;
            }
        }
    }

    /// Submit a new order. Returns the events it produced: accept or reject, trades, cancels,
    /// book updates, and those of any stop activations it caused.
    pub fn submit(&mut self, order: Order) -> (r: &[EngineEvent])
        requires
            old(self).wf(),
        ensures
            final(self).wf(),
            final(self)@ == rules::submit(old(self)@, order),
            r@ == final(self)@.events,
            trades_positive(r@),
    {
        proof {
            law_submit_keeps_invariant(self@, order);
        }
        self.events.clear();
        if let Some(reason) = validate(&order) {
            self.events.push(EngineEvent::OrderRejected { id: order.id, reason });
            return self.events.as_slice();
        }
        if self.book.contains(order.id) || self.find_stop(order.id).is_some() {
            self.events.push(EngineEvent::OrderRejected { id: order.id, reason: RejectReason::DuplicateOrderId });
            return self.events.as_slice();
        }
        let mut order = order;
        order.seq = self.next_seq();
        self.events.push(EngineEvent::OrderAccepted { id: order.id });
        if order.order_type.is_stop() {
            self.handle_stop_submission(order);
        } else {
            self.process_active(order);
        }
        self.trigger_stops();
        self.events.as_slice()
    }

    /// The position of the oldest dormant stop with id `id`, if any.
    fn find_stop(&self, id: OrderId) -> (r: Option<usize>)
        ensures
            match r {
                None => rules::stop_position(self@.stops, id) is None,
                Some(i) => rules::stop_position(self@.stops, id) == Some(i as int) && i < self@.stops.len(),
            },
    {
        let n = self.pending_stops.len();
        let mut i: usize = 0;
        while i < n
            invariant
                n == self.pending_stops@.len(),
                0 <= i <= n,
                forall|j: int| 0 <= j < i ==> #[trigger] self.pending_stops@[j].id != id,
            decreases n - i,
        {
            if self.pending_stops[i].id == id {
                proof {
                    let stops = self@.stops;
                    let k = choose|k: int|
                        0 <= k < stops.len() && stops[k].id == id && forall|j: int|
                            0 <= j < k ==> #[trigger] stops[j].id != id;
                    if k < i {
                        assert(stops[k].id != id);
                    }
                    if k > i {
                        assert(stops[i as int].id != id);
                    }
                    assert(k == i);
                }
                return Some(i);
            }
            i = i + 1;
        }
        None
    }

    /// Cancel a resting order or a dormant stop.
    pub fn cancel(&mut self, id: OrderId) -> (r: Result<&[EngineEvent], EngineError>)
        requires
            old(self).wf(),
        ensures
            final(self).wf(),
            match r {
                Ok(evs) => rules::cancel(old(self)@, id) == Ok::<EngineModel, EngineError>(final(self)@) && evs@ == final(self)@.events,
                Err(e) => rules::cancel(old(self)@, id) == Err::<EngineModel, EngineError>(e) && final(self)@ == old(self)@.cleared(),
            },
            trades_positive(final(self)@.events),
    {
        proof {
            law_cancel(self@, id);
        }
        self.events.clear();
        if let Some(pos) = self.find_stop(id) {
            let stop = self.pending_stops.remove(pos);
            self.events.push(EngineEvent::OrderCanceled { id, remaining: stop.quantity });
            return Ok(self.events.as_slice());
        }
        let remaining = match self.book.cancel(id) {
            Ok(q) => q,
            Err(e) => {
                return Err(e);
            },
        };
        self.events.push(EngineEvent::OrderCanceled { id, remaining });
        self.events.push(EngineEvent::BookUpdated);
        Ok(self.events.as_slice())
    }

    /// Amend (cancel-replace) a resting order. A pure quantity decrease at the same price keeps
    /// time priority; a reprice or a quantity increase loses it and re-enters as an aggressor,
    /// so the book never ends up crossed.
    pub fn amend(&mut self, id: OrderId, new_qty: Qty, new_price: Option<Price>) -> (r: Result<&[EngineEvent], EngineError>)
        requires
            old(self).wf(),
        ensures
            final(self).wf(),
            match r {
                Ok(evs) => rules::amend(old(self)@, id, new_qty, new_price) == Ok::<EngineModel, EngineError>(final(self)@) && evs@ == final(self)@.events,
                Err(e) => rules::amend(old(self)@, id, new_qty, new_price) == Err::<EngineModel, EngineError>(e) && final(self)@ == old(self)@.cleared(),
            },
            trades_positive(final(self)@.events),
    {
        proof {
            law_amend(self@, id, new_qty, new_price);
        }
        self.events.clear();
        if new_qty.is_zero() {
            return Err(EngineError::InvalidAmendQuantity);
        }
        let (side, price, account, old_qty) = match self.book.get(id) {
            Some(t) => t,
            None => {
                return Err(EngineError::UnknownOrder(id));
            },
        };
        let target_price = match new_price {
            Some(p) => p,
            None => price,
        };
        let repriced = target_price.0 != price.0;
        let qty_increases = new_qty.0 > old_qty.0;
        if !repriced && !qty_increases {
            let _ = self.book.reduce_in_place(id, new_qty);
            self.events.push(
                EngineEvent::OrderAmended { id, new_quantity: new_qty, new_price: Some(target_price), repriced: false },
            );
            self.events.push(EngineEvent::BookUpdated);
        } else {
            let _ = self.book.cancel(id);
            self.events.push(
                EngineEvent::OrderAmended { id, new_quantity: new_qty, new_price: Some(target_price), repriced: true },
            );
            let mut replacement = Order::limit(id, account, side, target_price, new_qty);
            replacement.seq = self.next_seq();
            self.process_active(replacement);
            self.trigger_stops();
        }
        Ok(self.events.as_slice())
    }
}

impl Default for MatchingEngine {
    fn default() -> (r: Self)
        ensures
            r.wf(),
            r@ == initial_state(StpPolicy::CancelNewest),
    {
        Self::with_capacity(1024, StpPolicy::CancelNewest)
    }
}

} // verus!
