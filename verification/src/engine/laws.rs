//! Laws of the matching engine: what every command keeps (the book is never crossed, every
//! resting quantity is positive, dormant stops are valid stops), and what matching guarantees
//! of the trades it prints.
use vstd::prelude::*;

use crate::book::model::{
    lemma_best_maker_rests, lemma_op_doms, lemma_push_uncrossed, lemma_reduce_wf, lemma_remove_wf,
    lemma_set_quantity_wf, lemma_shrunk_uncrossed, lemma_push_wf, positive, uncrossed, BookModel,
    RestingOrder,
};
use crate::domain::order::{opposite_side, spec_is_stop};
use crate::domain::{BookLevel, EngineEvent, Order, OrderId, OrderType, Price, Qty, Side, StpPolicy};
use crate::engine::rules::{
    activated, amend, cancel, cancel_remainder, first_triggered, handle_stop, is_triggered, match_all,
    match_loop, min_u64, process_active, rest, spec_validate, stop_position, submit,
    trigger_stops, would_cross, EngineModel,
};
use crate::engine::engine::initial_state;
use crate::engine::MatchingEngine;
use crate::feed::depth_total;
use crate::runtime::{applied, Command};
use crate::matcher::spec_price_crosses;

verus! {

/// Every dormant stop is a valid stop or stop-limit order.
pub open spec fn stops_valid(stops: Seq<Order>) -> bool {
    forall|i: int|
        0 <= i < stops.len() ==> spec_is_stop(#[trigger] stops[i].order_type) && spec_validate(stops[i]) is None
}

/// What every step of a command keeps: a well-formed book that is not crossed and holds only
/// positive quantities, valid dormant stops, and ids that no two orders share (dormant stops
/// among themselves and with resting orders).
pub open spec fn engine_invariant(e: EngineModel) -> bool {
    &&& e.book.wf()
    &&& positive(e.book)
    &&& uncrossed(e.book)
    &&& stops_valid(e.stops)
    &&& stop_ids_distinct(e.stops, e.book)
}

/// No two dormant stops share an id, and no dormant stop shares its id with a resting order.
pub open spec fn stop_ids_distinct(stops: Seq<Order>, book: BookModel) -> bool {
    &&& forall|i: int, j: int| #![trigger stops[i], stops[j]] 0 <= i < j < stops.len() ==> stops[i].id != stops[j].id
    &&& forall|i: int| 0 <= i < stops.len() ==> !book.contains(#[trigger] stops[i].id.0)
}

/// No dormant stop holds the id.
pub open spec fn free_id(stops: Seq<Order>, id: OrderId) -> bool {
    forall|i: int| 0 <= i < stops.len() ==> #[trigger] stops[i].id != id
}

/// The dormant stops are settled: none of them fires on the last trade price.
pub open spec fn stops_settled(e: EngineModel) -> bool {
    match e.last_trade {
        Some(last) => forall|i: int| 0 <= i < e.stops.len() ==> !#[trigger] is_triggered(e.stops[i], last),
        None => true,
    }
}

/// Stop ids stay distinct from a book whose resting ids only shrank.
pub proof fn lemma_ids_shrink(stops: Seq<Order>, b1: BookModel, b2: BookModel)
    requires
        stop_ids_distinct(stops, b1),
        b2.orders.dom().subset_of(b1.orders.dom()),
    ensures
        stop_ids_distinct(stops, b2),
{
    assert forall|i: int| 0 <= i < stops.len() implies !b2.contains(#[trigger] stops[i].id.0) by {
        assert(!b1.contains(stops[i].id.0));
    }
}

/// Dropping a dormant stop keeps the ids distinct, and the stops settled.
pub proof fn lemma_ids_remove(e: EngineModel, i: int)
    requires
        stop_ids_distinct(e.stops, e.book),
        0 <= i < e.stops.len(),
    ensures
        stop_ids_distinct(e.stops.remove(i), e.book),
        free_id(e.stops.remove(i), e.stops[i].id),
        stops_settled(e) ==> stops_settled(EngineModel { stops: e.stops.remove(i), ..e }),
{
    let r = e.stops.remove(i);
    assert forall|k: int| 0 <= k < r.len() implies r[k] == e.stops[if k < i { k } else { k + 1 }] by {}
    assert forall|a: int, b: int| #![trigger r[a], r[b]] 0 <= a < b < r.len() implies r[a].id != r[b].id by {
        let aa = if a < i { a } else { a + 1 };
        let bb = if b < i { b } else { b + 1 };
        assert(r[a] == e.stops[aa] && r[b] == e.stops[bb]);
    }
    assert forall|k: int| 0 <= k < r.len() implies !e.book.contains(#[trigger] r[k].id.0) by {
        let kk = if k < i { k } else { k + 1 };
        assert(r[k] == e.stops[kk]);
    }
    assert forall|k: int| 0 <= k < r.len() implies #[trigger] r[k].id != e.stops[i].id by {
        let kk = if k < i { k } else { k + 1 };
        assert(r[k] == e.stops[kk]);
        if kk < i {
            assert(e.stops[kk].id != e.stops[i].id);
        } else {
            assert(e.stops[i].id != e.stops[kk].id);
        }
    }
    if stops_settled(e) {
        if let Some(last) = e.last_trade {
            assert forall|k: int| 0 <= k < r.len() implies !#[trigger] is_triggered(r[k], last) by {
                let kk = if k < i { k } else { k + 1 };
                assert(r[k] == e.stops[kk]);
            }
        }
    }
}

/// A resting order with an id no stop holds keeps the ids distinct.
pub proof fn lemma_ids_push_order(stops: Seq<Order>, b: BookModel, o: RestingOrder)
    requires
        stop_ids_distinct(stops, b),
        free_id(stops, o.id),
    ensures
        stop_ids_distinct(stops, b.push_order(o)),
{
    assert forall|i: int| 0 <= i < stops.len() implies !b.push_order(o).contains(#[trigger] stops[i].id.0) by {
        assert(!b.contains(stops[i].id.0));
        assert(stops[i].id != o.id);
    }
}

/// A new dormant stop whose id is free keeps the ids distinct.
pub proof fn lemma_ids_push_stop(stops: Seq<Order>, b: BookModel, o: Order)
    requires
        stop_ids_distinct(stops, b),
        free_id(stops, o.id),
        !b.contains(o.id.0),
    ensures
        stop_ids_distinct(stops.push(o), b),
{
    let s2 = stops.push(o);
    assert forall|i: int, j: int| #![trigger s2[i], s2[j]] 0 <= i < j < s2.len() implies s2[i].id != s2[j].id by {
        assert(s2[i] == stops[i]);
        if j < stops.len() {
            assert(s2[j] == stops[j]);
        } else {
            assert(s2[j] == o);
        }
    }
    assert forall|i: int| 0 <= i < s2.len() implies !b.contains(#[trigger] s2[i].id.0) by {
        if i < stops.len() {
            assert(s2[i] == stops[i]);
        }
    }
}

/// The quantity an event trades: that of a trade, nothing for any other event.
pub open spec fn traded_qty(ev: EngineEvent) -> nat {
    match ev {
        EngineEvent::Trade(t) => t.quantity.0 as nat,
        _ => 0,
    }
}

/// Total quantity traded by a run of events.
pub open spec fn traded(evs: Seq<EngineEvent>) -> nat
    decreases evs.len(),
{
    if evs.len() == 0 {
        0
    } else {
        traded(evs.drop_last()) + traded_qty(evs.last())
    }
}

/// Every trade among the events has a positive quantity.
pub open spec fn trades_positive(evs: Seq<EngineEvent>) -> bool {
    forall|i: int|
        0 <= i < evs.len() ==> match #[trigger] evs[i] {
            EngineEvent::Trade(t) => t.quantity.0 > 0,
            _ => true,
        }
}

/// Every trade from position `from` on is a fill of `taker`: it names the taker and its side,
/// has a positive quantity, and its price is within the taker's `limit`.
pub open spec fn fills_of(taker: Order, limit: Option<Price>, evs: Seq<EngineEvent>, from: int) -> bool {
    forall|i: int|
        from <= i < evs.len() ==> match #[trigger] evs[i] {
            EngineEvent::Trade(t) => {
                &&& t.taker_order == taker.id
                &&& t.taker_side == taker.side
                &&& t.quantity.0 > 0
                &&& spec_price_crosses(taker.side, limit, t.price)
            },
            _ => true,
        }
}

/// Appending one event adds its traded quantity, and keeps every trade positive when it is.
pub proof fn lemma_emit(evs: Seq<EngineEvent>, ev: EngineEvent)
    ensures
        traded(evs.push(ev)) == traded(evs) + traded_qty(ev),
        trades_positive(evs) && (ev is Trade ==> traded_qty(ev) > 0) ==> trades_positive(evs.push(ev)),
{
    assert(evs.push(ev).drop_last() =~= evs);
    if trades_positive(evs) && (ev is Trade ==> traded_qty(ev) > 0) {
        let s = evs.push(ev);
        assert forall|i: int| 0 <= i < s.len() implies match #[trigger] s[i] {
            EngineEvent::Trade(t) => t.quantity.0 > 0,
            _ => true,
        } by {
            if i < evs.len() {
                assert(s[i] == evs[i]);
            }
        }
    }
}

/// A run of events that extends `b`, which extends `a`, extends `a`; fills appended in both
/// steps are fills appended to `a`.
pub proof fn lemma_extend(a: Seq<EngineEvent>, b: Seq<EngineEvent>, c: Seq<EngineEvent>, taker: Order, limit: Option<Price>)
    requires
        a.len() <= b.len() <= c.len(),
        b.subrange(0, a.len() as int) == a,
        c.subrange(0, b.len() as int) == b,
    ensures
        c.subrange(0, a.len() as int) == a,
        fills_of(taker, limit, b, a.len() as int) && fills_of(taker, limit, c, b.len() as int) ==> fills_of(
            taker,
            limit,
            c,
            a.len() as int,
        ),
{
    assert forall|i: int| 0 <= i < b.len() implies c[i] == b[i] by {
        assert(c.subrange(0, b.len() as int)[i] == c[i]);
    }
    assert(c.subrange(0, a.len() as int) =~= a) by {
        assert forall|i: int| 0 <= i < a.len() implies c.subrange(0, a.len() as int)[i] == a[i] by {
            assert(b.subrange(0, a.len() as int)[i] == b[i]);
        }
    }
    if fills_of(taker, limit, b, a.len() as int) && fills_of(taker, limit, c, b.len() as int) {
        assert forall|i: int| a.len() <= i < c.len() implies match #[trigger] c[i] {
            EngineEvent::Trade(t) => {
                &&& t.taker_order == taker.id
                &&& t.taker_side == taker.side
                &&& t.quantity.0 > 0
                &&& spec_price_crosses(taker.side, limit, t.price)
            },
            _ => true,
        } by {
            if i < b.len() {
                assert(c[i] == b[i]);
            }
        }
    }
}

/// The matching loop only takes from the opposing side, keeps the book well formed and its
/// quantities positive, never grows the taker's remainder, and stops with a remainder only when
/// self-trade prevention stopped it or no opposing maker crosses. It only appends events; the
/// trades it appends are fills of the taker within its limit, and what it trades plus what
/// remains never exceeds what the taker brought (it is equal unless decrement-both took some
/// off without trading).
pub proof fn lemma_match_loop(e: EngineModel, taker: Order, limit: Option<Price>, rem: u64, fuel: nat)
    requires
        e.book.wf(),
    ensures
        ({
            let r = match_loop(e, taker, limit, rem, fuel);
            let opp = opposite_side(taker.side);
            &&& r.0.book.wf()
            &&& r.0.stops == e.stops
            &&& r.0.stp == e.stp
            &&& r.0.book.queues(taker.side) == e.book.queues(taker.side)
            &&& r.0.book.bids.dom().subset_of(e.book.bids.dom())
            &&& r.0.book.asks.dom().subset_of(e.book.asks.dom())
            &&& r.0.book.orders.dom().subset_of(e.book.orders.dom())
            &&& positive(e.book) ==> positive(r.0.book)
            &&& r.1 <= rem
            &&& fuel >= e.book.len() ==> (r.1 == 0 || r.2 || r.0.book.best_maker(opp) is None
                || !spec_price_crosses(taker.side, limit, r.0.book.best_maker(opp)->0.price))
            &&& r.0.events.len() >= e.events.len()
            &&& r.0.events.subrange(0, e.events.len() as int) == e.events
            &&& positive(e.book) ==> fills_of(taker, limit, r.0.events, e.events.len() as int)
            &&& positive(e.book) && trades_positive(e.events) ==> trades_positive(r.0.events)
            &&& traded(r.0.events) + r.1 <= traded(e.events) + rem
            &&& e.stp != StpPolicy::DecrementBoth ==> traded(r.0.events) + r.1 == traded(e.events) + rem
        }),
    decreases fuel,
{
    let opp = opposite_side(taker.side);
    assert(e.events.subrange(0, e.events.len() as int) =~= e.events);
    if rem == 0 || fuel == 0 {
        if fuel == 0 && rem != 0 && e.book.best_maker(opp) is Some {
            lemma_best_maker_rests(e.book, opp);
        }
    } else {
        match e.book.best_maker(opp) {
            None => {},
            Some(m) => {
                lemma_best_maker_rests(e.book, opp);
                assert(opposite_side(opp) == taker.side);
                if !spec_price_crosses(taker.side, limit, m.price) {
                } else if m.account == taker.account {
                    match e.stp {
                        StpPolicy::CancelNewest => {},
                        StpPolicy::CancelOldest => {
                            let b1 = e.book.remove_order(m.id.0);
                            lemma_remove_wf(e.book, m.id.0);
                            lemma_op_doms(e.book, m.id.0, 0);
                            let ev = EngineEvent::OrderCanceled { id: m.id, remaining: m.quantity };
                            let e1 = e.with_book(b1).emit(ev);
                            lemma_emit(e.events, ev);
                            assert(e1.events.subrange(0, e.events.len() as int) =~= e.events);
                            assert(e1.events[e.events.len() as int] == ev);
                            assert(fills_of(taker, limit, e1.events, e.events.len() as int));
                            lemma_match_loop(e1, taker, limit, rem, (fuel - 1) as nat);
                            if positive(e.book) {
                                assert(positive(b1));
                            }
                            lemma_extend(e.events, e1.events, match_loop(e1, taker, limit, rem, (fuel - 1) as nat).0.events, taker, limit);
                        },
                        StpPolicy::DecrementBoth => {
                            let dec = min_u64(rem, m.quantity.0);
                            lemma_reduce_wf(e.book, m.id.0, dec);
                            lemma_op_doms(e.book, m.id.0, dec);
                            let e1 = e.with_book(e.book.reduce_order(m.id.0, dec));
                            let ev = EngineEvent::OrderCanceled { id: m.id, remaining: Qty(0) };
                            let e2 = if m.quantity.0 - dec == 0 {
                                e1.emit(ev)
                            } else {
                                e1
                            };
                            lemma_emit(e.events, ev);
                            assert(e1.events.subrange(0, e1.events.len() as int) =~= e1.events);
                            assert(e.events.push(ev).subrange(0, e.events.len() as int) =~= e.events);
                            assert(e.events.push(ev)[e.events.len() as int] == ev);
                            assert(fills_of(taker, limit, e2.events, e.events.len() as int));
                            if positive(e.book) {
                                assert(e.book.orders.contains_key(m.id.0));
                            }
                            lemma_match_loop(e2, taker, limit, (rem - dec) as u64, (fuel - 1) as nat);
                            lemma_extend(e.events, e2.events, match_loop(e2, taker, limit, (rem - dec) as u64, (fuel - 1) as nat).0.events, taker, limit);
                        },
                    }
                } else {
                    let fill = min_u64(rem, m.quantity.0);
                    lemma_reduce_wf(e.book, m.id.0, fill);
                    lemma_op_doms(e.book, m.id.0, fill);
                    let trade = crate::domain::Trade {
                        seq: crate::domain::SeqNum(e.seq),
                        taker_order: taker.id,
                        maker_order: m.id,
                        price: m.price,
                        quantity: Qty(fill),
                        taker_side: taker.side,
                    };
                    let ev = EngineEvent::Trade(trade);
                    let e1 = e.bumped().emit(ev);
                    let e2 = EngineModel { last_trade: Some(m.price), ..e1.with_book(e1.book.reduce_order(m.id.0, fill)) };
                    lemma_emit(e.events, ev);
                    assert(e2.events == e.events.push(ev));
                    assert(e2.events.subrange(0, e.events.len() as int) =~= e.events);
                    assert(e2.events[e.events.len() as int] == ev);
                    if positive(e.book) {
                        assert(e.book.orders.contains_key(m.id.0));
                        assert(m.quantity.0 > 0);
                        assert(fills_of(taker, limit, e2.events, e.events.len() as int));
                    }
                    lemma_match_loop(e2, taker, limit, (rem - fill) as u64, (fuel - 1) as nat);
                    lemma_extend(e.events, e2.events, match_loop(e2, taker, limit, (rem - fill) as u64, (fuel - 1) as nat).0.events, taker, limit);
                }
            },
        }
    }
}

/// Resting the remainder of `o` keeps the invariant of the book when the remainder is positive
/// and `o` does not cross the best opposing maker. The events are unchanged, or gain the cancel
/// of a quantity the book could not take.
pub proof fn lemma_rest(e: EngineModel, o: Order, qty: u64)
    requires
        e.book.wf(),
        positive(e.book),
        uncrossed(e.book),
        qty > 0,
        !would_cross(e, o.side, o.limit_price),
        stop_ids_distinct(e.stops, e.book),
        free_id(e.stops, o.id),
    ensures
        ({
            let r = rest(e, o, qty);
            &&& r.book.wf()
            &&& positive(r.book)
            &&& uncrossed(r.book)
            &&& r.stops == e.stops
            &&& rest_events(e.events, r.events, o)
            &&& stop_ids_distinct(r.stops, r.book)
        }),
{
    lemma_rest_shape(e, o, qty);
    match o.limit_price {
        None => {},
        Some(p) => {
            if e.book.can_rest(o.id.0, o.side, p.0, qty) {
                let ro = RestingOrder { id: o.id, account: o.account, side: o.side, price: p, quantity: Qty(qty), seq: o.seq };
                let opp = opposite_side(o.side);
                if e.book.best_maker(opp) is Some {
                    lemma_best_maker_rests(e.book, opp);
                    assert(e.book.best_maker(opp)->0.price == Price(e.book.best_price(opp)->0));
                }
                lemma_push_wf(e.book, ro);
                lemma_push_uncrossed(e.book, ro);
                lemma_ids_push_order(e.stops, e.book, ro);
                let b2 = e.book.push_order(ro);
                assert forall|id: u64| #[trigger] b2.orders.contains_key(id) implies b2.orders[id].quantity.0 > 0 by {
                    if id != ro.id.0 {
                        assert(e.book.orders.contains_key(id));
                    }
                }
            }
        },
    }
}

/// Resting leaves the events as they were, or appends the cancel of the quantity it could not
/// rest.
pub open spec fn rest_events(before: Seq<EngineEvent>, after: Seq<EngineEvent>, o: Order) -> bool {
    after == before || exists|q: Qty| after == before.push(EngineEvent::OrderCanceled { id: o.id, remaining: q })
}

/// Resting changes the events only by the cancel of a quantity it could not rest, and leaves
/// the dormant stops alone.
pub proof fn lemma_rest_shape(e: EngineModel, o: Order, qty: u64)
    ensures
        rest_events(e.events, rest(e, o, qty).events, o),
        rest(e, o, qty).stops == e.stops,
{
    if let Some(p) = o.limit_price {
        if !e.book.can_rest(o.id.0, o.side, p.0, qty) {
            assert(rest(e, o, qty).events == e.events.push(EngineEvent::OrderCanceled { id: o.id, remaining: Qty(qty) }));
        }
    }
}

/// Whatever resting appends keeps the trades positive, the traded total, and the fills of any
/// taker.
pub proof fn lemma_rest_events(a: Seq<EngineEvent>, before: Seq<EngineEvent>, after: Seq<EngineEvent>, o: Order, taker: Order, limit: Option<Price>)
    requires
        rest_events(before, after, o),
        a.len() <= before.len(),
        before.subrange(0, a.len() as int) == a,
        fills_of(taker, limit, before, a.len() as int),
    ensures
        trades_positive(before) ==> trades_positive(after),
        traded(after) == traded(before),
        after.len() >= a.len(),
        after.subrange(0, a.len() as int) == a,
        fills_of(taker, limit, after, a.len() as int),
{
    if after != before {
        let q = choose|q: Qty| after == before.push(EngineEvent::OrderCanceled { id: o.id, remaining: q });
        let ev = EngineEvent::OrderCanceled { id: o.id, remaining: q };
        lemma_append_plain(a, before, ev, taker, limit);
        if trades_positive(before) {
            lemma_emit_plain(before, ev);
        }
    }
}

/// Events that are not trades keep every trade positive.
pub proof fn lemma_emit_plain(evs: Seq<EngineEvent>, ev: EngineEvent)
    requires
        trades_positive(evs),
        !(ev is Trade),
    ensures
        trades_positive(evs.push(ev)),
        traded(evs.push(ev)) == traded(evs),
{
    lemma_emit(evs, ev);
}

/// Matching with the remainder canceled keeps the engine invariant and every trade positive.
pub proof fn lemma_swept(e: EngineModel, o: Order, limit: Option<Price>)
    requires
        engine_invariant(e),
        trades_positive(e.events),
    ensures
        ({
            let r = match_all(e, o, limit, o.quantity.0);
            let e2 = cancel_remainder(r.0, o.id, r.1).emit(EngineEvent::BookUpdated);
            &&& engine_invariant(e2)
            &&& trades_positive(e2.events)
            &&& e2.stops == e.stops
        }),
{
    let r = match_all(e, o, limit, o.quantity.0);
    lemma_match_loop(e, o, limit, o.quantity.0, e.book.len());
    lemma_shrunk_uncrossed(e.book, r.0.book);
    lemma_ids_shrink(e.stops, e.book, r.0.book);
    let e1 = cancel_remainder(r.0, o.id, r.1);
    if r.1 != 0 {
        lemma_emit_plain(r.0.events, EngineEvent::OrderCanceled { id: o.id, remaining: Qty(r.1) });
    }
    lemma_emit_plain(e1.events, EngineEvent::BookUpdated);
}

/// An active order keeps the engine invariant and every trade positive, and leaves the dormant
/// stops alone.
pub proof fn lemma_process_active(e: EngineModel, o: Order)
    requires
        engine_invariant(e),
        trades_positive(e.events),
        o.quantity.0 > 0,
        free_id(e.stops, o.id),
    ensures
        engine_invariant(process_active(e, o)),
        trades_positive(process_active(e, o).events),
        process_active(e, o).stops == e.stops,
{
    let limit = o.limit_price;
    let q = o.quantity.0;
    match o.order_type {
        OrderType::PostOnly => {
            if would_cross(e, o.side, limit) {
                lemma_emit_plain(e.events, EngineEvent::OrderRejected { id: o.id, reason: crate::domain::RejectReason::PostOnlyWouldCross });
            } else {
                lemma_rest(e, o, q);
                assert(e.events.subrange(0, e.events.len() as int) =~= e.events);
                lemma_rest_events(e.events, e.events, rest(e, o, q).events, o, o, o.limit_price);
                lemma_emit_plain(rest(e, o, q).events, EngineEvent::BookUpdated);
            }
        },
        OrderType::FillOrKill => {
            if e.book.available(o.side, limit) < q {
                lemma_emit_plain(e.events, EngineEvent::OrderRejected { id: o.id, reason: crate::domain::RejectReason::FillOrKillUnfillable });
            } else {
                lemma_swept(e, o, limit);
            }
        },
        OrderType::Market => {
            let r = match_all(e, o, None, q);
            lemma_match_loop(e, o, None, q, e.book.len());
            lemma_shrunk_uncrossed(e.book, r.0.book);
            lemma_ids_shrink(e.stops, e.book, r.0.book);
            if r.1 == q {
                lemma_emit_plain(r.0.events, EngineEvent::OrderRejected { id: o.id, reason: crate::domain::RejectReason::NoLiquidity });
            } else {
                lemma_swept(e, o, None);
            }
        },
        OrderType::ImmediateOrCancel => {
            lemma_swept(e, o, limit);
        },
        OrderType::Limit => {
            let r = match_all(e, o, limit, q);
            lemma_match_loop(e, o, limit, q, e.book.len());
            lemma_shrunk_uncrossed(e.book, r.0.book);
            lemma_ids_shrink(e.stops, e.book, r.0.book);
            let e2 = if r.1 != 0 {
                if r.2 {
                    lemma_emit_plain(r.0.events, EngineEvent::OrderCanceled { id: o.id, remaining: Qty(r.1) });
                    r.0.emit(EngineEvent::OrderCanceled { id: o.id, remaining: Qty(r.1) })
                } else {
                    lemma_rest(r.0, o, r.1);
                    assert(r.0.events.subrange(0, r.0.events.len() as int) =~= r.0.events);
                    lemma_rest_events(r.0.events, r.0.events, rest(r.0, o, r.1).events, o, o, limit);
                    rest(r.0, o, r.1)
                }
            } else {
                r.0
            };
            lemma_emit_plain(e2.events, EngineEvent::BookUpdated);
        },
        OrderType::Stop | OrderType::StopLimit => {},
    }
}

/// When some dormant stop fires, the first one that fires is found, at a valid position.
pub proof fn lemma_first_triggered(stops: Seq<Order>, last: Price)
    ensures
        match first_triggered(stops, last) {
            Some(i) => 0 <= i < stops.len() && is_triggered(stops[i], last),
            None => forall|j: int| 0 <= j < stops.len() ==> !#[trigger] is_triggered(stops[j], last),
        },
{
    if exists|i: int| 0 <= i < stops.len() && #[trigger] is_triggered(stops[i], last) {
        let k = choose|i: int| 0 <= i < stops.len() && #[trigger] is_triggered(stops[i], last);
        lemma_least_triggered(stops, last, k);
    }
}

/// Below a stop that fires there is a first one that fires.
proof fn lemma_least_triggered(stops: Seq<Order>, last: Price, k: int)
    requires
        0 <= k < stops.len(),
        is_triggered(stops[k], last),
    ensures
        exists|i: int|
            0 <= i < stops.len() && is_triggered(stops[i], last) && forall|j: int|
                0 <= j < i ==> !#[trigger] is_triggered(stops[j], last),
    decreases k,
{
    if exists|j: int| 0 <= j < k && #[trigger] is_triggered(stops[j], last) {
        let j = choose|j: int| 0 <= j < k && #[trigger] is_triggered(stops[j], last);
        lemma_least_triggered(stops, last, j);
    } else {
        assert(0 <= k < stops.len() && is_triggered(stops[k], last) && forall|j: int|
            0 <= j < k ==> !#[trigger] is_triggered(stops[j], last));
    }
}

/// Dropping a dormant stop keeps the others valid.
pub proof fn lemma_stops_remove(stops: Seq<Order>, i: int)
    requires
        stops_valid(stops),
        0 <= i < stops.len(),
    ensures
        stops_valid(stops.remove(i)),
{
    let r = stops.remove(i);
    assert forall|k: int| 0 <= k < r.len() implies spec_is_stop(#[trigger] r[k].order_type) && spec_validate(r[k]) is None by {
        if k < i {
            assert(r[k] == stops[k]);
        } else {
            assert(r[k] == stops[k + 1]);
        }
    }
}

/// A valid stop, once activated, is an active order with a positive quantity.
pub proof fn lemma_activated(o: Order)
    requires
        spec_is_stop(o.order_type),
        spec_validate(o) is None,
    ensures
        activated(o).quantity.0 > 0,
        !spec_is_stop(activated(o).order_type),
{
}

/// Activating fired stops keeps the engine invariant and every trade positive.
pub proof fn lemma_trigger_stops(e: EngineModel, fuel: nat)
    requires
        engine_invariant(e),
        trades_positive(e.events),
    ensures
        engine_invariant(trigger_stops(e, fuel)),
        trades_positive(trigger_stops(e, fuel).events),
        fuel >= e.stops.len() ==> stops_settled(trigger_stops(e, fuel)),
    decreases fuel,
{
    if let Some(last) = e.last_trade {
        lemma_first_triggered(e.stops, last);
    }
    if fuel > 0 {
        match e.last_trade {
            None => {},
            Some(last) => {
                lemma_first_triggered(e.stops, last);
                match first_triggered(e.stops, last) {
                    None => {},
                    Some(i) => {
                        let stop = e.stops[i];
                        assert(spec_is_stop(stop.order_type) && spec_validate(stop) is None);
                        lemma_stops_remove(e.stops, i);
                        lemma_ids_remove(e, i);
                        lemma_activated(stop);
                        let mid = EngineModel { stops: e.stops.remove(i), ..e };
                        lemma_process_active(mid, activated(stop));
                        lemma_trigger_stops(process_active(mid, activated(stop)), (fuel - 1) as nat);
                    },
                }
            },
        }
    }
}

/// A new valid stop keeps the engine invariant and every trade positive.
pub proof fn lemma_handle_stop(e: EngineModel, o: Order)
    requires
        engine_invariant(e),
        trades_positive(e.events),
        spec_is_stop(o.order_type),
        spec_validate(o) is None,
        free_id(e.stops, o.id),
        !e.book.contains(o.id.0),
    ensures
        engine_invariant(handle_stop(e, o)),
        trades_positive(handle_stop(e, o).events),
{
    lemma_ids_push_stop(e.stops, e.book, o);
    lemma_activated(o);
    lemma_process_active(e, activated(o));
    let s2 = e.stops.push(o);
    assert forall|k: int| 0 <= k < s2.len() implies spec_is_stop(#[trigger] s2[k].order_type) && spec_validate(s2[k]) is None by {
        if k < e.stops.len() {
            assert(s2[k] == e.stops[k]);
        }
    }
}

/// A new engine holds the invariant: its book is empty.
pub proof fn law_initial_invariant(stp: StpPolicy)
    ensures
        engine_invariant(initial_state(stp)),
        stops_settled(initial_state(stp)),
{
    let b = BookModel::empty();
    assert(b.bids.dom() =~= Set::<u64>::empty());
    assert(b.asks.dom() =~= Set::<u64>::empty());
    assert(b.orders.dom() =~= Set::<u64>::empty());
    crate::book::model::lemma_best_none(Side::Buy, b.bids.dom());
    crate::book::model::lemma_best_none(Side::Sell, b.asks.dom());
}

/// The book never crosses, whatever is submitted: from any state that holds the engine
/// invariant (a well-formed book, not crossed, with positive quantities, and valid dormant
/// stops), submitting any order gives a state that holds it too, and no trade it prints has a
/// zero quantity.
pub proof fn law_submit_keeps_invariant(e: EngineModel, o: Order)
    requires
        engine_invariant(e),
    ensures
        engine_invariant(submit(e, o)),
        trades_positive(submit(e, o).events),
        stops_settled(e) ==> stops_settled(submit(e, o)),
{
    let e0 = e.cleared();
    lemma_stop_position(e0.stops, o.id);
    assert(trades_positive(e0.events));
    match spec_validate(o) {
        Some(reason) => {
            lemma_emit_plain(e0.events, EngineEvent::OrderRejected { id: o.id, reason });
        },
        None => {
            if e0.book.contains(o.id.0) || stop_position(e0.stops, o.id) is Some {
                lemma_emit_plain(e0.events, EngineEvent::OrderRejected { id: o.id, reason: crate::domain::RejectReason::DuplicateOrderId });
            } else {
                let o1 = Order { seq: crate::domain::SeqNum(e0.seq), ..o };
                let e1 = e0.bumped().emit(EngineEvent::OrderAccepted { id: o.id });
                lemma_emit_plain(e0.events, EngineEvent::OrderAccepted { id: o.id });
                let e2 = if spec_is_stop(o.order_type) {
                    lemma_handle_stop(e1, o1);
                    handle_stop(e1, o1)
                } else {
                    lemma_process_active(e1, o1);
                    process_active(e1, o1)
                };
                lemma_trigger_stops(e2, e2.stops.len());
            }
        },
    }
}

/// A dormant stop with the id is found at a valid position holding that id.
pub proof fn lemma_stop_position(stops: Seq<Order>, id: OrderId)
    ensures
        match stop_position(stops, id) {
            Some(i) => 0 <= i < stops.len() && stops[i].id == id,
            None => forall|j: int| 0 <= j < stops.len() ==> #[trigger] stops[j].id != id,
        },
{
    if exists|i: int| 0 <= i < stops.len() && #[trigger] stops[i].id == id {
        let k = choose|i: int| 0 <= i < stops.len() && #[trigger] stops[i].id == id;
        lemma_least_with_id(stops, id, k);
    }
}

/// Below a stop with the id there is a first one with it.
proof fn lemma_least_with_id(stops: Seq<Order>, id: OrderId, k: int)
    requires
        0 <= k < stops.len(),
        stops[k].id == id,
    ensures
        exists|i: int|
            0 <= i < stops.len() && stops[i].id == id && forall|j: int| 0 <= j < i ==> #[trigger] stops[j].id != id,
    decreases k,
{
    if exists|j: int| 0 <= j < k && #[trigger] stops[j].id == id {
        let j = choose|j: int| 0 <= j < k && #[trigger] stops[j].id == id;
        lemma_least_with_id(stops, id, j);
    } else {
        assert(0 <= k < stops.len() && stops[k].id == id && forall|j: int| 0 <= j < k ==> #[trigger] stops[j].id != id);
    }
}

/// Canceling keeps the engine invariant. It fails exactly when the id is neither a dormant stop
/// nor resting; a resting order that is not also a dormant stop leaves the book.
pub proof fn law_cancel(e: EngineModel, id: OrderId)
    requires
        engine_invariant(e),
    ensures
        cancel(e, id) is Err <==> (stop_position(e.stops, id) is None && !e.book.contains(id.0)),
        cancel(e, id) matches Ok(r) ==> engine_invariant(r),
        cancel(e, id) matches Ok(r) ==> trades_positive(r.events),
        stops_settled(e) ==> (cancel(e, id) matches Ok(r) ==> stops_settled(r)),
        stop_position(e.stops, id) is None ==> (cancel(e, id) matches Ok(r) ==> !r.book.contains(id.0) && r.book.len() + 1 == e.book.len()),
{
    let e0 = e.cleared();
    match stop_position(e0.stops, id) {
        Some(i) => {
            lemma_stop_position(e.stops, id);
            lemma_stops_remove(e.stops, i);
            lemma_ids_remove(e0, i);
        },
        None => {
            if e0.book.contains(id.0) {
                lemma_remove_wf(e.book, id.0);
                lemma_op_doms(e.book, id.0, 0);
                lemma_shrunk_uncrossed(e.book, e.book.remove_order(id.0));
                let b2 = e.book.remove_order(id.0);
                lemma_ids_shrink(e.stops, e.book, b2);
                assert forall|x: u64| #[trigger] b2.orders.contains_key(x) implies b2.orders[x].quantity.0 > 0 by {
                    assert(e.book.orders.contains_key(x));
                }
            }
        },
    }
}

/// Amending keeps the engine invariant. It fails exactly when the new quantity is zero or the
/// id does not rest.
pub proof fn law_amend(e: EngineModel, id: OrderId, new_qty: Qty, new_price: Option<Price>)
    requires
        engine_invariant(e),
    ensures
        amend(e, id, new_qty, new_price) is Err <==> (new_qty.0 == 0 || !e.book.contains(id.0)),
        amend(e, id, new_qty, new_price) matches Ok(r) ==> engine_invariant(r),
        amend(e, id, new_qty, new_price) matches Ok(r) ==> trades_positive(r.events),
        stops_settled(e) ==> (amend(e, id, new_qty, new_price) matches Ok(r) ==> stops_settled(r)),
{
    let e0 = e.cleared();
    if new_qty.0 != 0 && e0.book.contains(id.0) {
        let r = e0.book.orders[id.0];
        let target = match new_price {
            Some(p) => p,
            None => r.price,
        };
        if target == r.price && new_qty.0 <= r.quantity.0 {
            lemma_set_quantity_wf(e.book, id.0, new_qty.0);
            lemma_op_doms(e.book, id.0, new_qty.0);
            let b2 = e.book.set_quantity(id.0, new_qty.0);
            lemma_ids_shrink(e.stops, e.book, b2);
            assert forall|x: u64| #[trigger] b2.orders.contains_key(x) implies b2.orders[x].quantity.0 > 0 by {
                assert(e.book.orders.contains_key(x));
            }
            assert(uncrossed(b2));
            let ev = EngineEvent::OrderAmended { id, new_quantity: new_qty, new_price: Some(target), repriced: false };
            lemma_emit_plain(e0.events, ev);
            lemma_emit_plain(e0.events.push(ev), EngineEvent::BookUpdated);
        } else {
            lemma_remove_wf(e.book, id.0);
            lemma_op_doms(e.book, id.0, 0);
            lemma_shrunk_uncrossed(e.book, e.book.remove_order(id.0));
            let b2 = e.book.remove_order(id.0);
            lemma_ids_shrink(e.stops, e.book, b2);
            assert forall|x: u64| #[trigger] b2.orders.contains_key(x) implies b2.orders[x].quantity.0 > 0 by {
                assert(e.book.orders.contains_key(x));
            }
            assert forall|i: int| 0 <= i < e.stops.len() implies #[trigger] e.stops[i].id != id by {
                assert(!e.book.contains(e.stops[i].id.0));
            }
            let ev = EngineEvent::OrderAmended { id, new_quantity: new_qty, new_price: Some(target), repriced: true };
            let e1 = e0.with_book(b2).emit(ev);
            lemma_emit_plain(e0.events, ev);
            let o = Order {
                id,
                account: r.account,
                side: r.side,
                order_type: OrderType::Limit,
                limit_price: Some(target),
                stop_price: None,
                quantity: new_qty,
                seq: crate::domain::SeqNum(e1.seq),
            };
            lemma_process_active(e1.bumped(), o);
            let e2 = process_active(e1.bumped(), o);
            lemma_trigger_stops(e2, e2.stops.len());
        }
    }
}

/// A pure decrease at the same price keeps time priority: every price queue is unchanged, only
/// the order's quantity is.
pub proof fn law_amend_down_keeps_priority(e: EngineModel, id: OrderId, new_qty: Qty)
    requires
        e.book.contains(id.0),
        0 < new_qty.0 <= e.book.orders[id.0].quantity.0,
    ensures
        amend(e, id, new_qty, None) matches Ok(r) && {
            &&& r.book.bids == e.book.bids
            &&& r.book.asks == e.book.asks
            &&& r.book.orders[id.0].quantity == new_qty
            &&& r.book.orders[id.0].price == e.book.orders[id.0].price
            &&& r.book.orders.dom() == e.book.orders.dom()
        },
        amend(e, id, new_qty, Some(e.book.orders[id.0].price)) == amend(e, id, new_qty, None),
{
    let b2 = e.book.set_quantity(id.0, new_qty.0);
    assert(b2.orders.dom() =~= e.book.orders.dom());
}

/// Matching is deterministic: the same state and the same command give the same state and the
/// same events.
pub proof fn law_matching_is_deterministic(e1: EngineModel, e2: EngineModel, o: Order)
    requires
        e1 == e2,
    ensures
        submit(e1, o) == submit(e2, o),
        submit(e1, o).events == submit(e2, o).events,
{
}

/// The price bound an active order matches with: none for a market order, its limit price for
/// the others.
pub open spec fn taker_limit(o: Order) -> Option<Price> {
    match o.order_type {
        OrderType::Market => None,
        _ => o.limit_price,
    }
}

/// Appending an event that is not a trade keeps a run's prefix, its fills and its traded total.
pub proof fn lemma_append_plain(a: Seq<EngineEvent>, evs: Seq<EngineEvent>, ev: EngineEvent, taker: Order, limit: Option<Price>)
    requires
        a.len() <= evs.len(),
        evs.subrange(0, a.len() as int) == a,
        fills_of(taker, limit, evs, a.len() as int),
        !(ev is Trade),
    ensures
        evs.push(ev).subrange(0, a.len() as int) == a,
        fills_of(taker, limit, evs.push(ev), a.len() as int),
        traded(evs.push(ev)) == traded(evs),
{
    lemma_emit(evs, ev);
    let s = evs.push(ev);
    assert(s.subrange(0, a.len() as int) =~= a) by {
        assert forall|i: int| 0 <= i < a.len() implies s.subrange(0, a.len() as int)[i] == a[i] by {
            assert(evs.subrange(0, a.len() as int)[i] == evs[i]);
        }
    }
    assert forall|i: int| a.len() <= i < s.len() implies match #[trigger] s[i] {
        EngineEvent::Trade(t) => {
            &&& t.taker_order == taker.id
            &&& t.taker_side == taker.side
            &&& t.quantity.0 > 0
            &&& spec_price_crosses(taker.side, limit, t.price)
        },
        _ => true,
    } by {
        if i < evs.len() {
            assert(s[i] == evs[i]);
        }
    }
}

/// Fills never exceed what was submitted: processing an active order only appends events, every
/// trade it appends is a fill of that order with a positive quantity at a price within its
/// limit, and together they trade no more than the order's quantity.
pub proof fn law_fills_never_exceed_submitted(e: EngineModel, o: Order)
    requires
        e.book.wf(),
        positive(e.book),
        o.quantity.0 > 0,
    ensures
        ({
            let r = process_active(e, o);
            &&& r.events.len() >= e.events.len()
            &&& r.events.subrange(0, e.events.len() as int) == e.events
            &&& fills_of(o, taker_limit(o), r.events, e.events.len() as int)
            &&& traded(r.events) <= traded(e.events) + o.quantity.0
        }),
{
    let a = e.events;
    let q = o.quantity.0;
    let lim = taker_limit(o);
    assert(a.subrange(0, a.len() as int) =~= a);
    assert(fills_of(o, lim, a, a.len() as int));
    match o.order_type {
        OrderType::PostOnly => {
            if would_cross(e, o.side, o.limit_price) {
                lemma_append_plain(a, a, EngineEvent::OrderRejected { id: o.id, reason: crate::domain::RejectReason::PostOnlyWouldCross }, o, lim);
            } else {
                let r = rest(e, o, q);
                lemma_rest_shape(e, o, q);
                lemma_rest_events(a, a, r.events, o, o, lim);
                lemma_append_plain(a, r.events, EngineEvent::BookUpdated, o, lim);
            }
        },
        OrderType::Stop | OrderType::StopLimit => {},
        _ => {
            let r = match_all(e, o, lim, q);
            lemma_match_loop(e, o, lim, q, e.book.len());
            if o.order_type == OrderType::FillOrKill && e.book.available(o.side, o.limit_price) < q {
                lemma_append_plain(a, a, EngineEvent::OrderRejected { id: o.id, reason: crate::domain::RejectReason::FillOrKillUnfillable }, o, lim);
            } else if o.order_type == OrderType::Market && r.1 == q {
                lemma_append_plain(a, r.0.events, EngineEvent::OrderRejected { id: o.id, reason: crate::domain::RejectReason::NoLiquidity }, o, lim);
            } else if o.order_type == OrderType::Limit {
                let e2 = if r.1 != 0 {
                    if r.2 {
                        lemma_append_plain(a, r.0.events, EngineEvent::OrderCanceled { id: o.id, remaining: Qty(r.1) }, o, lim);
                        r.0.emit(EngineEvent::OrderCanceled { id: o.id, remaining: Qty(r.1) })
                    } else {
                        lemma_rest_shape(r.0, o, r.1);
                        lemma_rest_events(a, r.0.events, rest(r.0, o, r.1).events, o, o, lim);
                        rest(r.0, o, r.1)
                    }
                } else {
                    r.0
                };
                lemma_append_plain(a, e2.events, EngineEvent::BookUpdated, o, lim);
            } else {
                let e1 = cancel_remainder(r.0, o.id, r.1);
                if r.1 != 0 {
                    lemma_append_plain(a, r.0.events, EngineEvent::OrderCanceled { id: o.id, remaining: Qty(r.1) }, o, lim);
                }
                lemma_append_plain(a, e1.events, EngineEvent::BookUpdated, o, lim);
            }
        },
    }
}

/// Price-time priority, and trades print at the maker's price: when the oldest order at the
/// best opposing price crosses the taker and belongs to another account, the first event that
/// matching appends is a trade against that maker, at the maker's price, for the smaller of the
/// two quantities, with the next sequence number.
pub proof fn law_best_maker_fills_first(e: EngineModel, taker: Order, limit: Option<Price>, rem: u64, fuel: nat)
    requires
        e.book.wf(),
        rem > 0,
        fuel > 0,
        e.book.best_maker(opposite_side(taker.side)) is Some,
        spec_price_crosses(taker.side, limit, e.book.best_maker(opposite_side(taker.side))->0.price),
        e.book.best_maker(opposite_side(taker.side))->0.account != taker.account,
    ensures
        ({
            let m = e.book.best_maker(opposite_side(taker.side))->0;
            let r = match_loop(e, taker, limit, rem, fuel);
            &&& m.price.0 == e.book.best_price(opposite_side(taker.side))->0
            &&& m.id.0 == e.book.queues(opposite_side(taker.side))[m.price.0][0]
            &&& r.0.events.len() > e.events.len()
            &&& r.0.events[e.events.len() as int] == EngineEvent::Trade(
                crate::domain::Trade {
                    seq: crate::domain::SeqNum(e.seq),
                    taker_order: taker.id,
                    maker_order: m.id,
                    price: m.price,
                    quantity: Qty(min_u64(rem, m.quantity.0)),
                    taker_side: taker.side,
                },
            )
        }),
{
    let opp = opposite_side(taker.side);
    let m = e.book.best_maker(opp)->0;
    lemma_best_maker_rests(e.book, opp);
    let p = e.book.best_price(opp)->0;
    assert(e.book.queues(opp).contains_key(p)) by {
        assert(crate::book::model::is_best_price(opp, p, e.book.queues(opp).dom()));
    }
    assert(e.book.queue_wf(opp, p));
    assert(e.book.orders[e.book.queues(opp)[p][0]].id.0 == e.book.queues(opp)[p][0]);
    let fill = min_u64(rem, m.quantity.0);
    lemma_reduce_wf(e.book, m.id.0, fill);
    let trade = crate::domain::Trade {
        seq: crate::domain::SeqNum(e.seq),
        taker_order: taker.id,
        maker_order: m.id,
        price: m.price,
        quantity: Qty(fill),
        taker_side: taker.side,
    };
    let ev = EngineEvent::Trade(trade);
    let e1 = e.bumped().emit(ev);
    let e2 = EngineModel { last_trade: Some(m.price), ..e1.with_book(e1.book.reduce_order(m.id.0, fill)) };
    lemma_match_loop(e2, taker, limit, (rem - fill) as u64, (fuel - 1) as nat);
    let r2 = match_loop(e2, taker, limit, (rem - fill) as u64, (fuel - 1) as nat);
    assert(r2.0.events.subrange(0, e2.events.len() as int)[e.events.len() as int] == r2.0.events[e.events.len() as int]);
}

/// A fill-or-kill order that the book cannot fill is rejected with nothing else changed: no
/// trade, the same book, the same dormant stops and sequence counter.
pub proof fn law_fill_or_kill_is_all_or_nothing(e: EngineModel, o: Order)
    requires
        o.order_type == OrderType::FillOrKill,
        e.book.available(o.side, o.limit_price) < o.quantity.0,
    ensures
        process_active(e, o) == e.emit(
            EngineEvent::OrderRejected { id: o.id, reason: crate::domain::RejectReason::FillOrKillUnfillable },
        ),
        traded(process_active(e, o).events) == traded(e.events),
{
    lemma_emit(e.events, EngineEvent::OrderRejected { id: o.id, reason: crate::domain::RejectReason::FillOrKillUnfillable });
}

/// A post-only order never trades: it either rests whole or is rejected.
pub proof fn law_post_only_never_trades(e: EngineModel, o: Order)
    requires
        o.order_type == OrderType::PostOnly,
    ensures
        traded(process_active(e, o).events) == traded(e.events),
        process_active(e, o).book == e.book || process_active(e, o).book == rest(e, o, o.quantity.0).book,
{
    if would_cross(e, o.side, o.limit_price) {
        lemma_emit(e.events, EngineEvent::OrderRejected { id: o.id, reason: crate::domain::RejectReason::PostOnlyWouldCross });
    } else {
        lemma_rest_shape(e, o, o.quantity.0);
        assert(e.events.subrange(0, e.events.len() as int) =~= e.events);
        lemma_rest_events(e.events, e.events, rest(e, o, o.quantity.0).events, o, o, o.limit_price);
        lemma_emit(rest(e, o, o.quantity.0).events, EngineEvent::BookUpdated);
    }
}

/// The state after a run of commands, applied in order.
pub open spec fn run_commands(e: EngineModel, cmds: Seq<Command>) -> EngineModel
    decreases cmds.len(),
{
    if cmds.len() == 0 {
        e
    } else {
        applied(run_commands(e, cmds.drop_last()), cmds.last()).0
    }
}

/// One command keeps the engine invariant, and every trade it reports is positive.
pub proof fn law_command_keeps_invariant(e: EngineModel, cmd: Command)
    requires
        engine_invariant(e),
    ensures
        engine_invariant(applied(e, cmd).0),
        trades_positive(applied(e, cmd).1),
        stops_settled(e) ==> stops_settled(applied(e, cmd).0),
{
    match cmd {
        Command::Submit(o) => {
            law_submit_keeps_invariant(e, *o);
        },
        Command::Cancel(id) => {
            law_cancel(e, id);
        },
        Command::Amend { id, quantity, price } => {
            law_amend(e, id, quantity, price);
        },
        _ => {},
    }
}

/// The book never crosses: from a new engine, after any run of submits, cancels, amends and
/// other commands, the best bid stays below the best ask, and the engine invariant holds.
pub proof fn law_book_never_crosses(stp: StpPolicy, cmds: Seq<Command>)
    ensures
        engine_invariant(run_commands(initial_state(stp), cmds)),
        stops_settled(run_commands(initial_state(stp), cmds)),
        uncrossed(run_commands(initial_state(stp), cmds).book),
    decreases cmds.len(),
{
    if cmds.len() == 0 {
        law_initial_invariant(stp);
    } else {
        law_book_never_crosses(stp, cmds.drop_last());
        law_command_keeps_invariant(run_commands(initial_state(stp), cmds.drop_last()), cmds.last());
    }
}

/// Price `p` is no better than price `q` for a taker on `side`: no lower for a buyer, no higher
/// for a seller.
pub open spec fn no_better(side: Side, p: u64, q: u64) -> bool {
    match side {
        Side::Buy => p >= q,
        Side::Sell => p <= q,
    }
}

/// The trades from position `from` on walk the opposing book outward from its best price
/// `best`: none is at a better price than `best` (there is none when the side is empty), and
/// each is at a price no better than the one before.
pub open spec fn walks_outward(side: Side, best: Option<u64>, evs: Seq<EngineEvent>, from: int) -> bool {
    &&& forall|i: int|
        from <= i < evs.len() ==> match #[trigger] evs[i] {
            EngineEvent::Trade(t) => best is Some && no_better(side, t.price.0, best->0),
            _ => true,
        }
    &&& forall|i: int, j: int|
        #![trigger evs[i], evs[j]]
        from <= i < j < evs.len() ==> match (evs[i], evs[j]) {
            (EngineEvent::Trade(a), EngineEvent::Trade(b)) => no_better(side, b.price.0, a.price.0),
            _ => true,
        }
}

/// A step of the matching loop that appends at most `ev` to the events and leaves an opposing
/// side whose best price is no better: the walk of what follows extends to the walk from before
/// the step, provided a trade in `ev` is at the old best price.
proof fn lemma_walk_step(
    side: Side,
    best: Option<u64>,
    best2: Option<u64>,
    a: Seq<EngineEvent>,
    b: Seq<EngineEvent>,
    c: Seq<EngineEvent>,
)
    requires
        a.len() <= b.len() <= a.len() + 1,
        b.len() <= c.len(),
        c.subrange(0, b.len() as int) == b,
        walks_outward(side, best2, c, b.len() as int),
        best2 is Some ==> best is Some && no_better(side, best2->0, best->0),
        b.len() == a.len() + 1 ==> match b[a.len() as int] {
            EngineEvent::Trade(t) => best is Some && t.price.0 == best->0,
            _ => true,
        },
    ensures
        walks_outward(side, best, c, a.len() as int),
{
    assert forall|i: int| 0 <= i < b.len() implies c[i] == b[i] by {
        assert(c.subrange(0, b.len() as int)[i] == c[i]);
    }
    assert forall|i: int| a.len() <= i < c.len() implies match #[trigger] c[i] {
        EngineEvent::Trade(t) => best is Some && no_better(side, t.price.0, best->0),
        _ => true,
    } by {
        if i >= b.len() {
            match c[i] {
                EngineEvent::Trade(t) => {},
                _ => {},
            }
        }
    }
    assert forall|i: int, j: int| a.len() <= i < j < c.len() implies match (#[trigger] c[i], #[trigger] c[j]) {
        (EngineEvent::Trade(x), EngineEvent::Trade(y)) => no_better(side, y.price.0, x.price.0),
        _ => true,
    } by {
        if i < b.len() {
            assert(c[j] == c[j]);
            match (c[i], c[j]) {
                (EngineEvent::Trade(x), EngineEvent::Trade(y)) => {
                    assert(c[i] == b[i]);
                },
                _ => {},
            }
        }
    }
}

/// Price priority: one aggressor's fills walk the opposing book outward, from its best price to
/// worse ones, never back.
pub proof fn law_fills_walk_outward(e: EngineModel, taker: Order, limit: Option<Price>, rem: u64, fuel: nat)
    requires
        e.book.wf(),
    ensures
        walks_outward(
            taker.side,
            e.book.best_price(opposite_side(taker.side)),
            match_loop(e, taker, limit, rem, fuel).0.events,
            e.events.len() as int,
        ),
    decreases fuel,
{
    let opp = opposite_side(taker.side);
    let best = e.book.best_price(opp);
    lemma_match_loop(e, taker, limit, rem, fuel);
    if rem == 0 || fuel == 0 {
    } else {
        match e.book.best_maker(opp) {
            None => {},
            Some(m) => {
                lemma_best_maker_rests(e.book, opp);
                if !spec_price_crosses(taker.side, limit, m.price) {
                } else {
                    let (e2, rem2) = if m.account == taker.account {
                        match e.stp {
                            StpPolicy::CancelNewest => (e, rem),
                            StpPolicy::CancelOldest => (
                                e.with_book(e.book.remove_order(m.id.0)).emit(
                                    EngineEvent::OrderCanceled { id: m.id, remaining: m.quantity },
                                ),
                                rem,
                            ),
                            StpPolicy::DecrementBoth => {
                                let dec = min_u64(rem, m.quantity.0);
                                let e1 = e.with_book(e.book.reduce_order(m.id.0, dec));
                                (
                                    if m.quantity.0 - dec == 0 {
                                        e1.emit(EngineEvent::OrderCanceled { id: m.id, remaining: Qty(0) })
                                    } else {
                                        e1
                                    },
                                    (rem - dec) as u64,
                                )
                            },
                        }
                    } else {
                        let fill = min_u64(rem, m.quantity.0);
                        let trade = crate::domain::Trade {
                            seq: crate::domain::SeqNum(e.seq),
                            taker_order: taker.id,
                            maker_order: m.id,
                            price: m.price,
                            quantity: Qty(fill),
                            taker_side: taker.side,
                        };
                        let e1 = e.bumped().emit(EngineEvent::Trade(trade));
                        (
                            EngineModel { last_trade: Some(m.price), ..e1.with_book(e1.book.reduce_order(m.id.0, fill)) },
                            (rem - fill) as u64,
                        )
                    };
                    if m.account == taker.account && e.stp == StpPolicy::CancelNewest {
                        assert(e.events.subrange(0, e.events.len() as int) =~= e.events);
                    } else {
                        let dec = min_u64(rem, m.quantity.0);
                        lemma_reduce_wf(e.book, m.id.0, dec);
                        lemma_remove_wf(e.book, m.id.0);
                        lemma_op_doms(e.book, m.id.0, dec);
                        lemma_op_doms(e.book, m.id.0, 0);
                        assert(e2.book.wf());
                        assert(e2.book.queues(opp).dom().subset_of(e.book.queues(opp).dom()));
                        law_fills_walk_outward(e2, taker, limit, rem2, (fuel - 1) as nat);
                        lemma_match_loop(e2, taker, limit, rem2, (fuel - 1) as nat);
                        let best2 = e2.book.best_price(opp);
                        if best2 is Some {
                            crate::book::model::lemma_best_subset(opp, e.book.queues(opp).dom(), e2.book.queues(opp).dom());
                        }
                        let c = match_loop(e2, taker, limit, rem2, (fuel - 1) as nat).0.events;
                        assert(match_loop(e, taker, limit, rem, fuel).0.events == c);
                        lemma_walk_step(taker.side, best, best2, e.events, e2.events, c);
                    }
                }
            },
        }
    }
}

/// The book of a running engine never crosses: whenever both sides have a best price, the best
/// bid is below the best ask; and every resting quantity is positive.
pub proof fn law_engine_book_never_crosses(eng: &MatchingEngine)
    requires
        eng.wf(),
    ensures
        match (eng@.book.best_price(Side::Buy), eng@.book.best_price(Side::Sell)) {
            (Some(bid), Some(ask)) => bid < ask,
            _ => true,
        },
        positive(eng@.book),
{
    eng.lemma_invariant();
}

/// The events of a run of commands, in order.
pub open spec fn run_events(e: EngineModel, cmds: Seq<Command>) -> Seq<EngineEvent>
    decreases cmds.len(),
{
    if cmds.len() == 0 {
        Seq::empty()
    } else {
        run_events(e, cmds.drop_last()) + applied(run_commands(e, cmds.drop_last()), cmds.last()).1
    }
}

/// Matching is deterministic over whole runs: two engines in the same state, given the same
/// commands, agree after every prefix of the run on their state, on the events reported so
/// far, and on every snapshot they would give.
pub proof fn law_runs_are_deterministic(e1: EngineModel, e2: EngineModel, cmds: Seq<Command>)
    requires
        e1 == e2,
    ensures
        run_commands(e1, cmds) == run_commands(e2, cmds),
        run_events(e1, cmds) == run_events(e2, cmds),
        forall|side: Side, depth: usize|
            #[trigger] run_commands(e1, cmds).book.depth_levels(side, depth) == run_commands(
                e2,
                cmds,
            ).book.depth_levels(side, depth),
        crate::engine::engine::last_seq(run_commands(e1, cmds).seq) == crate::engine::engine::last_seq(
            run_commands(e2, cmds).seq,
        ),
    decreases cmds.len(),
{
    if cmds.len() > 0 {
        law_runs_are_deterministic(e1, e2, cmds.drop_last());
    }
}

/// Every trade reported over a run of commands from a new engine has a positive quantity.
pub proof fn law_run_trades_positive(stp: StpPolicy, cmds: Seq<Command>)
    ensures
        trades_positive(run_events(initial_state(stp), cmds)),
    decreases cmds.len(),
{
    if cmds.len() > 0 {
        let e0 = initial_state(stp);
        let pre = cmds.drop_last();
        law_run_trades_positive(stp, pre);
        law_book_never_crosses(stp, pre);
        law_command_keeps_invariant(run_commands(e0, pre), cmds.last());
        let a = run_events(e0, pre);
        let b = applied(run_commands(e0, pre), cmds.last()).1;
        assert forall|i: int| 0 <= i < (a + b).len() implies match #[trigger] (a + b)[i] {
            EngineEvent::Trade(t) => t.quantity.0 > 0,
            _ => true,
        } by {
            if i < a.len() {
                assert((a + b)[i] == a[i]);
            } else {
                assert((a + b)[i] == b[i - a.len()]);
            }
        }
    }
}

/// Resting a new order and then canceling it gives back the book it started from.
pub proof fn law_rest_then_cancel_restores(b: BookModel, o: RestingOrder)
    requires
        b.wf(),
        !b.contains(o.id.0),
    ensures
        b.push_order(o).remove_order(o.id.0) == b,
{
    let id = o.id.0;
    let p = o.price.0;
    let b2 = b.push_order(o);
    let qs = b.queues(o.side);
    assert(b2.orders[id] == o);
    let q2 = b2.queues(o.side)[p];
    if qs.contains_key(p) {
        let q = qs[p];
        assert(b.queue_wf(o.side, p));
        assert(!q.contains(id)) by {
            if q.contains(id) {
                let k = choose|k: int| 0 <= k < q.len() && q[k] == id;
                assert(b.orders.contains_key(q[k]));
            }
        }
        assert(q2 == q.push(id));
        let k = q2.index_of(id);
        assert(q2[q.len() as int] == id);
        assert(0 <= k < q2.len() && q2[k] == id);
        if k < q.len() {
            assert(q[k] == id);
        }
        assert(k == q.len());
        assert(q2.remove(k) =~= q);
        assert(q.len() > 0);
        assert(qs.insert(p, q) =~= qs);
    } else {
        assert(q2 == seq![id]);
        assert(q2.index_of(id) == 0) by {
            assert(q2[0] == id);
        }
        assert(q2.remove(0).len() == 0);
        assert(qs.insert(p, q2).remove(p) =~= qs);
    }
    assert(b2.orders.remove(id) =~= b.orders);
    let r = b2.remove_order(id);
    if o.side == Side::Buy {
        assert(r.bids =~= b.bids);
        assert(r.asks == b.asks);
    } else {
        assert(r.asks =~= b.asks);
        assert(r.bids == b.bids);
    }
}

/// The best price of a side with a single level is that level's price.
pub proof fn lemma_best_of_single(side: Side, p: u64)
    ensures
        crate::book::model::best_of(side, Set::<u64>::empty().insert(p)) == Some(p),
{
    let d = Set::<u64>::empty().insert(p);
    crate::book::model::lemma_best_exists(side, d, p);
    let b = crate::book::model::best_of(side, d)->0;
    assert(crate::book::model::is_best_price(side, b, d));
    assert(d.contains(b));
}

/// A plain limit order at price 100 for the scenario below.
pub open spec fn limit_at_100(id: u64, account: u64, side: Side, qty: u64) -> Order {
    Order {
        id: OrderId(id),
        account: crate::domain::AccountId(account),
        side,
        order_type: OrderType::Limit,
        limit_price: Some(Price(100)),
        stop_price: None,
        quantity: Qty(qty),
        seq: crate::domain::SeqNum(0),
    }
}

/// One maker, one taker: on a new engine, a sell of `m` at 100 from one account and then a buy
/// of `t` at 100 from another trade `min(m, t)` in all, and what remains resting is the larger
/// order's excess `max(m, t) - min(m, t)`, on the larger order's side (nothing when they are
/// equal).
pub proof fn law_one_maker_one_taker(stp: StpPolicy, m: u64, t: u64)
    requires
        m > 0,
        t > 0,
    ensures
        ({
            let e1 = submit(initial_state(stp), limit_at_100(1, 1, Side::Sell, m));
            let e2 = submit(e1, limit_at_100(2, 2, Side::Buy, t));
            &&& traded(e2.events) == min_u64(m, t)
            &&& m > t ==> e2.book.orders.dom() == set![1u64] && e2.book.orders[1].quantity.0 == m - t
            &&& m > t ==> single_level(e2.book, Side::Sell, 100, 1) && no_levels(e2.book, Side::Buy)
            &&& t > m ==> e2.book.orders.dom() == set![2u64] && e2.book.orders[2].quantity.0 == t - m
            &&& t > m ==> single_level(e2.book, Side::Buy, 100, 2) && no_levels(e2.book, Side::Sell)
            &&& m == t ==> e2.book.orders.dom() == Set::<u64>::empty()
            &&& m == t ==> no_levels(e2.book, Side::Buy) && no_levels(e2.book, Side::Sell)
        }),
{
    let e0 = initial_state(stp);
    let maker = limit_at_100(1, 1, Side::Sell, m);
    let taker = limit_at_100(2, 2, Side::Buy, t);
    // The maker rests alone.
    let a0 = e0.cleared();
    assert(stop_position(a0.stops, maker.id) is None);
    let o1 = Order { seq: crate::domain::SeqNum(a0.seq), ..maker };
    let a1 = a0.bumped().emit(EngineEvent::OrderAccepted { id: maker.id });
    assert(a1.book.len() == 0) by {
        assert(a1.book.orders.dom() =~= Set::<u64>::empty());
    }
    let r1 = match_all(a1, o1, o1.limit_price, m);
    assert(r1 == (a1, m, false));
    assert(a1.book.can_rest(1, Side::Sell, 100, m));
    let ro1 = RestingOrder {
        id: OrderId(1),
        account: crate::domain::AccountId(1),
        side: Side::Sell,
        price: Price(100),
        quantity: Qty(m),
        seq: crate::domain::SeqNum(1),
    };
    let b1 = a1.book.push_order(ro1);
    assert(rest(a1, o1, m).book == b1);
    let e1 = submit(e0, maker);
    assert(process_active(a1, o1) == rest(a1, o1, m).emit(EngineEvent::BookUpdated));
    assert(e1 == process_active(a1, o1));
    assert(e1.book == b1);
    assert(e1.stops.len() == 0);
    assert(b1.orders.dom() =~= set![1u64]);
    assert(b1.asks.dom() =~= Set::<u64>::empty().insert(100));
    assert(b1.bids.dom() =~= Set::<u64>::empty());
    lemma_push_wf(a1.book, ro1);
    // The taker meets it.
    let c0 = e1.cleared();
    assert(!c0.book.contains(2));
    assert(stop_position(c0.stops, taker.id) is None);
    let o2 = Order { seq: crate::domain::SeqNum(c0.seq), ..taker };
    let c1 = c0.bumped().emit(EngineEvent::OrderAccepted { id: taker.id });
    assert(c1.book.len() == 1);
    lemma_best_of_single(Side::Sell, 100);
    assert(c1.book.best_price(Side::Sell) == Some(100u64));
    assert(c1.book.asks[100] == seq![1u64]);
    assert(c1.book.best_maker(Side::Sell) == Some(ro1));
    let fill = min_u64(t, m);
    let trade = crate::domain::Trade {
        seq: crate::domain::SeqNum(c1.seq),
        taker_order: o2.id,
        maker_order: ro1.id,
        price: ro1.price,
        quantity: Qty(fill),
        taker_side: Side::Buy,
    };
    let d1 = c1.bumped().emit(EngineEvent::Trade(trade));
    let d2 = EngineModel { last_trade: Some(ro1.price), ..d1.with_book(d1.book.reduce_order(1, fill)) };
    let r2 = match_all(c1, o2, o2.limit_price, t);
    assert(r2 == match_loop(d2, o2, o2.limit_price, (t - fill) as u64, 0));
    assert(r2 == (d2, (t - fill) as u64, false));
    lemma_emit(c0.events, EngineEvent::OrderAccepted { id: taker.id });
    lemma_emit(c1.events, EngineEvent::Trade(trade));
    assert(traded(c0.events) == 0);
    assert(traded(d2.events) == fill);
    let e2 = submit(e1, taker);
    if m > t {
        assert(d2.book.orders.dom() =~= set![1u64]);
        assert(d2.book.asks == c1.book.asks);
        assert(d2.book.bids == c1.book.bids);
        assert(e2 == d2.emit(EngineEvent::BookUpdated));
        lemma_emit(d2.events, EngineEvent::BookUpdated);
    } else {
        let q = c1.book.asks[100];
        assert(q.index_of(1) == 0) by {
            assert(q[0] == 1);
        }
        assert(d2.book.orders.dom() =~= Set::<u64>::empty());
        assert(d2.book.asks.dom() =~= Set::<u64>::empty());
        assert(d2.book.bids.dom() =~= Set::<u64>::empty());
        if t == m {
            assert(e2 == d2.emit(EngineEvent::BookUpdated));
            lemma_emit(d2.events, EngineEvent::BookUpdated);
        } else {
            assert(d2.book.len() == 0);
            assert(d2.book.can_rest(2, Side::Buy, 100, (t - m) as u64));
            let e3 = rest(d2, o2, (t - m) as u64);
            assert(e3.events == d2.events);
            assert(e3.book.orders.dom() =~= set![2u64]);
            assert(e3.book.bids.dom() =~= set![100u64]);
            assert(e3.book.bids[100] == seq![2u64]);
            assert(e3.book.asks.dom() =~= Set::<u64>::empty());
            assert(e2 == e3.emit(EngineEvent::BookUpdated));
            lemma_emit(e3.events, EngineEvent::BookUpdated);
        }
    }
}

/// `side` has the one level `p`, holding the one order `id`.
pub open spec fn single_level(b: BookModel, side: Side, p: u64, id: u64) -> bool {
    &&& b.queues(side).dom() == set![p]
    &&& b.queues(side)[p] == seq![id]
}

/// `side` has no level.
pub open spec fn no_levels(b: BookModel, side: Side) -> bool {
    b.queues(side).dom() == Set::<u64>::empty()
}

/// The full-depth snapshot of a side with one level holding one order shows that order's
/// quantity; that of a side with no level shows nothing.
pub proof fn lemma_side_depth(b: BookModel, side: Side, p: u64, id: u64)
    ensures
        single_level(b, side, p, id) ==> depth_total(b.depth_levels(side, 0)) == b.orders[id].quantity.0,
        no_levels(b, side) ==> depth_total(b.depth_levels(side, 0)) == 0,
{
    let d = b.queues(side).dom();
    if single_level(b, side, p, id) {
        assert(seq![p].to_set() =~= set![p]) by {
            assert forall|x: u64| seq![p].to_set().contains(x) <==> set![p].contains(x) by {
                assert(seq![p][0] == p);
                if seq![p].contains(x) {
                    let k = choose|k: int| 0 <= k < 1 && seq![p][k] == x;
                    assert(k == 0);
                }
            }
        }
        crate::book::walk::lemma_is_sorted_prices(seq![p], set![p]);
        assert(seq![p].reverse() =~= seq![p]);
        let ps = b.best_first_prices(side);
        assert(ps == seq![p]);
        let lv = b.level_view(side, p);
        assert(seq![id].drop_last() =~= Seq::<u64>::empty());
        assert(crate::book::model::level_total(b.orders, Seq::<u64>::empty()) == 0);
        assert(seq![id].last() == id);
        assert(b.total_at(side, p) == crate::book::model::level_total(b.orders, seq![id]));
        assert(crate::book::model::level_total(b.orders, seq![id]) == b.orders[id].quantity.0);
        assert(b.depth_levels(side, 0) =~= seq![lv]);
        assert(seq![lv].drop_last() =~= Seq::<BookLevel>::empty());
        assert(depth_total(Seq::<BookLevel>::empty()) == 0);
        assert(seq![lv].last() == lv);
        assert(lv.quantity.0 == b.orders[id].quantity.0);
        assert(depth_total(seq![lv]) == b.orders[id].quantity.0);
    }
    if no_levels(b, side) {
        assert(Seq::<u64>::empty().to_set() =~= Set::<u64>::empty());
        crate::book::walk::lemma_is_sorted_prices(Seq::<u64>::empty(), Set::<u64>::empty());
        assert(Seq::<u64>::empty().reverse() =~= Seq::<u64>::empty());
        assert(b.depth_levels(side, 0) =~= Seq::<BookLevel>::empty());
    }
}

/// One maker, one taker, read through the full-depth snapshot: the quantities shown on the
/// two sides add up to the larger order's excess, `max(m, t) - min(m, t)`, and the trades to
/// `min(m, t)`, which is at most the taker's `t`.
pub proof fn law_one_maker_one_taker_snapshot(stp: StpPolicy, m: u64, t: u64)
    requires
        m > 0,
        t > 0,
    ensures
        ({
            let e1 = submit(initial_state(stp), limit_at_100(1, 1, Side::Sell, m));
            let e2 = submit(e1, limit_at_100(2, 2, Side::Buy, t));
            let bids = e2.book.depth_levels(Side::Buy, 0);
            let asks = e2.book.depth_levels(Side::Sell, 0);
            &&& traded(e2.events) == min_u64(m, t)
            &&& traded(e2.events) <= t
            &&& depth_total(bids) + depth_total(asks) == (if m >= t { m - t } else { t - m })
        }),
{
    law_one_maker_one_taker(stp, m, t);
    let e1 = submit(initial_state(stp), limit_at_100(1, 1, Side::Sell, m));
    let b = submit(e1, limit_at_100(2, 2, Side::Buy, t)).book;
    lemma_side_depth(b, Side::Sell, 100, 1);
    lemma_side_depth(b, Side::Buy, 100, 2);
}

/// Canceling a dormant stop drops exactly that stop: afterwards no dormant stop holds the id,
/// the others stay in their order, the cancel reports that stop's own quantity, and the book is
/// untouched.
pub proof fn law_cancel_drops_that_stop(e: EngineModel, id: OrderId, k: int)
    requires
        engine_invariant(e),
        0 <= k < e.stops.len(),
        e.stops[k].id == id,
    ensures
        cancel(e, id) matches Ok(r) && {
            &&& free_id(r.stops, id)
            &&& r.stops == e.stops.remove(k)
            &&& r.events == seq![EngineEvent::OrderCanceled { id, remaining: e.stops[k].quantity }]
            &&& r.book == e.book
        },
{
    lemma_stop_position(e.stops, id);
    let i = stop_position(e.stops, id)->0;
    if i != k {
        if i < k {
            assert(e.stops[i].id != e.stops[k].id);
        } else {
            assert(e.stops[k].id != e.stops[i].id);
        }
    }
    lemma_ids_remove(e, k);
}

/// No event in `evs` from position `from` on is a rejection.
pub open spec fn no_rejects(evs: Seq<EngineEvent>, from: int) -> bool {
    forall|k: int| from <= k < evs.len() ==> !(#[trigger] evs[k] is OrderRejected)
}

/// The traded total of a run of events is at least that of any prefix of it.
pub proof fn lemma_traded_prefix(c: Seq<EngineEvent>, n: int)
    requires
        0 <= n <= c.len(),
    ensures
        traded(c.subrange(0, n)) <= traded(c),
    decreases c.len() - n,
{
    if n < c.len() {
        lemma_traded_prefix(c, n + 1);
        assert(c.subrange(0, n + 1).drop_last() =~= c.subrange(0, n));
    } else {
        assert(c.subrange(0, n) =~= c);
    }
}

/// Two extensions without rejections make one.
proof fn lemma_no_rejects_step(a: Seq<EngineEvent>, b: Seq<EngineEvent>, c: Seq<EngineEvent>)
    requires
        a.len() <= b.len() <= c.len(),
        c.subrange(0, b.len() as int) == b,
        no_rejects(b, a.len() as int),
        no_rejects(c, b.len() as int),
    ensures
        no_rejects(c, a.len() as int),
{
    assert forall|k: int| a.len() <= k < c.len() implies !(#[trigger] c[k] is OrderRejected) by {
        if k < b.len() {
            assert(c.subrange(0, b.len() as int)[k] == c[k]);
        }
    }
}

/// The matching loop rejects nothing: the events it appends are trades and cancels.
pub proof fn lemma_match_loop_no_rejects(e: EngineModel, taker: Order, limit: Option<Price>, rem: u64, fuel: nat)
    requires
        e.book.wf(),
    ensures
        no_rejects(match_loop(e, taker, limit, rem, fuel).0.events, e.events.len() as int),
    decreases fuel,
{
    let opp = opposite_side(taker.side);
    lemma_match_loop(e, taker, limit, rem, fuel);
    if rem == 0 || fuel == 0 {
    } else {
        match e.book.best_maker(opp) {
            None => {},
            Some(m) => {
                lemma_best_maker_rests(e.book, opp);
                if !spec_price_crosses(taker.side, limit, m.price) {
                } else if m.account == taker.account && e.stp == StpPolicy::CancelNewest {
                } else {
                    let (e2, rem2) = if m.account == taker.account {
                        match e.stp {
                            StpPolicy::CancelOldest => (
                                e.with_book(e.book.remove_order(m.id.0)).emit(
                                    EngineEvent::OrderCanceled { id: m.id, remaining: m.quantity },
                                ),
                                rem,
                            ),
                            _ => {
                                let dec = min_u64(rem, m.quantity.0);
                                let e1 = e.with_book(e.book.reduce_order(m.id.0, dec));
                                (
                                    if m.quantity.0 - dec == 0 {
                                        e1.emit(EngineEvent::OrderCanceled { id: m.id, remaining: Qty(0) })
                                    } else {
                                        e1
                                    },
                                    (rem - dec) as u64,
                                )
                            },
                        }
                    } else {
                        let fill = min_u64(rem, m.quantity.0);
                        let trade = crate::domain::Trade {
                            seq: crate::domain::SeqNum(e.seq),
                            taker_order: taker.id,
                            maker_order: m.id,
                            price: m.price,
                            quantity: Qty(fill),
                            taker_side: taker.side,
                        };
                        let e1 = e.bumped().emit(EngineEvent::Trade(trade));
                        (
                            EngineModel { last_trade: Some(m.price), ..e1.with_book(e1.book.reduce_order(m.id.0, fill)) },
                            (rem - fill) as u64,
                        )
                    };
                    let dec = min_u64(rem, m.quantity.0);
                    lemma_reduce_wf(e.book, m.id.0, dec);
                    lemma_remove_wf(e.book, m.id.0);
                    assert(e2.book.wf());
                    assert(no_rejects(e2.events, e.events.len() as int)) by {
                        assert forall|k: int| e.events.len() <= k < e2.events.len() implies !(#[trigger] e2.events[k] is OrderRejected) by {
                            assert(k == e.events.len());
                        }
                    }
                    lemma_match_loop_no_rejects(e2, taker, limit, rem2, (fuel - 1) as nat);
                    lemma_match_loop(e2, taker, limit, rem2, (fuel - 1) as nat);
                    let c = match_loop(e2, taker, limit, rem2, (fuel - 1) as nat).0.events;
                    assert(match_loop(e, taker, limit, rem, fuel).0.events == c);
                    lemma_no_rejects_step(e.events, e2.events, c);
                }
            },
        }
    }
}

/// A market order is rejected for no liquidity only when it traded nothing. When it trades
/// anything, it is not rejected at all; and, unless decrement-both took quantity off without
/// trading, a part it could not fill is reported by a cancel of exactly that part.
pub proof fn law_market_rejected_only_when_nothing_traded(e: EngineModel, o: Order)
    requires
        e.book.wf(),
        o.order_type == OrderType::Market,
    ensures
        ({
            let r = process_active(e, o);
            let n = e.events.len() as int;
            let filled = traded(r.events) - traded(e.events);
            &&& r.events.len() >= n
            &&& (exists|k: int| n <= k < r.events.len() && #[trigger] r.events[k] == EngineEvent::OrderRejected {
                id: o.id,
                reason: crate::domain::RejectReason::NoLiquidity,
            }) ==> filled == 0
            &&& filled > 0 ==> no_rejects(r.events, n)
            &&& e.stp != StpPolicy::DecrementBoth && 0 < filled < o.quantity.0 ==> r.events[r.events.len() - 2]
                == EngineEvent::OrderCanceled { id: o.id, remaining: Qty((o.quantity.0 - filled) as u64) }
        }),
{
    let q = o.quantity.0;
    let n = e.events.len() as int;
    let r = match_all(e, o, None, q);
    lemma_match_loop(e, o, None, q, e.book.len());
    lemma_match_loop_no_rejects(e, o, None, q, e.book.len());
    lemma_traded_prefix(r.0.events, n);
    if r.1 == q {
        let rej = EngineEvent::OrderRejected { id: o.id, reason: crate::domain::RejectReason::NoLiquidity };
        lemma_emit(r.0.events, rej);
    } else {
        let e1 = cancel_remainder(r.0, o.id, r.1);
        let c = EngineEvent::OrderCanceled { id: o.id, remaining: Qty(r.1) };
        if r.1 != 0 {
            lemma_emit(r.0.events, c);
        }
        lemma_emit(e1.events, EngineEvent::BookUpdated);
        let fin = e1.emit(EngineEvent::BookUpdated);
        assert(fin == process_active(e, o));
        assert forall|k: int| n <= k < fin.events.len() implies !(#[trigger] fin.events[k] is OrderRejected) by {
            if k < r.0.events.len() {
                assert(fin.events[k] == r.0.events[k]);
            }
        }
        assert forall|k: int| n <= k < fin.events.len() implies #[trigger] fin.events[k] != EngineEvent::OrderRejected {
            id: o.id,
            reason: crate::domain::RejectReason::NoLiquidity,
        } by {
            assert(!(fin.events[k] is OrderRejected));
        }
    }
}

/// A limit order's remainder rests at its limit price: when matching leaves part of it,
/// self-trade prevention did not stop it, and the book can take that part, the order rests
/// under its own id, account and side at its limit price with exactly that part, at the tail
/// of its price level.
pub proof fn law_limit_remainder_rests(e: EngineModel, o: Order, p: Price)
    requires
        o.order_type == OrderType::Limit,
        o.limit_price == Some(p),
        match_all(e, o, Some(p), o.quantity.0).1 > 0,
        !match_all(e, o, Some(p), o.quantity.0).2,
        ({
            let r = match_all(e, o, Some(p), o.quantity.0);
            r.0.book.can_rest(o.id.0, o.side, p.0, r.1)
        }),
    ensures
        ({
            let r = match_all(e, o, Some(p), o.quantity.0);
            let b = process_active(e, o).book;
            &&& b.contains(o.id.0)
            &&& b.orders[o.id.0] == RestingOrder {
                id: o.id,
                account: o.account,
                side: o.side,
                price: p,
                quantity: Qty(r.1),
                seq: o.seq,
            }
            &&& b.queues(o.side).contains_key(p.0)
            &&& b.queues(o.side)[p.0].last() == o.id.0
        }),
{
}

/// A fired stop-limit order acts as a limit order at its limit price: activating the first
/// dormant stop that fires, when it is a stop-limit, is processing a plain limit order with the
/// stop's id, account, side, limit price and quantity; so when matching leaves part of it,
/// self-trade prevention does not stop it, and the book can take that part, that part rests at
/// the limit price.
pub proof fn law_stop_limit_fires_as_limit(e: EngineModel, last: Price, i: int, fuel: nat)
    requires
        fuel > 0,
        e.last_trade == Some(last),
        first_triggered(e.stops, last) == Some(i),
        0 <= i < e.stops.len(),
        e.stops[i].order_type == OrderType::StopLimit,
        e.stops[i].limit_price is Some,
    ensures
        ({
            let s = e.stops[i];
            let p = s.limit_price->0;
            let mid = EngineModel { stops: e.stops.remove(i), ..e };
            let plain = Order {
                id: s.id,
                account: s.account,
                side: s.side,
                order_type: OrderType::Limit,
                limit_price: Some(p),
                stop_price: s.stop_price,
                quantity: s.quantity,
                seq: s.seq,
            };
            let r = match_all(mid, plain, Some(p), s.quantity.0);
            &&& trigger_stops(e, fuel) == trigger_stops(process_active(mid, plain), (fuel - 1) as nat)
            &&& (r.1 > 0 && !r.2 && r.0.book.can_rest(s.id.0, s.side, p.0, r.1)) ==> {
                &&& trigger_stops(e, 1).book.contains(s.id.0)
                &&& trigger_stops(e, 1).book.orders[s.id.0].price == p
                &&& trigger_stops(e, 1).book.orders[s.id.0].quantity == Qty(r.1)
            }
        }),
{
    let s = e.stops[i];
    let p = s.limit_price->0;
    let mid = EngineModel { stops: e.stops.remove(i), ..e };
    let plain = Order {
        id: s.id,
        account: s.account,
        side: s.side,
        order_type: OrderType::Limit,
        limit_price: Some(p),
        stop_price: s.stop_price,
        quantity: s.quantity,
        seq: s.seq,
    };
    assert(activated(s) == plain);
    let r = match_all(mid, plain, Some(p), s.quantity.0);
    if r.1 > 0 && !r.2 && r.0.book.can_rest(s.id.0, s.side, p.0, r.1) {
        law_limit_remainder_rests(mid, plain, p);
        assert(trigger_stops(e, 1) == trigger_stops(process_active(mid, plain), 0));
    }
}

/// Order `x`, if it rests in `b`, belongs to account `acct` and is on side `side`.
pub open spec fn owned_by(b: BookModel, x: u64, acct: crate::domain::AccountId, side: Side) -> bool {
    b.contains(x) ==> b.orders[x].account == acct && b.orders[x].side == side
}

/// Taking quantity off an order, or removing one, never changes whose order `x` is.
pub proof fn lemma_owner_ops(b: BookModel, id: u64, q: u64, x: u64, acct: crate::domain::AccountId, side: Side)
    requires
        b.wf(),
        b.contains(id),
        owned_by(b, x, acct, side),
    ensures
        owned_by(b.remove_order(id), x, acct, side),
        owned_by(b.set_quantity(id, q), x, acct, side),
        owned_by(b.reduce_order(id, q), x, acct, side),
{
}

/// Matching never changes whose order `x` is.
pub proof fn lemma_owner_match_loop(
    e: EngineModel,
    taker: Order,
    limit: Option<Price>,
    rem: u64,
    fuel: nat,
    x: u64,
    acct: crate::domain::AccountId,
    side: Side,
)
    requires
        e.book.wf(),
        owned_by(e.book, x, acct, side),
    ensures
        owned_by(match_loop(e, taker, limit, rem, fuel).0.book, x, acct, side),
    decreases fuel,
{
    let opp = opposite_side(taker.side);
    if rem == 0 || fuel == 0 {
    } else {
        match e.book.best_maker(opp) {
            None => {},
            Some(m) => {
                lemma_best_maker_rests(e.book, opp);
                if !spec_price_crosses(taker.side, limit, m.price) {
                } else if m.account == taker.account {
                    match e.stp {
                        StpPolicy::CancelNewest => {},
                        StpPolicy::CancelOldest => {
                            lemma_remove_wf(e.book, m.id.0);
                            lemma_owner_ops(e.book, m.id.0, 0, x, acct, side);
                            let e1 = e.with_book(e.book.remove_order(m.id.0)).emit(
                                EngineEvent::OrderCanceled { id: m.id, remaining: m.quantity },
                            );
                            lemma_owner_match_loop(e1, taker, limit, rem, (fuel - 1) as nat, x, acct, side);
                        },
                        StpPolicy::DecrementBoth => {
                            let dec = min_u64(rem, m.quantity.0);
                            lemma_reduce_wf(e.book, m.id.0, dec);
                            lemma_owner_ops(e.book, m.id.0, dec, x, acct, side);
                            let e1 = e.with_book(e.book.reduce_order(m.id.0, dec));
                            let e2 = if m.quantity.0 - dec == 0 {
                                e1.emit(EngineEvent::OrderCanceled { id: m.id, remaining: Qty(0) })
                            } else {
                                e1
                            };
                            lemma_owner_match_loop(e2, taker, limit, (rem - dec) as u64, (fuel - 1) as nat, x, acct, side);
                        },
                    }
                } else {
                    let fill = min_u64(rem, m.quantity.0);
                    lemma_reduce_wf(e.book, m.id.0, fill);
                    lemma_owner_ops(e.book, m.id.0, fill, x, acct, side);
                    let trade = crate::domain::Trade {
                        seq: crate::domain::SeqNum(e.seq),
                        taker_order: taker.id,
                        maker_order: m.id,
                        price: m.price,
                        quantity: Qty(fill),
                        taker_side: taker.side,
                    };
                    let e1 = e.bumped().emit(EngineEvent::Trade(trade));
                    let e2 = EngineModel { last_trade: Some(m.price), ..e1.with_book(e1.book.reduce_order(m.id.0, fill)) };
                    lemma_owner_match_loop(e2, taker, limit, (rem - fill) as u64, (fuel - 1) as nat, x, acct, side);
                }
            },
        }
    }
}

/// Processing an order never changes whose order `x` is, when the order processed is `x`
/// itself only if it has the same owner.
pub proof fn lemma_owner_process_active(e: EngineModel, o: Order, x: u64, acct: crate::domain::AccountId, side: Side)
    requires
        e.book.wf(),
        owned_by(e.book, x, acct, side),
        o.id.0 == x ==> o.account == acct && o.side == side,
    ensures
        owned_by(process_active(e, o).book, x, acct, side),
{
    let q = o.quantity.0;
    let lim = taker_limit(o);
    lemma_owner_match_loop(e, o, lim, q, e.book.len(), x, acct, side);
    lemma_match_loop(e, o, lim, q, e.book.len());
    let r = match_all(e, o, lim, q);
    if let Some(p) = o.limit_price {
        let ro = RestingOrder { id: o.id, account: o.account, side: o.side, price: p, quantity: Qty(q), seq: o.seq };
        assert(owned_by(e.book.push_order(ro), x, acct, side));
        let ro2 = RestingOrder { id: o.id, account: o.account, side: o.side, price: p, quantity: Qty(r.1), seq: o.seq };
        assert(owned_by(r.0.book.push_order(ro2), x, acct, side));
    }
}

/// An id no stop holds stays free when a stop is dropped.
pub proof fn lemma_free_remove(stops: Seq<Order>, i: int, id: OrderId)
    requires
        free_id(stops, id),
        0 <= i < stops.len(),
    ensures
        free_id(stops.remove(i), id),
{
    let r = stops.remove(i);
    assert forall|k: int| 0 <= k < r.len() implies #[trigger] r[k].id != id by {
        let kk = if k < i { k } else { k + 1 };
        assert(r[k] == stops[kk]);
    }
}

/// Activating fired stops never changes whose order `x` is, when no dormant stop holds `x`.
#[verifier::spinoff_prover]
#[verifier::rlimit(40)]
pub proof fn lemma_owner_trigger(e: EngineModel, fuel: nat, x: u64, acct: crate::domain::AccountId, side: Side)
    requires
        engine_invariant(e),
        trades_positive(e.events),
        owned_by(e.book, x, acct, side),
        free_id(e.stops, OrderId(x)),
    ensures
        owned_by(trigger_stops(e, fuel).book, x, acct, side),
    decreases fuel,
{
    if fuel > 0 {
        match e.last_trade {
            None => {},
            Some(last) => {
                lemma_first_triggered(e.stops, last);
                match first_triggered(e.stops, last) {
                    None => {},
                    Some(i) => {
                        let stop = e.stops[i];
                        assert(stop.id != OrderId(x));
                        lemma_stops_remove(e.stops, i);
                        lemma_ids_remove(e, i);
                        lemma_activated(stop);
                        let mid = EngineModel { stops: e.stops.remove(i), ..e };
                        lemma_free_remove(e.stops, i, OrderId(x));
                        lemma_process_active(mid, activated(stop));
                        lemma_owner_process_active(mid, activated(stop), x, acct, side);
                        lemma_owner_trigger(process_active(mid, activated(stop)), (fuel - 1) as nat, x, acct, side);
                    },
                }
            },
        }
    }
}

/// Resting orders keep their owner: whatever command the engine runs, an order that rests both
/// before and after it belongs to the same account and is on the same side. In particular a
/// repriced or increased amend re-enters the order for the account and on the side it had.
pub proof fn law_commands_keep_owner(e: EngineModel, cmd: Command, x: u64)
    requires
        engine_invariant(e),
        e.book.contains(x),
    ensures
        owned_by(applied(e, cmd).0.book, x, e.book.orders[x].account, e.book.orders[x].side),
{
    let acct = e.book.orders[x].account;
    let side = e.book.orders[x].side;
    assert(free_id(e.stops, OrderId(x))) by {
        assert forall|k: int| 0 <= k < e.stops.len() implies #[trigger] e.stops[k].id != OrderId(x) by {
            assert(!e.book.contains(e.stops[k].id.0));
        }
    }
    let e0 = e.cleared();
    match cmd {
        Command::Submit(ob) => {
            let o = *ob;
            law_submit_keeps_invariant(e, o);
            lemma_stop_position(e0.stops, o.id);
            if spec_validate(o) is None && !(e0.book.contains(o.id.0) || stop_position(e0.stops, o.id) is Some) {
                let o1 = Order { seq: crate::domain::SeqNum(e0.seq), ..o };
                let e1 = e0.bumped().emit(EngineEvent::OrderAccepted { id: o.id });
                lemma_emit_plain(e0.events, EngineEvent::OrderAccepted { id: o.id });
                assert(o.id.0 != x);
                let e2 = if spec_is_stop(o.order_type) {
                    lemma_handle_stop(e1, o1);
                    lemma_activated(o1);
                    lemma_owner_process_active(e1, activated(o1), x, acct, side);
                    lemma_process_active(e1, activated(o1));
                    let s2 = e1.stops.push(o1);
                    assert(free_id(s2, OrderId(x))) by {
                        assert forall|k: int| 0 <= k < s2.len() implies #[trigger] s2[k].id != OrderId(x) by {
                            if k < e1.stops.len() {
                                assert(s2[k] == e1.stops[k]);
                            }
                        }
                    }
                    handle_stop(e1, o1)
                } else {
                    lemma_process_active(e1, o1);
                    lemma_owner_process_active(e1, o1, x, acct, side);
                    process_active(e1, o1)
                };
                lemma_owner_trigger(e2, e2.stops.len(), x, acct, side);
            }
        },
        Command::Cancel(id) => {
            if stop_position(e0.stops, id) is None && e0.book.contains(id.0) {
                lemma_owner_ops(e.book, id.0, 0, x, acct, side);
            }
        },
        Command::Amend { id, quantity, price } => {
            law_amend(e, id, quantity, price);
            if quantity.0 != 0 && e0.book.contains(id.0) {
                let r = e0.book.orders[id.0];
                let target = match price {
                    Some(p) => p,
                    None => r.price,
                };
                lemma_owner_ops(e.book, id.0, quantity.0, x, acct, side);
                if !(target == r.price && quantity.0 <= r.quantity.0) {
                    lemma_remove_wf(e.book, id.0);
                    lemma_op_doms(e.book, id.0, 0);
                    lemma_shrunk_uncrossed(e.book, e.book.remove_order(id.0));
                    let b2 = e.book.remove_order(id.0);
                    lemma_ids_shrink(e.stops, e.book, b2);
                    assert forall|y: u64| #[trigger] b2.orders.contains_key(y) implies b2.orders[y].quantity.0 > 0 by {
                        assert(e.book.orders.contains_key(y));
                    }
                    assert forall|i: int| 0 <= i < e.stops.len() implies #[trigger] e.stops[i].id != id by {
                        assert(!e.book.contains(e.stops[i].id.0));
                    }
                    let ev = EngineEvent::OrderAmended { id, new_quantity: quantity, new_price: Some(target), repriced: true };
                    let e1 = e0.with_book(b2).emit(ev);
                    lemma_emit_plain(e0.events, ev);
                    let o = Order {
                        id,
                        account: r.account,
                        side: r.side,
                        order_type: OrderType::Limit,
                        limit_price: Some(target),
                        stop_price: None,
                        quantity,
                        seq: crate::domain::SeqNum(e1.seq),
                    };
                    lemma_process_active(e1.bumped(), o);
                    lemma_owner_process_active(e1.bumped(), o, x, acct, side);
                    let e2 = process_active(e1.bumped(), o);
                    lemma_owner_trigger(e2, e2.stops.len(), x, acct, side);
                }
            }
        },
        _ => {},
    }
}

/// A fired stop order acts as a market order: activating the first dormant stop that fires,
/// when it is a plain stop, is processing a market order with the stop's id, account, side and
/// quantity and no limit price.
pub proof fn law_stop_fires_as_market(e: EngineModel, last: Price, i: int, fuel: nat)
    requires
        fuel > 0,
        e.last_trade == Some(last),
        first_triggered(e.stops, last) == Some(i),
        0 <= i < e.stops.len(),
        e.stops[i].order_type == OrderType::Stop,
    ensures
        ({
            let s = e.stops[i];
            let mid = EngineModel { stops: e.stops.remove(i), ..e };
            let market = Order {
                id: s.id,
                account: s.account,
                side: s.side,
                order_type: OrderType::Market,
                limit_price: None,
                stop_price: s.stop_price,
                quantity: s.quantity,
                seq: s.seq,
            };
            trigger_stops(e, fuel) == trigger_stops(process_active(mid, market), (fuel - 1) as nat)
        }),
{
    let s = e.stops[i];
    assert(activated(s) == Order {
        id: s.id,
        account: s.account,
        side: s.side,
        order_type: OrderType::Market,
        limit_price: None,
        stop_price: s.stop_price,
        quantity: s.quantity,
        seq: s.seq,
    });
}

/// Market, immediate-or-cancel and fill-or-kill orders never rest: after such an order is
/// processed, no order with its id rests unless one already did.
pub proof fn law_immediate_orders_never_rest(e: EngineModel, o: Order)
    requires
        e.book.wf(),
        o.order_type == OrderType::Market || o.order_type == OrderType::ImmediateOrCancel || o.order_type
            == OrderType::FillOrKill,
        !e.book.contains(o.id.0),
    ensures
        !process_active(e, o).book.contains(o.id.0),
        process_active(e, o).book.orders.dom().subset_of(e.book.orders.dom()),
{
    lemma_match_loop(e, o, taker_limit(o), o.quantity.0, e.book.len());
    lemma_match_loop(e, o, o.limit_price, o.quantity.0, e.book.len());
}

/// A limit order that self-trade prevention stopped does not rest: its remainder is canceled and
/// the book update follows.
pub proof fn law_stopped_limit_is_canceled(e: EngineModel, o: Order)
    requires
        e.book.wf(),
        o.order_type == OrderType::Limit,
        !e.book.contains(o.id.0),
        match_all(e, o, o.limit_price, o.quantity.0).2,
    ensures
        ({
            let r = match_all(e, o, o.limit_price, o.quantity.0);
            let after = process_active(e, o);
            &&& !after.book.contains(o.id.0)
            &&& r.1 > 0
            &&& after.events == r.0.events.push(EngineEvent::OrderCanceled { id: o.id, remaining: Qty(r.1) }).push(
                EngineEvent::BookUpdated,
            )
        }),
{
    lemma_match_loop(e, o, o.limit_price, o.quantity.0, e.book.len());
    lemma_match_loop_stop_flag(e, o, o.limit_price, o.quantity.0, e.book.len());
}

/// When self-trade prevention stops the matching loop, a positive remainder is left.
pub proof fn lemma_match_loop_stop_flag(e: EngineModel, taker: Order, limit: Option<Price>, rem: u64, fuel: nat)
    ensures
        match_loop(e, taker, limit, rem, fuel).2 ==> match_loop(e, taker, limit, rem, fuel).1 > 0,
    decreases fuel,
{
    if rem == 0 || fuel == 0 {
    } else {
        match e.book.best_maker(opposite_side(taker.side)) {
            None => {},
            Some(m) => {
                if !spec_price_crosses(taker.side, limit, m.price) {
                } else if m.account == taker.account {
                    match e.stp {
                        StpPolicy::CancelNewest => {},
                        StpPolicy::CancelOldest => {
                            lemma_match_loop_stop_flag(
                                e.with_book(e.book.remove_order(m.id.0)).emit(
                                    EngineEvent::OrderCanceled { id: m.id, remaining: m.quantity },
                                ),
                                taker,
                                limit,
                                rem,
                                (fuel - 1) as nat,
                            );
                        },
                        StpPolicy::DecrementBoth => {
                            let dec = min_u64(rem, m.quantity.0);
                            let e1 = e.with_book(e.book.reduce_order(m.id.0, dec));
                            let e2 = if m.quantity.0 - dec == 0 {
                                e1.emit(EngineEvent::OrderCanceled { id: m.id, remaining: Qty(0) })
                            } else {
                                e1
                            };
                            lemma_match_loop_stop_flag(e2, taker, limit, (rem - dec) as u64, (fuel - 1) as nat);
                        },
                    }
                } else {
                    let fill = min_u64(rem, m.quantity.0);
                    let trade = crate::domain::Trade {
                        seq: crate::domain::SeqNum(e.seq),
                        taker_order: taker.id,
                        maker_order: m.id,
                        price: m.price,
                        quantity: Qty(fill),
                        taker_side: taker.side,
                    };
                    let e1 = e.bumped().emit(EngineEvent::Trade(trade));
                    let e2 = EngineModel { last_trade: Some(m.price), ..e1.with_book(e1.book.reduce_order(m.id.0, fill)) };
                    lemma_match_loop_stop_flag(e2, taker, limit, (rem - fill) as u64, (fuel - 1) as nat);
                }
            },
        }
    }
}

/// Canceling a resting order that no dormant stop shares its id with reports exactly its
/// remaining quantity, then a book update, and leaves every other resting order as it was.
pub proof fn law_cancel_reports_remaining(e: EngineModel, id: OrderId)
    requires
        e.book.wf(),
        e.book.contains(id.0),
        free_id(e.stops, id),
    ensures
        cancel(e, id) matches Ok(r) && {
            &&& r.events == seq![
                EngineEvent::OrderCanceled { id, remaining: e.book.orders[id.0].quantity },
                EngineEvent::BookUpdated,
            ]
            &&& !r.book.contains(id.0)
            &&& r.stops == e.stops
            &&& forall|y: u64| y != id.0 && #[trigger] e.book.contains(y) ==> r.book.contains(y) && r.book.orders[y] == e.book.orders[y]
        },
{
    lemma_stop_position(e.stops, id);
    if stop_position(e.stops, id) is Some {
        let i = stop_position(e.stops, id)->0;
        assert(e.stops[i].id != id);
    }
}

/// An immediate-or-cancel order cancels exactly what it did not fill: unless decrement-both took
/// quantity off without trading, a part it could not fill is reported by a cancel of exactly that
/// part, and a fully filled order reports no cancel; the book update comes last either way.
pub proof fn law_ioc_cancels_exact_remainder(e: EngineModel, o: Order)
    requires
        e.book.wf(),
        o.order_type == OrderType::ImmediateOrCancel,
        e.stp != StpPolicy::DecrementBoth,
        !e.book.contains(o.id.0),
    ensures
        ({
            let r = process_active(e, o);
            let filled = traded(r.events) - traded(e.events);
            &&& r.events.last() == EngineEvent::BookUpdated
            &&& filled < o.quantity.0 ==> r.events[r.events.len() - 2] == EngineEvent::OrderCanceled {
                id: o.id,
                remaining: Qty((o.quantity.0 - filled) as u64),
            }
            &&& filled == o.quantity.0 ==> no_cancel_of(r.events, e.events.len() as int, o.id)
        }),
{
    let q = o.quantity.0;
    let r = match_all(e, o, o.limit_price, q);
    lemma_match_loop(e, o, o.limit_price, q, e.book.len());
    let e1 = cancel_remainder(r.0, o.id, r.1);
    if r.1 != 0 {
        lemma_emit(r.0.events, EngineEvent::OrderCanceled { id: o.id, remaining: Qty(r.1) });
    }
    lemma_emit(e1.events, EngineEvent::BookUpdated);
    if r.1 == 0 {
        lemma_match_loop_cancels_makers(e, o, o.limit_price, q, e.book.len());
        let fin = e1.emit(EngineEvent::BookUpdated);
        assert forall|k: int| e.events.len() <= k < fin.events.len() implies match #[trigger] fin.events[k] {
            EngineEvent::OrderCanceled { id: c, .. } => c != o.id,
            _ => true,
        } by {
            if k < r.0.events.len() {
                assert(fin.events[k] == r.0.events[k]);
            }
        }
    }
}

/// No event in `evs` from position `from` on cancels order `id`.
pub open spec fn no_cancel_of(evs: Seq<EngineEvent>, from: int, id: OrderId) -> bool {
    forall|k: int| from <= k < evs.len() ==> match #[trigger] evs[k] {
        EngineEvent::OrderCanceled { id: c, .. } => c != id,
        _ => true,
    }
}

/// The matching loop cancels only makers: never the taker, whose id does not rest.
pub proof fn lemma_match_loop_cancels_makers(e: EngineModel, taker: Order, limit: Option<Price>, rem: u64, fuel: nat)
    requires
        e.book.wf(),
    ensures
        !e.book.contains(taker.id.0) ==> no_cancel_of(match_loop(e, taker, limit, rem, fuel).0.events, e.events.len() as int, taker.id),
    decreases fuel,
{
    let opp = opposite_side(taker.side);
    lemma_match_loop(e, taker, limit, rem, fuel);
    if rem == 0 || fuel == 0 || e.book.contains(taker.id.0) {
    } else {
        match e.book.best_maker(opp) {
            None => {},
            Some(m) => {
                lemma_best_maker_rests(e.book, opp);
                assert(m.id != taker.id);
                if !spec_price_crosses(taker.side, limit, m.price) {
                } else if m.account == taker.account && e.stp == StpPolicy::CancelNewest {
                } else {
                    let (e2, rem2) = if m.account == taker.account {
                        match e.stp {
                            StpPolicy::CancelOldest => (
                                e.with_book(e.book.remove_order(m.id.0)).emit(
                                    EngineEvent::OrderCanceled { id: m.id, remaining: m.quantity },
                                ),
                                rem,
                            ),
                            _ => {
                                let dec = min_u64(rem, m.quantity.0);
                                let e1 = e.with_book(e.book.reduce_order(m.id.0, dec));
                                (
                                    if m.quantity.0 - dec == 0 {
                                        e1.emit(EngineEvent::OrderCanceled { id: m.id, remaining: Qty(0) })
                                    } else {
                                        e1
                                    },
                                    (rem - dec) as u64,
                                )
                            },
                        }
                    } else {
                        let fill = min_u64(rem, m.quantity.0);
                        let trade = crate::domain::Trade {
                            seq: crate::domain::SeqNum(e.seq),
                            taker_order: taker.id,
                            maker_order: m.id,
                            price: m.price,
                            quantity: Qty(fill),
                            taker_side: taker.side,
                        };
                        let e1 = e.bumped().emit(EngineEvent::Trade(trade));
                        (
                            EngineModel { last_trade: Some(m.price), ..e1.with_book(e1.book.reduce_order(m.id.0, fill)) },
                            (rem - fill) as u64,
                        )
                    };
                    let dec = min_u64(rem, m.quantity.0);
                    lemma_reduce_wf(e.book, m.id.0, dec);
                    lemma_remove_wf(e.book, m.id.0);
                    lemma_op_doms(e.book, m.id.0, dec);
                    lemma_op_doms(e.book, m.id.0, 0);
                    assert(e2.book.wf());
                    assert(!e2.book.contains(taker.id.0));
                    lemma_match_loop_cancels_makers(e2, taker, limit, rem2, (fuel - 1) as nat);
                    lemma_match_loop(e2, taker, limit, rem2, (fuel - 1) as nat);
                    let c = match_loop(e2, taker, limit, rem2, (fuel - 1) as nat).0.events;
                    assert(match_loop(e, taker, limit, rem, fuel).0.events == c);
                    assert forall|k: int| e.events.len() <= k < c.len() implies match #[trigger] c[k] {
                        EngineEvent::OrderCanceled { id: cid, .. } => cid != taker.id,
                        _ => true,
                    } by {
                        if k < e2.events.len() {
                            assert(c.subrange(0, e2.events.len() as int)[k] == c[k]);
                            assert(k == e.events.len());
                        }
                    }
                }
            },
        }
    }
}

/// A post-only order that does not cross rests whole: with its full quantity at its limit price,
/// at the tail of its level, when the book can take it; and nothing trades.
pub proof fn law_post_only_rests_whole(e: EngineModel, o: Order, p: Price)
    requires
        o.order_type == OrderType::PostOnly,
        o.limit_price == Some(p),
        !would_cross(e, o.side, Some(p)),
        e.book.can_rest(o.id.0, o.side, p.0, o.quantity.0),
    ensures
        ({
            let b = process_active(e, o).book;
            &&& b.orders[o.id.0] == RestingOrder {
                id: o.id,
                account: o.account,
                side: o.side,
                price: p,
                quantity: o.quantity,
                seq: o.seq,
            }
            &&& b.queues(o.side)[p.0].last() == o.id.0
            &&& traded(process_active(e, o).events) == traded(e.events)
            &&& process_active(e, o).events == e.events.push(EngineEvent::BookUpdated)
        }),
{
    lemma_emit(e.events, EngineEvent::BookUpdated);
}

/// The price of the last trade among the events from position `from` on, if there is one.
pub open spec fn last_fill_price(evs: Seq<EngineEvent>, from: int) -> Option<Price>
    decreases evs.len(),
{
    if evs.len() <= from || evs.len() == 0 {
        None
    } else {
        match evs.last() {
            EngineEvent::Trade(t) => Some(t.price),
            _ => last_fill_price(evs.drop_last(), from),
        }
    }
}

/// The last trade from `a` on is the last one from `b` on, or failing that the last one before
/// `b`.
pub proof fn lemma_last_fill_split(c: Seq<EngineEvent>, b: int, a: int)
    requires
        0 <= a <= b <= c.len(),
    ensures
        last_fill_price(c, a) == match last_fill_price(c, b) {
            Some(p) => Some(p),
            None => last_fill_price(c.subrange(0, b), a),
        },
    decreases c.len(),
{
    if c.len() == b {
        assert(c.subrange(0, b) =~= c);
    } else {
        match c.last() {
            EngineEvent::Trade(_) => {},
            _ => {
                let d = c.drop_last();
                lemma_last_fill_split(d, b, a);
                assert(d.subrange(0, b) =~= c.subrange(0, b));
            },
        }
    }
}

/// The last trade price after matching is the price of the last fill it made, or what it was
/// when it made none.
pub proof fn law_last_trade_is_last_fill(e: EngineModel, taker: Order, limit: Option<Price>, rem: u64, fuel: nat)
    requires
        e.book.wf(),
    ensures
        ({
            let r = match_loop(e, taker, limit, rem, fuel).0;
            r.last_trade == match last_fill_price(r.events, e.events.len() as int) {
                Some(p) => Some(p),
                None => e.last_trade,
            }
        }),
    decreases fuel,
{
    let opp = opposite_side(taker.side);
    let a = e.events;
    lemma_match_loop(e, taker, limit, rem, fuel);
    if rem == 0 || fuel == 0 {
    } else {
        match e.book.best_maker(opp) {
            None => {},
            Some(m) => {
                lemma_best_maker_rests(e.book, opp);
                if !spec_price_crosses(taker.side, limit, m.price) {
                } else if m.account == taker.account && e.stp == StpPolicy::CancelNewest {
                } else {
                    let (e2, rem2) = if m.account == taker.account {
                        match e.stp {
                            StpPolicy::CancelOldest => (
                                e.with_book(e.book.remove_order(m.id.0)).emit(
                                    EngineEvent::OrderCanceled { id: m.id, remaining: m.quantity },
                                ),
                                rem,
                            ),
                            _ => {
                                let dec = min_u64(rem, m.quantity.0);
                                let e1 = e.with_book(e.book.reduce_order(m.id.0, dec));
                                (
                                    if m.quantity.0 - dec == 0 {
                                        e1.emit(EngineEvent::OrderCanceled { id: m.id, remaining: Qty(0) })
                                    } else {
                                        e1
                                    },
                                    (rem - dec) as u64,
                                )
                            },
                        }
                    } else {
                        let fill = min_u64(rem, m.quantity.0);
                        let trade = crate::domain::Trade {
                            seq: crate::domain::SeqNum(e.seq),
                            taker_order: taker.id,
                            maker_order: m.id,
                            price: m.price,
                            quantity: Qty(fill),
                            taker_side: taker.side,
                        };
                        let e1 = e.bumped().emit(EngineEvent::Trade(trade));
                        (
                            EngineModel { last_trade: Some(m.price), ..e1.with_book(e1.book.reduce_order(m.id.0, fill)) },
                            (rem - fill) as u64,
                        )
                    };
                    let dec = min_u64(rem, m.quantity.0);
                    lemma_reduce_wf(e.book, m.id.0, dec);
                    lemma_remove_wf(e.book, m.id.0);
                    assert(e2.book.wf());
                    law_last_trade_is_last_fill(e2, taker, limit, rem2, (fuel - 1) as nat);
                    lemma_match_loop(e2, taker, limit, rem2, (fuel - 1) as nat);
                    let c = match_loop(e2, taker, limit, rem2, (fuel - 1) as nat).0.events;
                    assert(match_loop(e, taker, limit, rem, fuel).0 == match_loop(e2, taker, limit, rem2, (fuel - 1) as nat).0);
                    lemma_last_fill_split(c, e2.events.len() as int, a.len() as int);
                    assert(e2.events.len() == a.len() || e2.events.drop_last() =~= a);
                    if e2.events.len() > a.len() {
                        assert(e2.events.drop_last() =~= a);
                        assert(a.len() >= a.len());
                        assert(last_fill_price(a, a.len() as int) == None::<Price>);
                    } else {
                        assert(e2.events == a);
                    }
                }
            },
        }
    }
}

} // verus!
