//! The abstract model of an order book: resting orders by id, and for each side a FIFO queue of
//! order ids per price level. Every operation of the book, and the matching rules of the engine,
//! are stated over this model.
use vstd::prelude::*;

use crate::book::walk::sorted_prices;
use crate::domain::{AccountId, BookLevel, OrderId, Price, Qty, SeqNum, Side};
use crate::domain::order::opposite_side;
use crate::matcher::spec_price_crosses;

verus! {

/// A resting order as the book sees it.
#[derive(Debug, Clone, Copy, PartialEq, Eq, Structural)]
pub struct RestingOrder {
    pub id: OrderId,
    pub account: AccountId,
    pub side: Side,
    pub price: Price,
    pub quantity: Qty,
    pub seq: SeqNum,
}

/// The book: resting orders by id, and per side the FIFO queue of ids at each price.
pub struct BookModel {
    pub orders: Map<u64, RestingOrder>,
    pub bids: Map<u64, Seq<u64>>,
    pub asks: Map<u64, Seq<u64>>,
}

/// How many levels a snapshot of `depth` shows out of `n` (0 means all).
pub open spec fn depth_count(n: nat, depth: usize) -> nat {
    if depth == 0 || depth >= n {
        n
    } else {
        depth as nat
    }
}

/// Total resting quantity of the orders in queue `q`.
pub open spec fn level_total(orders: Map<u64, RestingOrder>, q: Seq<u64>) -> nat
    decreases q.len(),
{
    if q.len() == 0 {
        0
    } else {
        level_total(orders, q.drop_last()) + orders[q.last()].quantity.0 as nat
    }
}

/// Whether `p` is the best price of `prices` for `side`: the highest for bids, the lowest for
/// asks.
pub open spec fn is_best_price(side: Side, p: u64, prices: Set<u64>) -> bool {
    &&& prices.contains(p)
    &&& forall|x: u64|
        #![trigger prices.contains(x)]
        prices.contains(x) ==> match side {
            Side::Buy => x <= p,
            Side::Sell => p <= x,
        }
}

/// The best price of a set of prices for a side, if the set is not empty.
pub open spec fn best_of(side: Side, prices: Set<u64>) -> Option<u64> {
    if exists|p: u64| is_best_price(side, p, prices) {
        Some(choose|p: u64| is_best_price(side, p, prices))
    } else {
        None
    }
}

impl BookModel {
    /// The empty book.
    pub open spec fn empty() -> BookModel {
        BookModel { orders: Map::empty(), bids: Map::empty(), asks: Map::empty() }
    }

    /// The price levels of one side.
    pub open spec fn queues(self, side: Side) -> Map<u64, Seq<u64>> {
        match side {
            Side::Buy => self.bids,
            Side::Sell => self.asks,
        }
    }

    /// This book with the levels of `side` replaced.
    pub open spec fn with_queues(self, side: Side, qs: Map<u64, Seq<u64>>) -> BookModel {
        match side {
            Side::Buy => BookModel { bids: qs, ..self },
            Side::Sell => BookModel { asks: qs, ..self },
        }
    }

    /// Whether an order with this id rests in the book.
    pub open spec fn contains(self, id: u64) -> bool {
        self.orders.contains_key(id)
    }

    /// Number of resting orders.
    pub open spec fn len(self) -> nat {
        self.orders.dom().len()
    }

    /// The queue at price `p` of `side` is well formed: not empty, no id twice, and every id in
    /// it names a resting order of that side and price.
    pub open spec fn queue_wf(self, side: Side, p: u64) -> bool {
        let q = self.queues(side)[p];
        &&& q.len() > 0
        &&& q.no_duplicates()
        &&& forall|i: int|
            #![trigger q[i]]
            0 <= i < q.len() ==> {
                &&& self.orders.contains_key(q[i])
                &&& self.orders[q[i]].side == side
                &&& self.orders[q[i]].price.0 == p
            }
    }

    /// Well-formedness of the model.
    pub open spec fn wf(self) -> bool {
        &&& self.orders.dom().finite()
        &&& self.bids.dom().finite()
        &&& self.asks.dom().finite()
        &&& forall|p: u64| #[trigger] self.bids.contains_key(p) ==> self.queue_wf(Side::Buy, p)
        &&& forall|p: u64| #[trigger] self.asks.contains_key(p) ==> self.queue_wf(Side::Sell, p)
        &&& forall|id: u64|
            #[trigger] self.orders.contains_key(id) ==> {
                let o = self.orders[id];
                &&& o.id.0 == id
                &&& self.queues(o.side).contains_key(o.price.0)
                &&& self.queues(o.side)[o.price.0].contains(id)
            }
    }

    /// Total resting quantity at price `p` of `side`.
    pub open spec fn total_at(self, side: Side, p: u64) -> nat {
        level_total(self.orders, self.queues(side)[p])
    }

    /// The best price of `side`, if the side has any level.
    pub open spec fn best_price(self, side: Side) -> Option<u64> {
        best_of(side, self.queues(side).dom())
    }

    /// The id of the oldest order at the best price of `side`.
    pub open spec fn front_id(self, side: Side) -> u64 {
        self.queues(side)[self.best_price(side)->0][0]
    }

    /// The oldest order at the best price of `side`: the next maker an aggressor meets.
    pub open spec fn best_maker(self, side: Side) -> Option<RestingOrder> {
        match self.best_price(side) {
            None => None,
            Some(p) => Some(self.orders[self.queues(side)[p][0]]),
        }
    }

    /// Whether the book can take a new order `id` of `qty` at `price` on `side`: the id is not
    /// resting yet, the arena has room, and the level (if it exists) can count one more order
    /// and add `qty` to its total without overflow.
    pub open spec fn can_rest(self, id: u64, side: Side, price: u64, qty: u64) -> bool {
        &&& !self.contains(id)
        &&& self.len() < crate::book::arena::ARENA_LIMIT
        &&& self.queues(side).contains_key(price) ==> {
            &&& self.queues(side)[price].len() < u32::MAX
            &&& self.total_at(side, price) + qty <= u64::MAX
        }
    }

    /// The prices of `side`, best first: bids descending, asks ascending.
    pub open spec fn best_first_prices(self, side: Side) -> Seq<u64> {
        match side {
            Side::Buy => sorted_prices(self.bids.dom()).reverse(),
            Side::Sell => sorted_prices(self.asks.dom()),
        }
    }

    /// The aggregated view of level `p` of `side`.
    pub open spec fn level_view(self, side: Side, p: u64) -> BookLevel {
        BookLevel { price: Price(p), quantity: Qty(self.total_at(side, p) as u64) }
    }

    /// The best `depth` levels of `side`, best first (all levels when `depth` is 0).
    pub open spec fn depth_levels(self, side: Side, depth: usize) -> Seq<BookLevel> {
        let ps = self.best_first_prices(side);
        ps.take(depth_count(ps.len(), depth) as int).map_values(|p: u64| self.level_view(side, p))
    }

    /// Liquidity a taker on `taker_side` with optional `limit` meets, walking the opposing
    /// levels best first from position `i` with `acc` gathered so far: the walk stops at the
    /// first level the taker does not cross, and a level whose total would overflow the sum is
    /// left out of it.
    pub open spec fn available_from(self, taker_side: Side, limit: Option<Price>, i: int, acc: u64) -> u64
        decreases self.best_first_prices(opposite_side(taker_side)).len() - i,
    {
        let ps = self.best_first_prices(opposite_side(taker_side));
        if i < 0 || i >= ps.len() {
            acc
        } else if !spec_price_crosses(taker_side, limit, Price(ps[i])) {
            acc
        } else {
            let t = self.total_at(opposite_side(taker_side), ps[i]);
            self.available_from(
                taker_side,
                limit,
                i + 1,
                if acc + t <= u64::MAX { (acc + t) as u64 } else { acc },
            )
        }
    }

    /// Total resting quantity a taker on `taker_side` with optional `limit` could match
    /// (ignoring self-trade prevention).
    pub open spec fn available(self, taker_side: Side, limit: Option<Price>) -> u64 {
        self.available_from(taker_side, limit, 0, 0)
    }

    /// This book with `o` rested at the tail of its price level.
    pub open spec fn push_order(self, o: RestingOrder) -> BookModel {
        let qs = self.queues(o.side);
        let q = if qs.contains_key(o.price.0) {
            qs[o.price.0].push(o.id.0)
        } else {
            seq![o.id.0]
        };
        BookModel {
            orders: self.orders.insert(o.id.0, o),
            ..self.with_queues(o.side, qs.insert(o.price.0, q))
        }
    }

    /// This book without the order `id`; its level goes when it becomes empty.
    pub open spec fn remove_order(self, id: u64) -> BookModel {
        let o = self.orders[id];
        let qs = self.queues(o.side);
        let q = qs[o.price.0];
        let rest = q.remove(q.index_of(id));
        let qs2 = if rest.len() == 0 {
            qs.remove(o.price.0)
        } else {
            qs.insert(o.price.0, rest)
        };
        BookModel { orders: self.orders.remove(id), ..self.with_queues(o.side, qs2) }
    }

    /// This book with the quantity of order `id` set to `q`, its place in its queue unchanged.
    pub open spec fn set_quantity(self, id: u64, q: u64) -> BookModel {
        BookModel {
            orders: self.orders.insert(id, RestingOrder { quantity: Qty(q), ..self.orders[id] }),
            ..self
        }
    }

    /// This book after `fill` is taken off order `id`; the order goes when nothing remains.
    pub open spec fn reduce_order(self, id: u64, fill: u64) -> BookModel {
        let left = self.orders[id].quantity.0 - fill;
        if left <= 0 {
            self.remove_order(id)
        } else {
            self.set_quantity(id, left as u64)
        }
    }
}

/// Resting a new order keeps the model well formed.
pub proof fn lemma_push_wf(m: BookModel, o: RestingOrder)
    requires
        m.wf(),
        !m.contains(o.id.0),
    ensures
        m.push_order(o).wf(),
{
    let m2 = m.push_order(o);
    let id = o.id.0;
    let p = o.price.0;
    let qs = m.queues(o.side);
    assert(m2.orders.dom() =~= m.orders.dom().insert(id));
    assert forall|side: Side, x: u64| #[trigger] m2.queues(side).contains_key(x) implies m2.queue_wf(side, x) by {
        if side == o.side && x == p {
            let q2 = m2.queues(side)[x];
            if qs.contains_key(p) {
                let q = qs[p];
                assert(m.queue_wf(side, p));
                assert(q2 == q.push(id));
                assert forall|i: int| 0 <= i < q2.len() implies {
                    &&& m2.orders.contains_key(#[trigger] q2[i])
                    &&& m2.orders[q2[i]].side == side
                    &&& m2.orders[q2[i]].price.0 == x
                } by {
                    if i < q.len() {
                        assert(q2[i] == q[i]);
                        assert(m.orders.contains_key(q[i]));
                    }
                }
                assert forall|i: int, j: int| 0 <= i < q2.len() && 0 <= j < q2.len() && i != j implies q2[i] != q2[j] by {
                    if i < q.len() && j < q.len() {
                        assert(q2[i] == q[i] && q2[j] == q[j]);
                    } else if i < q.len() {
                        assert(m.orders.contains_key(q[i]));
                    } else {
                        assert(m.orders.contains_key(q[j]));
                    }
                }
            } else {
                assert(q2 == seq![id]);
            }
        } else {
            let q = m.queues(side)[x];
            assert(m2.queues(side)[x] == q);
            assert(m.queues(side).contains_key(x));
            assert(m.queue_wf(side, x));
            assert forall|i: int| 0 <= i < q.len() implies {
                &&& m2.orders.contains_key(#[trigger] q[i])
                &&& m2.orders[q[i]].side == side
                &&& m2.orders[q[i]].price.0 == x
            } by {
                assert(m.orders.contains_key(q[i]));
            }
        }
    }
    assert forall|x: u64| #[trigger] m2.orders.contains_key(x) implies {
        let o2 = m2.orders[x];
        &&& o2.id.0 == x
        &&& m2.queues(o2.side).contains_key(o2.price.0)
        &&& m2.queues(o2.side)[o2.price.0].contains(x)
    } by {
        if x == id {
            let q2 = m2.queues(o.side)[p];
            assert(q2[q2.len() - 1] == id);
        } else {
            let o1 = m.orders[x];
            assert(m.orders.contains_key(x));
            let q = m.queues(o1.side)[o1.price.0];
            let i = choose|i: int| 0 <= i < q.len() && q[i] == x;
            if o1.side == o.side && o1.price.0 == p {
                assert(m2.queues(o1.side)[o1.price.0][i] == x);
            } else {
                assert(m2.queues(o1.side)[o1.price.0] == q);
            }
        }
    }
    assert(m2.bids.dom().finite());
    assert(m2.asks.dom().finite());
}

/// Removing a resting order keeps the model well formed.
pub proof fn lemma_remove_wf(m: BookModel, id: u64)
    requires
        m.wf(),
        m.contains(id),
    ensures
        m.remove_order(id).wf(),
        m.remove_order(id).len() + 1 == m.len(),
{
    let m2 = m.remove_order(id);
    let o = m.orders[id];
    let p = o.price.0;
    let qs = m.queues(o.side);
    let q = qs[p];
    assert(m.queue_wf(o.side, p));
    let idx = q.index_of(id);
    assert(q.contains(id));
    assert(0 <= idx < q.len() && q[idx] == id);
    let rest = q.remove(idx);
    assert(m2.orders.dom() =~= m.orders.dom().remove(id));
    assert forall|side: Side, x: u64| #[trigger] m2.queues(side).contains_key(x) implies m2.queue_wf(side, x) by {
        if side == o.side && x == p {
            assert(m2.queues(side)[x] == rest);
            assert forall|i: int| 0 <= i < rest.len() implies {
                &&& m2.orders.contains_key(#[trigger] rest[i])
                &&& m2.orders[rest[i]].side == side
                &&& m2.orders[rest[i]].price.0 == x
            } by {
                if i < idx {
                    assert(rest[i] == q[i]);
                    assert(q[i] != id);
                } else {
                    assert(rest[i] == q[i + 1]);
                    assert(q[i + 1] != id);
                }
            }
            assert forall|i: int, j: int| 0 <= i < rest.len() && 0 <= j < rest.len() && i != j implies rest[i] != rest[j] by {
                let ii = if i < idx { i } else { i + 1 };
                let jj = if j < idx { j } else { j + 1 };
                assert(rest[i] == q[ii] && rest[j] == q[jj]);
            }
        } else {
            let q1 = m.queues(side)[x];
            assert(m2.queues(side)[x] == q1);
            assert(m.queues(side).contains_key(x));
            assert(m.queue_wf(side, x));
            assert forall|i: int| 0 <= i < q1.len() implies {
                &&& m2.orders.contains_key(#[trigger] q1[i])
                &&& m2.orders[q1[i]].side == side
                &&& m2.orders[q1[i]].price.0 == x
            } by {
                assert(m.orders.contains_key(q1[i]));
                assert(q1[i] != id);
            }
        }
    }
    assert forall|x: u64| #[trigger] m2.orders.contains_key(x) implies {
        let o2 = m2.orders[x];
        &&& o2.id.0 == x
        &&& m2.queues(o2.side).contains_key(o2.price.0)
        &&& m2.queues(o2.side)[o2.price.0].contains(x)
    } by {
        let o1 = m.orders[x];
        assert(m.orders.contains_key(x));
        let q1 = m.queues(o1.side)[o1.price.0];
        let i = choose|i: int| 0 <= i < q1.len() && q1[i] == x;
        if o1.side == o.side && o1.price.0 == p {
            assert(i != idx);
            if i < idx {
                assert(rest[i] == x);
            } else {
                assert(rest[i - 1] == x);
            }
            assert(rest.len() > 0);
        } else {
            assert(m2.queues(o1.side)[o1.price.0] == q1);
        }
    }
    assert(m2.bids.dom().finite());
    assert(m2.asks.dom().finite());
}

/// Changing the quantity of a resting order keeps the model well formed.
pub proof fn lemma_set_quantity_wf(m: BookModel, id: u64, q: u64)
    requires
        m.wf(),
        m.contains(id),
    ensures
        m.set_quantity(id, q).wf(),
        m.set_quantity(id, q).len() == m.len(),
{
    let m2 = m.set_quantity(id, q);
    assert(m2.orders.dom() =~= m.orders.dom());
    assert forall|side: Side, x: u64| #[trigger] m2.queues(side).contains_key(x) implies m2.queue_wf(side, x) by {
        let q1 = m.queues(side)[x];
        assert(m.queues(side).contains_key(x));
        assert(m.queue_wf(side, x));
        assert forall|i: int| 0 <= i < q1.len() implies {
            &&& m2.orders.contains_key(#[trigger] q1[i])
            &&& m2.orders[q1[i]].side == side
            &&& m2.orders[q1[i]].price.0 == x
        } by {
            assert(m.orders.contains_key(q1[i]));
        }
    }
    assert forall|x: u64| #[trigger] m2.orders.contains_key(x) implies {
        let o2 = m2.orders[x];
        &&& o2.id.0 == x
        &&& m2.queues(o2.side).contains_key(o2.price.0)
        &&& m2.queues(o2.side)[o2.price.0].contains(x)
    } by {
        assert(m.orders.contains_key(x));
    }
}

/// Whether the book is not crossed: when both sides have levels, the best bid is below the
/// best ask.
pub open spec fn uncrossed(b: BookModel) -> bool {
    match (b.best_price(Side::Buy), b.best_price(Side::Sell)) {
        (Some(bid), Some(ask)) => bid < ask,
        _ => true,
    }
}

/// Every resting order has a positive quantity.
pub open spec fn positive(b: BookModel) -> bool {
    forall|id: u64| #[trigger] b.orders.contains_key(id) ==> b.orders[id].quantity.0 > 0
}

/// A finite set with an element has a best price on each side.
pub proof fn lemma_best_exists(side: Side, d: Set<u64>, x: u64)
    requires
        d.finite(),
        d.contains(x),
    ensures
        best_of(side, d) is Some,
        is_best_price(side, best_of(side, d)->0, d),
    decreases d.len(),
{
    let r = d.remove(x);
    if r.len() == 0 {
        assert forall|y: u64| d.contains(y) implies y == x by {
            if y != x {
                assert(r.contains(y));
            }
        }
        assert(is_best_price(side, x, d));
    } else {
        let y = r.choose();
        assert(r.contains(y)) by {
            if !r.contains(y) {
                assert(r =~= Set::<u64>::empty());
            }
        }
        lemma_best_exists(side, r, y);
        let b = best_of(side, r)->0;
        assert(is_best_price(side, b, r));
        let c = match side {
            Side::Buy => if x <= b { b } else { x },
            Side::Sell => if b <= x { b } else { x },
        };
        assert forall|z: u64| #![trigger d.contains(z)] d.contains(z) implies match side {
            Side::Buy => z <= c,
            Side::Sell => c <= z,
        } by {
            if z != x {
                assert(r.contains(z));
            }
        }
        assert(is_best_price(side, c, d));
    }
}

/// A set without elements has no best price.
pub proof fn lemma_best_none(side: Side, d: Set<u64>)
    requires
        forall|x: u64| !d.contains(x),
    ensures
        best_of(side, d) is None,
{
}

/// The best price of a subset is no better than that of the whole set.
pub proof fn lemma_best_subset(side: Side, d1: Set<u64>, d2: Set<u64>)
    requires
        d2.subset_of(d1),
        best_of(side, d1) is Some,
        best_of(side, d2) is Some,
    ensures
        match side {
            Side::Buy => best_of(side, d2)->0 <= best_of(side, d1)->0,
            Side::Sell => best_of(side, d1)->0 <= best_of(side, d2)->0,
        },
{
    let b1 = best_of(side, d1)->0;
    let b2 = best_of(side, d2)->0;
    assert(is_best_price(side, b1, d1));
    assert(is_best_price(side, b2, d2));
    assert(d1.contains(b2));
}

/// Adding a price to a set gives the better of the old best and that price.
pub proof fn lemma_best_insert(side: Side, d: Set<u64>, p: u64)
    requires
        d.finite(),
    ensures
        best_of(side, d.insert(p)) is Some,
        best_of(side, d) is None ==> best_of(side, d.insert(p)) == Some(p),
        best_of(side, d) is Some ==> best_of(side, d.insert(p))->0 == match side {
            Side::Buy => if p <= best_of(side, d)->0 { best_of(side, d)->0 } else { p },
            Side::Sell => if best_of(side, d)->0 <= p { best_of(side, d)->0 } else { p },
        },
{
    let d2 = d.insert(p);
    lemma_best_exists(side, d2, p);
    let b2 = best_of(side, d2)->0;
    assert(is_best_price(side, b2, d2));
    if best_of(side, d) is Some {
        let b = best_of(side, d)->0;
        assert(is_best_price(side, b, d));
        let c = match side {
            Side::Buy => if p <= b { b } else { p },
            Side::Sell => if b <= p { b } else { p },
        };
        assert(d2.contains(b));
        assert(is_best_price(side, c, d2));
    } else {
        assert forall|z: u64| !d.contains(z) by {
            if d.contains(z) {
                lemma_best_exists(side, d, z);
            }
        }
        assert(is_best_price(side, p, d2));
    }
}

/// A book whose level prices only shrank stays uncrossed.
pub proof fn lemma_shrunk_uncrossed(b1: BookModel, b2: BookModel)
    requires
        b1.wf(),
        uncrossed(b1),
        b2.bids.dom().subset_of(b1.bids.dom()),
        b2.asks.dom().subset_of(b1.asks.dom()),
    ensures
        uncrossed(b2),
{
    if b2.best_price(Side::Buy) is Some && b2.best_price(Side::Sell) is Some {
        let bb2 = b2.best_price(Side::Buy)->0;
        let ba2 = b2.best_price(Side::Sell)->0;
        assert(is_best_price(Side::Buy, bb2, b2.bids.dom()));
        assert(is_best_price(Side::Sell, ba2, b2.asks.dom()));
        lemma_best_exists(Side::Buy, b1.bids.dom(), bb2);
        lemma_best_exists(Side::Sell, b1.asks.dom(), ba2);
        lemma_best_subset(Side::Buy, b1.bids.dom(), b2.bids.dom());
        lemma_best_subset(Side::Sell, b1.asks.dom(), b2.asks.dom());
    }
}

/// Resting an order that does not cross the best opposing price keeps the book uncrossed.
pub proof fn lemma_push_uncrossed(b: BookModel, o: RestingOrder)
    requires
        b.wf(),
        uncrossed(b),
        !b.contains(o.id.0),
        b.best_price(opposite_side(o.side)) is None || !spec_price_crosses(
            o.side,
            Some(o.price),
            Price(b.best_price(opposite_side(o.side))->0),
        ),
    ensures
        uncrossed(b.push_order(o)),
        b.push_order(o).queues(o.side).dom() == b.queues(o.side).dom().insert(o.price.0),
        b.push_order(o).queues(opposite_side(o.side)) == b.queues(opposite_side(o.side)),
{
    let b2 = b.push_order(o);
    let s = o.side;
    assert(b2.queues(s).dom() =~= b.queues(s).dom().insert(o.price.0));
    lemma_best_insert(s, b.queues(s).dom(), o.price.0);
    if s == Side::Buy {
        assert(b2.asks == b.asks);
    } else {
        assert(b2.bids == b.bids);
    }
}

/// Level prices under removing, requantifying and reducing orders.
pub proof fn lemma_op_doms(b: BookModel, id: u64, q: u64)
    requires
        b.wf(),
        b.contains(id),
    ensures
        b.remove_order(id).bids.dom().subset_of(b.bids.dom()),
        b.remove_order(id).asks.dom().subset_of(b.asks.dom()),
        b.remove_order(id).queues(opposite_side(b.orders[id].side)) == b.queues(opposite_side(b.orders[id].side)),
        b.set_quantity(id, q).bids == b.bids,
        b.set_quantity(id, q).asks == b.asks,
        b.reduce_order(id, q).bids.dom().subset_of(b.bids.dom()),
        b.reduce_order(id, q).asks.dom().subset_of(b.asks.dom()),
        b.reduce_order(id, q).queues(opposite_side(b.orders[id].side)) == b.queues(opposite_side(b.orders[id].side)),
        b.remove_order(id).orders.dom().subset_of(b.orders.dom()),
        b.set_quantity(id, q).orders.dom() == b.orders.dom(),
        b.reduce_order(id, q).orders.dom().subset_of(b.orders.dom()),
{
    assert(b.set_quantity(id, q).orders.dom() =~= b.orders.dom());
    let o = b.orders[id];
    if o.side == Side::Buy {
        assert(b.remove_order(id).asks == b.asks);
    } else {
        assert(b.remove_order(id).bids == b.bids);
    }
}

/// Reducing an order keeps the model well formed and every quantity positive.
pub proof fn lemma_reduce_wf(b: BookModel, id: u64, fill: u64)
    requires
        b.wf(),
        b.contains(id),
        fill <= b.orders[id].quantity.0,
    ensures
        b.reduce_order(id, fill).wf(),
        positive(b) ==> positive(b.reduce_order(id, fill)),
        b.reduce_order(id, fill).len() <= b.len(),
        b.orders[id].quantity.0 == fill ==> b.reduce_order(id, fill).len() + 1 == b.len(),
{
    let left = b.orders[id].quantity.0 - fill;
    if left <= 0 {
        lemma_remove_wf(b, id);
    } else {
        lemma_set_quantity_wf(b, id, left as u64);
    }
}

/// A side with a best maker holds at least one resting order, and the maker rests in the book
/// under its own id.
pub proof fn lemma_best_maker_rests(m: BookModel, side: Side)
    requires
        m.wf(),
        m.best_maker(side) is Some,
    ensures
        m.len() >= 1,
        m.contains(m.best_maker(side)->0.id.0),
        m.orders[m.best_maker(side)->0.id.0] == m.best_maker(side)->0,
        m.best_maker(side)->0.side == side,
        m.best_maker(side)->0.price.0 == m.best_price(side)->0,
{
    let p = m.best_price(side)->0;
    assert(is_best_price(side, p, m.queues(side).dom()));
    assert(m.queues(side).contains_key(p));
    assert(m.queue_wf(side, p));
    let q = m.queues(side)[p];
    assert(m.orders.contains_key(q[0]));
    assert(m.orders[q[0]].id.0 == q[0]);
    assert(m.orders.dom().contains(q[0]));
    if m.orders.dom().len() == 0 {
        assert(m.orders.dom() =~= Set::<u64>::empty());
    }
}

/// Pushing one id adds that order's quantity to the total.
pub proof fn lemma_total_push(orders: Map<u64, RestingOrder>, q: Seq<u64>, x: u64)
    ensures
        level_total(orders, q.push(x)) == level_total(orders, q) + orders[x].quantity.0,
{
    assert(q.push(x).drop_last() =~= q);
}

/// The total of a queue depends only on the quantities of the orders in it.
pub proof fn lemma_total_frame(o1: Map<u64, RestingOrder>, o2: Map<u64, RestingOrder>, q: Seq<u64>)
    requires
        forall|i: int| 0 <= i < q.len() ==> #[trigger] o1[q[i]].quantity == o2[q[i]].quantity,
    ensures
        level_total(o1, q) == level_total(o2, q),
    decreases q.len(),
{
    if q.len() > 0 {
        let d = q.drop_last();
        assert forall|i: int| 0 <= i < d.len() implies #[trigger] o1[d[i]].quantity == o2[d[i]].quantity by {
            assert(d[i] == q[i]);
        }
        lemma_total_frame(o1, o2, d);
        assert(q.last() == q[q.len() - 1]);
    }
}

/// Removing the element at `i` takes that order's quantity off the total.
pub proof fn lemma_total_remove(orders: Map<u64, RestingOrder>, q: Seq<u64>, i: int)
    requires
        0 <= i < q.len(),
    ensures
        level_total(orders, q) == level_total(orders, q.remove(i)) + orders[q[i]].quantity.0,
    decreases q.len(),
{
    let r = q.remove(i);
    if i == q.len() - 1 {
        assert(r =~= q.drop_last());
    } else {
        let d = q.drop_last();
        lemma_total_remove(orders, d, i);
        assert(r.drop_last() =~= d.remove(i));
        assert(r.last() == q.last());
        assert(d[i] == q[i]);
    }
}

/// A queue of one order totals that order's quantity.
pub proof fn lemma_total_single(orders: Map<u64, RestingOrder>, x: u64)
    ensures
        level_total(orders, seq![x]) == orders[x].quantity.0,
{
    let q = seq![x];
    assert(q.drop_last() =~= Seq::<u64>::empty());
    assert(level_total(orders, Seq::<u64>::empty()) == 0);
    assert(q.last() == x);
}

/// Changing the quantity of one order that appears once in a queue changes the total by the
/// difference.
pub proof fn lemma_total_update(o1: Map<u64, RestingOrder>, o2: Map<u64, RestingOrder>, q: Seq<u64>, i: int)
    requires
        0 <= i < q.len(),
        q.no_duplicates(),
        forall|j: int| 0 <= j < q.len() && j != i ==> #[trigger] o1[q[j]].quantity == o2[q[j]].quantity,
    ensures
        level_total(o2, q) + o1[q[i]].quantity.0 == level_total(o1, q) + o2[q[i]].quantity.0,
{
    lemma_total_remove(o1, q, i);
    lemma_total_remove(o2, q, i);
    let r = q.remove(i);
    assert forall|j: int| 0 <= j < r.len() implies #[trigger] o1[r[j]].quantity == o2[r[j]].quantity by {
        if j < i {
            assert(r[j] == q[j]);
        } else {
            assert(r[j] == q[j + 1]);
        }
    }
    lemma_total_frame(o1, o2, r);
}

} // verus!
