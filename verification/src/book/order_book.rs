//! The order book proper: its fields, its well-formedness, and its operations.
use std::collections::{BTreeMap, HashMap};

use slab::Slab;

use crate::book::links;
use vstd::prelude::*;

use crate::book::arena::{
    arena_contents, arena_get, arena_insert, arena_len, arena_remove, arena_set,
    arena_with_capacity, Node, ARENA_LIMIT,
};
use crate::book::levels::{first_level, last_level, level_at, Level};
use crate::book::model::{BookModel, RestingOrder};
use crate::book::walk::{ascending_levels, sorted_prices};
use crate::domain::order::opposite_side;
use crate::matcher::spec_price_crosses;
use crate::domain::{AccountId, BookLevel, BookSnapshot, EngineError, OrderId, Price, Qty, SeqNum, Side};

verus! {

/// A copy of the oldest resting order at the best price of a side: what an aggressor matches
/// against next. `node` is its arena key.
#[derive(Debug, Clone, Copy)]
pub struct MakerRef {
    pub node: usize,
    pub price: Price,
    pub id: OrderId,
    pub account: AccountId,
    pub quantity: Qty,
    pub seq: SeqNum,
}

/// The two-sided limit order book.
pub struct OrderBook {
    nodes: Slab<Node>,
    bids: BTreeMap<u64, Level>,
    asks: BTreeMap<u64, Level>,
    index: HashMap<u64, usize>,
    model: Ghost<BookModel>,
}

impl View for OrderBook {
    type V = BookModel;

    closed spec fn view(&self) -> BookModel {
        self.model@
    }
}

impl OrderBook {
    /// The arena key of resting order `id`.
    pub closed spec fn key_of(&self, id: u64) -> usize {
        self.index@[id]
    }

    /// Whether arena key `key` holds a node.
    pub closed spec fn has_node(&self, key: usize) -> bool {
        arena_contents(self.nodes).contains_key(key)
    }

    /// The id of the order stored under arena key `key`.
    pub closed spec fn id_at(&self, key: usize) -> u64 {
        arena_contents(self.nodes)[key].id.0
    }

    /// Well-formedness: the arena, the index, the level maps and the links agree with the
    /// model.
    pub closed spec fn wf(&self) -> bool {
        links::raw_wf(arena_contents(self.nodes), self.index@, self.model@, self.bids@, self.asks@)
    }

    /// The arena key of a resting order is a node of the arena and holds that order.
    pub proof fn lemma_key_of(&self, id: u64)
        requires
            self.wf(),
            self@.contains(id),
        ensures
            self.has_node(self.key_of(id)),
            self.id_at(self.key_of(id)) == id,
    {
        reveal(links::raw_wf);
    }

    /// The model of a well-formed book is well formed.
    pub proof fn lemma_model_wf(&self)
        requires
            self.wf(),
        ensures
            self@.wf(),
    {
        self.lemma_level_doms();
    }

    /// The level maps hold exactly the prices of the model.
    proof fn lemma_level_doms(&self)
        requires
            self.wf(),
        ensures
            self@.wf(),
            self.bids@.dom() == self@.bids.dom(),
            self.asks@.dom() == self@.asks.dom(),
    {
        reveal(links::raw_wf);
        reveal(links::side_ok);
        assert(self.bids@.dom() =~= self@.bids.dom());
        assert(self.asks@.dom() =~= self@.asks.dom());
    }

    /// Each level's total is the total of its queue.
    proof fn lemma_level_totals(&self)
        requires
            self.wf(),
        ensures
            forall|p: u64| #[trigger] self.bids@.contains_key(p) ==> self.bids@[p].total.0 == self@.total_at(Side::Buy, p),
            forall|p: u64| #[trigger] self.asks@.contains_key(p) ==> self.asks@[p].total.0 == self@.total_at(Side::Sell, p),
    {
        reveal(links::raw_wf);
        reveal(links::side_ok);
        assert forall|p: u64| #[trigger] self.bids@.contains_key(p) implies self.bids@[p].total.0 == self@.total_at(Side::Buy, p) by {
            assert(self@.bids.contains_key(p));
            assert(links::level_matches(self.bids@[p], self.index@, self@.bids[p], self@.orders));
        }
        assert forall|p: u64| #[trigger] self.asks@.contains_key(p) implies self.asks@[p].total.0 == self@.total_at(Side::Sell, p) by {
            assert(self@.asks.contains_key(p));
            assert(links::level_matches(self.asks@[p], self.index@, self@.asks[p], self@.orders));
        }
    }

    /// Pre-size the arena for `capacity` resting orders.
    ///
    /// The capacity only pre-sizes storage; a request beyond what the arena may ever hold is
    /// served with that largest size.
    pub fn with_capacity(capacity: usize) -> (r: Self)
        ensures
            r.wf(),
            r@ == BookModel::empty(),
    {
        let cap = if capacity > ARENA_LIMIT {
            ARENA_LIMIT
        } else {
            capacity
        };
        let r = OrderBook {
            nodes: arena_with_capacity(cap),
            bids: BTreeMap::new(),
            asks: BTreeMap::new(),
            index: HashMap::with_capacity(cap),
            model: Ghost(BookModel::empty()),
        };
        proof {
            reveal(links::raw_wf);
            reveal(links::side_ok);
            assert(r.model@.orders.dom() =~= Set::<u64>::empty());
        }
        r
    }

    /// Best (highest) bid price.
    pub fn best_bid(&self) -> (r: Option<Price>)
        requires
            self.wf(),
        ensures
            match r {
                None => self@.best_price(Side::Buy) is None,
                Some(p) => self@.best_price(Side::Buy) == Some(p.0),
            },
    {
        proof {
            self.lemma_level_doms();
        }
        match last_level(&self.bids) {
            None => {
                proof {
                    assert(!exists|p: u64| crate::book::model::is_best_price(Side::Buy, p, self@.bids.dom()));
                }
                None
            },
            Some((p, _)) => {
                proof {
                    assert(crate::book::model::is_best_price(Side::Buy, p, self@.bids.dom()));
                }
                Some(Price(p))
            },
        }
    }

    /// Best (lowest) ask price.
    pub fn best_ask(&self) -> (r: Option<Price>)
        requires
            self.wf(),
        ensures
            match r {
                None => self@.best_price(Side::Sell) is None,
                Some(p) => self@.best_price(Side::Sell) == Some(p.0),
            },
    {
        proof {
            self.lemma_level_doms();
        }
        match first_level(&self.asks) {
            None => {
                proof {
                    assert(!exists|p: u64| crate::book::model::is_best_price(Side::Sell, p, self@.asks.dom()));
                }
                None
            },
            Some((p, _)) => {
                proof {
                    assert(crate::book::model::is_best_price(Side::Sell, p, self@.asks.dom()));
                }
                Some(Price(p))
            },
        }
    }

    /// Number of resting orders.
    pub fn len(&self) -> (r: usize)
        requires
            self.wf(),
        ensures
            r == self@.len(),
    {
        proof {
            reveal(links::raw_wf);
            assert(self.index@.dom() =~= self@.orders.dom());
        }
        self.index.len()
    }

    /// Whether no order rests.
    pub fn is_empty(&self) -> (r: bool)
        requires
            self.wf(),
        ensures
            r == (self@.len() == 0),
    {
        proof {
            reveal(links::raw_wf);
            assert(self.index@.dom() =~= self@.orders.dom());
        }
        self.index.is_empty()
    }

    /// Whether order `id` rests in the book.
    pub fn contains(&self, id: OrderId) -> (r: bool)
        requires
            self.wf(),
        ensures
            r == self@.contains(id.0),
    {
        proof {
            reveal(links::raw_wf);
        }
        self.index.contains_key(&id.0)
    }

    /// A resting order's side, price, account and remaining quantity.
    pub fn get(&self, id: OrderId) -> (r: Option<(Side, Price, AccountId, Qty)>)
        requires
            self.wf(),
        ensures
            match r {
                None => !self@.contains(id.0),
                Some(t) => self@.contains(id.0) && t == (
                    self@.orders[id.0].side,
                    self@.orders[id.0].price,
                    self@.orders[id.0].account,
                    self@.orders[id.0].quantity,
                ),
            },
    {
        proof {
            reveal(links::raw_wf);
        }
        match self.index.get(&id.0) {
            None => None,
            Some(k) => {
                let n = arena_get(&self.nodes, *k);
                Some((n.side, n.price, n.account, n.quantity))
            },
        }
    }

    /// The oldest resting order on `side` at its best price: the next maker to fill.
    pub fn best_maker(&self, side: Side) -> (r: Option<MakerRef>)
        requires
            self.wf(),
        ensures
            match r {
                None => self@.best_price(side) is None,
                Some(m) => {
                    &&& self@.best_price(side) == Some(m.price.0)
                    &&& self@.best_maker(side) == Some(RestingOrder {
                        id: m.id,
                        account: m.account,
                        side,
                        price: m.price,
                        quantity: m.quantity,
                        seq: m.seq,
                    })
                    &&& m.node == self.key_of(m.id.0)
                },
            },
    {
        proof {
            self.lemma_level_doms();
        }
        let found = match side {
            Side::Buy => last_level(&self.bids),
            Side::Sell => first_level(&self.asks),
        };
        match found {
            None => {
                proof {
                    assert(!exists|p: u64| crate::book::model::is_best_price(side, p, self@.queues(side).dom()));
                }
                None
            },
            Some((p, level)) => {
                proof {
                    assert(crate::book::model::is_best_price(side, p, self@.queues(side).dom()));
                    let q = self@.queues(side)[p];
                    assert(self@.queue_wf(side, p));
                    assert(self@.orders.contains_key(q[0]));
                    reveal(links::raw_wf);
                    reveal(links::side_ok);
                    assert(links::level_matches(level, self.index@, q, self@.orders));
                }
                let n = arena_get(&self.nodes, level.head);
                Some(MakerRef {
                    node: level.head,
                    price: Price(p),
                    id: n.id,
                    account: n.account,
                    quantity: n.quantity,
                    seq: n.seq,
                })
            },
        }
    }

    /// Rest an order at the tail of its price level (FIFO). Refused with `CapacityExhausted`,
    /// the book unchanged, when the id already rests, the arena is full, or the level cannot
    /// count one more order or add `quantity` to its total.
    pub fn insert(
        &mut self,
        id: OrderId,
        account: AccountId,
        side: Side,
        price: Price,
        quantity: Qty,
        seq: SeqNum,
    ) -> (r: Result<(), EngineError>)
        requires
            old(self).wf(),
        ensures
            final(self).wf(),
            old(self)@.can_rest(id.0, side, price.0, quantity.0) ==> r is Ok && final(self)@
                == old(self)@.push_order(RestingOrder { id, account, side, price, quantity, seq }),
            !old(self)@.can_rest(id.0, side, price.0, quantity.0) ==> r == Err::<(), EngineError>(
                EngineError::CapacityExhausted,
            ) && final(self)@ == old(self)@,
    {
        proof {
            self.lemma_level_doms();
            reveal(links::raw_wf);
            assert(self.index@.dom() =~= self@.orders.dom());
        }
        let ghost o = RestingOrder { id, account, side, price, quantity, seq };
        let ghost nodes0 = arena_contents(self.nodes);
        let ghost keys0 = self.index@;
        let ghost bl0 = self.bids@;
        let ghost al0 = self.asks@;
        if self.index.contains_key(&id.0) {
            return Err(EngineError::CapacityExhausted);
        }
        if arena_len(&self.nodes) >= ARENA_LIMIT {
            return Err(EngineError::CapacityExhausted);
        }
        let existing = match side {
            Side::Buy => level_at(&self.bids, price.0),
            Side::Sell => level_at(&self.asks, price.0),
        };
        proof {
            if existing is Some {
                reveal(links::side_ok);
                let lv = links::side_levels(side, bl0, al0);
                assert(links::level_matches(lv[price.0], keys0, self@.queues(side)[price.0], self@.orders));
            }
        }
        let key = match existing {
            Some(level) => {
                if level.count == u32::MAX || level.total.0 > u64::MAX - quantity.0 {
                    return Err(EngineError::CapacityExhausted);
                }
                let key = arena_insert(
                    &mut self.nodes,
                    Node { id, account, price, side, quantity, seq, prev: Some(level.tail), next: None },
                );
                proof {
                    reveal(links::side_ok);
                    let q = self@.queues(side)[price.0];
                    assert(self@.queue_wf(side, price.0));
                    assert(self@.orders.contains_key(q[q.len() - 1]));
                }
                let mut tail = arena_get(&self.nodes, level.tail);
                tail.next = Some(key);
                arena_set(&mut self.nodes, level.tail, tail);
                let updated = Level {
                    head: level.head,
                    tail: key,
                    total: Qty(level.total.0 + quantity.0),
                    count: level.count + 1,
                };
                match side {
                    Side::Buy => {
                        self.bids.insert(price.0, updated);
                    },
                    Side::Sell => {
                        self.asks.insert(price.0, updated);
                    },
                }
                key
            },
            None => {
                let key = arena_insert(
                    &mut self.nodes,
                    Node { id, account, price, side, quantity, seq, prev: None, next: None },
                );
                let fresh = Level { head: key, tail: key, total: quantity, count: 1 };
                match side {
                    Side::Buy => {
                        self.bids.insert(price.0, fresh);
                    },
                    Side::Sell => {
                        self.asks.insert(price.0, fresh);
                    },
                }
                key
            },
        };
        self.index.insert(id.0, key);
        proof {
            links::lemma_rest(nodes0, keys0, self.model@, bl0, al0, o, key, existing);
            self.model@ = self.model@.push_order(o);
            assert(arena_contents(self.nodes) == links::rested_nodes(nodes0, o, key, existing));
        }
        Ok(())
    }

    /// Unlink a node from its level's FIFO and free its arena slot; drop the level if empty.
    fn remove_node(&mut self, key: usize) -> (removed: Node)
        requires
            old(self).wf(),
            old(self).has_node(key),
        ensures
            final(self).wf(),
            removed.id.0 == old(self).id_at(key),
            old(self)@.contains(removed.id.0),
            removed.quantity == old(self)@.orders[removed.id.0].quantity,
            final(self)@ == old(self)@.remove_order(removed.id.0),
    {
        let ghost nodes0 = arena_contents(self.nodes);
        let ghost keys0 = self.index@;
        let ghost bl0 = self.bids@;
        let ghost al0 = self.asks@;
        let ghost m0 = self.model@;
        proof {
            links::lemma_unlink(nodes0, keys0, m0, bl0, al0, key);
            reveal(links::raw_wf);
        }
        let n = arena_get(&self.nodes, key);
        if let Some(pk) = n.prev {
            let mut pn = arena_get(&self.nodes, pk);
            pn.next = n.next;
            arena_set(&mut self.nodes, pk, pn);
        }
        if let Some(nk) = n.next {
            let mut xn = arena_get(&self.nodes, nk);
            xn.prev = n.prev;
            arena_set(&mut self.nodes, nk, xn);
        }
        let found = match n.side {
            Side::Buy => level_at(&self.bids, n.price.0),
            Side::Sell => level_at(&self.asks, n.price.0),
        };
        if let Some(mut level) = found {
            if level.head == key {
                if let Some(nk) = n.next {
                    level.head = nk;
                }
            }
            if level.tail == key {
                if let Some(pk) = n.prev {
                    level.tail = pk;
                }
            }
            level.total = match level.total.checked_sub(n.quantity) {
                Some(t) => t,
                None => Qty(0),
            };
            level.count = level.count.saturating_sub(1);
            match n.side {
                Side::Buy => {
                    if level.count == 0 {
                        self.bids.remove(&n.price.0);
                    } else {
                        self.bids.insert(n.price.0, level);
                    }
                },
                Side::Sell => {
                    if level.count == 0 {
                        self.asks.remove(&n.price.0);
                    } else {
                        self.asks.insert(n.price.0, level);
                    }
                },
            }
        }
        self.index.remove(&n.id.0);
        let removed = arena_remove(&mut self.nodes, key);
        proof {
            assert(arena_contents(self.nodes) == links::unlinked_nodes(nodes0, key));
            self.model@ = m0.remove_order(n.id.0);
            let lv = links::side_levels(n.side, bl0, al0);
            assert(found == Some(lv[n.price.0]));
            if n.side == Side::Buy {
                assert(self.bids@ == links::unlinked_levels(bl0, bl0[n.price.0], n, key));
            } else {
                assert(self.asks@ == links::unlinked_levels(al0, al0[n.price.0], n, key));
            }
        }
        removed
    }

    /// Cancel a resting order, returning its remaining quantity.
    pub fn cancel(&mut self, id: OrderId) -> (r: Result<Qty, EngineError>)
        requires
            old(self).wf(),
        ensures
            final(self).wf(),
            match r {
                Ok(q) => {
                    &&& old(self)@.contains(id.0)
                    &&& q == old(self)@.orders[id.0].quantity
                    &&& final(self)@ == old(self)@.remove_order(id.0)
                },
                Err(e) => {
                    &&& !old(self)@.contains(id.0)
                    &&& e == EngineError::UnknownOrder(id)
                    &&& final(self)@ == old(self)@
                },
            },
    {
        proof {
            reveal(links::raw_wf);
        }
        let key = match self.index.get(&id.0) {
            Some(k) => *k,
            None => {
                return Err(EngineError::UnknownOrder(id));
            },
        };
        let removed = self.remove_node(key);
        Ok(removed.quantity)
    }

    /// Take `fill` off the maker at arena key `node_key`; a maker left with nothing is unlinked
    /// and freed, and its level goes when it becomes empty. `fill` must not exceed the maker's
    /// quantity.
    pub fn reduce_maker(&mut self, node_key: usize, fill: Qty)
        requires
            old(self).wf(),
            old(self).has_node(node_key),
            fill.0 <= old(self)@.orders[old(self).id_at(node_key)].quantity.0,
        ensures
            final(self).wf(),
            final(self)@ == old(self)@.reduce_order(old(self).id_at(node_key), fill.0),
    {
        let ghost nodes0 = arena_contents(self.nodes);
        let ghost keys0 = self.index@;
        let ghost bl0 = self.bids@;
        let ghost al0 = self.asks@;
        let ghost m0 = self.model@;
        let mut node = arena_get(&self.nodes, node_key);
        proof {
            reveal(links::raw_wf);
            links::lemma_requantify(nodes0, keys0, m0, bl0, al0, node_key, (node.quantity.0 - fill.0) as u64);
        }
        let ghost id = node.id.0;
        let left = node.quantity.0 - fill.0;
        node.quantity = Qty(left);
        arena_set(&mut self.nodes, node_key, node);
        let found = match node.side {
            Side::Buy => level_at(&self.bids, node.price.0),
            Side::Sell => level_at(&self.asks, node.price.0),
        };
        if let Some(mut level) = found {
            level.total = match level.total.checked_sub(fill) {
                Some(t) => t,
                None => Qty(0),
            };
            match node.side {
                Side::Buy => {
                    self.bids.insert(node.price.0, level);
                },
                Side::Sell => {
                    self.asks.insert(node.price.0, level);
                },
            }
        }
        proof {
            self.model@ = m0.set_quantity(id, left);
            let lv = links::side_levels(node.side, bl0, al0);
            assert(found == Some(lv[node.price.0]));
            assert(arena_contents(self.nodes) == links::requantified_nodes(nodes0, node_key, left));
            if node.side == Side::Buy {
                assert(self.bids@ == bl0.insert(node.price.0, links::requantified_level(bl0[node.price.0], nodes0[node_key].quantity.0, left)));
            } else {
                assert(self.asks@ == al0.insert(node.price.0, links::requantified_level(al0[node.price.0], nodes0[node_key].quantity.0, left)));
            }
        }
        if left == 0 {
            let _ = self.remove_node(node_key);
            proof {
                let a = m0.set_quantity(id, 0).remove_order(id);
                let b = m0.remove_order(id);
                assert(a.orders =~= b.orders);
                assert(a.bids =~= b.bids);
                assert(a.asks =~= b.asks);
            }
        }
    }

    /// Set a resting order's quantity in place, keeping its time priority. The new quantity
    /// must not exceed the current one (this lowers an order).
    pub fn reduce_in_place(&mut self, id: OrderId, new_qty: Qty) -> (r: Result<(), EngineError>)
        requires
            old(self).wf(),
            old(self)@.contains(id.0) ==> new_qty.0 <= old(self)@.orders[id.0].quantity.0,
        ensures
            final(self).wf(),
            match r {
                Ok(_) => old(self)@.contains(id.0) && final(self)@ == old(self)@.set_quantity(id.0, new_qty.0),
                Err(e) => {
                    &&& !old(self)@.contains(id.0)
                    &&& e == EngineError::UnknownOrder(id)
                    &&& final(self)@ == old(self)@
                },
            },
    {
        proof {
            reveal(links::raw_wf);
        }
        let key = match self.index.get(&id.0) {
            Some(k) => *k,
            None => {
                return Err(EngineError::UnknownOrder(id));
            },
        };
        let ghost nodes0 = arena_contents(self.nodes);
        let ghost keys0 = self.index@;
        let ghost bl0 = self.bids@;
        let ghost al0 = self.asks@;
        let ghost m0 = self.model@;
        let mut node = arena_get(&self.nodes, key);
        proof {
            links::lemma_requantify(nodes0, keys0, m0, bl0, al0, key, new_qty.0);
        }
        let old_qty = node.quantity;
        node.quantity = new_qty;
        arena_set(&mut self.nodes, key, node);
        let found = match node.side {
            Side::Buy => level_at(&self.bids, node.price.0),
            Side::Sell => level_at(&self.asks, node.price.0),
        };
        if let Some(mut level) = found {
            let delta = match old_qty.checked_sub(new_qty) {
                Some(d) => d,
                None => Qty(0),
            };
            level.total = match level.total.checked_sub(delta) {
                Some(t) => t,
                None => Qty(0),
            };
            match node.side {
                Side::Buy => {
                    self.bids.insert(node.price.0, level);
                },
                Side::Sell => {
                    self.asks.insert(node.price.0, level);
                },
            }
        }
        proof {
            self.model@ = m0.set_quantity(id.0, new_qty.0);
            let lv = links::side_levels(node.side, bl0, al0);
            assert(found == Some(lv[node.price.0]));
            assert(arena_contents(self.nodes) == links::requantified_nodes(nodes0, key, new_qty.0));
            if node.side == Side::Buy {
                assert(self.bids@ == bl0.insert(node.price.0, links::requantified_level(bl0[node.price.0], old_qty.0, new_qty.0)));
            } else {
                assert(self.asks@ == al0.insert(node.price.0, links::requantified_level(al0[node.price.0], old_qty.0, new_qty.0)));
            }
        }
        Ok(())
    }

    /// Total resting quantity an aggressor on `taker_side` with optional `limit` could match
    /// against (`None` is a market order: all opposing liquidity). Used for fill-or-kill. It
    /// ignores self-trade prevention: a fill-or-kill from an account that owns part of the
    /// opposing book may report as fillable and then be stopped by the policy.
    pub fn available_against(&self, taker_side: Side, limit: Option<Price>) -> (r: Qty)
        requires
            self.wf(),
        ensures
            r.0 == self@.available(taker_side, limit),
    {
        proof {
            self.lemma_level_doms();
            self.lemma_level_totals();
        }
        let mut total = Qty(0);
        match taker_side {
            Side::Buy => {
                let asc = ascending_levels(&self.asks);
                let ghost ps = self@.best_first_prices(Side::Sell);
                let mut i: usize = 0;
                while i < asc.len()
                    invariant
                        self.wf(),
                        taker_side == Side::Buy,
                        asc@.len() == ps.len(),
                        ps == sorted_prices(self.asks@.dom()),
                        self.asks@.dom() == self@.asks.dom(),
                        forall|j: int| #![trigger asc@[j]] 0 <= j < asc@.len() ==> {
                            &&& asc@[j].0 == ps[j]
                            &&& self.asks@.contains_key(asc@[j].0)
                            &&& asc@[j].1 == self.asks@[asc@[j].0].total
                        },
                        forall|p: u64| #[trigger] self.asks@.contains_key(p) ==> self.asks@[p].total.0 == self@.total_at(Side::Sell, p),
                        0 <= i <= asc@.len(),
                        self@.available_from(taker_side, limit, i as int, total.0) == self@.available(taker_side, limit),
                    decreases asc@.len() - i,
                {
                    let (p, t) = asc[i];
                    let ghost before = total.0;
                    proof {
                        assert(ps[i as int] == p);
                        assert(self@.total_at(Side::Sell, p) == t.0);
                        assert(opposite_side(taker_side) == Side::Sell);
                        assert(self@.available_from(taker_side, limit, i as int, before) == (
                            if !spec_price_crosses(taker_side, limit, Price(p)) {
                                before
                            } else {
                                self@.available_from(
                                    taker_side,
                                    limit,
                                    i + 1,
                                    if before + t.0 <= u64::MAX { (before + t.0) as u64 } else { before },
                                )
                            }
                        ));
                    }
                    if let Some(l) = limit {
                        if p > l.0 {
                            return total;
                        }
                    }
                    total = match total.checked_add(t) {
                        Some(x) => x,
                        None => total,
                    };
                    i = i + 1;
                }
            },
            Side::Sell => {
                let asc = ascending_levels(&self.bids);
                let ghost sp = sorted_prices(self.bids@.dom());
                let ghost ps = self@.best_first_prices(Side::Buy);
                let n = asc.len();
                let mut j: usize = 0;
                while j < n
                    invariant
                        self.wf(),
                        taker_side == Side::Sell,
                        n == asc@.len(),
                        asc@.len() == sp.len(),
                        ps == sp.reverse(),
                        self.bids@.dom() == self@.bids.dom(),
                        sp == sorted_prices(self@.bids.dom()),
                        forall|k: int| #![trigger asc@[k]] 0 <= k < asc@.len() ==> {
                            &&& asc@[k].0 == sp[k]
                            &&& self.bids@.contains_key(asc@[k].0)
                            &&& asc@[k].1 == self.bids@[asc@[k].0].total
                        },
                        forall|p: u64| #[trigger] self.bids@.contains_key(p) ==> self.bids@[p].total.0 == self@.total_at(Side::Buy, p),
                        0 <= j <= n,
                        self@.available_from(taker_side, limit, j as int, total.0) == self@.available(taker_side, limit),
                    decreases n - j,
                {
                    let (p, t) = asc[n - 1 - j];
                    let ghost before = total.0;
                    proof {
                        assert(ps[j as int] == sp[n - 1 - j]);
                        assert(ps[j as int] == p);
                        assert(self@.total_at(Side::Buy, p) == t.0);
                        assert(opposite_side(taker_side) == Side::Buy);
                        assert(self@.available_from(taker_side, limit, j as int, before) == (
                            if !spec_price_crosses(taker_side, limit, Price(p)) {
                                before
                            } else {
                                self@.available_from(
                                    taker_side,
                                    limit,
                                    j + 1,
                                    if before + t.0 <= u64::MAX { (before + t.0) as u64 } else { before },
                                )
                            }
                        ));
                    }
                    if let Some(l) = limit {
                        if p < l.0 {
                            return total;
                        }
                    }
                    total = match total.checked_add(t) {
                        Some(x) => x,
                        None => total,
                    };
                    j = j + 1;
                }
            },
        }
        total
    }

    /// An aggregated level-2 snapshot, capped at `depth` levels per side (0 = all levels).
    pub fn snapshot(&self, depth: usize, seq: SeqNum) -> (r: BookSnapshot)
        requires
            self.wf(),
        ensures
            r.bids@ == self@.depth_levels(Side::Buy, depth),
            r.asks@ == self@.depth_levels(Side::Sell, depth),
            r.seq == seq,
    {
        proof {
            self.lemma_level_doms();
            self.lemma_level_totals();
        }
        let asc_b = ascending_levels(&self.bids);
        let nb = asc_b.len();
        let take_b = if depth == 0 || depth >= nb { nb } else { depth };
        let ghost sb = sorted_prices(self.bids@.dom());
        let mut bids: Vec<BookLevel> = Vec::new();
        let mut j: usize = 0;
        while j < take_b
            invariant
                nb == asc_b@.len(),
                asc_b@.len() == sb.len(),
                take_b <= nb,
                take_b == crate::book::model::depth_count(nb as nat, depth),
                sb == sorted_prices(self@.bids.dom()),
                self.bids@.dom() == self@.bids.dom(),
                forall|k: int| #![trigger asc_b@[k]] 0 <= k < asc_b@.len() ==> {
                    &&& asc_b@[k].0 == sb[k]
                    &&& self.bids@.contains_key(asc_b@[k].0)
                    &&& asc_b@[k].1 == self.bids@[asc_b@[k].0].total
                },
                forall|p: u64| #[trigger] self.bids@.contains_key(p) ==> self.bids@[p].total.0 == self@.total_at(Side::Buy, p),
                0 <= j <= take_b,
                bids@.len() == j,
                forall|k: int| #![trigger bids@[k]] 0 <= k < j ==> bids@[k] == self@.level_view(Side::Buy, sb.reverse()[k]),
            decreases take_b - j,
        {
            let (p, t) = asc_b[nb - 1 - j];
            proof {
                assert(sb.reverse()[j as int] == sb[nb - 1 - j]);
            }
            bids.push(BookLevel { price: Price(p), quantity: t });
            j = j + 1;
        }
        let asc_a = ascending_levels(&self.asks);
        let na = asc_a.len();
        let take_a = if depth == 0 || depth >= na { na } else { depth };
        let ghost sa = sorted_prices(self.asks@.dom());
        let mut asks: Vec<BookLevel> = Vec::new();
        let mut i: usize = 0;
        while i < take_a
            invariant
                na == asc_a@.len(),
                asc_a@.len() == sa.len(),
                take_a <= na,
                sa == sorted_prices(self@.asks.dom()),
                self.asks@.dom() == self@.asks.dom(),
                forall|k: int| #![trigger asc_a@[k]] 0 <= k < asc_a@.len() ==> {
                    &&& asc_a@[k].0 == sa[k]
                    &&& self.asks@.contains_key(asc_a@[k].0)
                    &&& asc_a@[k].1 == self.asks@[asc_a@[k].0].total
                },
                forall|p: u64| #[trigger] self.asks@.contains_key(p) ==> self.asks@[p].total.0 == self@.total_at(Side::Sell, p),
                0 <= i <= take_a,
                asks@.len() == i,
                forall|k: int| #![trigger asks@[k]] 0 <= k < i ==> asks@[k] == self@.level_view(Side::Sell, sa[k]),
            decreases take_a - i,
        {
            let (p, t) = asc_a[i];
            asks.push(BookLevel { price: Price(p), quantity: t });
            i = i + 1;
        }
        proof {
            assert(bids@ =~= self@.depth_levels(Side::Buy, depth));
            assert(asks@ =~= self@.depth_levels(Side::Sell, depth));
        }
        BookSnapshot { bids, asks, seq }
    }
}

} // verus!
