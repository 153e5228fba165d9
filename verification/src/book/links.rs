//! How the arena, the id index and the level maps of a book agree with its model, and why each
//! mutation of the book keeps them in agreement.
use vstd::prelude::*;

use crate::book::arena::Node;
use crate::book::levels::Level;
use crate::book::model::{BookModel, RestingOrder, level_total};
use crate::domain::{Qty, Side};

verus! {

/// An arena node carries exactly the fields of a resting order.
pub open spec fn node_matches(n: Node, o: RestingOrder) -> bool {
    &&& n.id == o.id
    &&& n.account == o.account
    &&& n.side == o.side
    &&& n.price == o.price
    &&& n.quantity == o.quantity
    &&& n.seq == o.seq
}

/// Arena key of the predecessor of position `i` of queue `q`.
pub open spec fn prev_key(keys: Map<u64, usize>, q: Seq<u64>, i: int) -> Option<usize> {
    if i == 0 {
        None
    } else {
        Some(keys[q[i - 1]])
    }
}

/// Arena key of the successor of position `i` of queue `q`.
pub open spec fn next_key(keys: Map<u64, usize>, q: Seq<u64>, i: int) -> Option<usize> {
    if i + 1 == q.len() {
        None
    } else {
        Some(keys[q[i + 1]])
    }
}

/// The nodes of queue `q` are linked in queue order.
pub open spec fn queue_linked(nodes: Map<usize, Node>, keys: Map<u64, usize>, q: Seq<u64>) -> bool {
    forall|i: int|
        #![trigger q[i]]
        0 <= i < q.len() ==> {
            &&& nodes[keys[q[i]]].prev == prev_key(keys, q, i)
            &&& nodes[keys[q[i]]].next == next_key(keys, q, i)
        }
}

/// A level's head, tail, count and total agree with its queue.
pub open spec fn level_matches(l: Level, keys: Map<u64, usize>, q: Seq<u64>, orders: Map<u64, RestingOrder>) -> bool {
    &&& l.head == keys[q[0]]
    &&& l.tail == keys[q[q.len() - 1]]
    &&& l.count as nat == q.len()
    &&& l.total.0 as nat == level_total(orders, q)
}

/// One side of the book agrees with the model.
#[verifier::opaque]
pub open spec fn side_ok(
    nodes: Map<usize, Node>,
    keys: Map<u64, usize>,
    m: BookModel,
    side: Side,
    lv: Map<u64, Level>,
) -> bool {
    &&& forall|p: u64| #[trigger] lv.contains_key(p) <==> m.queues(side).contains_key(p)
    &&& forall|p: u64|
        #[trigger] m.queues(side).contains_key(p) ==> {
            &&& level_matches(lv[p], keys, m.queues(side)[p], m.orders)
            &&& queue_linked(nodes, keys, m.queues(side)[p])
        }
}

/// The parts of a book agree: `nodes` is the arena, `keys` the id index, `m` the model, `bl`
/// and `al` the bid and ask level maps.
#[verifier::opaque]
pub open spec fn raw_wf(
    nodes: Map<usize, Node>,
    keys: Map<u64, usize>,
    m: BookModel,
    bl: Map<u64, Level>,
    al: Map<u64, Level>,
) -> bool {
    &&& m.wf()
    &&& nodes.dom().finite()
    &&& nodes.len() == m.len()
    &&& forall|id: u64| #[trigger] keys.contains_key(id) <==> m.orders.contains_key(id)
    &&& forall|id: u64|
        #[trigger] m.orders.contains_key(id) ==> {
            &&& nodes.contains_key(keys[id])
            &&& node_matches(nodes[keys[id]], m.orders[id])
        }
    &&& forall|k: usize|
        #[trigger] nodes.contains_key(k) ==> {
            &&& keys.contains_key(nodes[k].id.0)
            &&& keys[nodes[k].id.0] == k
        }
    &&& side_ok(nodes, keys, m, Side::Buy, bl)
    &&& side_ok(nodes, keys, m, Side::Sell, al)
}

/// The level map of `side`.
pub open spec fn side_levels(side: Side, bl: Map<u64, Level>, al: Map<u64, Level>) -> Map<u64, Level> {
    match side {
        Side::Buy => bl,
        Side::Sell => al,
    }
}

/// The arena node of a newly rested order.
pub open spec fn fresh_node(o: RestingOrder, prev: Option<usize>) -> Node {
    Node {
        id: o.id,
        account: o.account,
        price: o.price,
        side: o.side,
        quantity: o.quantity,
        seq: o.seq,
        prev,
        next: None,
    }
}

/// The level after resting `qty` at arena key `k`, on top of the existing level if any.
pub open spec fn rested_level(existing: Option<Level>, k: usize, qty: u64) -> Level {
    match existing {
        Some(l) => Level {
            head: l.head,
            tail: k,
            total: Qty((l.total.0 + qty) as u64),
            count: (l.count + 1) as u32,
        },
        None => Level { head: k, tail: k, total: Qty(qty), count: 1 },
    }
}

/// The arena after resting `o` at key `k`, linked behind the tail of the existing level if any.
pub open spec fn rested_nodes(nodes: Map<usize, Node>, o: RestingOrder, k: usize, existing: Option<Level>) -> Map<usize, Node> {
    match existing {
        Some(l) => nodes.insert(k, fresh_node(o, Some(l.tail))).insert(
            l.tail,
            Node { next: Some(k), ..nodes[l.tail] },
        ),
        None => nodes.insert(k, fresh_node(o, None)),
    }
}

/// A queue whose ids keep their keys, links and quantities keeps its level and its links.
pub proof fn lemma_queue_frame(
    n1: Map<usize, Node>,
    k1: Map<u64, usize>,
    o1: Map<u64, RestingOrder>,
    n2: Map<usize, Node>,
    k2: Map<u64, usize>,
    o2: Map<u64, RestingOrder>,
    q: Seq<u64>,
    l: Level,
)
    requires
        q.len() > 0,
        level_matches(l, k1, q, o1),
        queue_linked(n1, k1, q),
        forall|i: int|
            #![trigger q[i]]
            0 <= i < q.len() ==> {
                &&& k2[q[i]] == k1[q[i]]
                &&& n2[k1[q[i]]].prev == n1[k1[q[i]]].prev
                &&& n2[k1[q[i]]].next == n1[k1[q[i]]].next
                &&& o2[q[i]].quantity == o1[q[i]].quantity
            },
    ensures
        level_matches(l, k2, q, o2),
        queue_linked(n2, k2, q),
{
    crate::book::model::lemma_total_frame(o1, o2, q);
    assert(k2[q[0]] == k1[q[0]]);
    assert(k2[q[q.len() - 1]] == k1[q[q.len() - 1]]);
    assert forall|i: int| #![trigger q[i]] 0 <= i < q.len() implies {
        &&& n2[k2[q[i]]].prev == prev_key(k2, q, i)
        &&& n2[k2[q[i]]].next == next_key(k2, q, i)
    } by {
        if i > 0 {
            assert(k2[q[i - 1]] == k1[q[i - 1]]);
        }
        if i + 1 < q.len() {
            assert(k2[q[i + 1]] == k1[q[i + 1]]);
        }
    }
}

/// Resting a new order at a fresh arena key keeps the book well formed.
pub proof fn lemma_rest(
    nodes: Map<usize, Node>,
    keys: Map<u64, usize>,
    m: BookModel,
    bl: Map<u64, Level>,
    al: Map<u64, Level>,
    o: RestingOrder,
    k: usize,
    existing: Option<Level>,
)
    requires
        raw_wf(nodes, keys, m, bl, al),
        !m.contains(o.id.0),
        !nodes.contains_key(k),
        existing == (if side_levels(o.side, bl, al).contains_key(o.price.0) {
            Some(side_levels(o.side, bl, al)[o.price.0])
        } else {
            None
        }),
        existing matches Some(l) ==> l.count < u32::MAX && l.total.0 + o.quantity.0 <= u64::MAX,
    ensures
        ({
            let rl = rested_level(existing, k, o.quantity.0);
            raw_wf(
                rested_nodes(nodes, o, k, existing),
                keys.insert(o.id.0, k),
                m.push_order(o),
                if o.side == Side::Buy { bl.insert(o.price.0, rl) } else { bl },
                if o.side == Side::Sell { al.insert(o.price.0, rl) } else { al },
            )
        }),
{
    reveal(raw_wf);
    let id = o.id.0;
    let p = o.price.0;
    let rl = rested_level(existing, k, o.quantity.0);
    let n2 = rested_nodes(nodes, o, k, existing);
    let k2 = keys.insert(id, k);
    let m2 = m.push_order(o);
    let bl2 = if o.side == Side::Buy { bl.insert(p, rl) } else { bl };
    let al2 = if o.side == Side::Sell { al.insert(p, rl) } else { al };
    crate::book::model::lemma_push_wf(m, o);
    assert(side_ok(nodes, keys, m, Side::Buy, bl) && side_ok(nodes, keys, m, Side::Sell, al));
    reveal(side_ok);
    let lv = side_levels(o.side, bl, al);
    assert(lv.contains_key(p) <==> m.queues(o.side).contains_key(p));
    // the tail of the existing level, if any
    let tail_id: u64 = if existing is Some { m.queues(o.side)[p].last() } else { 0 };
    if existing is Some {
        assert(m.queue_wf(o.side, p));
        let q = m.queues(o.side)[p];
        assert(q[q.len() - 1] == tail_id);
        assert(m.orders.contains_key(tail_id));
        assert(level_matches(lv[p], keys, q, m.orders));
        assert(nodes.contains_key(keys[tail_id]));
        assert(existing->0.tail == keys[tail_id]);
    }
    // arena size
    assert(n2.dom() =~= nodes.dom().insert(k));
    assert(m2.orders.dom() =~= m.orders.dom().insert(id));
    // index domain
    assert forall|x: u64| #[trigger] k2.contains_key(x) <==> m2.orders.contains_key(x) by {}
    // every order's node
    assert forall|x: u64| #[trigger] m2.orders.contains_key(x) implies {
        &&& n2.contains_key(k2[x])
        &&& node_matches(n2[k2[x]], m2.orders[x])
    } by {
        if x != id {
            assert(m.orders.contains_key(x));
            assert(nodes.contains_key(keys[x]));
            assert(keys[x] != k);
        }
    }
    // every node's key
    assert forall|kk: usize| #[trigger] n2.contains_key(kk) implies {
        &&& k2.contains_key(n2[kk].id.0)
        &&& k2[n2[kk].id.0] == kk
    } by {
        if kk != k {
            assert(nodes.contains_key(kk));
            assert(n2[kk].id == nodes[kk].id);
            let x = nodes[kk].id.0;
            assert(keys.contains_key(x));
            assert(x != id);
        }
    }
    // a resting id other than the new one keeps its key, links and quantity unless it is the
    // tail it is linked behind
    assert forall|x: u64| #![trigger m.orders.contains_key(x)]
        m.orders.contains_key(x) && x != tail_id implies {
            &&& k2[x] == keys[x]
            &&& n2[keys[x]].prev == nodes[keys[x]].prev
            &&& n2[keys[x]].next == nodes[keys[x]].next
            &&& m2.orders[x].quantity == m.orders[x].quantity
        } by {
        assert(nodes.contains_key(keys[x]));
        assert(x != id);
        assert(keys[x] != k);
        if existing is Some {
            assert(nodes[keys[tail_id]].id.0 == tail_id);
            assert(nodes[keys[x]].id.0 == x);
            assert(keys[x] != keys[tail_id]);
        }
    }
    // both sides
    assert forall|side: Side| #![trigger m2.queues(side)]
        side == Side::Buy || side == Side::Sell implies side_ok(n2, k2, m2, side, side_levels(side, bl2, al2)) by {
        let lv1 = side_levels(side, bl, al);
        let lv2 = side_levels(side, bl2, al2);
        assert(side_ok(nodes, keys, m, side, lv1));
        assert forall|x: u64| #[trigger] lv2.contains_key(x) <==> m2.queues(side).contains_key(x) by {}
        assert forall|x: u64| #[trigger] m2.queues(side).contains_key(x) implies {
            &&& level_matches(lv2[x], k2, m2.queues(side)[x], m2.orders)
            &&& queue_linked(n2, k2, m2.queues(side)[x])
        } by {
            if side == o.side && x == p {
                let q2 = m2.queues(side)[x];
                if existing is Some {
                    let q = m.queues(side)[x];
                    let l = existing->0;
                    assert(q2 == q.push(id));
                    assert(m.queue_wf(side, x));
                    assert(level_matches(l, keys, q, m.orders));
                    assert(queue_linked(nodes, keys, q));
                    crate::book::model::lemma_total_push(m2.orders, q, id);
                    assert forall|i: int| 0 <= i < q.len() implies #[trigger] m2.orders[q[i]].quantity == m.orders[q[i]].quantity by {
                        assert(m.orders.contains_key(q[i]));
                    }
                    crate::book::model::lemma_total_frame(m.orders, m2.orders, q);
                    assert(lv2[x] == rl);
                    assert(k2[q2[0]] == keys[q[0]]) by {
                        assert(m.orders.contains_key(q[0]));
                    }
                    assert forall|i: int| #![trigger q2[i]] 0 <= i < q2.len() implies {
                        &&& n2[k2[q2[i]]].prev == prev_key(k2, q2, i)
                        &&& n2[k2[q2[i]]].next == next_key(k2, q2, i)
                    } by {
                        if i == q.len() {
                            assert(q2[i - 1] == tail_id);
                            assert(k2[tail_id] == keys[tail_id]);
                        } else {
                            assert(q2[i] == q[i]);
                            assert(m.orders.contains_key(q[i]));
                            if i > 0 {
                                assert(q2[i - 1] == q[i - 1]);
                                assert(m.orders.contains_key(q[i - 1]));
                            }
                            if i + 1 < q.len() {
                                assert(q2[i + 1] == q[i + 1]);
                                assert(m.orders.contains_key(q[i + 1]));
                            }
                            if i + 1 == q.len() {
                                assert(q[i] == tail_id);
                            } else {
                                assert(q[i] != tail_id);
                            }
                        }
                    }
                } else {
                    assert(q2 == seq![id]);
                    crate::book::model::lemma_total_single(m2.orders, id);
                }
            } else {
                let q = m.queues(side)[x];
                assert(m2.queues(side)[x] == q);
                assert(m.queues(side).contains_key(x));
                assert(m.queue_wf(side, x));
                assert(lv2[x] == lv1[x]);
                assert forall|i: int| #![trigger q[i]] 0 <= i < q.len() implies {
                    &&& k2[q[i]] == keys[q[i]]
                    &&& n2[keys[q[i]]].prev == nodes[keys[q[i]]].prev
                    &&& n2[keys[q[i]]].next == nodes[keys[q[i]]].next
                    &&& m2.orders[q[i]].quantity == m.orders[q[i]].quantity
                } by {
                    assert(m.orders.contains_key(q[i]));
                    if existing is Some {
                        let qt = m.queues(o.side)[p];
                        assert(m.orders[tail_id].side == o.side && m.orders[tail_id].price.0 == p) by {
                            assert(m.queue_wf(o.side, p));
                            assert(qt[qt.len() - 1] == tail_id);
                        }
                        assert(q[i] != tail_id);
                    }
                }
                lemma_queue_frame(nodes, keys, m.orders, n2, k2, m2.orders, q, lv1[x]);
            }
        }
    }
    assert(side_ok(n2, k2, m2, Side::Buy, bl2));
    assert(side_ok(n2, k2, m2, Side::Sell, al2));
}

/// The arena after node `key` is unlinked from its neighbours and freed.
pub open spec fn unlinked_nodes(nodes: Map<usize, Node>, key: usize) -> Map<usize, Node> {
    let n = nodes[key];
    let s1 = match n.prev {
        Some(pk) => nodes.insert(pk, Node { next: n.next, ..nodes[pk] }),
        None => nodes,
    };
    let s2 = match n.next {
        Some(nk) => s1.insert(nk, Node { prev: n.prev, ..s1[nk] }),
        None => s1,
    };
    s2.remove(key)
}

/// The level after node `n`, stored at `key`, leaves it.
pub open spec fn unlinked_level(l: Level, n: Node, key: usize) -> Level {
    Level {
        head: if l.head == key && n.next is Some { n.next->0 } else { l.head },
        tail: if l.tail == key && n.prev is Some { n.prev->0 } else { l.tail },
        total: Qty(if l.total.0 >= n.quantity.0 { (l.total.0 - n.quantity.0) as u64 } else { 0 }),
        count: if l.count > 0 { (l.count - 1) as u32 } else { 0 },
    }
}

/// The level map after node `n`, stored at `key`, leaves level `l` at its price.
pub open spec fn unlinked_levels(lv: Map<u64, Level>, l: Level, n: Node, key: usize) -> Map<u64, Level> {
    let l2 = unlinked_level(l, n, key);
    if l2.count == 0 {
        lv.remove(n.price.0)
    } else {
        lv.insert(n.price.0, l2)
    }
}

/// Unlinking and freeing a node keeps the book well formed, with that order removed.
#[verifier::rlimit(100)]
#[verifier::spinoff_prover]
pub proof fn lemma_unlink(
    nodes: Map<usize, Node>,
    keys: Map<u64, usize>,
    m: BookModel,
    bl: Map<u64, Level>,
    al: Map<u64, Level>,
    key: usize,
)
    requires
        raw_wf(nodes, keys, m, bl, al),
        nodes.contains_key(key),
    ensures
        ({
            let n = nodes[key];
            let lv = side_levels(n.side, bl, al);
            &&& m.contains(n.id.0)
            &&& keys[n.id.0] == key
            &&& lv.contains_key(n.price.0)
            &&& n.prev is Some ==> nodes.contains_key(n.prev->0)
            &&& n.next is Some ==> nodes.contains_key(n.next->0)
            &&& n.prev is Some ==> n.next != n.prev
            &&& n.prev is Some ==> n.prev->0 != key
            &&& n.next is Some ==> n.next->0 != key
            &&& lv[n.price.0].count > 0
            &&& raw_wf(
                unlinked_nodes(nodes, key),
                keys.remove(n.id.0),
                m.remove_order(n.id.0),
                if n.side == Side::Buy { unlinked_levels(bl, bl[n.price.0], n, key) } else { bl },
                if n.side == Side::Sell { unlinked_levels(al, al[n.price.0], n, key) } else { al },
            )
        }),
{
    reveal(raw_wf);
    let n = nodes[key];
    let id = n.id.0;
    let p = n.price.0;
    let side0 = n.side;
    assert(keys.contains_key(id) && keys[id] == key);
    assert(m.orders.contains_key(id));
    let o = m.orders[id];
    assert(node_matches(nodes[keys[id]], o));
    assert(o.side == side0 && o.price.0 == p && o.id.0 == id);
    assert(m.queue_wf(side0, p));
    let q = m.queues(side0)[p];
    let i = q.index_of(id);
    assert(q.contains(id));
    assert(0 <= i < q.len() && q[i] == id);
    reveal(side_ok);
    let lv = side_levels(side0, bl, al);
    assert(side_ok(nodes, keys, m, side0, lv));
    assert(lv.contains_key(p));
    let l = lv[p];
    assert(level_matches(l, keys, q, m.orders));
    assert(queue_linked(nodes, keys, q));
    assert(nodes[keys[q[i]]].prev == prev_key(keys, q, i));
    assert(nodes[keys[q[i]]].next == next_key(keys, q, i));
    // the neighbours
    if i > 0 {
        assert(m.orders.contains_key(q[i - 1]));
        assert(nodes[keys[q[i - 1]]].id.0 == q[i - 1]);
        assert(q[i - 1] != id);
    }
    if i + 1 < q.len() {
        assert(m.orders.contains_key(q[i + 1]));
        assert(nodes[keys[q[i + 1]]].id.0 == q[i + 1]);
        assert(q[i + 1] != id);
        if i > 0 {
            assert(q[i - 1] != q[i + 1]);
        }
    }
    let n2 = unlinked_nodes(nodes, key);
    let k2 = keys.remove(id);
    let m2 = m.remove_order(id);
    crate::book::model::lemma_remove_wf(m, id);
    let l2 = unlinked_level(l, n, key);
    let bl2 = if side0 == Side::Buy { unlinked_levels(bl, bl[p], n, key) } else { bl };
    let al2 = if side0 == Side::Sell { unlinked_levels(al, al[p], n, key) } else { al };
    let rest = q.remove(i);
    assert(n2.dom() =~= nodes.dom().remove(key));
    assert(m2.orders.dom() =~= m.orders.dom().remove(id));
    // ids of the level other than the removed one
    let pid: u64 = if i > 0 { q[i - 1] } else { id };
    let nid: u64 = if i + 1 < q.len() { q[i + 1] } else { id };
    // nodes of other orders keep their key and fields; only neighbours change links
    assert forall|x: u64| #![trigger m.orders.contains_key(x)]
        m.orders.contains_key(x) && x != id implies {
            &&& k2[x] == keys[x]
            &&& n2.contains_key(keys[x])
            &&& n2[keys[x]].id == nodes[keys[x]].id
            &&& n2[keys[x]].account == nodes[keys[x]].account
            &&& n2[keys[x]].side == nodes[keys[x]].side
            &&& n2[keys[x]].price == nodes[keys[x]].price
            &&& n2[keys[x]].quantity == nodes[keys[x]].quantity
            &&& n2[keys[x]].seq == nodes[keys[x]].seq
            &&& (x != pid && x != nid) ==> n2[keys[x]] == nodes[keys[x]]
        } by {
        assert(nodes.contains_key(keys[x]));
        assert(nodes[keys[x]].id.0 == x);
        assert(keys[x] != key);
        if i > 0 && x != pid {
            assert(keys[x] != keys[pid]);
        }
        if i + 1 < q.len() && x != nid {
            assert(keys[x] != keys[nid]);
        }
    }
    assert forall|x: u64| #[trigger] k2.contains_key(x) <==> m2.orders.contains_key(x) by {}
    assert forall|x: u64| #[trigger] m2.orders.contains_key(x) implies {
        &&& n2.contains_key(k2[x])
        &&& node_matches(n2[k2[x]], m2.orders[x])
    } by {
        assert(m.orders.contains_key(x));
        assert(node_matches(nodes[keys[x]], m.orders[x]));
    }
    assert forall|kk: usize| #[trigger] n2.contains_key(kk) implies {
        &&& k2.contains_key(n2[kk].id.0)
        &&& k2[n2[kk].id.0] == kk
    } by {
        assert(nodes.contains_key(kk));
        let x = nodes[kk].id.0;
        assert(keys.contains_key(x) && keys[x] == kk);
        assert(x != id);
        assert(m.orders.contains_key(x));
    }
    assert forall|side: Side| #![trigger m2.queues(side)]
        side == Side::Buy || side == Side::Sell implies side_ok(n2, k2, m2, side, side_levels(side, bl2, al2)) by {
        let lv1 = side_levels(side, bl, al);
        let lv2 = side_levels(side, bl2, al2);
        assert(side_ok(nodes, keys, m, side, lv1));
        assert forall|x: u64| #[trigger] lv2.contains_key(x) <==> m2.queues(side).contains_key(x) by {
            if side == side0 && x == p {
                assert(l.count as nat == q.len());
            }
        }
        assert forall|x: u64| #[trigger] m2.queues(side).contains_key(x) implies {
            &&& level_matches(lv2[x], k2, m2.queues(side)[x], m2.orders)
            &&& queue_linked(n2, k2, m2.queues(side)[x])
        } by {
            if side == side0 && x == p {
                assert(m2.queues(side)[x] == rest);
                assert(rest.len() > 0);
                assert(lv2[x] == l2);
                crate::book::model::lemma_total_remove(m.orders, q, i);
                assert forall|j: int| 0 <= j < rest.len() implies #[trigger] m2.orders[rest[j]].quantity == m.orders[rest[j]].quantity by {
                    if j < i {
                        assert(rest[j] == q[j]);
                    } else {
                        assert(rest[j] == q[j + 1]);
                    }
                }
                crate::book::model::lemma_total_frame(m.orders, m2.orders, rest);
                assert(rest[0] != id);
                assert(m.orders.contains_key(rest[0]));
                assert(m.orders.contains_key(rest[rest.len() - 1]));
                if i == 0 {
                    assert(rest[0] == q[1]);
                } else {
                    assert(rest[0] == q[0]);
                    assert(keys[q[0]] != key);
                }
                if i == q.len() - 1 {
                    assert(rest[rest.len() - 1] == q[q.len() - 2]);
                } else {
                    assert(rest[rest.len() - 1] == q[q.len() - 1]);
                    assert(keys[q[q.len() - 1]] != key);
                }
                assert forall|j: int| #![trigger rest[j]] 0 <= j < rest.len() implies {
                    &&& n2[k2[rest[j]]].prev == prev_key(k2, rest, j)
                    &&& n2[k2[rest[j]]].next == next_key(k2, rest, j)
                } by {
                    let jj = if j < i { j } else { j + 1 };
                    assert(rest[j] == q[jj]);
                    assert(m.orders.contains_key(q[jj]));
                    assert(nodes[keys[q[jj]]].prev == prev_key(keys, q, jj));
                    assert(nodes[keys[q[jj]]].next == next_key(keys, q, jj));
                    if j > 0 {
                        let pj = if j - 1 < i { j - 1 } else { j };
                        assert(rest[j - 1] == q[pj]);
                        assert(m.orders.contains_key(q[pj]));
                    }
                    if j + 1 < rest.len() {
                        let nj = if j + 1 < i { j + 1 } else { j + 2 };
                        assert(rest[j + 1] == q[nj]);
                        assert(m.orders.contains_key(q[nj]));
                    }
                    if jj == i - 1 {
                        assert(q[jj] == pid);
                    } else if jj == i + 1 {
                        assert(q[jj] == nid);
                        if i > 0 {
                            assert(pid != nid);
                        }
                    } else {
                        assert(q[jj] != pid);
                        assert(q[jj] != nid);
                    }
                }
            } else {
                let qx = m.queues(side)[x];
                assert(m2.queues(side)[x] == qx);
                assert(m.queues(side).contains_key(x));
                assert(m.queue_wf(side, x));
                assert(lv2[x] == lv1[x]);
                assert forall|j: int| #![trigger qx[j]] 0 <= j < qx.len() implies {
                    &&& k2[qx[j]] == keys[qx[j]]
                    &&& n2[keys[qx[j]]].prev == nodes[keys[qx[j]]].prev
                    &&& n2[keys[qx[j]]].next == nodes[keys[qx[j]]].next
                    &&& m2.orders[qx[j]].quantity == m.orders[qx[j]].quantity
                } by {
                    assert(m.orders.contains_key(qx[j]));
                    assert(qx[j] != id);
                    if i > 0 {
                        assert(m.orders[pid].side == side0 && m.orders[pid].price.0 == p);
                    }
                    if i + 1 < q.len() {
                        assert(m.orders[nid].side == side0 && m.orders[nid].price.0 == p);
                    }
                }
                lemma_queue_frame(nodes, keys, m.orders, n2, k2, m2.orders, qx, lv1[x]);
            }
        }
    }
    assert(side_ok(n2, k2, m2, Side::Buy, bl2));
    assert(side_ok(n2, k2, m2, Side::Sell, al2));
}

/// The arena after the quantity of node `key` is set to `q`.
pub open spec fn requantified_nodes(nodes: Map<usize, Node>, key: usize, q: u64) -> Map<usize, Node> {
    nodes.insert(key, Node { quantity: Qty(q), ..nodes[key] })
}

/// The level after one of its orders goes from `old_q` to `new_q`.
pub open spec fn requantified_level(l: Level, old_q: u64, new_q: u64) -> Level {
    Level { total: Qty((l.total.0 - (old_q - new_q)) as u64), ..l }
}

/// Lowering the quantity of one resting order keeps the book well formed.
#[verifier::rlimit(100)]
#[verifier::spinoff_prover]
pub proof fn lemma_requantify(
    nodes: Map<usize, Node>,
    keys: Map<u64, usize>,
    m: BookModel,
    bl: Map<u64, Level>,
    al: Map<u64, Level>,
    key: usize,
    new_q: u64,
)
    requires
        raw_wf(nodes, keys, m, bl, al),
        nodes.contains_key(key),
        new_q <= nodes[key].quantity.0,
    ensures
        ({
            let n = nodes[key];
            let lv = side_levels(n.side, bl, al);
            &&& m.contains(n.id.0)
            &&& keys[n.id.0] == key
            &&& n.quantity == m.orders[n.id.0].quantity
            &&& lv.contains_key(n.price.0)
            &&& lv[n.price.0].total.0 >= n.quantity.0
            &&& lv[n.price.0].count > 0
            &&& raw_wf(
                requantified_nodes(nodes, key, new_q),
                keys,
                m.set_quantity(n.id.0, new_q),
                if n.side == Side::Buy {
                    bl.insert(n.price.0, requantified_level(bl[n.price.0], n.quantity.0, new_q))
                } else {
                    bl
                },
                if n.side == Side::Sell {
                    al.insert(n.price.0, requantified_level(al[n.price.0], n.quantity.0, new_q))
                } else {
                    al
                },
            )
        }),
{
    reveal(raw_wf);
    let n = nodes[key];
    let id = n.id.0;
    let p = n.price.0;
    let side0 = n.side;
    assert(keys.contains_key(id) && keys[id] == key);
    assert(m.orders.contains_key(id));
    let o = m.orders[id];
    assert(node_matches(nodes[keys[id]], o));
    assert(m.queue_wf(side0, p));
    let q = m.queues(side0)[p];
    let i = q.index_of(id);
    assert(q.contains(id));
    assert(0 <= i < q.len() && q[i] == id);
    reveal(side_ok);
    let lv = side_levels(side0, bl, al);
    assert(side_ok(nodes, keys, m, side0, lv));
    let l = lv[p];
    assert(level_matches(l, keys, q, m.orders));
    let n2 = requantified_nodes(nodes, key, new_q);
    let m2 = m.set_quantity(id, new_q);
    crate::book::model::lemma_set_quantity_wf(m, id, new_q);
    assert forall|j: int| 0 <= j < q.len() && j != i implies #[trigger] m.orders[q[j]].quantity == m2.orders[q[j]].quantity by {
        assert(q[j] != id);
    }
    crate::book::model::lemma_total_update(m.orders, m2.orders, q, i);
    crate::book::model::lemma_total_remove(m.orders, q, i);
    let bl2 = if side0 == Side::Buy { bl.insert(p, requantified_level(bl[p], n.quantity.0, new_q)) } else { bl };
    let al2 = if side0 == Side::Sell { al.insert(p, requantified_level(al[p], n.quantity.0, new_q)) } else { al };
    assert(n2.dom() =~= nodes.dom());
    assert(m2.orders.dom() =~= m.orders.dom());
    assert forall|x: u64| #[trigger] m2.orders.contains_key(x) implies {
        &&& nodes.contains_key(keys[x])
        &&& node_matches(n2[keys[x]], m2.orders[x])
    } by {
        assert(m.orders.contains_key(x));
        assert(node_matches(nodes[keys[x]], m.orders[x]));
        if x != id {
            assert(nodes[keys[x]].id.0 == x);
            assert(keys[x] != key);
        }
    }
    assert forall|kk: usize| #[trigger] n2.contains_key(kk) implies {
        &&& keys.contains_key(n2[kk].id.0)
        &&& keys[n2[kk].id.0] == kk
    } by {
        assert(nodes.contains_key(kk));
    }
    assert forall|side: Side| #![trigger m2.queues(side)]
        side == Side::Buy || side == Side::Sell implies side_ok(n2, keys, m2, side, side_levels(side, bl2, al2)) by {
        let lv1 = side_levels(side, bl, al);
        let lv2 = side_levels(side, bl2, al2);
        assert(side_ok(nodes, keys, m, side, lv1));
        assert forall|x: u64| #[trigger] lv2.contains_key(x) <==> m2.queues(side).contains_key(x) by {}
        assert forall|x: u64| #[trigger] m2.queues(side).contains_key(x) implies {
            &&& level_matches(lv2[x], keys, m2.queues(side)[x], m2.orders)
            &&& queue_linked(n2, keys, m2.queues(side)[x])
        } by {
            let qx = m.queues(side)[x];
            assert(m.queues(side).contains_key(x));
            assert(m.queue_wf(side, x));
            assert(queue_linked(nodes, keys, qx));
            assert forall|j: int| #![trigger qx[j]] 0 <= j < qx.len() implies {
                &&& n2[keys[qx[j]]].prev == nodes[keys[qx[j]]].prev
                &&& n2[keys[qx[j]]].next == nodes[keys[qx[j]]].next
            } by {
                assert(m.orders.contains_key(qx[j]));
            }
            if side == side0 && x == p {
                assert(lv2[x] == requantified_level(l, n.quantity.0, new_q));
                assert(queue_linked(n2, keys, qx));
            } else {
                assert(lv2[x] == lv1[x]);
                assert forall|j: int| #![trigger qx[j]] 0 <= j < qx.len() implies {
                    &&& keys[qx[j]] == keys[qx[j]]
                    &&& n2[keys[qx[j]]].prev == nodes[keys[qx[j]]].prev
                    &&& n2[keys[qx[j]]].next == nodes[keys[qx[j]]].next
                    &&& m2.orders[qx[j]].quantity == m.orders[qx[j]].quantity
                } by {
                    assert(m.orders.contains_key(qx[j]));
                    assert(qx[j] != id);
                }
                lemma_queue_frame(nodes, keys, m.orders, n2, keys, m2.orders, qx, lv1[x]);
            }
        }
    }
    assert(side_ok(n2, keys, m2, Side::Buy, bl2));
    assert(side_ok(n2, keys, m2, Side::Sell, al2));
}

} // verus!
