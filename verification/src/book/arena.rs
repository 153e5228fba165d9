//! The node arena: resting orders live in a [`slab::Slab`], which hands out a key per node and
//! reuses the keys of freed nodes.
use vstd::prelude::*;

use slab::Slab;

use crate::domain::{AccountId, OrderId, Price, Qty, SeqNum, Side};

verus! {

/// A resting order stored in the arena, linked to its neighbours in the FIFO of its price level
/// by arena key.
#[derive(Debug, Clone, Copy)]
pub struct Node {
    pub id: OrderId,
    pub account: AccountId,
    pub price: Price,
    pub side: Side,
    pub quantity: Qty,
    pub seq: SeqNum,
    pub prev: Option<usize>,
    pub next: Option<usize>,
}

/// How many nodes the arena may hold. The slab stores its entries in a `Vec`, which panics when
/// its storage would exceed `isize::MAX` bytes; an entry is well under 256 bytes, so this count
/// stays clear of that on 32-bit and 64-bit targets alike.
pub const ARENA_LIMIT: usize = usize::MAX / 512;

#[verifier::external_type_specification]
#[verifier::external_body]
#[verifier::reject_recursive_types(T)]
pub struct ExSlab<T>(Slab<T>);

/// What an arena holds: the node stored under each occupied key.
pub uninterp spec fn arena_contents(s: Slab<Node>) -> Map<usize, Node>;

/// `Slab::with_capacity`: a new slab holds no value (its source sets `len` to 0 over an empty
/// `Vec` of entries). The capacity only pre-sizes that `Vec`.
#[verifier::external_body]
pub(crate) fn arena_with_capacity(capacity: usize) -> (arena: Slab<Node>)
    requires
        capacity <= ARENA_LIMIT,
    ensures
        arena_contents(arena) =~= Map::empty(),
{
    Slab::with_capacity(capacity)
}

/// `Slab::len`: the number of stored values.
#[verifier::external_body]
pub(crate) fn arena_len(s: &Slab<Node>) -> (n: usize)
    ensures
        n == arena_contents(*s).len(),
{
    s.len()
}

/// `Slab::insert`: stores `node` under a key that held no value before (the slab's next vacant
/// slot, or a fresh slot at the end) and returns that key; nothing else changes.
#[verifier::external_body]
pub(crate) fn arena_insert(s: &mut Slab<Node>, node: Node) -> (key: usize)
    requires
        arena_contents(*old(s)).len() < ARENA_LIMIT,
    ensures
        !arena_contents(*old(s)).contains_key(key),
        arena_contents(*final(s)) == arena_contents(*old(s)).insert(key, node),
{
    s.insert(node)
}

/// Indexing a `Slab` by key: the stored node (the index panics on a vacant key, which the
/// `requires` leaves out).
#[verifier::external_body]
pub(crate) fn arena_get(s: &Slab<Node>, key: usize) -> (n: Node)
    requires
        arena_contents(*s).contains_key(key),
    ensures
        n == arena_contents(*s)[key],
{
    s[key]
}

/// Assigning through `IndexMut` of a `Slab`: replaces the node stored under an occupied key.
#[verifier::external_body]
pub(crate) fn arena_set(s: &mut Slab<Node>, key: usize, node: Node)
    requires
        arena_contents(*old(s)).contains_key(key),
    ensures
        arena_contents(*final(s)) == arena_contents(*old(s)).insert(key, node),
{
    s[key] = node;
}

/// `Slab::remove`: takes the node out of an occupied key, which becomes vacant (it panics on a
/// vacant key, which the `requires` leaves out).
#[verifier::external_body]
pub(crate) fn arena_remove(s: &mut Slab<Node>, key: usize) -> (n: Node)
    requires
        arena_contents(*old(s)).contains_key(key),
    ensures
        n == arena_contents(*old(s))[key],
        arena_contents(*final(s)) == arena_contents(*old(s)).remove(key),
{
    s.remove(key)
}

} // verus!
