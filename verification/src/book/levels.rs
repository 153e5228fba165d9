//! Price levels of one side of the book, held in a `BTreeMap` keyed by price.
use std::collections::BTreeMap;

use vstd::prelude::*;

use crate::domain::Qty;

verus! {

/// One price level: the ends of its FIFO of arena nodes, and O(1) aggregates.
#[derive(Debug, Clone, Copy)]
pub struct Level {
    pub head: usize,
    pub tail: usize,
    pub total: Qty,
    pub count: u32,
}

/// `BTreeMap::first_key_value`: the entry with the smallest key, or `None` when the map is
/// empty (std documents it as "the first key-value pair in the map", keys in ascending order).
#[verifier::external_body]
pub(crate) fn first_level(m: &BTreeMap<u64, Level>) -> (r: Option<(u64, Level)>)
    ensures
        match r {
            None => m@.dom() =~= Set::empty(),
            Some(e) => {
                &&& m@.contains_key(e.0)
                &&& m@[e.0] == e.1
                &&& forall|k: u64| #[trigger] m@.contains_key(k) ==> e.0 <= k
            },
        },
{
    match m.first_key_value() {
        Some((k, v)) => Some((*k, *v)),
        None => None,
    }
}

/// `BTreeMap::last_key_value`: the entry with the largest key, or `None` when the map is empty
/// (std documents it as "the last key-value pair in the map").
#[verifier::external_body]
pub(crate) fn last_level(m: &BTreeMap<u64, Level>) -> (r: Option<(u64, Level)>)
    ensures
        match r {
            None => m@.dom() =~= Set::empty(),
            Some(e) => {
                &&& m@.contains_key(e.0)
                &&& m@[e.0] == e.1
                &&& forall|k: u64| #[trigger] m@.contains_key(k) ==> k <= e.0
            },
        },
{
    match m.last_key_value() {
        Some((k, v)) => Some((*k, *v)),
        None => None,
    }
}

/// The level at `price`, if the map has one.
pub fn level_at(m: &BTreeMap<u64, Level>, price: u64) -> (r: Option<Level>)
    ensures
        match r {
            None => !m@.contains_key(price),
            Some(l) => m@.contains_key(price) && m@[price] == l,
        },
{
    match m.get(&price) {
        Some(l) => Some(*l),
        None => None,
    }
}

} // verus!
