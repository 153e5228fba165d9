//! The order book: two price-ordered sides, each a map from price to a FIFO level.
//!
//! - Each side is a `BTreeMap` from price to level: the best bid is the largest key, the best
//!   ask the smallest, and iteration walks the levels in price order.
//! - Every resting order is a node in a shared [`slab::Slab`] arena. The FIFO of a level is an
//!   intrusive doubly-linked list over arena keys (`prev`/`next`), so cancel and amend unlink a
//!   node in O(1).
//! - A `HashMap` from order id to arena key finds any resting order in O(1).
//!
//! The ghost [`BookModel`] is what every contract speaks of; `wf` ties the arena, the maps and
//! the links to it.
pub mod arena;
pub mod levels;
pub mod links;
pub mod model;
pub mod order_book;
pub mod walk;

pub use model::{BookModel, RestingOrder};
pub use order_book::{MakerRef, OrderBook};

