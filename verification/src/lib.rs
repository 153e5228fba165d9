//! A price-time-priority order-matching engine: order book, matching rules, order types,
//! self-trade prevention and stop orders, with the decisions of the single-writer loop and of
//! the gateway's wire layer.
use vstd::prelude::*;

pub mod book;
pub mod domain;
pub mod engine;
pub mod feed;
pub mod matcher;
pub mod runtime;
pub mod sim;
pub mod text;
pub mod wire;

pub use domain::{
    AccountId, BookLevel, BookSnapshot, EngineError, EngineEvent, Order, OrderId, OrderType, Price,
    Qty, RejectReason, SeqNum, Side, StpPolicy, Trade,
};
pub use engine::MatchingEngine;
pub use runtime::{ClosedError, Command, EngineMsg, RuntimeConfig, TrySendError};
