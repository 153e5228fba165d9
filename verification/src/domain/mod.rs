//! Domain value types: identifiers, orders, trades, events, and errors.
pub mod error;
pub mod event;
pub mod ids;
pub mod order;
pub mod trade;

pub use error::EngineError;
pub use event::{EngineEvent, RejectReason};
pub use ids::{AccountId, OrderId, Price, Qty, SeqNum, TICK_CENTS};
pub use order::{Order, OrderType, Side, StpPolicy};
pub use trade::{BookLevel, BookSnapshot, Trade};
