//! Operational errors returned from the engine API.
use vstd::prelude::*;

use crate::domain::ids::OrderId;

verus! {

/// Operational failures of engine commands, as opposed to a [`crate::domain::RejectReason`].
#[derive(Debug, Clone, Copy, PartialEq, Eq, Structural)]
pub enum EngineError {
    /// A cancel or amend referenced an order id the book does not contain.
    UnknownOrder(OrderId),
    /// An amend requested a zero quantity.
    InvalidAmendQuantity,
    /// The book cannot take the order: its arena or one of its price levels is full.
    CapacityExhausted,
}

/// The human-readable message of an error.
pub open spec fn error_message(e: EngineError) -> Seq<char> {
    match e {
        EngineError::UnknownOrder(id) => "unknown order: "@ + crate::text::decimal_digits(id.0 as nat),
        EngineError::InvalidAmendQuantity => "amend quantity must be positive"@,
        EngineError::CapacityExhausted => "order arena capacity exhausted"@,
    }
}

impl EngineError {
    /// The human-readable message of this error.
    pub fn to_string(&self) -> (s: String)
        ensures
            s@ == error_message(*self),
    {
        match self {
            EngineError::UnknownOrder(id) => {
                let prefix = String::from_str("unknown order: ");
                let digits = id.to_string();
                prefix.concat(digits.as_str())
            },
            EngineError::InvalidAmendQuantity => String::from_str("amend quantity must be positive"),
            EngineError::CapacityExhausted => String::from_str("order arena capacity exhausted"),
        }
    }
}

} // verus!
