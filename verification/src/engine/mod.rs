//! The matching engine.
pub mod engine;
pub mod laws;
pub mod rules;

pub use engine::MatchingEngine;
