//! Parser combinators over a shared input position.
//!
//! A grammar is assembled from small parsers; each one consumes input from a
//! [`state::State`] and yields a typed value or a diagnosable failure. Every
//! combinator states, as a relation over the outcomes of its parts, exactly
//! which outcome it reports.

pub mod basic;
pub mod chain;
pub mod choice;
pub mod determinism;
pub mod entry;
pub mod fluent;
pub mod forward;
pub mod laws;
pub mod message;
pub mod state;
pub mod status;
pub mod parser;
pub mod repeat;
pub mod sequence;
