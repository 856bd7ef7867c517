//! Combinators for futures and streams, written as the decisions that each
//! combinator takes between two awaits.
//!
//! Each stream adapter is a small state machine: the driver pulls an item from
//! upstream (and, where the adapter asks for it, awaits the user's closure on
//! it), hands what it got to the machine, and does what the machine answers:
//! hand an item on, pull again, or end the stream. The future combinators are
//! the computations that follow an await.
//!
//! The contracts speak of one step at a time; the proof functions next to each
//! machine state what a whole run of it produces.

pub mod future;
pub mod stream;
