//! Client-side request-correlation layer for a storage engine.
//!
//! The engine hands out an integer operation id for every submitted
//! operation and reports completions through a blocking drain call, in
//! arbitrary order.  This crate holds the verified core of the client:
//! the pending-operation table, the session state machine that routes
//! each completion to its continuation, the round-robin dispatcher, and
//! the codec for the engine's native attribute representation.

pub mod client_types;
pub mod codec;
pub mod common;
pub mod dispatch;
pub mod laws;
pub mod session;

pub use common::HyperError;
