//! BoxRun: the verified core of a local microVM sandbox manager.
//!
//! The library holds the data model (boxes, executions, output events),
//! the request validation rules, the in-memory store with its query
//! semantics, the box manager's lifecycle state machine with its resource
//! accounting, the exec event bus, and the text protocols spoken between
//! the CLI, the SDK and the server.
use vstd::prelude::*;

pub mod accounting;
pub mod answers;
pub mod box_manager;
pub mod cli;
pub mod clock;
pub mod config;
pub mod error;
pub mod events;
pub mod ids;
pub mod json;
pub mod laws;
pub mod models;
pub mod routes;
pub mod sdk;
pub mod seqs;
pub mod store;
pub mod store_laws;
pub mod stream;
pub mod text;

verus! {

} // verus!
