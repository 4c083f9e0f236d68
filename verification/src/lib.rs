//! Verified core of a WebSocket + Protobuf throughput benchmark.
//!
//! The client sends Protobuf requests of growing size over a WebSocket and
//! measures throughput; the server counts what it receives and answers each
//! request with a short receipt.  This crate holds the decisions and the data
//! handling of both sides; the program around it performs the I/O.
use vstd::prelude::*;

pub mod bench;
pub mod burst;
pub mod decimal;
pub mod messages;
pub mod metrics;
pub mod server;
pub mod wire;

verus! {

} // verus!
