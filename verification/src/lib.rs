//! Core of a replicated, session-aware pub/sub edge server.
//!
//! The crate holds the convergent in-memory state machine behind a cluster of
//! WebSocket edge nodes: identifier types, the lattice (CRDT) merge engine,
//! the per-pool processor that owns all subscription state, the control-plane
//! HTTP codec, and the replication watcher's bookkeeping.  Everything here is
//! pure state-machine logic over plain values; sockets, timers and JSON
//! (de)serialization of wire bodies live outside the library.

pub mod alist;
pub mod connection;
pub mod ids;
pub mod lattice;
pub mod paths;
pub mod processor;
pub mod quick_reply;
pub mod replication;
pub mod route;
pub mod websocket;

pub use ids::Cid;
pub use ids::serialize_cid;
