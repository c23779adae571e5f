//! A verified core for a small Redis-compatible server.
//!
//! The crate holds the protocol codec, the typed keyspace with expiry, the
//! per-type operations (strings, lists, streams, sorted sets), the pub/sub
//! and blocked-client registries, the transaction engine, the replication
//! bookkeeping and the command dispatcher.  Everything here is pure logic on
//! plain values: sockets, clocks and timers live with the caller, which hands
//! in frames and timestamps and carries out the actions the dispatcher
//! returns.

pub mod auth;
pub mod bytesutil;
pub mod cli;
pub mod dispatch;
pub mod geo;
pub mod laws;
pub mod list;
pub mod pubsub;
pub mod rdb;
pub mod repl;
pub mod replies;
pub mod resp;
pub mod score;
pub mod store;
pub mod stream;
pub mod trusted;
pub mod zset;
