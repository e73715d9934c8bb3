//! A single-node, in-memory key-value store spoken to over a small
//! length-framed binary protocol.
//!
//! The crate is split in three:
//! - [`protocol`]: the wire codec, pure functions from bytes to typed
//!   commands and from typed responses back to bytes;
//! - [`kv_store`]: the shared mapping from keys to values, exposed through
//!   atomic operations;
//! - [`handler`]: the dispatch step that ties one decoded frame to one
//!   store operation and produces the response to write back.
//!
//! Network I/O, task spawning and the lock around the store are left to the
//! embedding program; everything here is pure computation.

pub mod handler;
pub mod kv_store;
pub mod protocol;
