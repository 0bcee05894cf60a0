//! Peer discovery and a replicated key-value store for a local network.
//!
//! The library holds the logic of a node: the wire codec, the key-value
//! store, the peer registry and the decisions a node takes on each datagram
//! and each request. Sockets, timers and locks live with the caller.

pub mod identity;
pub mod node;
pub mod registry;
pub mod store;
pub mod wire;
