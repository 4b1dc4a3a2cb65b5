//! Peer discovery and liveness for nodes on one network segment: the wire
//! messages, the registry of known peers, and the decisions that the
//! discovery, gossip and heartbeat rounds take. Nothing here touches a
//! socket or a clock: callers hand in the bytes and the time, and get back
//! the new registry state and the datagrams to send.

pub mod addr;
pub mod codec;
pub mod message;
pub mod net;
pub mod peer;
pub mod text;
