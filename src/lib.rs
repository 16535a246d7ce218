//! The verified core of a gossip node: the wire encoding of message
//! envelopes, and the publish/subscribe overlay that decides which peers to
//! dial, which peers form each topic's mesh, where a published message goes,
//! and which inbound messages are delivered, relayed or dropped.
pub mod codec;
pub mod message;
pub mod overlay;
pub mod wire;
