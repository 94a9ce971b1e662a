//! A peer-to-peer gossip overlay node: identity, transport selection with
//! fallback, secure-channel and multiplexer negotiation, and a topic-scoped
//! publish/subscribe overlay with content-addressed duplicate suppression,
//! driven by a single-threaded poll loop.

pub mod address;
pub mod codec;
pub mod errors;
pub mod gossip;
pub mod identity;
pub mod service;
pub mod transport;
