//! A transport-agnostic, message-based communication layer.
//!
//! A server exchanges framed messages with many clients over pluggable byte
//! transports.  This crate holds the verified core: the streaming codec that
//! cuts a raw byte stream into frames, the per-connection decode state, the
//! server's client table with its deferred-removal discipline, the message
//! queues that bridge host-loop ticks and network polls, and the reconnect
//! policy.  The sockets themselves live outside this crate; they hand the
//! core plain bytes and take plain bytes back.

pub mod client;
pub mod codec;
pub mod id;
pub mod messages;
pub mod queue;
pub mod reconnect;
pub mod server;
