//! Fragmentation and reassembly for messages carried over an unreliable,
//! datagram-oriented transport.
//!
//! The heart of the crate is [`msgqueue::MsgQueue`], the per-peer reassembly
//! queue: it collects out-of-order, possibly duplicated fragments, publishes a
//! message once every piece has arrived, rejects fragments of messages that
//! are older than the most recently published one, and bounds its memory by
//! evicting the oldest incomplete messages. [`sending`] holds the matching
//! outbound side: splitting a payload into fragments and numbering messages.
//! [`laws`] states and proves the protocol-level guarantees these parts give.

pub mod laws;
pub mod msgqueue;
pub mod sending;
