//! A chunked, peer-addressed message transport driven by an explicit clock tick.
//!
//! The library splits payloads into envelopes that fit a small datagram budget,
//! reassembles them on the receiving side, and keeps per-session outbound and
//! inbound state. Moving datagrams between peers is left to the caller: each
//! tick takes the datagrams that arrived and hands back those to send.

pub mod codec;
pub mod reassembly;
pub mod engine;
pub mod inbound;
