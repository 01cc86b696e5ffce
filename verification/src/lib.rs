//! Core of a minimal text-broadcast relay.
//!
//! Any number of clients hold a raw bidirectional connection; a byte payload
//! sent by one client is forwarded verbatim to every other currently-connected
//! client, and a client leaves by sending the exact disconnect token.
//!
//! This crate holds the verified core: the classification of raw reads into
//! events, the chunking imposed by the fixed-size read buffer, and the
//! dispatcher state machine that owns the client registry and decides every
//! registration, fan-out and teardown. The sockets, threads and the event
//! channel live outside the crate; they feed events in and carry the decided
//! actions out.

pub mod dispatcher;
pub mod event;
pub mod reader;
