//! Addresses, events and dispatcher actions.

use vstd::prelude::*;

verus! {

/// The remote endpoint of one accepted connection: a host and a port.
///
/// The address is the de-facto identity key of a connection: the registry
/// holds at most one entry per address, and a broadcast excludes the sender
/// by address equality.
#[derive(Clone, Copy, PartialEq, Eq, Structural, Hash, Debug)]
pub struct Addr {
    /// The peer's host, as the 32 bits of its dotted-quad form.
    pub host: u32,
    /// The peer's port.
    pub port: u16,
}

/// A unit of work produced by a connection reader and consumed by the
/// dispatcher.
pub enum Event {
    /// A new connection has been accepted and should be registered.
    Connected(Addr),
    /// Raw bytes read from a connection that were not the disconnect token,
    /// together with the sender's address.
    Received(Vec<u8>, Addr),
    /// The connection requested termination, or its reader loop ended.
    Disconnected(Addr),
}

/// What the dispatcher asks its caller to do after one event: the dispatcher
/// decides, the surrounding process performs the socket writes and shutdowns.
pub enum Action {
    /// Write `payload` verbatim to each address in `recipients`.
    Deliver { payload: Vec<u8>, recipients: Vec<Addr> },
    /// Shut the named connection's socket down in both directions.
    Close { addr: Addr },
    /// Nothing to perform.
    Idle,
}

} // verus!
