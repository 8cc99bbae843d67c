//! What a service asks of the reactor.

use vstd::prelude::*;

use crate::transport::remotes::ResourceId;

verus! {

/// An action for the reactor.
pub enum Action<L, T> {
    /// Add a listener to the poll.
    RegisterListener(L),
    /// Add a transport to the poll.
    RegisterTransport(T),
    /// Take a listener out of the poll and hand it over.
    UnregisterListener(ResourceId),
    /// Take a transport out of the poll and hand it over.
    UnregisterTransport(ResourceId),
    /// Write bytes to a transport.
    Send(ResourceId, Vec<u8>),
    /// Set a timer to go off after so many seconds and nanoseconds.
    SetTimer(u64, u32),
    /// End the event loop.
    Terminate,
}

} // verus!
