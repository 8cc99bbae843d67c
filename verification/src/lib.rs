//! The decisions behind a peer-to-peer node and a one-time client.
//!
//! Nothing here touches a socket or a thread. A [`service::Service`] and a
//! [`client::unary::Service`] take in what happened and say what is to be done: actions for the
//! reactor that polls the sockets, and calls for the controller that holds the business logic.

use vstd::prelude::*;

pub mod action;
pub mod client;
pub mod ident;
pub mod service;
pub mod transport;

verus! {

/// Size of the buffer into which a transport reads.
pub const READ_BUFFER_SIZE: usize = 65535;

/// Which side opened a connection.
#[derive(Copy, Clone, Ord, PartialOrd, Eq, PartialEq, Hash, Debug, Structural)]
pub enum Direction {
    /// The remote connected to us.
    Inbound,
    /// We connected to the remote.
    Outbound,
}

impl Direction {
    /// Whether the remote connected to us.
    pub fn is_inbound(self) -> (res: bool)
        ensures
            res == (self is Inbound),
    {
        matches!(self, Direction::Inbound)
    }

    /// Whether we connected to the remote.
    pub fn is_outbound(self) -> (res: bool)
        ensures
            res == (self is Outbound),
    {
        matches!(self, Direction::Outbound)
    }

    /// The direction in words.
    pub fn display(self) -> (res: String)
        ensures
            res@ == match self {
                Direction::Inbound => "inbound"@,
                Direction::Outbound => "outbound"@,
            },
    {
        match self {
            Direction::Inbound => "inbound".to_string(),
            Direction::Outbound => "outbound".to_string(),
        }
    }
}

} // verus!
