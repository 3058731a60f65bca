//! Transport parameters.
//!
//! The engine keeps the transport's configuration as plain data; the
//! socket work that consumes it happens outside the verified core.

use vstd::prelude::*;

verus! {

/// Dialing parameters for an outbound stream.
#[derive(Clone, Copy, Debug, PartialEq, Eq, Structural)]
pub struct TcpDialer {
    /// Time-to-live to set on opened sockets, or none for the default.
    pub ttl: Option<u32>,
}

impl TcpDialer {
    /// A dialer with the given optional TTL.
    pub fn new(ttl: Option<u32>) -> (r: TcpDialer)
        ensures
            r.ttl == ttl,
    {
        TcpDialer { ttl }
    }
}

/// Listening parameters for an inbound endpoint.
#[derive(Clone, Copy, Debug, PartialEq, Eq, Structural)]
pub struct TcpListener {
    /// Size of the listen backlog.
    pub backlog: i32,
}

impl TcpListener {
    /// A listener with the given backlog size.
    pub fn new(backlog: i32) -> (r: TcpListener)
        ensures
            r.backlog == backlog,
    {
        TcpListener { backlog }
    }
}

} // verus!
