//! Why a connection ends.
use crate::address::SockAddr;
use vstd::prelude::*;

verus! {

/// Why a connection, or a task of one, ends.
#[derive(Debug, Clone)]
pub enum Error {
    Io(String),
    Rustls(String),
    InvalidMaxIdleTime,
    TimedOut,
    LocallyClosed,
    DuplicatedAuth,
    AuthFailed(u128),
    UnexpectedPacketSource,
    Socket(String, String),
    TaskNegotiationTimeout,
    UdpRelayIpv6Disabled(SockAddr),
    Protocol(String),
    Other(String),
}

impl Error {
    /// Whether this is how connections end when nothing is wrong.
    pub fn is_trivial(&self) -> (r: bool)
        ensures
            r <==> *self is TimedOut || *self is LocallyClosed,
    {
        match self {
            Error::TimedOut => true,
            Error::LocallyClosed => true,
            _ => false,
        }
    }
}

} // verus!
