//! The identity of a connection.

use vstd::prelude::*;

verus! {

/// The socket address of a connected peer, which identifies its session.
///
/// An IPv4 address is held in its IPv4-mapped IPv6 form.
#[derive(Clone, Copy, Debug, PartialEq, Eq, Structural, Hash)]
pub struct PeerAddr {
    pub ip: u128,
    pub port: u16,
}

} // verus!
