use vstd::prelude::*;

verus! {

/// The address of a peer of the server: an IP address and a port.
///
/// The fields are exactly those that take part in the equality of a socket
/// address, so two peers are the same peer exactly when their `PeerAddr`
/// values are equal.
#[allow(inconsistent_fields)]
#[derive(Clone, Copy, Debug, PartialEq, Eq, Hash, Structural)]
pub enum PeerAddr {
    /// An IPv4 address, held as its 32 bits in network order, and a port.
    V4 { ip: u32, port: u16 },
    /// An IPv6 address, held as its 128 bits in network order, a port, the
    /// flow information and the scope identifier.
    V6 { ip: u128, port: u16, flowinfo: u32, scope_id: u32 },
}

} // verus!
