use vstd::prelude::*;

verus! {

/// A socket address: an IP address (version 4 or 6) and a port.
///
/// The IPv4 address is held as its big-endian `u32`, the IPv6 address as
/// its big-endian `u128`; an IPv6 socket address also carries its flow
/// information and scope identifier. Two addresses are equal exactly when
/// all of their parts are equal.
#[derive(Clone, Copy, Debug, PartialEq, Eq, Hash, Structural)]
pub enum SocketAddress {
    V4 { ip: u32, port: u16 },
    V6 { ip: u128, port: u16, flowinfo: u32, scope_id: u32 },
}

} // verus!
