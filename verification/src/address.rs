//! IPv4 addresses and the addresses of name servers.

use vstd::prelude::*;

verus! {

/// The port on which name servers listen.
pub const DNS_PORT: u16 = 53;

/// An IPv4 address, by its four octets.
#[derive(Clone, Copy, Debug, PartialEq, Eq, Structural)]
pub struct Ipv4Address {
    pub a: u8,
    pub b: u8,
    pub c: u8,
    pub d: u8,
}

impl DeepView for Ipv4Address {
    type V = Ipv4Address;

    open spec fn deep_view(&self) -> Ipv4Address {
        *self
    }
}

/// The address that four octets spell out.
pub open spec fn address_of(octets: Seq<u8>) -> Ipv4Address {
    Ipv4Address { a: octets[0], b: octets[1], c: octets[2], d: octets[3] }
}

impl Ipv4Address {
    /// The address `a.b.c.d`.
    pub fn new(a: u8, b: u8, c: u8, d: u8) -> (r: Ipv4Address)
        ensures
            r == (Ipv4Address { a, b, c, d }),
    {
        Ipv4Address { a, b, c, d }
    }

    /// The address that four octets spell out.
    pub fn from_octets(octets: [u8; 4]) -> (r: Ipv4Address)
        ensures
            r == address_of(octets@),
    {
        Ipv4Address { a: octets[0], b: octets[1], c: octets[2], d: octets[3] }
    }

    /// The four octets of the address.
    pub fn octets(&self) -> (r: [u8; 4])
        ensures
            address_of(r@) == *self,
    {
        [self.a, self.b, self.c, self.d]
    }
}

/// Where a name server is reached: an address and a UDP port.
#[derive(Clone, Copy, Debug, PartialEq, Eq, Structural)]
pub struct ServerAddr {
    pub ip: Ipv4Address,
    pub port: u16,
}

/// The root name server from which every walk starts.
pub open spec fn root_server() -> ServerAddr {
    ServerAddr { ip: Ipv4Address { a: 198, b: 41, c: 0, d: 4 }, port: 53 }
}

impl ServerAddr {
    /// The name server at `ip`, on the DNS port.
    pub fn dns(ip: Ipv4Address) -> (r: ServerAddr)
        ensures
            r == (ServerAddr { ip, port: 53 }),
    {
        ServerAddr { ip, port: DNS_PORT }
    }

    /// The root name server, `198.41.0.4` on the DNS port.
    pub fn root() -> (r: ServerAddr)
        ensures
            r == root_server(),
    {
        ServerAddr { ip: Ipv4Address { a: 198, b: 41, c: 0, d: 4 }, port: DNS_PORT }
    }
}

} // verus!
