//! Plain-value socket addresses.

use vstd::prelude::*;

verus! {

/// An IPv4 socket address: the address as its 32-bit number (first octet in
/// the high byte) and the port.
#[derive(Debug, Clone, Copy, PartialEq, Eq, Hash, Structural)]
pub struct SocketAddrV4 {
    pub ip: u32,
    pub port: u16,
}

impl SocketAddrV4 {
    /// The number that stands for this address as a map key: the address in
    /// bits 16..48, the port in bits 0..16.
    pub open spec fn spec_key(self) -> u64 {
        (self.ip as u64 * 65536 + self.port as u64) as u64
    }

    pub fn new(ip: u32, port: u16) -> (addr: Self)
        ensures
            addr.ip == ip,
            addr.port == port,
    {
        SocketAddrV4 { ip, port }
    }

    pub fn ip(&self) -> (ip: u32)
        ensures
            ip == self.ip,
    {
        self.ip
    }

    pub fn port(&self) -> (port: u16)
        ensures
            port == self.port,
    {
        self.port
    }

    /// The map key of this address.
    pub fn key(&self) -> (k: u64)
        ensures
            k == self.spec_key(),
            k < 0x1_0000_0000_0000,
    {
        self.ip as u64 * 65536 + self.port as u64
    }
}

/// Two addresses with the same key are the same address.
pub proof fn lemma_key_injective(a: SocketAddrV4, b: SocketAddrV4)
    requires
        a.spec_key() == b.spec_key(),
    ensures
        a == b,
{
}

} // verus!
