//! Internet addresses and endpoints.

use vstd::prelude::*;
use crate::ordmap::Rank;

verus! {

/// An IP address, held as the number that its octets spell.
#[derive(Clone, Copy, Debug, PartialEq, Eq, Structural, Hash)]
pub enum IpAddr {
    V4(u32),
    V6(u128),
}

/// An IP address with a port.
#[derive(Clone, Copy, Debug, PartialEq, Eq, Structural, Hash)]
pub struct SocketAddr {
    pub ip: IpAddr,
    pub port: u16,
}

/// How many places IP addresses take up in the order.
pub open spec fn ip_span() -> int {
    0x1_0000_0000_0000_0000_0000_0000_0000_0000int + 0x1_0000_0000
}

impl IpAddr {
    /// The IPv4 address `a.b.c.d`.
    pub fn v4(a: u8, b: u8, c: u8, d: u8) -> (ip: Self)
        ensures
            ip == IpAddr::V4((a * 0x100_0000 + b * 0x1_0000 + c * 0x100 + d) as u32),
    {
        IpAddr::V4((a as u32) * 0x100_0000 + (b as u32) * 0x1_0000 + (c as u32) * 0x100 + d as u32)
    }

    /// The IPv6 address whose eight groups are `g`.
    pub fn v6(g: [u16; 8]) -> (ip: Self)
        ensures
            ip == IpAddr::V6(
                (((((((g@[0] * 0x1_0000 + g@[1]) * 0x1_0000 + g@[2]) * 0x1_0000 + g@[3]) * 0x1_0000
                    + g@[4]) * 0x1_0000 + g@[5]) * 0x1_0000 + g@[6]) * 0x1_0000 + g@[7]) as u128,
            ),
    {
        let mut n: u128 = g[0] as u128;
        n = n * 0x1_0000 + g[1] as u128;
        n = n * 0x1_0000 + g[2] as u128;
        n = n * 0x1_0000 + g[3] as u128;
        n = n * 0x1_0000 + g[4] as u128;
        n = n * 0x1_0000 + g[5] as u128;
        n = n * 0x1_0000 + g[6] as u128;
        n = n * 0x1_0000 + g[7] as u128;
        IpAddr::V6(n)
    }

    pub fn is_ipv6(&self) -> (r: bool)
        ensures
            r == (self is V6),
    {
        match self {
            IpAddr::V4(_) => false,
            IpAddr::V6(_) => true,
        }
    }
}

impl Rank for IpAddr {
    /// IPv4 before IPv6, then by number.
    open spec fn rank(self) -> int {
        match self {
            IpAddr::V4(n) => n as int,
            IpAddr::V6(n) => 0x1_0000_0000 + n,
        }
    }

    proof fn rank_injective(a: Self, b: Self) {
    }

    fn before(&self, other: &Self) -> (r: bool) {
        match (self, other) {
            (IpAddr::V4(a), IpAddr::V4(b)) => *a < *b,
            (IpAddr::V4(_), IpAddr::V6(_)) => true,
            (IpAddr::V6(_), IpAddr::V4(_)) => false,
            (IpAddr::V6(a), IpAddr::V6(b)) => *a < *b,
        }
    }
}

impl SocketAddr {
    pub fn new(ip: IpAddr, port: u16) -> (addr: Self)
        ensures
            addr == (SocketAddr { ip, port }),
    {
        SocketAddr { ip, port }
    }

    pub fn ip(&self) -> (ip: IpAddr)
        ensures
            ip == self.ip,
    {
        self.ip
    }

    pub fn port(&self) -> (port: u16)
        ensures
            port == self.port,
    {
        self.port
    }
}

impl Rank for SocketAddr {
    /// By address, then by port.
    open spec fn rank(self) -> int {
        self.ip.rank() * 0x1_0000 + self.port
    }

    proof fn rank_injective(a: Self, b: Self) {
        IpAddr::rank_injective(a.ip, b.ip);
    }

    fn before(&self, other: &Self) -> (r: bool) {
        if self.ip.before(&other.ip) {
            true
        } else if other.ip.before(&self.ip) {
            false
        } else {
            self.port < other.port
        }
    }
}

/// IPv4 addresses come before IPv6 ones, and those of a kind in the order of
/// their numbers. Endpoints come in the order of their addresses, and then of
/// their ports.
pub proof fn law_addresses_are_ordered(a: SocketAddr, b: SocketAddr)
    ensures
        a.ip.rank() < b.ip.rank() <==> match (a.ip, b.ip) {
            (IpAddr::V4(x), IpAddr::V4(y)) => x < y,
            (IpAddr::V4(_), IpAddr::V6(_)) => true,
            (IpAddr::V6(_), IpAddr::V4(_)) => false,
            (IpAddr::V6(x), IpAddr::V6(y)) => x < y,
        },
        a.rank() < b.rank() <==> a.ip.rank() < b.ip.rank() || (a.ip == b.ip && a.port < b.port),
{
    if a.ip.rank() == b.ip.rank() {
        IpAddr::rank_injective(a.ip, b.ip);
    }
}

} // verus!
