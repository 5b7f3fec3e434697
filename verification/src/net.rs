//! Network addresses.
use vstd::prelude::*;
use crate::bytes::{be64, push_be64};

verus! {

broadcast use crate::bytes::group_lengths;

/// An IPv4 address, octet by octet in the order in which it is written.
#[derive(Clone, Copy, Debug, PartialEq, Eq, Structural)]
pub struct Ipv4Addr {
    pub a: u8,
    pub b: u8,
    pub c: u8,
    pub d: u8,
}

impl Ipv4Addr {
    /// The four octets as they go on the wire.
    pub open spec fn bytes(self) -> Seq<u8> {
        seq![self.a, self.b, self.c, self.d]
    }

    /// The address as one 32-bit number.
    pub open spec fn number(self) -> int {
        self.a * 16777216 + self.b * 65536 + self.c * 256 + self.d
    }

    /// The address `a.b.c.d`.
    pub fn new(a: u8, b: u8, c: u8, d: u8) -> (r: Self)
        ensures
            r == (Ipv4Addr { a, b, c, d }),
    {
        Ipv4Addr { a, b, c, d }
    }

    /// The four octets.
    pub fn octets(&self) -> (r: [u8; 4])
        ensures
            r@ == self.bytes(),
    {
        let r: [u8; 4] = [self.a, self.b, self.c, self.d];
        assert(r@ =~= self.bytes());
        r
    }

    /// The address as one 32-bit number.
    pub fn to_number(&self) -> (r: u32)
        ensures
            r == self.number(),
    {
        self.a as u32 * 16777216 + self.b as u32 * 65536 + self.c as u32 * 256 + self.d as u32
    }
}

/// The address whose octets stand in `s` at `at`.
pub open spec fn ipv4_at(s: Seq<u8>, at: int) -> Ipv4Addr {
    Ipv4Addr { a: s[at], b: s[at + 1], c: s[at + 2], d: s[at + 3] }
}

/// Reads the address whose octets stand in `s` at `at`.
pub fn read_ipv4(s: &[u8], at: usize) -> (r: Ipv4Addr)
    requires
        at + 4 <= s@.len(),
    ensures
        r == ipv4_at(s@, at as int),
{
    Ipv4Addr { a: s[at], b: s[at + 1], c: s[at + 2], d: s[at + 3] }
}

/// Appends the four octets of `ip`.
pub fn push_ipv4(v: &mut Vec<u8>, ip: Ipv4Addr)
    ensures
        final(v)@ == old(v)@ + ip.bytes(),
{
    v.push(ip.a);
    v.push(ip.b);
    v.push(ip.c);
    v.push(ip.d);
    assert(v@ =~= old(v)@ + ip.bytes());
}

/// The 16 bytes of an IPv6 address, which is kept as one 128-bit number.
pub open spec fn be128(n: int) -> Seq<u8> {
    be64(n / 18446744073709551616) + be64(n % 18446744073709551616)
}

/// Appends the 16 bytes of an IPv6 address.
pub fn push_be128(v: &mut Vec<u8>, n: u128)
    ensures
        final(v)@ == old(v)@ + be128(n as int),
{
    push_be64(v, (n / 18446744073709551616) as u64);
    push_be64(v, (n % 18446744073709551616) as u64);
    assert(v@ =~= old(v)@ + be128(n as int));
}

/// The address with this number.
pub open spec fn ipv4_from(n: int) -> Ipv4Addr {
    Ipv4Addr {
        a: ((n / 16777216) % 256) as u8,
        b: ((n / 65536) % 256) as u8,
        c: ((n / 256) % 256) as u8,
        d: (n % 256) as u8,
    }
}

/// The address with this number.
pub fn ipv4_from_number(n: u32) -> (r: Ipv4Addr)
    ensures
        r == ipv4_from(n as int),
{
    Ipv4Addr {
        a: (n / 16777216) as u8,
        b: ((n / 65536) % 256) as u8,
        c: ((n / 256) % 256) as u8,
        d: (n % 256) as u8,
    }
}

/// The number of an address leads back to the address.
pub proof fn law_ipv4_number_roundtrip(ip: Ipv4Addr)
    ensures
        ipv4_from(ip.number()) == ip,
        0 <= ip.number() < 4294967296,
{
    let n = ip.number();
    assert(n / 256 == ip.a * 65536 + ip.b * 256 + ip.c);
    assert(n / 65536 == ip.a * 256 + ip.b);
    assert(n / 16777216 == ip.a);
}

/// An IPv4 endpoint.
#[derive(Clone, Copy, Debug, PartialEq, Eq, Structural)]
pub struct SocketAddrV4 {
    pub ip: Ipv4Addr,
    pub port: u16,
}

/// An IPv6 endpoint. The address is one 128-bit number.
#[derive(Clone, Copy, Debug, PartialEq, Eq, Structural)]
pub struct SocketAddrV6 {
    pub ip: u128,
    pub port: u16,
    pub flowinfo: u32,
    pub scope_id: u32,
}

/// A UDP or TCP endpoint.
#[derive(Clone, Copy, Debug, PartialEq, Eq, Structural)]
pub enum SocketAddr {
    V4(SocketAddrV4),
    V6(SocketAddrV6),
}

/// The endpoint `ip:port`.
pub open spec fn v4(ip: Ipv4Addr, port: u16) -> SocketAddr {
    SocketAddr::V4(SocketAddrV4 { ip, port })
}

impl SocketAddr {
    /// The endpoint `ip:port`.
    pub fn new_v4(ip: Ipv4Addr, port: u16) -> (r: SocketAddr)
        ensures
            r == v4(ip, port),
    {
        SocketAddr::V4(SocketAddrV4 { ip, port })
    }
}

} // verus!
