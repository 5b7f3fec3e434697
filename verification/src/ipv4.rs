//! IPv4 packets and the TCP segments inside them: how one is built and how one
//! is taken apart.
use vstd::prelude::*;
use crate::bytes::{
    append, be16, be32, get_be16, get_be32, lemma_be16_low, lemma_get_be16, lemma_get_be32,
    push_be16, push_be32, read_be16, read_be32,
};
use crate::icmp::{
    checksum, finish, ihl, inet_checksum, law_checksum_verifies, lemma_ones_add,
    lemma_word_sum_concat, sum16, word_sum,
};
use crate::net::{ipv4_at, push_ipv4, read_ipv4, Ipv4Addr};

verus! {

broadcast use crate::bytes::group_lengths;

pub const PROTO_TCP: u8 = 6;

pub const PROTO_UDP: u8 = 17;

pub const FIN: u8 = 0x01;

pub const SYN: u8 = 0x02;

pub const RST: u8 = 0x04;

pub const PSH: u8 = 0x08;

pub const ACK: u8 = 0x10;

/// The receive window that every segment advertises.
pub const WINDOW: u16 = 64240;

/// An IPv4 header without options (DF set, TTL 64) with `csum` in its checksum
/// field.
pub open spec fn ipv4_header(src: Ipv4Addr, dst: Ipv4Addr, proto: u8, total: int, csum: u16) -> Seq<
    u8,
> {
    seq![0x45u8, 0] + be16(total) + seq![0u8, 0, 0x40, 0, 64, proto] + be16(csum as int) + (
    src.bytes() + dst.bytes())
}

/// The IPv4 packet from `src` to `dst` that carries `l4`. The length field holds
/// the length modulo 65536.
pub open spec fn ipv4_packet_of(src: Ipv4Addr, dst: Ipv4Addr, proto: u8, l4: Seq<u8>) -> Seq<u8> {
    let total = 20 + l4.len() as int;
    ipv4_header(src, dst, proto, total, inet_checksum(ipv4_header(src, dst, proto, total, 0))) + l4
}

/// The pseudo-header that a TCP or UDP checksum covers besides the segment.
pub open spec fn pseudo_header(src: Ipv4Addr, dst: Ipv4Addr, proto: u8, len: int) -> Seq<u8> {
    src.bytes() + dst.bytes() + seq![0u8, proto] + be16(len)
}

/// The checksum of `l4` under its pseudo-header.
pub open spec fn l4_checksum_of(src: Ipv4Addr, dst: Ipv4Addr, proto: u8, l4: Seq<u8>) -> u16 {
    inet_checksum(pseudo_header(src, dst, proto, l4.len() as int) + l4)
}

/// What a TCP segment says besides its payload.
#[derive(Clone, Copy, Debug, PartialEq, Eq, Structural)]
pub struct TcpFields {
    pub src: Ipv4Addr,
    pub dst: Ipv4Addr,
    pub sport: u16,
    pub dport: u16,
    pub seq: u32,
    pub ack: u32,
    pub flags: u8,
}

/// The TCP header without options and the payload, with `csum` in the checksum
/// field.
pub open spec fn tcp_bytes(f: TcpFields, csum: u16, payload: Seq<u8>) -> Seq<u8> {
    be16(f.sport as int) + be16(f.dport as int) + be32(f.seq as int) + be32(f.ack as int)
        + seq![0x50u8, f.flags] + be16(WINDOW as int) + be16(csum as int) + (be16(0) + payload)
}

/// The IPv4 packet with the TCP segment `f` in it.
#[verifier::opaque]
pub open spec fn tcp_packet_of(f: TcpFields, payload: Seq<u8>) -> Seq<u8> {
    let csum = l4_checksum_of(f.src, f.dst, PROTO_TCP, tcp_bytes(f, 0, payload));
    ipv4_packet_of(f.src, f.dst, PROTO_TCP, tcp_bytes(f, csum, payload))
}

/// Every packet that is built has a header that verifies.
pub proof fn law_ipv4_header_verifies(src: Ipv4Addr, dst: Ipv4Addr, proto: u8, l4: Seq<u8>)
    ensures
        inet_checksum(ipv4_packet_of(src, dst, proto, l4).subrange(0, 20)) == 0,
        ipv4_packet_of(src, dst, proto, l4).subrange(20, 20 + l4.len() as int) == l4,
{
    let total = 20 + l4.len() as int;
    let p = ipv4_packet_of(src, dst, proto, l4);
    let c = inet_checksum(ipv4_header(src, dst, proto, total, 0));
    law_checksum_verifies(
        seq![0x45u8, 0] + be16(total) + seq![0u8, 0, 0x40, 0, 64, proto],
        src.bytes() + dst.bytes(),
    );
    assert(p.subrange(0, 20) =~= ipv4_header(src, dst, proto, total, c));
    assert(p.subrange(20, 20 + l4.len() as int) =~= l4);
}

/// A segment whose checksum field, at an even offset, was filled with the
/// checksum taken while it was zero verifies under its pseudo-header.
pub proof fn law_l4_verifies(
    src: Ipv4Addr,
    dst: Ipv4Addr,
    proto: u8,
    before: Seq<u8>,
    after: Seq<u8>,
)
    requires
        before.len() % 2 == 0,
    ensures
        ({
            let c = l4_checksum_of(src, dst, proto, before + be16(0) + after);
            l4_checksum_of(src, dst, proto, before + be16(c as int) + after) == 0
        }),
{
    let c = l4_checksum_of(src, dst, proto, before + be16(0) + after);
    let ph = pseudo_header(src, dst, proto, (before.len() + 2 + after.len()) as int);
    law_checksum_verifies(ph + before, after);
    assert(ph + (before + be16(0) + after) =~= ph + before + be16(0) + after);
    assert(ph + (before + be16(c as int) + after) =~= ph + before + be16(c as int) + after);
}

/// Every TCP packet that is built verifies: the IPv4 header by itself, the
/// segment under its pseudo-header.
pub proof fn law_tcp_packet_verifies(f: TcpFields, payload: Seq<u8>)
    ensures
        ({
            let p = tcp_packet_of(f, payload);
            &&& p.len() == 40 + payload.len()
            &&& inet_checksum(p.subrange(0, 20)) == 0
            &&& l4_checksum_of(f.src, f.dst, PROTO_TCP, p.subrange(20, p.len() as int)) == 0
        }),
{
    reveal(tcp_packet_of);
    let csum = l4_checksum_of(f.src, f.dst, PROTO_TCP, tcp_bytes(f, 0, payload));
    let l4 = tcp_bytes(f, csum, payload);
    law_ipv4_header_verifies(f.src, f.dst, PROTO_TCP, l4);
    law_l4_verifies(
        f.src,
        f.dst,
        PROTO_TCP,
        be16(f.sport as int) + be16(f.dport as int) + be32(f.seq as int) + be32(f.ack as int)
            + seq![0x50u8, f.flags] + be16(WINDOW as int),
        be16(0) + payload,
    );
}

/// The low 16 bits of `n + len`.
fn low16(n: usize, len: usize) -> (r: u16)
    requires
        n <= 65536,
    ensures
        r == (n + len) % 65536,
{
    ((n + len % 65536) % 65536) as u16
}

/// The IPv4 header before its addresses, with `csum` in its checksum field.
fn push_ipv4_header(v: &mut Vec<u8>, src: Ipv4Addr, dst: Ipv4Addr, proto: u8, l4_len: usize, csum: u16)
    ensures
        final(v)@ == old(v)@ + ipv4_header(src, dst, proto, 20 + l4_len, csum),
{
    v.push(0x45);
    v.push(0);
    push_be16(v, low16(20, l4_len));
    proof {
        lemma_be16_low(20 + l4_len as int);
    }
    v.push(0);
    v.push(0);
    v.push(0x40);
    v.push(0);
    v.push(64);
    v.push(proto);
    push_be16(v, csum);
    push_ipv4(v, src);
    push_ipv4(v, dst);
    assert(v@ =~= old(v)@ + ipv4_header(src, dst, proto, 20 + l4_len, csum));
}

/// Wraps an L4 payload in an IPv4 header.
pub fn ipv4_packet(src: Ipv4Addr, dst: Ipv4Addr, proto: u8, l4: &[u8]) -> (r: Vec<u8>)
    ensures
        r@ == ipv4_packet_of(src, dst, proto, l4@),
{
    let mut blank: Vec<u8> = Vec::new();
    push_ipv4_header(&mut blank, src, dst, proto, l4.len(), 0);
    assert(blank@ =~= ipv4_header(src, dst, proto, 20 + l4@.len() as int, 0));
    let c: u16 = checksum(blank.as_slice());
    let mut pkt: Vec<u8> = Vec::new();
    push_ipv4_header(&mut pkt, src, dst, proto, l4.len(), c);
    append(&mut pkt, l4);
    assert(pkt@ =~= ipv4_packet_of(src, dst, proto, l4@));
    pkt
}

/// The TCP or UDP checksum over the IPv4 pseudo-header and the segment.
pub fn l4_checksum(src: Ipv4Addr, dst: Ipv4Addr, proto: u8, l4: &[u8]) -> (r: u16)
    ensures
        r == l4_checksum_of(src, dst, proto, l4@),
{
    let mut ph: Vec<u8> = Vec::new();
    push_ipv4(&mut ph, src);
    push_ipv4(&mut ph, dst);
    ph.push(0);
    ph.push(proto);
    push_be16(&mut ph, low16(0, l4.len()));
    proof {
        lemma_be16_low(l4@.len() as int);
        assert(ph@ =~= pseudo_header(src, dst, proto, l4@.len() as int));
        lemma_word_sum_concat(ph@, l4@);
    }
    let head: u32 = sum16(ph.as_slice(), 0);
    let all: u32 = sum16(l4, head);
    proof {
        lemma_ones_add(
            head as nat,
            word_sum(ph@),
            word_sum(l4@),
        );
    }
    finish(all)
}

/// The TCP header and payload, with `csum` in the checksum field.
fn tcp_segment(f: &TcpFields, csum: u16, payload: &[u8]) -> (r: Vec<u8>)
    ensures
        r@ == tcp_bytes(*f, csum, payload@),
{
    let mut t: Vec<u8> = Vec::new();
    push_be16(&mut t, f.sport);
    push_be16(&mut t, f.dport);
    push_be32(&mut t, f.seq);
    push_be32(&mut t, f.ack);
    t.push(0x50);
    t.push(f.flags);
    push_be16(&mut t, WINDOW);
    push_be16(&mut t, csum);
    push_be16(&mut t, 0);
    append(&mut t, payload);
    assert(t@ =~= tcp_bytes(*f, csum, payload@));
    t
}

/// The IPv4 packet with the TCP segment `f` in it.
pub fn tcp_packet(f: &TcpFields, payload: &[u8]) -> (r: Vec<u8>)
    ensures
        r@ == tcp_packet_of(*f, payload@),
{
    proof {
        reveal(tcp_packet_of);
    }
    let blank = tcp_segment(f, 0, payload);
    let c: u16 = l4_checksum(f.src, f.dst, PROTO_TCP, blank.as_slice());
    let t = tcp_segment(f, c, payload);
    ipv4_packet(f.src, f.dst, PROTO_TCP, t.as_slice())
}

/// A TCP segment found in a packet. The payload is the packet's bytes from
/// `from` up to `to`.
#[derive(Clone, Copy, Debug, PartialEq, Eq, Structural)]
pub struct TcpView {
    pub src: Ipv4Addr,
    pub dst: Ipv4Addr,
    pub sport: u16,
    pub dport: u16,
    pub seq: u32,
    pub flags: u8,
    pub from: usize,
    pub to: usize,
}

impl TcpView {
    /// The payload inside the packet that the segment was found in.
    pub open spec fn payload(self, inner: Seq<u8>) -> Seq<u8> {
        inner.subrange(self.from as int, self.to as int)
    }
}

/// Whether `inner` holds a whole IPv4 packet with a TCP segment, both headers
/// complete.
pub open spec fn is_tcp(inner: Seq<u8>) -> bool {
    &&& inner.len() >= 20
    &&& inner[0] / 16 == 4
    &&& inner[9] == PROTO_TCP
    &&& ihl(inner) >= 20
    &&& ihl(inner) + 20 <= get_be16(inner, 2) <= inner.len()
    &&& ihl(inner) + data_offset(inner, ihl(inner)) <= get_be16(inner, 2)
    &&& data_offset(inner, ihl(inner)) >= 20
}

/// The length of the TCP header that starts at `at`.
pub open spec fn data_offset(inner: Seq<u8>, at: int) -> int {
    (inner[at + 12] / 16) * 4
}

/// The TCP segment in `inner`, if it holds one.
pub open spec fn tcp_view_of(inner: Seq<u8>) -> Option<TcpView> {
    if is_tcp(inner) {
        let h = ihl(inner);
        Some(
            TcpView {
                src: ipv4_at(inner, 12),
                dst: ipv4_at(inner, 16),
                sport: get_be16(inner, h) as u16,
                dport: get_be16(inner, h + 2) as u16,
                seq: get_be32(inner, h + 4) as u32,
                flags: inner[h + 13],
                from: (h + data_offset(inner, h)) as usize,
                to: get_be16(inner, 2) as usize,
            },
        )
    } else {
        None
    }
}

/// Finds the TCP segment in `inner`.
pub fn tcp_view(inner: &[u8]) -> (r: Option<TcpView>)
    ensures
        r == tcp_view_of(inner@),
        r matches Some(v) ==> v.from <= v.to <= inner@.len() && v.to <= 65535,
{
    if inner.len() < 20 || inner[0] / 16 != 4 || inner[9] != PROTO_TCP {
        return None;
    }
    let h: usize = (inner[0] % 16) as usize * 4;
    let total: usize = read_be16(inner, 2) as usize;
    if h < 20 || total < h + 20 || total > inner.len() {
        return None;
    }
    let off: usize = (inner[h + 12] / 16) as usize * 4;
    if off < 20 || off > total - h {
        return None;
    }
    Some(
        TcpView {
            src: read_ipv4(inner, 12),
            dst: read_ipv4(inner, 16),
            sport: read_be16(inner, h),
            dport: read_be16(inner, h + 2),
            seq: read_be32(inner, h + 4),
            flags: inner[h + 13],
            from: h + off,
            to: total,
        },
    )
}

/// Taking apart a TCP packet that was built gives back what it was built from,
/// where the packet is short enough for its length field.
pub proof fn law_tcp_roundtrip(f: TcpFields, payload: Seq<u8>)
    requires
        payload.len() + 40 <= 65535,
    ensures
        ({
            let p = tcp_packet_of(f, payload);
            &&& tcp_view_of(p) matches Some(v)
            &&& v.src == f.src
            &&& v.dst == f.dst
            &&& v.sport == f.sport
            &&& v.dport == f.dport
            &&& v.seq == f.seq
            &&& v.flags == f.flags
            &&& v.payload(p) == payload
        }),
{
    reveal(tcp_packet_of);
    let p = tcp_packet_of(f, payload);
    let csum = l4_checksum_of(f.src, f.dst, PROTO_TCP, tcp_bytes(f, 0, payload));
    let l4 = tcp_bytes(f, csum, payload);
    let total = 40 + payload.len() as int;
    assert(p[0] == 0x45 && p[9] == PROTO_TCP && p[32] == 0x50 && p[33] == f.flags);
    assert(p.subrange(2, 4) =~= be16(total));
    lemma_get_be16(p, 2, total);
    assert(ipv4_at(p, 12) == f.src);
    assert(ipv4_at(p, 16) == f.dst);
    assert(p.subrange(20, 22) =~= be16(f.sport as int));
    lemma_get_be16(p, 20, f.sport as int);
    assert(p.subrange(22, 24) =~= be16(f.dport as int));
    lemma_get_be16(p, 22, f.dport as int);
    assert(p.subrange(24, 28) =~= be32(f.seq as int));
    lemma_get_be32(p, 24, f.seq as int);
    assert(p.subrange(40, p.len() as int) =~= payload);
}

} // verus!
