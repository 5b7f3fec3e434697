//! The inner packets, byte by byte: what an IPv4 packet with ICMP, UDP or TCP in it holds, and
//! how the small TCP endpoints number and acknowledge what they send and get.
use vstd::prelude::*;
use crate::bytes::{get_be16, get_be32, lemma_seq_add_twice, seq_add};
use crate::icmp::{
    echo_reply_of, ihl, inet_checksum, is_echo_request, law_echo_reply_returns,
    law_echo_reply_verifies, word_sum,
};
use crate::ipv4::{
    data_offset, ipv4_packet_of, is_tcp, law_ipv4_header_verifies, law_tcp_packet_verifies,
    tcp_bytes, tcp_packet_of, tcp_view_of, TcpFields,
};
use crate::net::{ipv4_at, Ipv4Addr};
use crate::outbound::{
    law_ping_verifies, law_udp_verifies, ping_packet_of, udp_packet_of, ClientState,
};
use crate::proxy::{proxy_step, response_packets, ProxyStep};
use crate::tcp::{http_response_of, page_of, server_step, Conn};
use crate::wire::{in_four, in_two, law_byte_order, net16, net32};

verus! {

broadcast use crate::bytes::group_lengths;

/// The sum of the 16-bit words of `s`, the last one filled up with a zero byte.
pub open spec fn words(s: Seq<u8>) -> int
    decreases s.len(),
{
    if s.len() == 0 {
        0
    } else if s.len() == 1 {
        256 * s[0]
    } else {
        net16(s, 0) + words(s.skip(2))
    }
}

proof fn lemma_words(s: Seq<u8>)
    ensures
        words(s) == word_sum(s),
    decreases s.len(),
{
    if s.len() > 1 {
        lemma_words(s.skip(2));
        assert(s.skip(2) =~= s.subrange(2, s.len() as int));
    }
}

/// The checksum of `s` is what its words lack to a multiple of 65535; it is 65535 only where
/// all of them are zero.
pub proof fn law_checksum(s: Seq<u8>)
    ensures
        (words(s) + inet_checksum(s)) % 65535 == 0,
        inet_checksum(s) == 65535 <==> words(s) == 0,
{
    lemma_words(s);
    let n = word_sum(s);
    if n > 0 {
        let q = ((n - 1) / 65535) as int;
        assert(n - 1 == 65535 * q + (n - 1) % 65535);
        assert(n + inet_checksum(s) == 65535 * (q + 1));
    }
}

/// The four bytes of an address.
pub open spec fn quad(ip: Ipv4Addr) -> Seq<u8> {
    seq![ip.a, ip.b, ip.c, ip.d]
}

/// An IPv4 packet, field by field: no options, no fragments, 64 hops, and a header that sums
/// up to nothing.
pub proof fn law_ipv4_wire(src: Ipv4Addr, dst: Ipv4Addr, proto: u8, l4: Seq<u8>)
    requires
        20 + l4.len() <= 65535,
    ensures
        ({
            let p = ipv4_packet_of(src, dst, proto, l4);
            &&& p.len() == 20 + l4.len()
            &&& p[0] == 0x45
            &&& p[1] == 0
            &&& net16(p, 2) == p.len()
            &&& p.subrange(4, 10) == seq![0u8, 0, 0x40, 0, 64, proto]
            &&& p.subrange(12, 16) == quad(src)
            &&& p.subrange(16, 20) == quad(dst)
            &&& p.skip(20) == l4
            &&& words(p.take(20)) % 65535 == 0
        }),
{
    let total = 20 + l4.len() as int;
    let p = ipv4_packet_of(src, dst, proto, l4);
    law_ipv4_header_verifies(src, dst, proto, l4);
    law_checksum(p.subrange(0, 20));
    assert(p.take(20) =~= p.subrange(0, 20));
    law_byte_order(total);
    assert(p.subrange(2, 4) =~= in_two(total));
    assert(p[2] == p.subrange(2, 4)[0] && p[3] == p.subrange(2, 4)[1]);
    assert(p.subrange(4, 10) =~= seq![0u8, 0, 0x40, 0, 64, proto]);
    assert(p.subrange(12, 16) =~= quad(src));
    assert(p.subrange(16, 20) =~= quad(dst));
    assert(p.skip(20) =~= l4);
}

/// A ping, field by field: an echo request with this identifier, number and data, and a
/// message that sums up to nothing.
pub proof fn law_ping_wire(src: Ipv4Addr, dst: Ipv4Addr, ident: u16, seq: u16, payload: Seq<u8>)
    requires
        28 + payload.len() <= 65535,
    ensures
        ({
            let p = ping_packet_of(src, dst, ident, seq, payload);
            &&& p.len() == 28 + payload.len()
            &&& p[0] == 0x45
            &&& net16(p, 2) == p.len()
            &&& p[9] == 1
            &&& p.subrange(12, 16) == quad(src)
            &&& p.subrange(16, 20) == quad(dst)
            &&& p[20] == 8
            &&& p[21] == 0
            &&& net16(p, 24) == ident
            &&& net16(p, 26) == seq
            &&& p.skip(28) == payload
            &&& words(p.take(20)) % 65535 == 0
            &&& words(p.skip(20)) % 65535 == 0
        }),
{
    let p = ping_packet_of(src, dst, ident, seq, payload);
    let m = crate::outbound::ping_bytes(
        ident,
        seq,
        inet_checksum(crate::outbound::ping_bytes(ident, seq, 0, payload)),
        payload,
    );
    law_ipv4_wire(src, dst, 1, m);
    assert(p == ipv4_packet_of(src, dst, 1, m));
    assert(p.subrange(4, 10)[5] == p[9]);
    law_ping_verifies(src, dst, ident, seq, payload);
    assert(p.skip(20) =~= p.subrange(20, p.len() as int));
    law_checksum(p.skip(20));
    law_byte_order(ident as int);
    law_byte_order(seq as int);
    assert(m.subrange(4, 6) =~= in_two(ident as int));
    assert(m.subrange(6, 8) =~= in_two(seq as int));
    assert(p[20] == m[0] && p[21] == m[1]);
    assert(p[24] == m.subrange(4, 6)[0] && p[25] == m.subrange(4, 6)[1]);
    assert(p[26] == m.subrange(6, 8)[0] && p[27] == m.subrange(6, 8)[1]);
    assert(p.skip(28) =~= payload);
}

/// A UDP datagram, field by field: the two ports, its length and its data, and a sum over it
/// and its pseudo-header that comes to nothing.
pub proof fn law_udp_wire(src: Ipv4Addr, dst: Ipv4Addr, sport: u16, dport: u16, payload: Seq<u8>)
    requires
        28 + payload.len() <= 65535,
    ensures
        ({
            let p = udp_packet_of(src, dst, sport, dport, payload);
            &&& p.len() == 28 + payload.len()
            &&& p[0] == 0x45
            &&& net16(p, 2) == p.len()
            &&& p[9] == 17
            &&& p.subrange(12, 16) == quad(src)
            &&& p.subrange(16, 20) == quad(dst)
            &&& net16(p, 20) == sport
            &&& net16(p, 22) == dport
            &&& net16(p, 24) == 8 + payload.len()
            &&& p.skip(28) == payload
            &&& words(p.take(20)) % 65535 == 0
            &&& words(
                quad(src) + quad(dst) + seq![0u8, 17] + in_two(8 + payload.len() as int) + p.skip(
                    20,
                ),
            ) % 65535 == 0
        }),
{
    let p = udp_packet_of(src, dst, sport, dport, payload);
    let m = crate::outbound::udp_bytes(
        sport,
        dport,
        crate::ipv4::l4_checksum_of(
            src,
            dst,
            17,
            crate::outbound::udp_bytes(sport, dport, 0, payload),
        ),
        payload,
    );
    law_ipv4_wire(src, dst, 17, m);
    assert(p == ipv4_packet_of(src, dst, 17, m));
    assert(p.subrange(4, 10)[5] == p[9]);
    law_udp_verifies(src, dst, sport, dport, payload);
    assert(p.skip(20) =~= p.subrange(20, p.len() as int));
    law_byte_order(sport as int);
    law_byte_order(dport as int);
    law_byte_order(8 + payload.len() as int);
    assert(m.subrange(0, 2) =~= in_two(sport as int));
    assert(m.subrange(2, 4) =~= in_two(dport as int));
    assert(m.subrange(4, 6) =~= in_two(8 + payload.len() as int));
    assert(p[20] == m.subrange(0, 2)[0] && p[21] == m.subrange(0, 2)[1]);
    assert(p[22] == m.subrange(2, 4)[0] && p[23] == m.subrange(2, 4)[1]);
    assert(p[24] == m.subrange(4, 6)[0] && p[25] == m.subrange(4, 6)[1]);
    assert(p.skip(28) =~= payload);
    let all = crate::ipv4::pseudo_header(src, dst, 17, 8 + payload.len() as int) + p.skip(20);
    law_checksum(all);
    assert(all =~= quad(src) + quad(dst) + seq![0u8, 17] + in_two(8 + payload.len() as int)
        + p.skip(20));
}

/// What a TCP segment in an IPv4 packet says, read from its bytes.
pub struct Segment {
    pub src: Seq<u8>,
    pub dst: Seq<u8>,
    pub sport: int,
    pub dport: int,
    pub seq: int,
    pub ack: int,
    pub flags: u8,
    pub data: Seq<u8>,
}

/// The segment in `p`. The first byte gives the length of the IPv4 header in words, and the
/// upper half of the thirteenth byte behind it the length of the TCP header.
pub open spec fn segment_in(p: Seq<u8>) -> Segment {
    let h = 4 * (p[0] % 16);
    Segment {
        src: p.subrange(12, 16),
        dst: p.subrange(16, 20),
        sport: net16(p, h),
        dport: net16(p, h + 2),
        seq: net32(p, h + 4),
        ack: net32(p, h + 8),
        flags: p[h + 13],
        data: p.subrange(h + 4 * (p[h + 12] / 16), net16(p, 2)),
    }
}

/// Whether `p` is an IPv4 packet with a whole TCP segment in it.
pub open spec fn holds_segment(p: Seq<u8>) -> bool {
    let h = 4 * (p[0] % 16);
    &&& p.len() >= 20
    &&& p[0] / 16 == 4
    &&& h >= 20
    &&& p[9] == 6
    &&& h + 20 <= net16(p, 2) <= p.len()
    &&& 20 <= 4 * (p[h + 12] / 16) <= net16(p, 2) - h
}

/// A TCP packet, field by field: what it was built from stands in it, and the sum over it and
/// its pseudo-header comes to nothing.
pub proof fn law_tcp_wire(f: TcpFields, payload: Seq<u8>)
    requires
        40 + payload.len() <= 65535,
    ensures
        ({
            let p = tcp_packet_of(f, payload);
            &&& p.len() == 40 + payload.len()
            &&& holds_segment(p)
            &&& segment_in(p) == Segment {
                src: quad(f.src),
                dst: quad(f.dst),
                sport: f.sport as int,
                dport: f.dport as int,
                seq: f.seq as int,
                ack: f.ack as int,
                flags: f.flags,
                data: payload,
            }
            &&& net16(p, 34) == 64240
            &&& net16(p, 38) == 0
            &&& words(p.take(20)) % 65535 == 0
            &&& words(
                quad(f.src) + quad(f.dst) + seq![0u8, 6] + in_two(20 + payload.len() as int)
                    + p.skip(20),
            ) % 65535 == 0
        }),
{
    reveal(tcp_packet_of);
    let p = tcp_packet_of(f, payload);
    let m = tcp_bytes(
        f,
        crate::ipv4::l4_checksum_of(f.src, f.dst, 6, tcp_bytes(f, 0, payload)),
        payload,
    );
    law_ipv4_wire(f.src, f.dst, 6, m);
    assert(p == ipv4_packet_of(f.src, f.dst, 6, m));
    assert(p.subrange(4, 10)[5] == p[9]);
    law_tcp_packet_verifies(f, payload);
    assert(p.skip(20) =~= p.subrange(20, p.len() as int));
    law_byte_order(f.sport as int);
    law_byte_order(f.dport as int);
    law_byte_order(f.seq as int);
    law_byte_order(f.ack as int);
    law_byte_order(64240);
    law_byte_order(0);
    assert(m.subrange(0, 2) =~= in_two(f.sport as int));
    assert(m.subrange(2, 4) =~= in_two(f.dport as int));
    assert(m.subrange(4, 8) =~= in_four(f.seq as int));
    assert(m.subrange(8, 12) =~= in_four(f.ack as int));
    assert(m[12] == 0x50 && m[13] == f.flags);
    assert(m.subrange(14, 16) =~= in_two(64240));
    assert(m.subrange(18, 20) =~= in_two(0));
    assert forall|k: int| 0 <= k < m.len() implies p[20 + k] == #[trigger] m[k] by {}
    lemma_two(p, 20, m.subrange(0, 2), f.sport as int);
    lemma_two(p, 22, m.subrange(2, 4), f.dport as int);
    lemma_four(p, 24, m.subrange(4, 8), f.seq as int);
    lemma_four(p, 28, m.subrange(8, 12), f.ack as int);
    lemma_two(p, 34, m.subrange(14, 16), 64240);
    lemma_two(p, 38, m.subrange(18, 20), 0);
    assert(p.subrange(40, p.len() as int) =~= payload);
    law_byte_order(20 + payload.len() as int);
    let all = crate::ipv4::pseudo_header(f.src, f.dst, 6, 20 + payload.len() as int) + p.skip(20);
    law_checksum(all);
    assert(all =~= quad(f.src) + quad(f.dst) + seq![0u8, 6] + in_two(20 + payload.len() as int)
        + p.skip(20));
}

/// The number that was put in two bytes stands there.
proof fn lemma_two(p: Seq<u8>, at: int, b: Seq<u8>, n: int)
    requires
        0 <= at,
        at + 2 <= p.len(),
        0 <= n < 65536,
        b == in_two(n),
        p[at] == b[0],
        p[at + 1] == b[1],
    ensures
        net16(p, at) == n,
{
}

/// The number that was put in four bytes stands there.
proof fn lemma_four(p: Seq<u8>, at: int, b: Seq<u8>, n: int)
    requires
        0 <= at,
        at + 4 <= p.len(),
        0 <= n < 4294967296,
        b == in_four(n),
        p[at] == b[0],
        p[at + 1] == b[1],
        p[at + 2] == b[2],
        p[at + 3] == b[3],
    ensures
        net32(p, at) == n,
{
    assert(n / 65536 == 256 * (n / 16777216 % 256) + n / 65536 % 256);
    assert(n % 65536 == 256 * (n / 256 % 256) + n % 256);
}

/// What the endpoints read from a packet is what stands in it.
proof fn lemma_read(p: Seq<u8>)
    ensures
        is_tcp(p) <==> holds_segment(p),
        holds_segment(p) ==> {
            let v = tcp_view_of(p)->0;
            let s = segment_in(p);
            &&& tcp_view_of(p) is Some
            &&& quad(v.src) == s.src
            &&& quad(v.dst) == s.dst
            &&& v.sport == s.sport
            &&& v.dport == s.dport
            &&& v.seq == s.seq
            &&& v.flags == s.flags
            &&& v.payload(p) == s.data
            &&& s.data.len() <= 65535
        },
{
    if holds_segment(p) {
        let h = 4 * (p[0] % 16);
        assert(h == ihl(p));
        assert(net16(p, 2) == get_be16(p, 2));
        assert(net32(p, h + 4) == get_be32(p, h + 4));
        assert(quad(ipv4_at(p, 12)) =~= p.subrange(12, 16));
        assert(quad(ipv4_at(p, 16)) =~= p.subrange(16, 20));
    }
}

/// Addresses with the same four bytes are the same.
proof fn lemma_quad(x: Ipv4Addr, y: Ipv4Addr)
    ensures
        quad(x) == quad(y) <==> x == y,
{
    if quad(x) == quad(y) {
        assert(quad(x)[0] == quad(y)[0] && quad(x)[1] == quad(y)[1] && quad(x)[2] == quad(y)[2]
            && quad(x)[3] == quad(y)[3]);
    }
}

/// Whether `p` is a segment from the client, in its numbers and addresses, with these flags,
/// acknowledging `ack` and carrying `data`.
pub open spec fn from_client(
    c: ClientState,
    p: Seq<u8>,
    seq: int,
    ack: int,
    flags: u8,
    data: Seq<u8>,
) -> bool {
    &&& holds_segment(p)
    &&& segment_in(p) == Segment {
        src: quad(c.src),
        dst: quad(c.dst),
        sport: c.sport as int,
        dport: c.dport as int,
        seq,
        ack,
        flags,
        data,
    }
}

proof fn lemma_client_packet(c: ClientState, flags: u8, data: Seq<u8>)
    requires
        40 + data.len() <= 65535,
    ensures
        from_client(c, c.packet(flags, data), c.snd_nxt as int, c.rcv_nxt as int, flags, data),
{
    law_tcp_wire(
        TcpFields {
            src: c.src,
            dst: c.dst,
            sport: c.sport,
            dport: c.dport,
            seq: c.snd_nxt,
            ack: c.rcv_nxt,
            flags,
        },
        data,
    );
}

/// The client begins with a bare SYN at its first number, from its address and port to the
/// server's.
pub proof fn law_client_opens(
    src: Ipv4Addr,
    dst: Ipv4Addr,
    sport: u16,
    dport: u16,
    request: Seq<u8>,
    iss: u32,
)
    ensures
        ({
            let c = ClientState::fresh(src, dst, sport, dport, request, iss);
            &&& !c.done && !c.established && c.response.len() == 0 && c.request == request
            &&& holds_segment(c.packet(2, Seq::empty()))
            &&& segment_in(c.packet(2, Seq::empty())) == Segment {
                src: quad(src),
                dst: quad(dst),
                sport: sport as int,
                dport: dport as int,
                seq: iss as int,
                ack: 0,
                flags: 2,
                data: Seq::empty(),
            }
        }),
{
    lemma_client_packet(
        ClientState::fresh(src, dst, sport, dport, request, iss),
        2,
        Seq::empty(),
    );
}

/// A SYN-ACK for the client's port is acknowledged, and the whole request follows at once, both
/// at the client's number; the number then moves on by the request.
pub proof fn law_client_asks(c: ClientState, p: Seq<u8>)
    requires
        holds_segment(p),
        segment_in(p).dport == c.sport,
        !c.done,
        !c.established,
        segment_in(p).flags & 2 != 0,
        segment_in(p).flags & 16 != 0,
        c.request.len() + 40 <= 65535,
    ensures
        ({
            let (d, out) = c.step(p);
            let ack = (segment_in(p).seq + 1) % 4294967296;
            &&& out.len() == 2
            &&& from_client(c, out[0], c.snd_nxt as int, ack, 16, Seq::empty())
            &&& from_client(c, out[1], c.snd_nxt as int, ack, 24, c.request)
            &&& d == (ClientState {
                rcv_nxt: ack as u32,
                snd_nxt: ((c.snd_nxt + c.request.len()) % 4294967296) as u32,
                established: true,
                ..c
            })
        }),
{
    lemma_accepts(c, p);
    let e = ClientState {
        rcv_nxt: ((segment_in(p).seq + 1) % 4294967296) as u32,
        established: true,
        ..c
    };
    lemma_client_packet(e, 16, Seq::empty());
    lemma_client_packet(e, 24, c.request);
    assert(8u8 | 16u8 == 24u8) by (bit_vector);
}

/// A whole segment for the client's port is one that the client acts on until it is done.
proof fn lemma_accepts(c: ClientState, p: Seq<u8>)
    requires
        holds_segment(p),
        segment_in(p).dport == c.sport,
        !c.done,
    ensures
        c.accepts(p),
        ({
            let h = ihl(p);
            &&& get_be32(p, h + 4) as u32 == segment_in(p).seq
            &&& p[h + 13] == segment_in(p).flags
            &&& p.subrange(h + data_offset(p, h), get_be16(p, 2)) == segment_in(p).data
            &&& segment_in(p).data.len() <= 65535
        }),
{
    lemma_read(p);
    let h = 4 * (p[0] % 16);
    assert(h == ihl(p));
    assert(net16(p, h + 2) == get_be16(p, h + 2));
    assert(net32(p, h + 4) == get_be32(p, h + 4));
}

/// What the client has by the end of a segment: data that begins where the data so far ended
/// moves the mark on by its length, other data does not, and a FIN moves it on by one.
pub open spec fn mark_after(c: ClientState, s: Segment) -> int {
    let data = if s.seq == c.rcv_nxt {
        (c.rcv_nxt + s.data.len()) % 4294967296
    } else {
        c.rcv_nxt as int
    };
    if s.flags & 1 != 0 {
        (data + 1) % 4294967296
    } else {
        data
    }
}

/// Data without a FIN is acknowledged with one bare ACK, up to and with that data if it begins
/// where the data so far ended, and then it is kept; a segment without data and without a FIN
/// is not answered.
pub proof fn law_client_acknowledges(c: ClientState, p: Seq<u8>)
    requires
        holds_segment(p),
        segment_in(p).dport == c.sport,
        !c.done,
        c.established,
        segment_in(p).flags & 1 == 0,
    ensures
        ({
            let s = segment_in(p);
            let (d, out) = c.step(p);
            &&& s.data.len() > 0 ==> out.len() == 1 && from_client(
                c,
                out[0],
                c.snd_nxt as int,
                mark_after(c, s),
                16,
                Seq::empty(),
            )
            &&& s.data.len() == 0 ==> out.len() == 0
            &&& d.rcv_nxt == mark_after(c, s)
            &&& d.response == if s.seq == c.rcv_nxt {
                c.response + s.data
            } else {
                c.response
            }
            &&& d == (ClientState { rcv_nxt: d.rcv_nxt, response: d.response, ..c })
        }),
{
    lemma_accepts(c, p);
    let s = segment_in(p);
    let (d, out) = c.step(p);
    lemma_client_packet(d, 16, Seq::empty());
    if s.data.len() == 0 {
        assert(c.response + s.data =~= c.response);
    }
}

/// A FIN ends the exchange: it is acknowledged, with the data that came with it, and answered
/// with a FIN of the client's own.
pub proof fn law_client_closes(c: ClientState, p: Seq<u8>)
    requires
        holds_segment(p),
        segment_in(p).dport == c.sport,
        !c.done,
        c.established,
        segment_in(p).flags & 1 != 0,
    ensures
        ({
            let s = segment_in(p);
            let (d, out) = c.step(p);
            let n = out.len();
            &&& n == if s.data.len() > 0 {
                3nat
            } else {
                2nat
            }
            &&& from_client(c, out[n - 2], c.snd_nxt as int, mark_after(c, s), 16, Seq::empty())
            &&& from_client(c, out[n - 1], c.snd_nxt as int, mark_after(c, s), 17, Seq::empty())
            &&& d.done
            &&& d.rcv_nxt == mark_after(c, s)
            &&& d.response == if s.seq == c.rcv_nxt {
                c.response + s.data
            } else {
                c.response
            }
        }),
{
    lemma_accepts(c, p);
    let s = segment_in(p);
    let (d, out) = c.step(p);
    lemma_client_packet(d, 16, Seq::empty());
    lemma_client_packet(d, 17, Seq::empty());
    assert(1u8 | 16u8 == 17u8) by (bit_vector);
    if s.data.len() == 0 {
        assert(c.response + s.data =~= c.response);
    }
}

/// What is no segment for the client's port changes nothing and is not answered.
pub proof fn law_client_ignores(c: ClientState, p: Seq<u8>)
    requires
        p.len() < 20 || p[0] / 16 != 4 || p[9] != 6 || (p.len() >= 4 * (p[0] % 16) + 4 && net16(
            p,
            4 * (p[0] % 16) + 2,
        ) != c.sport) || c.done,
    ensures
        c.step(p) == (c, Seq::<Seq<u8>>::empty()),
{
    if p.len() >= 20 {
        assert(4 * (p[0] % 16) == ihl(p));
    }
}

/// Whether `p` is an answer to the segment `s` from the port that it came to, back to where it
/// came from.
pub open spec fn answers(p: Seq<u8>, s: Segment, seq: int, ack: int, flags: u8, data: Seq<u8>) -> bool {
    &&& holds_segment(p)
    &&& segment_in(p) == Segment {
        src: s.dst,
        dst: s.src,
        sport: s.dport,
        dport: s.sport,
        seq,
        ack,
        flags,
        data,
    }
}

/// Whether `s` comes from the same place as `t` and to the same place.
pub open spec fn same_flow(s: Segment, t: Segment) -> bool {
    s.src == t.src && s.dst == t.dst && s.sport == t.sport && s.dport == t.dport
}

proof fn lemma_server_packet(c: Conn, port: u16, flags: u8, data: Seq<u8>)
    requires
        40 + data.len() <= 65535,
    ensures
        holds_segment(c.packet(port, flags, data)),
        segment_in(c.packet(port, flags, data)) == (Segment {
            src: quad(c.our_ip),
            dst: quad(c.client_ip),
            sport: port as int,
            dport: c.client_port as int,
            seq: c.snd_nxt as int,
            ack: c.rcv_nxt as int,
            flags,
            data,
        }),
{
    law_tcp_wire(
        TcpFields {
            src: c.our_ip,
            dst: c.client_ip,
            sport: port,
            dport: c.client_port,
            seq: c.snd_nxt,
            ack: c.rcv_nxt,
            flags,
        },
        data,
    );
}

proof fn lemma_flag_sums()
    ensures
        2u8 | 16u8 == 18u8,
        8u8 | 16u8 == 24u8,
        8u8 | 16u8 | 1u8 == 25u8,
        1u8 | 16u8 == 17u8,
{
    assert(2u8 | 16u8 == 18u8 && 8u8 | 16u8 == 24u8 && 8u8 | 16u8 | 1u8 == 25u8 && 1u8 | 16u8
        == 17u8) by (bit_vector);
}

/// One whole visit to the server, whatever it was doing before: a SYN to port 80 gets a
/// SYN-ACK at the number `iss`; the first data after it gets, one number on, the page for the
/// address that was called, with a FIN, and an acknowledgment of all of the data; the visitor's
/// FIN is acknowledged behind all that was sent, and the server is free again.
pub proof fn law_server_visit(
    was: Conn,
    syn: Seq<u8>,
    req: Seq<u8>,
    fin: Seq<u8>,
    iss: u32,
    ip: Ipv4Addr,
    x: u32,
)
    requires
        holds_segment(syn) && holds_segment(req) && holds_segment(fin),
        segment_in(syn).dport == 80,
        segment_in(syn).dst == quad(ip),
        segment_in(syn).flags & 2 != 0,
        same_flow(segment_in(syn), segment_in(req)),
        segment_in(req).flags & 2 == 0 && segment_in(req).flags & 4 == 0,
        segment_in(req).data.len() > 0,
        same_flow(segment_in(syn), segment_in(fin)),
        segment_in(fin).flags & 2 == 0 && segment_in(fin).flags & 4 == 0,
        segment_in(fin).flags & 1 != 0,
        segment_in(fin).data.len() == 0,
    ensures
        ({
            let (a, b, c) = (segment_in(syn), segment_in(req), segment_in(fin));
            let page = http_response_of(page_of(ip));
            let (s1, o1) = server_step(was, syn, iss);
            let (s2, o2) = server_step(s1, req, x);
            let (s3, o3) = server_step(s2, fin, x);
            &&& o1.len() == 1 && answers(
                o1[0],
                a,
                iss as int,
                (a.seq + 1) % 4294967296,
                18,
                Seq::empty(),
            )
            &&& o2.len() == 1 && answers(
                o2[0],
                b,
                (iss + 1) % 4294967296,
                (b.seq + b.data.len()) % 4294967296,
                25,
                page,
            )
            &&& o3.len() == 1 && answers(
                o3[0],
                c,
                (iss + 2 + page.len()) % 4294967296,
                (c.seq + 1) % 4294967296,
                16,
                Seq::empty(),
            )
            &&& !s3.active
        }),
{
    lemma_flag_sums();
    lemma_read(syn);
    lemma_read(req);
    lemma_read(fin);
    let (v, w, u) = (tcp_view_of(syn)->0, tcp_view_of(req)->0, tcp_view_of(fin)->0);
    lemma_quad(v.src, w.src);
    lemma_quad(v.src, u.src);
    lemma_quad(v.dst, ip);
    let page = http_response_of(page_of(ip));
    crate::exchange_laws::law_response_is_short(ip);
    let (s1, o1) = server_step(was, syn, iss);
    lemma_server_packet(Conn::opened(v, iss), 80, 18, Seq::empty());
    let (s2, o2) = server_step(s1, req, x);
    let c2 = Conn { rcv_nxt: seq_add(w.seq, segment_in(req).data.len() as int), ..s1 };
    lemma_server_packet(c2, 80, 25, page);
    let (s3, o3) = server_step(s2, fin, x);
    lemma_server_packet(Conn { rcv_nxt: seq_add(u.seq, 1), ..s2 }, 80, 16, Seq::empty());
    lemma_seq_add_twice(iss, 1, page.len() as int + 1);
}

/// A reset ends the visit without an answer, and so does what comes after it without a SYN.
pub proof fn law_server_reset(was: Conn, syn: Seq<u8>, rst: Seq<u8>, late: Seq<u8>, iss: u32)
    requires
        holds_segment(syn) && holds_segment(rst) && holds_segment(late),
        segment_in(syn).dport == 80,
        segment_in(syn).flags & 2 != 0,
        same_flow(segment_in(syn), segment_in(rst)),
        segment_in(rst).flags & 2 == 0 && segment_in(rst).flags & 4 != 0,
        segment_in(late).flags & 2 == 0,
    ensures
        ({
            let s1 = server_step(was, syn, iss).0;
            let (s2, o2) = server_step(s1, rst, iss);
            &&& o2.len() == 0
            &&& server_step(s2, late, iss).1.len() == 0
        }),
{
    lemma_read(syn);
    lemma_read(rst);
    lemma_read(late);
    lemma_quad((tcp_view_of(syn)->0).src, (tcp_view_of(rst)->0).src);
}

/// The proxy answers a SYN to its port as the server does; the first data after it is the
/// request to forward, and all of it is acknowledged.
pub proof fn law_proxy_visit(
    port: u16,
    was: Conn,
    fetched: bool,
    syn: Seq<u8>,
    req: Seq<u8>,
    iss: u32,
    x: u32,
)
    requires
        holds_segment(syn) && holds_segment(req),
        segment_in(syn).dport == port,
        segment_in(syn).flags & 2 != 0,
        same_flow(segment_in(syn), segment_in(req)),
        segment_in(req).flags & 2 == 0 && segment_in(req).flags & 4 == 0,
        segment_in(req).data.len() > 0,
    ensures
        ({
            let (a, b) = (segment_in(syn), segment_in(req));
            let (s1, f1, o1) = proxy_step(port, was, fetched, syn, iss);
            let (s2, f2, o2) = proxy_step(port, s1, f1, req, x);
            &&& o1 matches ProxyStep::Reply(out) && out.len() == 1 && answers(
                out[0],
                a,
                iss as int,
                (a.seq + 1) % 4294967296,
                18,
                Seq::empty(),
            )
            &&& o2 matches ProxyStep::Fetch { ack, request } && request == b.data && answers(
                ack,
                b,
                (iss + 1) % 4294967296,
                (b.seq + b.data.len()) % 4294967296,
                16,
                Seq::empty(),
            )
            &&& f2
        }),
{
    lemma_flag_sums();
    lemma_read(syn);
    lemma_read(req);
    let (v, w) = (tcp_view_of(syn)->0, tcp_view_of(req)->0);
    lemma_quad(v.src, w.src);
    let (s1, f1, o1) = proxy_step(port, was, fetched, syn, iss);
    lemma_server_packet(Conn::opened(v, iss), port, 18, Seq::empty());
    lemma_server_packet(
        Conn { rcv_nxt: seq_add(w.seq, segment_in(req).data.len() as int), ..s1 },
        port,
        16,
        Seq::empty(),
    );
}

/// One request is forwarded for a visit: a segment without data, or one after the request, that
/// is neither the first nor the last of the visit leads to nothing.
pub proof fn law_proxy_waits(port: u16, conn: Conn, fetched: bool, seg: Seq<u8>, x: u32)
    requires
        holds_segment(seg),
        segment_in(seg).flags & 2 == 0,
        segment_in(seg).flags & 4 == 0,
        segment_in(seg).flags & 1 == 0,
        segment_in(seg).data.len() == 0 || fetched,
    ensures
        proxy_step(port, conn, fetched, seg, x) == (
            conn,
            fetched,
            ProxyStep::Reply(Seq::<Seq<u8>>::empty()),
        ),
{
    lemma_read(seg);
}

/// What is for another port, or from anyone else than the visitor, leads to nothing unless it
/// opens a visit.
pub proof fn law_proxy_ignores(port: u16, conn: Conn, fetched: bool, seg: Seq<u8>, x: u32)
    requires
        holds_segment(seg),
        segment_in(seg).dport != port || (segment_in(seg).flags & 2 == 0 && !(conn.active
            && segment_in(seg).src == quad(conn.client_ip) && segment_in(seg).sport
            == conn.client_port)),
    ensures
        proxy_step(port, conn, fetched, seg, x) == (
            conn,
            fetched,
            ProxyStep::Reply(Seq::<Seq<u8>>::empty()),
        ),
{
    lemma_read(seg);
    let u = tcp_view_of(seg)->0;
    lemma_quad(u.src, conn.client_ip);
}

/// A visitor's FIN at the proxy is acknowledged, and the proxy is free again.
pub proof fn law_proxy_close(port: u16, conn: Conn, fetched: bool, fin: Seq<u8>, x: u32)
    requires
        holds_segment(fin),
        conn.active,
        segment_in(fin).dport == port,
        segment_in(fin).src == quad(conn.client_ip),
        segment_in(fin).dst == quad(conn.our_ip),
        segment_in(fin).sport == conn.client_port,
        segment_in(fin).flags & 2 == 0 && segment_in(fin).flags & 4 == 0,
        segment_in(fin).flags & 1 != 0,
        segment_in(fin).data.len() == 0,
    ensures
        ({
            let c = segment_in(fin);
            let (s, f, o) = proxy_step(port, conn, fetched, fin, x);
            &&& o matches ProxyStep::Reply(out) && out.len() == 1 && answers(
                out[0],
                c,
                conn.snd_nxt as int,
                (c.seq + 1) % 4294967296,
                16,
                Seq::empty(),
            )
            &&& !s.active && !f
        }),
{
    lemma_read(fin);
    let u = tcp_view_of(fin)->0;
    lemma_quad(u.src, conn.client_ip);
    lemma_quad(u.dst, conn.our_ip);
    lemma_server_packet(Conn { rcv_nxt: seq_add(u.seq, 1), ..conn }, port, 16, Seq::empty());
}

/// The response goes back to the visitor in segments of 1024 bytes and one with the rest, each
/// at the number where its bytes belong, the last one with a FIN; the number then stands behind
/// the response and the FIN.
pub proof fn law_proxy_response(port: u16, conn: Conn, resp: Seq<u8>, k: int)
    requires
        0 <= 1024 * k < resp.len(),
    ensures
        ({
            let out = response_packets(port, conn, resp);
            let end = if 1024 * k + 1024 < resp.len() {
                1024 * k + 1024
            } else {
                resp.len() as int
            };
            &&& (out.len() - 1) * 1024 < resp.len() <= out.len() * 1024
            &&& holds_segment(out[k])
            &&& segment_in(out[k]) == Segment {
                src: quad(conn.our_ip),
                dst: quad(conn.client_ip),
                sport: port as int,
                dport: conn.client_port as int,
                seq: (conn.snd_nxt + 1024 * k) % 4294967296,
                ack: conn.rcv_nxt as int,
                flags: if end == resp.len() {
                    25
                } else {
                    24
                },
                data: resp.subrange(1024 * k, end),
            }
            &&& crate::proxy::after_response(conn, resp) == Conn {
                snd_nxt: ((conn.snd_nxt + resp.len() + 1) % 4294967296) as u32,
                ..conn
            }
        }),
{
    lemma_flag_sums();
    let out = response_packets(port, conn, resp);
    let end = if 1024 * k + 1024 < resp.len() {
        1024 * k + 1024
    } else {
        resp.len() as int
    };
    let c = Conn { snd_nxt: seq_add(conn.snd_nxt, 1024 * k), ..conn };
    lemma_server_packet(c, port, 24, resp.subrange(1024 * k, end));
    lemma_server_packet(c, port, 25, resp.subrange(1024 * k, end));
    assert(crate::proxy::chunk(resp, k) == resp.subrange(1024 * k, end));
}

/// An echo request is answered to its sender with its identifier, number and data, and both
/// sums of the answer come to nothing.
pub proof fn law_echo_wire(p: Seq<u8>)
    requires
        p.len() >= 20,
        p[0] / 16 == 4,
        20 <= 4 * (p[0] % 16),
        4 * (p[0] % 16) + 8 <= net16(p, 2) <= p.len(),
        p[9] == 1,
        p[4 * (p[0] % 16)] == 8,
    ensures
        is_echo_request(p),
        ({
            let h = 4 * (p[0] % 16);
            let r = echo_reply_of(p);
            &&& r.len() == net16(p, 2)
            &&& r.take(10) == p.take(10)
            &&& r.subrange(12, 16) == p.subrange(16, 20)
            &&& r.subrange(16, 20) == p.subrange(12, 16)
            &&& r.subrange(20, h) == p.subrange(20, h)
            &&& r[h] == 0
            &&& r[h + 1] == p[h + 1]
            &&& r.skip(h + 4) == p.subrange(h + 4, net16(p, 2))
            &&& words(r.take(h)) % 65535 == 0
            &&& words(r.skip(h)) % 65535 == 0
        }),
{
    let h = 4 * (p[0] % 16);
    let r = echo_reply_of(p);
    assert(h == ihl(p) && net16(p, 2) == get_be16(p, 2));
    law_echo_reply_verifies(p);
    law_echo_reply_returns(p);
    law_checksum(r.subrange(0, h));
    law_checksum(r.subrange(h, r.len() as int));
    assert(r.take(h) =~= r.subrange(0, h));
    assert(r.skip(h) =~= r.subrange(h, r.len() as int));
    assert(r.take(10) =~= p.take(10));
    assert(r.subrange(20, h) =~= p.subrange(20, h));
    assert(r.skip(h + 4) =~= p.subrange(h + 4, net16(p, 2)));
}

/// Nothing but an echo request is answered as one.
pub proof fn law_echo_only(p: Seq<u8>)
    requires
        p.len() < 20 || p[0] / 16 != 4 || p[9] != 1 || net16(p, 2) > p.len() || p[4 * (p[0] % 16)]
            != 8,
    ensures
        !is_echo_request(p),
{
    if p.len() >= 20 {
        assert(4 * (p[0] % 16) == ihl(p) && net16(p, 2) == get_be16(p, 2));
    }
}

} // verus!
