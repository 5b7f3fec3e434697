//! Traffic that the node starts itself: the inner IPv4 packets it sends through a
//! tunnel to a peer (a ping, a UDP datagram, one HTTP request over a minimal TCP
//! client). Replies come back as inner packets.
use vstd::prelude::*;
use crate::bytes::{
    append, be16, copy_range, get_be16, get_be32, lemma_be16_low, packets, push_be16, read_be16,
    read_be32, seq_add, seq_advance,
};
use crate::icmp::{
    checksum, ihl, inet_checksum, law_checksum_verifies, ICMP_ECHO_REQUEST, PROTO_ICMP,
};
use crate::ipv4::{
    data_offset, ipv4_packet, ipv4_packet_of, l4_checksum, l4_checksum_of,
    law_ipv4_header_verifies, law_l4_verifies, tcp_packet, tcp_packet_of, TcpFields, ACK, FIN,
    PROTO_TCP, PROTO_UDP, PSH, SYN,
};
use crate::net::Ipv4Addr;
use crate::rng::{random_u32, NoEntropy};

verus! {

broadcast use crate::bytes::group_lengths;

/// An ICMP echo request with `csum` in its checksum field.
pub open spec fn ping_bytes(ident: u16, seq: u16, csum: u16, payload: Seq<u8>) -> Seq<u8> {
    seq![ICMP_ECHO_REQUEST, 0u8] + be16(csum as int) + (be16(ident as int) + be16(seq as int)
        + payload)
}

/// The IPv4 packet with a ping in it.
pub open spec fn ping_packet_of(
    src: Ipv4Addr,
    dst: Ipv4Addr,
    ident: u16,
    seq: u16,
    payload: Seq<u8>,
) -> Seq<u8> {
    let csum = inet_checksum(ping_bytes(ident, seq, 0, payload));
    ipv4_packet_of(src, dst, PROTO_ICMP, ping_bytes(ident, seq, csum, payload))
}

/// The ICMP message of a ping, with `csum` in its checksum field.
fn ping_message(ident: u16, seq: u16, csum: u16, payload: &[u8]) -> (r: Vec<u8>)
    ensures
        r@ == ping_bytes(ident, seq, csum, payload@),
{
    let mut m: Vec<u8> = Vec::new();
    m.push(ICMP_ECHO_REQUEST);
    m.push(0);
    push_be16(&mut m, csum);
    push_be16(&mut m, ident);
    push_be16(&mut m, seq);
    append(&mut m, payload);
    assert(m@ =~= ping_bytes(ident, seq, csum, payload@));
    m
}

/// Builds an IPv4 ICMP echo request (ping out).
pub fn icmp_echo_request(src: Ipv4Addr, dst: Ipv4Addr, ident: u16, seq: u16, payload: &[u8]) -> (r:
    Vec<u8>)
    ensures
        r@ == ping_packet_of(src, dst, ident, seq, payload@),
{
    let blank = ping_message(ident, seq, 0, payload);
    let c: u16 = checksum(blank.as_slice());
    let m = ping_message(ident, seq, c, payload);
    ipv4_packet(src, dst, PROTO_ICMP, m.as_slice())
}

/// A UDP header and payload with `csum` in the checksum field. The length field
/// holds the length modulo 65536.
pub open spec fn udp_bytes(sport: u16, dport: u16, csum: u16, payload: Seq<u8>) -> Seq<u8> {
    be16(sport as int) + be16(dport as int) + be16(8 + payload.len() as int) + be16(csum as int)
        + payload
}

/// The IPv4 packet with a UDP datagram in it.
pub open spec fn udp_packet_of(
    src: Ipv4Addr,
    dst: Ipv4Addr,
    sport: u16,
    dport: u16,
    payload: Seq<u8>,
) -> Seq<u8> {
    let csum = l4_checksum_of(src, dst, PROTO_UDP, udp_bytes(sport, dport, 0, payload));
    ipv4_packet_of(src, dst, PROTO_UDP, udp_bytes(sport, dport, csum, payload))
}

/// The UDP header and payload, with `csum` in the checksum field.
fn udp_message(sport: u16, dport: u16, csum: u16, payload: &[u8]) -> (r: Vec<u8>)
    ensures
        r@ == udp_bytes(sport, dport, csum, payload@),
{
    let mut m: Vec<u8> = Vec::new();
    push_be16(&mut m, sport);
    push_be16(&mut m, dport);
    let len: u16 = ((8 + payload.len() % 65536) % 65536) as u16;
    push_be16(&mut m, len);
    proof {
        lemma_be16_low(8 + payload@.len() as int);
    }
    push_be16(&mut m, csum);
    append(&mut m, payload);
    assert(m@ =~= udp_bytes(sport, dport, csum, payload@));
    m
}

/// Builds an IPv4 UDP datagram.
pub fn udp_datagram(src: Ipv4Addr, dst: Ipv4Addr, sport: u16, dport: u16, payload: &[u8]) -> (r: Vec<
    u8,
>)
    ensures
        r@ == udp_packet_of(src, dst, sport, dport, payload@),
{
    let blank = udp_message(sport, dport, 0, payload);
    let c: u16 = l4_checksum(src, dst, PROTO_UDP, blank.as_slice());
    let m = udp_message(sport, dport, c, payload);
    ipv4_packet(src, dst, PROTO_UDP, m.as_slice())
}

/// A ping verifies: its IPv4 header and its ICMP message have checksum zero.
pub proof fn law_ping_verifies(src: Ipv4Addr, dst: Ipv4Addr, ident: u16, seq: u16, payload: Seq<u8>)
    ensures
        ({
            let p = ping_packet_of(src, dst, ident, seq, payload);
            &&& inet_checksum(p.subrange(0, 20)) == 0
            &&& inet_checksum(p.subrange(20, p.len() as int)) == 0
        }),
{
    let csum = inet_checksum(ping_bytes(ident, seq, 0, payload));
    let m = ping_bytes(ident, seq, csum, payload);
    law_ipv4_header_verifies(src, dst, PROTO_ICMP, m);
    law_checksum_verifies(
        seq![ICMP_ECHO_REQUEST, 0u8],
        be16(ident as int) + be16(seq as int) + payload,
    );
}

/// A UDP datagram verifies: its IPv4 header by itself, the datagram under its
/// pseudo-header.
pub proof fn law_udp_verifies(
    src: Ipv4Addr,
    dst: Ipv4Addr,
    sport: u16,
    dport: u16,
    payload: Seq<u8>,
)
    ensures
        ({
            let p = udp_packet_of(src, dst, sport, dport, payload);
            &&& inet_checksum(p.subrange(0, 20)) == 0
            &&& l4_checksum_of(src, dst, PROTO_UDP, p.subrange(20, p.len() as int)) == 0
        }),
{
    let csum = l4_checksum_of(src, dst, PROTO_UDP, udp_bytes(sport, dport, 0, payload));
    let m = udp_bytes(sport, dport, csum, payload);
    law_ipv4_header_verifies(src, dst, PROTO_UDP, m);
    law_l4_verifies(
        src,
        dst,
        PROTO_UDP,
        be16(sport as int) + be16(dport as int) + be16(8 + payload.len() as int),
        payload,
    );
}

/// A minimal single-connection TCP client, enough for one HTTP request and its
/// response.
pub struct TcpClient {
    pub src: Ipv4Addr,
    pub dst: Ipv4Addr,
    pub sport: u16,
    pub dport: u16,
    pub snd_nxt: u32,
    pub rcv_nxt: u32,
    pub request: Vec<u8>,
    pub response: Vec<u8>,
    pub done: bool,
    pub established: bool,
}

/// What a `TcpClient` holds.
pub struct ClientState {
    pub src: Ipv4Addr,
    pub dst: Ipv4Addr,
    pub sport: u16,
    pub dport: u16,
    pub snd_nxt: u32,
    pub rcv_nxt: u32,
    pub request: Seq<u8>,
    pub response: Seq<u8>,
    pub done: bool,
    pub established: bool,
}

impl View for TcpClient {
    type V = ClientState;

    open spec fn view(&self) -> ClientState {
        ClientState {
            src: self.src,
            dst: self.dst,
            sport: self.sport,
            dport: self.dport,
            snd_nxt: self.snd_nxt,
            rcv_nxt: self.rcv_nxt,
            request: self.request@,
            response: self.response@,
            done: self.done,
            established: self.established,
        }
    }
}

impl ClientState {
    /// A client that has sent nothing yet and starts at sequence number `iss`.
    pub open spec fn fresh(
        src: Ipv4Addr,
        dst: Ipv4Addr,
        sport: u16,
        dport: u16,
        request: Seq<u8>,
        iss: u32,
    ) -> ClientState {
        ClientState {
            src,
            dst,
            sport,
            dport,
            snd_nxt: iss,
            rcv_nxt: 0,
            request,
            response: Seq::empty(),
            done: false,
            established: false,
        }
    }

    /// The packet that the client sends with these flags and this payload.
    pub open spec fn packet(self, flags: u8, payload: Seq<u8>) -> Seq<u8> {
        tcp_packet_of(
            TcpFields {
                src: self.src,
                dst: self.dst,
                sport: self.sport,
                dport: self.dport,
                seq: self.snd_nxt,
                ack: self.rcv_nxt,
                flags,
            },
            payload,
        )
    }

    /// Whether `inner` is a TCP segment for the client's port.
    pub open spec fn owns(self, inner: Seq<u8>) -> bool {
        &&& inner.len() >= 20
        &&& inner[0] / 16 == 4
        &&& inner[9] == PROTO_TCP
        &&& inner.len() >= ihl(inner) + 4
        &&& get_be16(inner, ihl(inner) + 2) == self.sport
    }

    /// Whether the client acts on `inner` at all: it is the client's, complete,
    /// and the exchange is still going on.
    pub open spec fn accepts(self, inner: Seq<u8>) -> bool {
        &&& self.owns(inner)
        &&& !self.done
        &&& ihl(inner) + 20 <= get_be16(inner, 2) <= inner.len()
        &&& data_offset(inner, ihl(inner)) >= 20
        &&& ihl(inner) + data_offset(inner, ihl(inner)) <= get_be16(inner, 2)
    }

    /// The answer to the server's SYN-ACK: acknowledge it, then send the request.
    pub open spec fn on_syn_ack(self, seq: u32) -> (ClientState, Seq<Seq<u8>>) {
        let c = ClientState { rcv_nxt: seq_add(seq, 1), established: true, ..self };
        (
            ClientState { snd_nxt: seq_add(c.snd_nxt, c.request.len() as int), ..c },
            seq![c.packet(ACK, Seq::empty()), c.packet(PSH | ACK, c.request)],
        )
    }

    /// The answer to a payload: in-order data is kept, and whatever came is
    /// acknowledged. No payload, no answer.
    pub open spec fn on_data(self, seq: u32, payload: Seq<u8>) -> (ClientState, Seq<Seq<u8>>) {
        if payload.len() == 0 {
            (self, Seq::empty())
        } else {
            let c = if seq == self.rcv_nxt {
                ClientState {
                    response: self.response + payload,
                    rcv_nxt: seq_add(self.rcv_nxt, payload.len() as int),
                    ..self
                }
            } else {
                self
            };
            (c, seq![c.packet(ACK, Seq::empty())])
        }
    }

    /// The answer to the server's FIN: acknowledge it and finish too.
    pub open spec fn on_fin(self) -> (ClientState, Seq<Seq<u8>>) {
        let c = ClientState { rcv_nxt: seq_add(self.rcv_nxt, 1), done: true, ..self };
        (c, seq![c.packet(ACK, Seq::empty()), c.packet(FIN | ACK, Seq::empty())])
    }

    /// The client after `inner`, and the packets it answers with.
    pub open spec fn step(self, inner: Seq<u8>) -> (ClientState, Seq<Seq<u8>>) {
        if !self.accepts(inner) {
            (self, Seq::empty())
        } else {
            let h = ihl(inner);
            let seq = get_be32(inner, h + 4) as u32;
            let flags = inner[h + 13];
            let payload = inner.subrange(h + data_offset(inner, h), get_be16(inner, 2));
            if flags & SYN != 0 && flags & ACK != 0 && !self.established {
                self.on_syn_ack(seq)
            } else {
                let (c, data) = self.on_data(seq, payload);
                if flags & FIN != 0 {
                    let (d, fin) = c.on_fin();
                    (d, data + fin)
                } else {
                    (c, data)
                }
            }
        }
    }
}

/// Makes the initial sequence number from a random number: its low 31 bits, and
/// never zero.
pub fn initial_seq(r: u32) -> (iss: u32)
    ensures
        iss == if r % 0x8000_0000 == 0 {
            1
        } else {
            r % 0x8000_0000
        },
{
    let low: u32 = r % 0x8000_0000;
    if low == 0 {
        1
    } else {
        low
    }
}

impl TcpClient {
    /// A client whose initial sequence number is made from `r`.
    pub fn with_random(
        src: Ipv4Addr,
        dst: Ipv4Addr,
        sport: u16,
        dport: u16,
        request: Vec<u8>,
        r: u32,
    ) -> (c: Self)
        ensures
            c@ == ClientState::fresh(
                src,
                dst,
                sport,
                dport,
                request@,
                if r % 0x8000_0000 == 0 {
                    1
                } else {
                    r % 0x8000_0000
                },
            ),
    {
        let c = TcpClient {
            src,
            dst,
            sport,
            dport,
            snd_nxt: initial_seq(r),
            rcv_nxt: 0,
            request,
            response: Vec::new(),
            done: false,
            established: false,
        };
        assert(c.response@ =~= Seq::empty());
        c
    }

    /// A client with a random initial sequence number. It fails where the system
    /// has no entropy to give, which nothing here decides.
    pub fn new(src: Ipv4Addr, dst: Ipv4Addr, sport: u16, dport: u16, request: Vec<u8>) -> (r: Result<
        Self,
        NoEntropy,
    >)
        ensures
            r matches Ok(c) ==> {
                &&& c@ == ClientState::fresh(src, dst, sport, dport, request@, c.snd_nxt)
                &&& 1 <= c.snd_nxt < 0x8000_0000
            },
    {
        match random_u32() {
            Ok(n) => Ok(Self::with_random(src, dst, sport, dport, request, n)),
            Err(e) => Err(e),
        }
    }

    /// The first packet: SYN, which takes up one sequence number.
    pub fn open(&mut self) -> (r: Vec<u8>)
        ensures
            r@ == old(self)@.packet(SYN, Seq::empty()),
            final(self)@ == (ClientState { snd_nxt: seq_add(old(self).snd_nxt, 1), ..old(self)@ }),
    {
        let seg = self.bare(SYN);
        self.snd_nxt = seq_advance(self.snd_nxt, 1);
        seg
    }

    /// Whether `inner` is a TCP segment that belongs to this connection.
    pub fn owns(&self, inner: &[u8]) -> (r: bool)
        ensures
            r == self@.owns(inner@),
    {
        if inner.len() < 20 || inner[0] / 16 != 4 || inner[9] != PROTO_TCP {
            return false;
        }
        let h: usize = (inner[0] % 16) as usize * 4;
        if inner.len() < h + 4 {
            return false;
        }
        read_be16(inner, h + 2) == self.sport
    }

    /// Feeds a segment from the server; the result is what to send back.
    pub fn on_inner(&mut self, inner: &[u8]) -> (r: Vec<Vec<u8>>)
        ensures
            (final(self)@, packets(r@)) == old(self)@.step(inner@),
    {
        let mut out: Vec<Vec<u8>> = Vec::new();
        let ghost c0 = self@;
        assert(packets(out@) =~= Seq::empty());
        if !self.owns(inner) || self.done {
            return out;
        }
        let h: usize = (inner[0] % 16) as usize * 4;
        let total: usize = read_be16(inner, 2) as usize;
        if total < h + 20 || total > inner.len() {
            return out;
        }
        let seq: u32 = read_be32(inner, h + 4);
        let off: usize = (inner[h + 12] / 16) as usize * 4;
        let flags: u8 = inner[h + 13];
        if off < 20 || off > total - h {
            return out;
        }
        let payload = copy_range(inner, h + off, total);
        if flags & SYN != 0 && flags & ACK != 0 && !self.established {
            self.rcv_nxt = seq_advance(seq, 1);
            self.established = true;
            out.push(self.bare(ACK));
            out.push(self.segment(PSH | ACK, self.request.as_slice()));
            self.snd_nxt = seq_advance(self.snd_nxt, self.request.len());
            assert(packets(out@) =~= c0.on_syn_ack(seq).1);
            return out;
        }
        if payload.len() > 0 {
            if seq == self.rcv_nxt {
                append(&mut self.response, payload.as_slice());
                self.rcv_nxt = seq_advance(self.rcv_nxt, payload.len());
            }
            out.push(self.bare(ACK));
        }
        let ghost c1 = self@;
        assert(c1 == c0.on_data(seq, payload@).0);
        assert(packets(out@) =~= c0.on_data(seq, payload@).1);
        if flags & FIN != 0 {
            self.rcv_nxt = seq_advance(self.rcv_nxt, 1);
            self.done = true;
            out.push(self.bare(ACK));
            out.push(self.bare(FIN | ACK));
            assert(packets(out@) =~= c0.on_data(seq, payload@).1 + c1.on_fin().1);
        }
        out
    }

    /// The packet with these flags and no payload.
    fn bare(&self, flags: u8) -> (r: Vec<u8>)
        ensures
            r@ == self@.packet(flags, Seq::empty()),
    {
        let none: [u8; 0] = [];
        assert(none@ =~= Seq::empty());
        self.segment(flags, none.as_slice())
    }

    /// The packet with these flags and this payload at the current sequence
    /// numbers.
    fn segment(&self, flags: u8, payload: &[u8]) -> (r: Vec<u8>)
        ensures
            r@ == self@.packet(flags, payload@),
    {
        tcp_packet(
            &TcpFields {
                src: self.src,
                dst: self.dst,
                sport: self.sport,
                dport: self.dport,
                seq: self.snd_nxt,
                ack: self.rcv_nxt,
                flags,
            },
            payload,
        )
    }
}

/// The response only ever grows at its end, by the payload of one segment, and
/// only by data that starts where the received data ended.
pub proof fn law_response_in_order(c: ClientState, inner: Seq<u8>)
    ensures
        ({
            let h = ihl(inner);
            let d = c.step(inner).0;
            let payload = inner.subrange(h + data_offset(inner, h), get_be16(inner, 2));
            d.response == c.response || {
                &&& c.accepts(inner)
                &&& get_be32(inner, h + 4) as u32 == c.rcv_nxt
                &&& d.response == c.response + payload
            }
        }),
{
}

/// Once the exchange is over nothing changes the client and nothing is sent.
pub proof fn law_done_is_final(c: ClientState, inner: Seq<u8>)
    requires
        c.done,
    ensures
        c.step(inner) == (c, Seq::<Seq<u8>>::empty()),
{
}

/// An established connection stays so and its send position does not move: the
/// request is never sent again.
pub proof fn law_request_sent_once(c: ClientState, inner: Seq<u8>)
    requires
        c.established,
    ensures
        c.step(inner).0.established,
        c.step(inner).0.snd_nxt == c.snd_nxt,
{
}

} // verus!
