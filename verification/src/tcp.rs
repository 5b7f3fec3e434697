//! A minimal single-connection TCP server inside the tunnel, just enough to serve
//! one small HTML page on port 80: one connection at a time, no retransmission, a
//! fixed window, no options. The GET is answered with one data segment that also
//! carries FIN; then the client's FIN is acknowledged.
use vstd::prelude::*;
use vstd::utf8::encode_utf8;
use crate::bytes::{append, lemma_seq_add_twice, packets, seq_add, seq_advance};
use crate::ipv4::{
    tcp_packet, tcp_packet_of, tcp_view, tcp_view_of, TcpFields, TcpView, ACK, FIN, PSH, RST,
    SYN,
};
use crate::net::Ipv4Addr;
use crate::rng::{random_u32, NoEntropy};
use crate::text::{dec, push_dec, push_text};

verus! {

pub const HTTP_PORT: u16 = 80;

/// The (single) connection that is being served.
#[derive(Clone, Copy, Debug, PartialEq, Eq, Structural)]
pub struct Conn {
    pub active: bool,
    pub client_ip: Ipv4Addr,
    pub our_ip: Ipv4Addr,
    pub client_port: u16,
    /// The next sequence number that the client is expected to send.
    pub rcv_nxt: u32,
    /// The next sequence number to send.
    pub snd_nxt: u32,
}

impl Conn {
    /// No connection.
    pub open spec fn idle() -> Conn {
        Conn {
            active: false,
            client_ip: Ipv4Addr { a: 0, b: 0, c: 0, d: 0 },
            our_ip: Ipv4Addr { a: 0, b: 0, c: 0, d: 0 },
            client_port: 0,
            rcv_nxt: 0,
            snd_nxt: 0,
        }
    }

    /// No connection.
    pub fn none() -> (r: Conn)
        ensures
            r == Conn::idle(),
    {
        Conn {
            active: false,
            client_ip: Ipv4Addr::new(0, 0, 0, 0),
            our_ip: Ipv4Addr::new(0, 0, 0, 0),
            client_port: 0,
            rcv_nxt: 0,
            snd_nxt: 0,
        }
    }

    /// The packet from `port` to the client with these flags and this payload.
    pub open spec fn packet(self, port: u16, flags: u8, payload: Seq<u8>) -> Seq<u8> {
        tcp_packet_of(
            TcpFields {
                src: self.our_ip,
                dst: self.client_ip,
                sport: port,
                dport: self.client_port,
                seq: self.snd_nxt,
                ack: self.rcv_nxt,
                flags,
            },
            payload,
        )
    }

    /// Builds the packet from `port` to the client with these flags and this
    /// payload.
    pub fn segment(&self, port: u16, flags: u8, payload: &[u8]) -> (r: Vec<u8>)
        ensures
            r@ == self.packet(port, flags, payload@),
    {
        tcp_packet(
            &TcpFields {
                src: self.our_ip,
                dst: self.client_ip,
                sport: port,
                dport: self.client_port,
                seq: self.snd_nxt,
                ack: self.rcv_nxt,
                flags,
            },
            payload,
        )
    }

    /// Builds the packet from `port` to the client with these flags and no
    /// payload.
    pub fn bare(&self, port: u16, flags: u8) -> (r: Vec<u8>)
        ensures
            r@ == self.packet(port, flags, Seq::empty()),
    {
        let none: [u8; 0] = [];
        assert(none@ =~= Seq::empty());
        self.segment(port, flags, none.as_slice())
    }

    /// The connection that the SYN `v` opens, with `iss` as the first sequence
    /// number on this side.
    pub open spec fn opened(v: TcpView, iss: u32) -> Conn {
        Conn {
            active: true,
            client_ip: v.src,
            our_ip: v.dst,
            client_port: v.sport,
            rcv_nxt: seq_add(v.seq, 1),
            snd_nxt: iss,
        }
    }

    /// Whether the segment `v` belongs to this connection.
    pub open spec fn matches(self, v: TcpView) -> bool {
        self.active && v.src == self.client_ip && v.sport == self.client_port
    }
}

/// The page that is served, for the node's address.
pub open spec fn page_of(ip: Ipv4Addr) -> Seq<u8> {
    encode_utf8(
        "<!doctype html><html><head><meta charset=utf-8><title>Tailscale-Rust</title></head><body style=\"font-family:sans-serif\"><h1>Tailscale-Rust on T-Dongle S3</h1><p>Pure-Rust WireGuard tunnel, no DERP.</p><p>Tailscale IP: "@,
    ) + dec(ip.a as nat) + encode_utf8("."@) + dec(ip.b as nat) + encode_utf8("."@) + dec(
        ip.c as nat,
    ) + encode_utf8("."@) + dec(ip.d as nat) + encode_utf8("</p></body></html>"@)
}

/// The HTTP response that carries `body`.
pub open spec fn http_response_of(body: Seq<u8>) -> Seq<u8> {
    encode_utf8(
        "HTTP/1.1 200 OK\r\nContent-Type: text/html; charset=utf-8\r\nContent-Length: "@,
    ) + dec(body.len()) + encode_utf8("\r\nConnection: close\r\n\r\n"@) + body
}

/// The HTTP response that carries `body`.
pub fn http_response(body: &[u8]) -> (r: Vec<u8>)
    ensures
        r@ == http_response_of(body@),
{
    let mut v: Vec<u8> = Vec::new();
    push_text(
        &mut v,
        "HTTP/1.1 200 OK\r\nContent-Type: text/html; charset=utf-8\r\nContent-Length: ",
    );
    push_dec(&mut v, body.len());
    push_text(&mut v, "\r\nConnection: close\r\n\r\n");
    append(&mut v, body);
    assert(v@ =~= http_response_of(body@));
    v
}

/// The page that is served, for the node's address.
pub fn page(our_ip: &Ipv4Addr) -> (r: Vec<u8>)
    ensures
        r@ == page_of(*our_ip),
{
    let mut v: Vec<u8> = Vec::new();
    push_text(
        &mut v,
        "<!doctype html><html><head><meta charset=utf-8><title>Tailscale-Rust</title></head><body style=\"font-family:sans-serif\"><h1>Tailscale-Rust on T-Dongle S3</h1><p>Pure-Rust WireGuard tunnel, no DERP.</p><p>Tailscale IP: ",
    );
    push_dec(&mut v, our_ip.a as usize);
    push_text(&mut v, ".");
    push_dec(&mut v, our_ip.b as usize);
    push_text(&mut v, ".");
    push_dec(&mut v, our_ip.c as usize);
    push_text(&mut v, ".");
    push_dec(&mut v, our_ip.d as usize);
    push_text(&mut v, "</p></body></html>");
    assert(v@ =~= page_of(*our_ip));
    v
}

/// Whether `inner` asks for a new connection to `port`.
pub open spec fn opens(inner: Seq<u8>, port: u16) -> bool {
    tcp_view_of(inner) matches Some(v) && v.dport == port && v.flags & SYN != 0
}

/// The server's connection after `inner`, and the packets it answers with. `iss`
/// is the sequence number that a new connection starts with.
pub open spec fn server_step(conn: Conn, inner: Seq<u8>, iss: u32) -> (Conn, Seq<Seq<u8>>) {
    match tcp_view_of(inner) {
        None => (conn, Seq::empty()),
        Some(v) => if v.dport != HTTP_PORT {
            (conn, Seq::empty())
        } else if v.flags & SYN != 0 {
            let c = Conn::opened(v, iss);
            (
                Conn { snd_nxt: seq_add(iss, 1), ..c },
                seq![c.packet(HTTP_PORT, SYN | ACK, Seq::empty())],
            )
        } else if !conn.matches(v) {
            (conn, Seq::empty())
        } else if v.flags & RST != 0 {
            (Conn::idle(), Seq::empty())
        } else if v.payload(inner).len() > 0 {
            let c = Conn { rcv_nxt: seq_add(v.seq, v.payload(inner).len() as int), ..conn };
            let resp = http_response_of(page_of(c.our_ip));
            (
                Conn { snd_nxt: seq_add(c.snd_nxt, resp.len() as int + 1), ..c },
                seq![c.packet(HTTP_PORT, PSH | ACK | FIN, resp)],
            )
        } else if v.flags & FIN != 0 {
            let c = Conn { rcv_nxt: seq_add(v.seq, 1), ..conn };
            (Conn::idle(), seq![c.packet(HTTP_PORT, ACK, Seq::empty())])
        } else {
            (conn, Seq::empty())
        },
    }
}

/// The server. It serves one connection at a time.
pub struct TcpServer {
    pub conn: Conn,
}

impl Default for TcpServer {
    /// A server without a connection.
    fn default() -> (r: Self)
        ensures
            r.conn == Conn::idle(),
    {
        TcpServer { conn: Conn::none() }
    }
}

impl TcpServer {
    /// A server without a connection.
    pub fn new() -> (r: Self)
        ensures
            r.conn == Conn::idle(),
    {
        TcpServer { conn: Conn::none() }
    }

    /// Whether `inner` asks this server for a new connection.
    pub fn wants_connection(inner: &[u8]) -> (r: bool)
        ensures
            r == opens(inner@, HTTP_PORT),
    {
        match tcp_view(inner) {
            Some(v) => v.dport == HTTP_PORT && v.flags & SYN != 0,
            None => false,
        }
    }

    /// Feeds one inner IPv4 packet, with `iss` as the first sequence number should
    /// the packet open a connection. The result is what to send back.
    pub fn handle_with(&mut self, inner: &[u8], iss: u32) -> (r: Vec<Vec<u8>>)
        ensures
            (final(self).conn, packets(r@)) == server_step(old(self).conn, inner@, iss),
    {
        let mut out: Vec<Vec<u8>> = Vec::new();
        let ghost none = packets(out@);
        assert(none =~= Seq::empty());
        let v = match tcp_view(inner) {
            Some(v) => v,
            None => {
                return out;
            },
        };
        if v.dport != HTTP_PORT {
            return out;
        }
        if v.flags & SYN != 0 {
            self.conn = Conn {
                active: true,
                client_ip: v.src,
                our_ip: v.dst,
                client_port: v.sport,
                rcv_nxt: seq_advance(v.seq, 1),
                snd_nxt: iss,
            };
            out.push(self.conn.bare(HTTP_PORT, SYN | ACK));
            assert(packets(out@) =~= seq![
                Conn::opened(v, iss).packet(HTTP_PORT, SYN | ACK, Seq::empty()),
            ]);
            self.conn.snd_nxt = seq_advance(self.conn.snd_nxt, 1);
            return out;
        }
        if !self.conn.active || v.src != self.conn.client_ip || v.sport != self.conn.client_port {
            return out;
        }
        if v.flags & RST != 0 {
            self.conn = Conn::none();
            return out;
        }
        if v.to > v.from {
            self.conn.rcv_nxt = seq_advance(v.seq, v.to - v.from);
            let ghost c = self.conn;
            let body = page(&self.conn.our_ip);
            let resp = http_response(body.as_slice());
            out.push(self.conn.segment(HTTP_PORT, PSH | ACK | FIN, resp.as_slice()));
            assert(packets(out@) =~= seq![c.packet(HTTP_PORT, PSH | ACK | FIN, resp@)]);
            proof {
                lemma_seq_add_twice(c.snd_nxt, resp@.len() as int, 1);
            }
            self.conn.snd_nxt = seq_advance(seq_advance(self.conn.snd_nxt, resp.len()), 1);
            return out;
        }
        if v.flags & FIN != 0 {
            self.conn.rcv_nxt = seq_advance(v.seq, 1);
            let ghost c = self.conn;
            out.push(self.conn.bare(HTTP_PORT, ACK));
            assert(packets(out@) =~= seq![c.packet(HTTP_PORT, ACK, Seq::empty())]);
            self.conn = Conn::none();
            return out;
        }
        out
    }

    /// Feeds one inner IPv4 packet; the result is what to send back. A new
    /// connection starts at a random sequence number; where the system has no
    /// entropy to give, the packet is refused and nothing changes.
    pub fn handle(&mut self, inner: &[u8]) -> (r: Result<Vec<Vec<u8>>, NoEntropy>)
        ensures
            !opens(inner@, HTTP_PORT) ==> r is Ok,
            r matches Ok(out) ==> exists|iss: u32|
                (final(self).conn, packets(out@)) == #[trigger] server_step(
                    old(self).conn,
                    inner@,
                    iss,
                ),
            r is Err ==> final(self).conn == old(self).conn,
    {
        let mut iss: u32 = 0;
        if Self::wants_connection(inner) {
            match random_u32() {
                Ok(n) => {
                    iss = n;
                },
                Err(e) => {
                    return Err(e);
                },
            }
        }
        Ok(self.handle_with(inner, iss))
    }
}

/// Traffic that is not for port 80 passes the server by: nothing changes and
/// nothing is sent.
pub proof fn law_only_http(conn: Conn, inner: Seq<u8>, iss: u32)
    requires
        tcp_view_of(inner) matches Some(v) ==> v.dport != HTTP_PORT,
    ensures
        server_step(conn, inner, iss) == (conn, Seq::<Seq<u8>>::empty()),
{
}

/// While one client is served, segments of another that do not open a connection
/// change nothing and get no answer.
pub proof fn law_one_client(conn: Conn, inner: Seq<u8>, iss: u32)
    requires
        !opens(inner, HTTP_PORT),
        tcp_view_of(inner) matches Some(v) ==> !conn.matches(v),
    ensures
        server_step(conn, inner, iss) == (conn, Seq::<Seq<u8>>::empty()),
{
}

/// The initial sequence number matters to an opening segment alone.
pub proof fn law_iss_only_for_syn(conn: Conn, inner: Seq<u8>, a: u32, b: u32)
    requires
        !opens(inner, HTTP_PORT),
    ensures
        server_step(conn, inner, a) == server_step(conn, inner, b),
{
}

} // verus!
