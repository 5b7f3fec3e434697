//! A per-service TCP proxy: a peer opens an in-tunnel TCP connection to the node's
//! listen port; the request goes to one fixed service on the local network and
//! the response is streamed back. One connection at a time, one request and one
//! response.
use vstd::prelude::*;
use crate::bytes::{copy_range, lemma_seq_add_twice, packets, seq_add, seq_advance};
use crate::ipv4::{tcp_view, tcp_view_of, ACK, FIN, PSH, RST, SYN};
use crate::platform::{read_chunk, read_on, ByteStream, StreamOp};
use crate::tcp::{opens, Conn};

verus! {

/// In-tunnel TCP payload per segment, kept under the tunnel's budget.
pub const MSS: usize = 1024;

/// A fetch stops once more than this much has come back.
pub const FETCH_CAP: usize = 65536;

/// The proxy. It serves one connection at a time.
pub struct TcpProxy {
    pub listen_port: u16,
    pub conn: Conn,
    /// Whether the current connection's request was forwarded already.
    pub fetched: bool,
}

/// What the proxy does with a packet.
pub enum ProxyAction {
    /// Send these packets back.
    Reply(Vec<Vec<u8>>),
    /// Send `ack` back, forward `request` to the service, and hand what the
    /// service answered to `respond`.
    Fetch { ack: Vec<u8>, request: Vec<u8> },
}

/// What a `ProxyAction` holds.
pub enum ProxyStep {
    Reply(Seq<Seq<u8>>),
    Fetch { ack: Seq<u8>, request: Seq<u8> },
}

impl View for ProxyAction {
    type V = ProxyStep;

    open spec fn view(&self) -> ProxyStep {
        match self {
            ProxyAction::Reply(v) => ProxyStep::Reply(packets(v@)),
            ProxyAction::Fetch { ack, request } => ProxyStep::Fetch {
                ack: ack@,
                request: request@,
            },
        }
    }
}

/// The proxy's connection after `inner`, and what it does. `iss` is the sequence
/// number that a new connection starts with.
pub open spec fn proxy_step(
    port: u16,
    conn: Conn,
    fetched: bool,
    inner: Seq<u8>,
    iss: u32,
) -> (Conn, bool, ProxyStep) {
    let nothing = ProxyStep::Reply(Seq::empty());
    match tcp_view_of(inner) {
        None => (conn, fetched, nothing),
        Some(v) => if v.dport != port {
            (conn, fetched, nothing)
        } else if v.flags & SYN != 0 {
            let c = Conn::opened(v, iss);
            (
                Conn { snd_nxt: seq_add(iss, 1), ..c },
                false,
                ProxyStep::Reply(seq![c.packet(port, SYN | ACK, Seq::empty())]),
            )
        } else if !conn.matches(v) {
            (conn, fetched, nothing)
        } else if v.flags & RST != 0 {
            (Conn::idle(), false, nothing)
        } else if v.payload(inner).len() > 0 && !fetched {
            let c = Conn { rcv_nxt: seq_add(v.seq, v.payload(inner).len() as int), ..conn };
            (
                c,
                true,
                ProxyStep::Fetch {
                    ack: c.packet(port, ACK, Seq::empty()),
                    request: v.payload(inner),
                },
            )
        } else if v.flags & FIN != 0 {
            let c = Conn { rcv_nxt: seq_add(v.seq, 1), ..conn };
            (
                Conn::idle(),
                false,
                ProxyStep::Reply(seq![c.packet(port, ACK, Seq::empty())]),
            )
        } else {
            (conn, fetched, nothing)
        },
    }
}

/// How many segments a response of `len` bytes takes.
pub open spec fn segments(len: int) -> int {
    (len + MSS - 1) / (MSS as int)
}

/// The part of the response that segment `k` carries.
pub open spec fn chunk(resp: Seq<u8>, k: int) -> Seq<u8> {
    resp.subrange(
        MSS * k,
        if MSS * (k + 1) < resp.len() {
            MSS * (k + 1)
        } else {
            resp.len() as int
        },
    )
}

/// Segment `k` of the response. The last one carries FIN.
pub open spec fn response_packet(port: u16, conn: Conn, resp: Seq<u8>, k: int) -> Seq<u8> {
    Conn { snd_nxt: seq_add(conn.snd_nxt, MSS * k), ..conn }.packet(
        port,
        if k == segments(resp.len() as int) - 1 {
            PSH | ACK | FIN
        } else {
            PSH | ACK
        },
        chunk(resp, k),
    )
}

/// The packets that stream `resp` back. An empty response closes the connection.
pub open spec fn response_packets(port: u16, conn: Conn, resp: Seq<u8>) -> Seq<Seq<u8>> {
    if resp.len() == 0 {
        seq![conn.packet(port, FIN | ACK, Seq::empty())]
    } else {
        Seq::new(
            segments(resp.len() as int) as nat,
            |k: int| response_packet(port, conn, resp, k),
        )
    }
}

/// The connection after `resp` and a FIN were sent.
pub open spec fn after_response(conn: Conn, resp: Seq<u8>) -> Conn {
    Conn { snd_nxt: seq_add(conn.snd_nxt, resp.len() as int + 1), ..conn }
}

/// The first `k` parts of the response, put together.
pub open spec fn joined(resp: Seq<u8>, k: nat) -> Seq<u8>
    decreases k,
{
    if k == 0 {
        Seq::empty()
    } else {
        joined(resp, (k - 1) as nat) + chunk(resp, k - 1)
    }
}

/// The first parts of the response, put together, are its beginning.
proof fn lemma_joined_prefix(resp: Seq<u8>, k: nat)
    requires
        k <= segments(resp.len() as int),
    ensures
        joined(resp, k) == resp.subrange(
            0,
            if MSS * k < resp.len() {
                MSS * k
            } else {
                resp.len() as int
            },
        ),
    decreases k,
{
    if k > 0 {
        lemma_joined_prefix(resp, (k - 1) as nat);
        assert(MSS * (k - 1) < resp.len());
    }
    assert(joined(resp, k) =~= resp.subrange(
        0,
        if MSS * k < resp.len() {
            MSS * k
        } else {
            resp.len() as int
        },
    ));
}

/// The segments carry the whole response, in order and nothing twice: their
/// payloads put together are the response, and each starts at the sequence number
/// where the one before it ended.
pub proof fn law_response_complete(port: u16, conn: Conn, resp: Seq<u8>)
    requires
        resp.len() > 0,
    ensures
        response_packets(port, conn, resp).len() == segments(resp.len() as int),
        joined(resp, segments(resp.len() as int) as nat) == resp,
        forall|k: int|
            0 <= k < segments(resp.len() as int) ==> #[trigger] chunk(resp, k).len() <= MSS,
        forall|k: int|
            0 <= k < segments(resp.len() as int) - 1 ==> #[trigger] chunk(resp, k).len() == MSS,
{
    lemma_joined_prefix(resp, segments(resp.len() as int) as nat);
    assert(resp.subrange(0, resp.len() as int) =~= resp);
}

/// A connection forwards one request: after a fetch was asked for, nothing but a
/// new connection leads to another one.
pub proof fn law_one_fetch(port: u16, conn: Conn, inner: Seq<u8>, iss: u32)
    ensures
        proxy_step(port, conn, true, inner, iss).2 is Reply,
        proxy_step(port, conn, false, inner, iss).2 is Fetch ==> proxy_step(
            port,
            conn,
            false,
            inner,
            iss,
        ).1,
{
}

/// Traffic that is not for the listen port passes the proxy by.
pub proof fn law_only_listen_port(port: u16, conn: Conn, fetched: bool, inner: Seq<u8>, iss: u32)
    requires
        tcp_view_of(inner) matches Some(v) ==> v.dport != port,
    ensures
        proxy_step(port, conn, fetched, inner, iss) == (
            conn,
            fetched,
            ProxyStep::Reply(Seq::empty()),
        ),
{
}

impl TcpProxy {
    /// A proxy without a connection that listens on `listen_port`.
    pub fn new(listen_port: u16) -> (r: Self)
        ensures
            r.listen_port == listen_port,
            r.conn == Conn::idle(),
            !r.fetched,
    {
        TcpProxy { listen_port, conn: Conn::none(), fetched: false }
    }

    /// Whether `inner` asks the proxy for a new connection.
    pub fn wants_connection(&self, inner: &[u8]) -> (r: bool)
        ensures
            r == opens(inner@, self.listen_port),
    {
        match tcp_view(inner) {
            Some(v) => v.dport == self.listen_port && v.flags & SYN != 0,
            None => false,
        }
    }

    /// Feeds one inner IPv4 packet, with a random `iss` as the first sequence
    /// number should the packet open a connection.
    pub fn handle(&mut self, inner: &[u8], iss: u32) -> (r: ProxyAction)
        ensures
            (final(self).conn, final(self).fetched, r@) == proxy_step(
                old(self).listen_port,
                old(self).conn,
                old(self).fetched,
                inner@,
                iss,
            ),
            final(self).listen_port == old(self).listen_port,
    {
        let mut out: Vec<Vec<u8>> = Vec::new();
        let port: u16 = self.listen_port;
        let ghost none = packets(out@);
        assert(none =~= Seq::empty());
        let v = match tcp_view(inner) {
            Some(v) => v,
            None => {
                return ProxyAction::Reply(out);
            },
        };
        if v.dport != port {
            return ProxyAction::Reply(out);
        }
        if v.flags & SYN != 0 {
            self.conn = Conn {
                active: true,
                client_ip: v.src,
                our_ip: v.dst,
                client_port: v.sport,
                rcv_nxt: seq_advance(v.seq, 1),
                snd_nxt: iss,
            };
            self.fetched = false;
            out.push(self.conn.bare(port, SYN | ACK));
            assert(packets(out@) =~= seq![
                Conn::opened(v, iss).packet(port, SYN | ACK, Seq::empty()),
            ]);
            self.conn.snd_nxt = seq_advance(self.conn.snd_nxt, 1);
            return ProxyAction::Reply(out);
        }
        if !self.conn.active || v.src != self.conn.client_ip || v.sport != self.conn.client_port {
            return ProxyAction::Reply(out);
        }
        if v.flags & RST != 0 {
            self.conn = Conn::none();
            self.fetched = false;
            return ProxyAction::Reply(out);
        }
        if v.to > v.from && !self.fetched {
            self.conn.rcv_nxt = seq_advance(v.seq, v.to - v.from);
            self.fetched = true;
            let ack = self.conn.bare(port, ACK);
            let request = copy_range(inner, v.from, v.to);
            return ProxyAction::Fetch { ack, request };
        }
        if v.flags & FIN != 0 {
            self.conn.rcv_nxt = seq_advance(v.seq, 1);
            let ghost c = self.conn;
            out.push(self.conn.bare(port, ACK));
            assert(packets(out@) =~= seq![c.packet(port, ACK, Seq::empty())]);
            self.conn = Conn::none();
            self.fetched = false;
            return ProxyAction::Reply(out);
        }
        ProxyAction::Reply(out)
    }

    /// Streams back what the service answered to the request that was forwarded.
    pub fn respond(&mut self, resp: &[u8]) -> (r: Vec<Vec<u8>>)
        ensures
            packets(r@) == response_packets(old(self).listen_port, old(self).conn, resp@),
            final(self).conn == after_response(old(self).conn, resp@),
            final(self).listen_port == old(self).listen_port,
            final(self).fetched == old(self).fetched,
    {
        let mut out: Vec<Vec<u8>> = Vec::new();
        let port: u16 = self.listen_port;
        let ghost c = self.conn;
        let n: usize = resp.len();
        if n == 0 {
            out.push(self.conn.bare(port, FIN | ACK));
            assert(packets(out@) =~= response_packets(port, c, resp@));
            self.conn.snd_nxt = seq_advance(self.conn.snd_nxt, 1);
            return out;
        }
        let ghost total = segments(n as int);
        let ghost mut k: int = 0;
        let mut i: usize = 0;
        assert(packets(out@) =~= Seq::new(0, |j: int| response_packet(port, c, resp@, j)));
        while i < n
            invariant
                n == resp@.len(),
                n > 0,
                port == self.listen_port,
                port == old(self).listen_port,
                self.fetched == old(self).fetched,
                total == segments(n as int),
                0 <= k <= total,
                i == if MSS * k < n {
                    MSS * k
                } else {
                    n as int
                },
                i == n <==> k == total,
                self.conn == (Conn {
                    snd_nxt: seq_add(
                        c.snd_nxt,
                        if k == total {
                            n + 1
                        } else {
                            i as int
                        },
                    ),
                    ..c
                }),
                packets(out@) == Seq::new(k as nat, |j: int| response_packet(port, c, resp@, j)),
            decreases n - i,
        {
            let end: usize = if n - i > MSS {
                i + MSS
            } else {
                n
            };
            let last: bool = end == n;
            let fl: u8 = if last {
                PSH | ACK | FIN
            } else {
                PSH | ACK
            };
            proof {
                assert(MSS * k < n);
                assert(last <==> k == total - 1);
                lemma_seq_add_twice(c.snd_nxt, i as int, end - i);
                lemma_seq_add_twice(c.snd_nxt, n as int, 1);
            }
            let part = copy_range(resp, i, end);
            let ghost was = out@;
            out.push(self.conn.segment(port, fl, part.as_slice()));
            proof {
                assert(part@ =~= chunk(resp@, k));
                assert(packets(out@) =~= packets(was).push(response_packet(port, c, resp@, k)));
                assert(packets(out@) =~= Seq::new(
                    (k + 1) as nat,
                    |j: int| response_packet(port, c, resp@, j),
                ));
            }
            self.conn.snd_nxt = seq_advance(self.conn.snd_nxt, end - i);
            if last {
                self.conn.snd_nxt = seq_advance(self.conn.snd_nxt, 1);
            }
            i = end;
            proof {
                k = k + 1;
            }
        }
        assert(packets(out@) =~= response_packets(port, c, resp@));
        out
    }
}

/// Whether after the calls `old` came one write, of `request`, and then nothing but reads.
pub open spec fn asked_once(old: Seq<StreamOp>, new: Seq<StreamOp>, request: Seq<u8>) -> bool {
    ||| read_on(old.push(StreamOp::Write { data: request, ok: true }), new)
    ||| read_on(old.push(StreamOp::Write { data: request, ok: false }), new)
}

/// Sends `request` over `stream` and collects the response, until the stream ends
/// or fails or more than `FETCH_CAP` bytes have come.
pub fn lan_fetch<S: ByteStream>(stream: &mut S, request: &[u8]) -> (r: Vec<u8>)
    ensures
        r@.len() <= old(stream).unread().len(),
        r@ == old(stream).unread().subrange(0, r@.len() as int),
        final(stream).unread() == old(stream).unread().subrange(
            r@.len() as int,
            old(stream).unread().len() as int,
        ),
        r@.len() <= FETCH_CAP + 1460,
        asked_once(old(stream).history(), final(stream).history(), request@),
        old(stream).reliable() ==> {
            &&& r@.len() == old(stream).unread().len() || r@.len() > FETCH_CAP
            &&& final(stream).sent() == old(stream).sent() + request@
            &&& final(stream).reliable()
        },
{
    let asked: Result<(), ()> = stream.write_all(request);
    let ghost calls = stream.history();
    assert(calls == old(stream).history().push(
        StreamOp::Write { data: request@, ok: asked is Ok },
    ));
    let ghost all = stream.unread();
    let mut buf: Vec<u8> = Vec::new();
    assert(all.subrange(0, 0) =~= buf@);
    assert(all.subrange(0, all.len() as int) =~= all);
    loop
        invariant
            all == old(stream).unread(),
            calls == old(stream).history().push(
                StreamOp::Write { data: request@, ok: asked is Ok },
            ),
            read_on(calls, stream.history()),
            old(stream).reliable() ==> {
                &&& stream.reliable()
                &&& stream.sent() == old(stream).sent() + request@
            },
            buf@.len() <= all.len(),
            buf@.len() <= FETCH_CAP,
            buf@ == all.subrange(0, buf@.len() as int),
            stream.unread() == all.subrange(buf@.len() as int, all.len() as int),
        decreases stream.unread().len(),
    {
        let got: Result<usize, ()> = read_chunk(stream, [0u8; 1460], &mut buf);
        match got {
            Ok(n) => {
                proof {
                    assert(buf@ =~= all.subrange(0, buf@.len() as int));
                    assert(stream.unread() =~= all.subrange(buf@.len() as int, all.len() as int));
                }
                if n == 0 || buf.len() > FETCH_CAP {
                    return buf;
                }
            },
            Err(()) => {
                return buf;
            },
        }
    }
}

} // verus!
