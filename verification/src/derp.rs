//! A minimal DERP client and the relay's side of the data plane.
//!
//! A relay server passes opaque packets between nodes, addressed by node key. After an
//! HTTP upgrade the stream carries frames: type, 32-bit big-endian length, payload. The
//! server opens with its key; the client answers with a boxed client info; then the
//! frames carry tunnel traffic. A peer that is reached over the relay is answered as
//! WireGuard responder, and where its endpoints are known a direct path is tried.
use vstd::prelude::*;
use vstd::slice::slice_subrange;
use vstd::utf8::{decode_utf8, encode_utf8, encode_utf8_decode_utf8};
use crate::bytes::{
    append, array32, be32, bytes_eq, copy, copy_range, get_be32, key_eq, packets, push_be32,
    read_be32,
};
use crate::crypto::{box_seal, salsa_encrypt, AEAD_MAX};
use crate::dataplane::{can_send, first_where, lemma_first_where, lemma_first_where_is};
use crate::disco::{
    call_me_maybe_of, call_me_maybe_plaintext, has_magic, is_disco, open as disco_open,
    packet_of, pong_of, pong_plaintext, seal_with, wire_of, CALL_ME_MAYBE, PING,
};
use crate::icmp::{echo_reply, echo_reply_of, is_echo_request};
use crate::net::{v4, Ipv4Addr, SocketAddr};
use crate::node::{
    allowed, src_allowed, target_states, Identity, IdentityState, PeerDir, Target, TargetState,
    Upgrade,
};
use crate::periodic::copy_addrs;
use crate::platform::{
    lemma_read_on, lemma_with_write, lemma_wrote_on, read_exact, read_on, rest, untouched, with_write, write_on,
    wrote_on, ByteStream, Connector, ReadError, StreamOp,
};
use crate::rng::{random24, Entropy, NoEntropy};
use crate::tcp::{server_step, Conn, TcpServer};
use crate::text::{
    ascii_string, code_101, contains_text, crlf2, first_at, first_line, hex_of, index_of,
    occurs_at, push_hex, push_text, says_101,
};
use crate::wg::{
    build_response, read_initiation, read_initiation_of, response_to, transport_bytes,
    transport_open, Tunnel, TunnelState, MSG_INITIATION, MSG_TRANSPORT,
};

verus! {

broadcast use crate::bytes::group_lengths;

pub const FRAME_SERVER_KEY: u8 = 0x01;

pub const FRAME_CLIENT_INFO: u8 = 0x02;

pub const FRAME_SERVER_INFO: u8 = 0x03;

pub const FRAME_SEND_PACKET: u8 = 0x04;

pub const FRAME_RECV_PACKET: u8 = 0x05;

pub const FRAME_KEEPALIVE: u8 = 0x06;

pub const FRAME_NOTE_PREFERRED: u8 = 0x07;

pub const FRAME_PING: u8 = 0x0c;

pub const FRAME_PONG: u8 = 0x0d;

/// The longest payload that is accepted.
pub const MAX_FRAME: usize = 65536;

/// An upgrade response whose header is longer than this is refused.
pub const MAX_HEAD: usize = 4096;

/// Why the relay connection failed.
#[derive(Debug)]
pub enum DerpError {
    /// No connection to the server.
    Connect,
    /// A write failed.
    Write,
    /// A read fell short.
    Read(ReadError),
    /// The upgrade response has too long a header.
    HeadTooLarge,
    /// The upgrade was refused, with this status line.
    Refused(Vec<u8>),
    /// Another frame came where the server's key was due.
    NotServerKey(u8),
    /// A server key frame of this length is not one.
    BadServerKey(usize),
    /// A frame announces a payload of this length.
    FrameTooLarge(u32),
    /// The system has no entropy to give.
    NoEntropy,
}

/// The eight bytes before the server's key.
pub open spec fn magic() -> Seq<u8> {
    seq![0x44u8, 0x45, 0x52, 0x50, 0xf0, 0x9f, 0x94, 0x91]
}

// --- frames ---

/// A frame. The length field holds the length modulo 2^32.
pub open spec fn frame_of(typ: u8, payload: Seq<u8>) -> Seq<u8> {
    seq![typ] + be32(payload.len() as int % 4294967296) + payload
}

/// The length that the frame at the beginning of `s` announces.
pub open spec fn frame_len(s: Seq<u8>) -> int {
    get_be32(s, 1)
}

/// Whether a whole frame of acceptable length stands at the beginning of `s`.
pub open spec fn has_frame(s: Seq<u8>) -> bool {
    s.len() >= 5 && frame_len(s) <= MAX_FRAME && s.len() >= 5 + frame_len(s)
}

/// The payload of the frame at the beginning of `s`.
pub open spec fn frame_payload(s: Seq<u8>) -> Seq<u8> {
    s.subrange(5, 5 + frame_len(s))
}

/// A frame that was written reads back as it is.
pub proof fn law_frame_roundtrip(typ: u8, payload: Seq<u8>, after: Seq<u8>)
    requires
        payload.len() <= MAX_FRAME,
    ensures
        ({
            let s = frame_of(typ, payload) + after;
            &&& has_frame(s)
            &&& s[0] == typ
            &&& frame_payload(s) == payload
            &&& rest(s, 5 + frame_len(s)) == after
        }),
{
    let s = frame_of(typ, payload) + after;
    assert(s.subrange(1, 5) =~= be32(payload.len() as int));
    crate::bytes::lemma_get_be32(s, 1, payload.len() as int);
    assert(frame_payload(s) =~= payload);
    assert(rest(s, 5 + frame_len(s)) =~= after);
}

// --- the upgrade ---

/// The upgrade request.
pub open spec fn request_of(host: Seq<char>) -> Seq<u8> {
    encode_utf8("GET /derp HTTP/1.1\r\nHost: "@) + encode_utf8(host) + encode_utf8(
        "\r\nConnection: Upgrade\r\nUpgrade: DERP\r\n\r\n"@,
    )
}

/// Whether an acceptable header of `n` bytes stands at the beginning of `s`.
pub open spec fn head_at(s: Seq<u8>, n: int) -> bool {
    first_at(s, crlf2(), n - 4) && n <= MAX_HEAD + 1
}

/// Whether no acceptable header stands at the beginning of `s`.
pub open spec fn headless(s: Seq<u8>) -> bool {
    forall|n: int| !#[trigger] head_at(s, n)
}

/// Whether the server agrees to the upgrade with the header of `n` bytes at the
/// beginning of `s`.
pub open spec fn upgraded(s: Seq<u8>, n: int) -> bool {
    head_at(s, n) && contains_text(first_line(s.subrange(0, n)), code_101())
}

/// What the client tells the server: its node key as its identity, and a boxed
/// protocol version.
pub open spec fn client_info_of(
    node_priv: Seq<u8>,
    node_pub: Seq<u8>,
    server_pub: Seq<u8>,
    nonce: Seq<u8>,
) -> Seq<u8> {
    node_pub + nonce + box_seal(node_priv, server_pub, nonce, encode_utf8("{\"version\":2}"@))
}

/// The server's key in a frame, if it is one that holds it.
pub open spec fn server_key_of(typ: u8, payload: Seq<u8>) -> Option<Seq<u8>> {
    if typ == FRAME_SERVER_KEY && payload.len() >= 40 && payload.subrange(0, 8) == magic() {
        Some(payload.subrange(8, 40))
    } else {
        None
    }
}

/// Reads the server's key out of a frame.
pub fn parse_server_key(typ: u8, payload: &[u8]) -> (r: Result<[u8; 32], DerpError>)
    ensures
        match r {
            Ok(k) => server_key_of(typ, payload@) == Some(k@),
            Err(e) => server_key_of(typ, payload@) is None && e == (if typ != FRAME_SERVER_KEY {
                DerpError::NotServerKey(typ)
            } else {
                DerpError::BadServerKey(payload@.len() as usize)
            }),
        },
{
    if typ != FRAME_SERVER_KEY {
        return Err(DerpError::NotServerKey(typ));
    }
    let want: [u8; 8] = [0x44, 0x45, 0x52, 0x50, 0xf0, 0x9f, 0x94, 0x91];
    assert(want@ =~= magic());
    if payload.len() < 40 || !bytes_eq(slice_subrange(payload, 0, 8), want.as_slice()) {
        return Err(DerpError::BadServerKey(payload.len()));
    }
    Ok(array32(payload, 8))
}

/// An established relay connection.
pub struct Derp<S: ByteStream> {
    pub stream: S,
}

/// Whether the calls of the protocol's beginning came after `old`: the request was written,
/// then nothing but reads were made, then the client's info was written.
pub open spec fn in_order(
    old: Seq<StreamOp>,
    new: Seq<StreamOp>,
    request: Seq<u8>,
    info: Seq<u8>,
) -> bool {
    exists|mid: Seq<StreamOp>|
        #[trigger] read_on(with_write(old, request), mid) && wrote_on(mid, new, info)
}

/// Whether `d` is the relay connection that the protocol gives on the fresh stream `stream`:
/// the server agreed to the upgrade and sent its key, and the client's info went out.
pub open spec fn established<S: ByteStream>(
    stream: S,
    host: Seq<char>,
    node_priv: Seq<u8>,
    node_pub: Seq<u8>,
    nonce: Seq<u8>,
    d: Derp<S>,
) -> bool {
    exists|n: int|
        #[trigger] upgraded(stream.unread(), n) && {
            let s = rest(stream.unread(), n);
            &&& has_frame(s)
            &&& server_key_of(s[0], frame_payload(s)) is Some
            &&& d.stream.unread() == rest(s, 5 + frame_len(s))
            &&& d.stream.sent() == stream.sent() + request_of(host) + frame_of(
                FRAME_CLIENT_INFO,
                client_info_of(
                    node_priv,
                    node_pub,
                    server_key_of(s[0], frame_payload(s))->0,
                    nonce,
                ),
            )
            &&& in_order(
                stream.history(),
                d.stream.history(),
                request_of(host),
                frame_of(
                    FRAME_CLIENT_INFO,
                    client_info_of(
                        node_priv,
                        node_pub,
                        server_key_of(s[0], frame_payload(s))->0,
                        nonce,
                    ),
                ),
            )
        }
}

/// Whether bringing up the protocol on the fresh stream `stream` may fail with `e`.
pub open spec fn establish_failed<S: ByteStream>(stream: S, e: DerpError) -> bool {
    let all = stream.unread();
    match e {
        DerpError::Refused(line) => exists|n: int|
            #[trigger] head_at(all, n) && !upgraded(all, n) && line@ == first_line(
                all.subrange(0, n),
            ),
        DerpError::HeadTooLarge => headless(all),
        DerpError::Read(ReadError::Closed) => {
            ||| headless(all)
            ||| exists|n: int| #[trigger] upgraded(all, n) && !has_frame(rest(all, n))
        },
        DerpError::Read(ReadError::Failed) => !stream.reliable(),
        DerpError::Write => !stream.reliable(),
        DerpError::FrameTooLarge(k) => exists|n: int|
            #[trigger] upgraded(all, n) && rest(all, n).len() >= 5 && frame_len(rest(all, n)) == k
                && k > MAX_FRAME,
        DerpError::NotServerKey(t) => exists|n: int|
            #[trigger] upgraded(all, n) && has_frame(rest(all, n)) && rest(all, n)[0] == t && t
                != FRAME_SERVER_KEY,
        DerpError::BadServerKey(k) => exists|n: int|
            #[trigger] upgraded(all, n) && has_frame(rest(all, n)) && rest(all, n)[0]
                == FRAME_SERVER_KEY && server_key_of(
                FRAME_SERVER_KEY,
                frame_payload(rest(all, n)),
            ) is None && k == frame_len(rest(all, n)),
        DerpError::Connect => false,
        DerpError::NoEntropy => false,
    }
}

/// Whether reading a frame from `stream` may fail with `e`.
pub open spec fn frame_failed<S: ByteStream>(stream: S, e: DerpError) -> bool {
    let s = stream.unread();
    match e {
        DerpError::FrameTooLarge(n) => s.len() >= 5 && frame_len(s) == n && n > MAX_FRAME,
        DerpError::Read(ReadError::Closed) => !has_frame(s),
        DerpError::Read(ReadError::Failed) => !stream.reliable(),
        _ => false,
    }
}

/// Whether `stream` is a fresh connection that `connector` opened to the relay at `host`.
pub open spec fn dialled<C: Connector>(connector: &C, host: Seq<char>, stream: C::Stream) -> bool {
    &&& connector.may_open(host, 443, true, Some(stream))
    &&& untouched(stream)
}

impl<S: ByteStream> Derp<S> {
    /// Connects to `host` and brings up the protocol, with the node key as identity.
    /// Connection, stream and entropy decide whether that works.
    pub fn connect<C: Connector<Stream = S>>(
        connector: &C,
        host: &str,
        node_priv: &[u8; 32],
        node_pub: &[u8; 32],
    ) -> (r: Result<Self, DerpError>)
        ensures
            match r {
                Ok(d) => exists|stream: S, nonce: Seq<u8>|
                    nonce.len() == 24 && dialled(connector, host@, stream)
                        && #[trigger] established(
                        stream,
                        host@,
                        node_priv@,
                        node_pub@,
                        nonce,
                        d,
                    ),
                Err(DerpError::Connect) => connector.may_open(host@, 443, true, None),
                Err(DerpError::NoEntropy) => exists|stream: S|
                    #[trigger] dialled(connector, host@, stream),
                Err(e) => exists|stream: S|
                    dialled(connector, host@, stream) && #[trigger] establish_failed(stream, e),
            },
            r matches Ok(d) ==> exists|key: Seq<u8>, nonce: Seq<u8>|
                nonce.len() == 24 && key.len() == 32 && d.stream.sent() == request_of(host@)
                    + frame_of(
                    FRAME_CLIENT_INFO,
                    #[trigger] client_info_of(node_priv@, node_pub@, key, nonce),
                ),
    {
        let stream = match connector.connect_tls(host, 443) {
            Ok(s) => s,
            Err(()) => {
                return Err(DerpError::Connect);
            },
        };
        assert(dialled(connector, host@, stream));
        let nonce = match random24() {
            Ok(n) => n,
            Err(_) => {
                return Err(DerpError::NoEntropy);
            },
        };
        let ghost s0 = stream.sent();
        assert(nonce@.len() == 24);
        match Self::handshake(stream, host, node_priv, node_pub, &nonce) {
            Ok(d) => {
                proof {
                    let key = choose|key: Seq<u8>|
                        key.len() == 32 && d.stream.sent() == s0 + request_of(host@) + frame_of(
                            FRAME_CLIENT_INFO,
                            #[trigger] client_info_of(node_priv@, node_pub@, key, nonce@),
                        );
                    assert(s0 + request_of(host@) =~= request_of(host@));
                }
                Ok(d)
            },
            Err(e) => Err(e),
        }
    }

    /// Brings up the protocol on a fresh stream: upgrade, server key, client info. On a
    /// reliable stream it succeeds if and only if the server agrees and sends its key.
    pub fn handshake(
        stream: S,
        host: &str,
        node_priv: &[u8; 32],
        node_pub: &[u8; 32],
        nonce: &[u8; 24],
    ) -> (r: Result<Self, DerpError>)
        ensures
            match r {
                Ok(d) => established(stream, host@, node_priv@, node_pub@, nonce@, d),
                Err(e) => establish_failed(stream, e),
            },
            r matches Ok(d) ==> exists|key: Seq<u8>|
                key.len() == 32 && d.stream.sent() == stream.sent() + request_of(host@) + frame_of(
                    FRAME_CLIENT_INFO,
                    #[trigger] client_info_of(node_priv@, node_pub@, key, nonce@),
                ),
            stream.reliable() ==> (r is Ok <==> exists|n: int|
                #[trigger] upgraded(stream.unread(), n) && {
                    let s = rest(stream.unread(), n);
                    has_frame(s) && server_key_of(s[0], frame_payload(s)) is Some
                }),
    {
        let ghost all = stream.unread();
        let mut d = Derp { stream };
        match d.http_upgrade(host) {
            Ok(()) => {},
            Err(e) => {
                proof {
                    if stream.reliable() {
                        assert forall|m: int| !#[trigger] upgraded(all, m) by {
                            if upgraded(all, m) {
                                assert(head_at(all, m));
                                if e is Refused {
                                    let n = choose|n: int|
                                        #[trigger] head_at(all, n) && !upgraded(all, n);
                                    lemma_head_unique(all, m, n);
                                }
                            }
                        }
                    }
                }
                return Err(e);
            },
        }
        let ghost n = choose|n: int|
            #[trigger] upgraded(all, n) && d.stream.unread() == rest(all, n);
        let ghost s = rest(all, n);
        proof {
            assert forall|m: int| #[trigger] upgraded(all, m) implies m == n by {
                lemma_head_unique(all, m, n);
            }
        }
        let ghost asked = d.stream.history();
        let (typ, payload) = match d.read_frame() {
            Ok(f) => f,
            Err(e) => {
                return Err(e);
            },
        };
        let key = match parse_server_key(typ, payload.as_slice()) {
            Ok(k) => k,
            Err(e) => {
                return Err(e);
            },
        };
        assert(server_key_of(s[0], frame_payload(s)) == Some(key@));
        assert(key@.len() == 32);
        let ghost mid = d.stream.history();
        assert(read_on(with_write(stream.history(), request_of(host@)), mid)) by {
            lemma_read_on(with_write(stream.history(), request_of(host@)), asked, mid);
        }
        let sent = d.send_client_info(node_priv, node_pub, &key, nonce);
        match sent {
            Ok(()) => Ok(d),
            Err(e) => Err(e),
        }
    }

    /// Asks the server to switch to the relay protocol.
    fn http_upgrade(&mut self, host: &str) -> (r: Result<(), DerpError>)
        ensures
            old(self).stream.reliable() ==> final(self).stream.reliable(),
            match r {
                Err(DerpError::Write) => final(self).stream.history()
                    == old(self).stream.history().push(
                    StreamOp::Write { data: request_of(host@), ok: false },
                ),
                _ => read_on(
                    with_write(old(self).stream.history(), request_of(host@)),
                    final(self).stream.history(),
                ),
            },
            match r {
                Ok(()) => exists|n: int|
                    #[trigger] upgraded(old(self).stream.unread(), n)
                        && final(self).stream.unread() == rest(old(self).stream.unread(), n)
                        && final(self).stream.sent() == old(self).stream.sent() + request_of(host@),
                Err(DerpError::Refused(line)) => exists|n: int|
                    #[trigger] head_at(old(self).stream.unread(), n) && !upgraded(
                        old(self).stream.unread(),
                        n,
                    ) && line@ == first_line(old(self).stream.unread().subrange(0, n)),
                Err(DerpError::HeadTooLarge) => headless(old(self).stream.unread()),
                Err(DerpError::Read(ReadError::Closed)) => headless(old(self).stream.unread()),
                Err(DerpError::Read(ReadError::Failed)) => !old(self).stream.reliable(),
                Err(DerpError::Write) => !old(self).stream.reliable(),
                Err(_) => false,
            },
    {
        let ghost all = self.stream.unread();
        let mut req: Vec<u8> = Vec::new();
        push_text(&mut req, "GET /derp HTTP/1.1\r\nHost: ");
        push_text(&mut req, host);
        push_text(&mut req, "\r\nConnection: Upgrade\r\nUpgrade: DERP\r\n\r\n");
        assert(req@ =~= request_of(host@));
        match self.stream.write_all(req.as_slice()) {
            Ok(()) => {},
            Err(()) => {
                return Err(DerpError::Write);
            },
        }
        let mut head: Vec<u8> = Vec::new();
        assert(all.subrange(0, 0) =~= head@);
        assert(rest(all, 0) =~= all);
        loop
            invariant_except_break
                head@.len() <= MAX_HEAD,
                forall|j: int|
                    0 <= j <= head@.len() - 4 ==> !#[trigger] occurs_at(all, crlf2(), j),
            invariant
                all == old(self).stream.unread(),
                self.stream.sent() == old(self).stream.sent() + request_of(host@),
                read_on(
                    with_write(old(self).stream.history(), request_of(host@)),
                    self.stream.history(),
                ),
                old(self).stream.reliable() ==> self.stream.reliable(),
                head@.len() <= all.len(),
                head@ == all.subrange(0, head@.len() as int),
                self.stream.unread() == rest(all, head@.len() as int),
            ensures
                head_at(all, head@.len() as int),
            decreases MAX_HEAD + 1 - head@.len(),
        {
            let ghost had = head@.len() as int;
            let got = match read_exact(&mut self.stream, 1) {
                Ok(v) => v,
                Err(e) => {
                    proof {
                        if e == ReadError::Closed {
                            assert(all.len() == had);
                            lemma_no_head(all, had);
                        }
                    }
                    return Err(DerpError::Read(e));
                },
            };
            append(&mut head, got.as_slice());
            proof {
                assert(head@ =~= all.subrange(0, had + 1));
                assert(self.stream.unread() =~= rest(all, had + 1));
            }
            let n: usize = head.len();
            if n >= 4 && head[n - 4] == 13 && head[n - 3] == 10 && head[n - 2] == 13 && head[n - 1]
                == 10 {
                proof {
                    assert(all.subrange(n - 4, n as int) =~= crlf2());
                    assert(occurs_at(all, crlf2(), n - 4));
                    assert(head_at(all, n as int));
                }
                break;
            }
            proof {
                if n >= 4 {
                    let w = all.subrange(n - 4, n as int);
                    assert(w[0] == head@[n - 4] && w[1] == head@[n - 3] && w[2] == head@[n - 2]
                        && w[3] == head@[n - 1]);
                    assert(!occurs_at(all, crlf2(), n - 4));
                }
            }
            if n > MAX_HEAD {
                proof {
                    lemma_no_head(all, n as int);
                }
                return Err(DerpError::HeadTooLarge);
            }
        }
        let ghost n = head@.len() as int;
        assert(head_at(all, n) && head@ == all.subrange(0, n) && self.stream.unread() == rest(
            all,
            n,
        ));
        let end: usize = index_of(head.as_slice(), 10);
        let line = copy_range(head.as_slice(), 0, end);
        if says_101(line.as_slice()) {
            assert(upgraded(all, n));
            Ok(())
        } else {
            Err(DerpError::Refused(line))
        }
    }

    /// Tells the server who this client is.
    fn send_client_info(
        &mut self,
        node_priv: &[u8; 32],
        node_pub: &[u8; 32],
        server_pub: &[u8; 32],
        nonce: &[u8; 24],
    ) -> (r: Result<(), DerpError>)
        ensures
            final(self).stream.unread() == old(self).stream.unread(),
            r is Ok ==> final(self).stream.sent() == old(self).stream.sent() + frame_of(
                FRAME_CLIENT_INFO,
                client_info_of(node_priv@, node_pub@, server_pub@, nonce@),
            ),
            write_on(old(self).stream.history(), final(self).stream.history()),
            r is Ok ==> wrote_on(
                old(self).stream.history(),
                final(self).stream.history(),
                frame_of(
                    FRAME_CLIENT_INFO,
                    client_info_of(node_priv@, node_pub@, server_pub@, nonce@),
                ),
            ),
            r matches Err(e) ==> e == DerpError::Write,
            old(self).stream.reliable() ==> r is Ok && final(self).stream.reliable(),
    {
        let ct = salsa_encrypt(node_priv, server_pub, nonce, "{\"version\":2}".as_bytes()).unwrap();
        let mut payload = copy(node_pub.as_slice());
        append(&mut payload, nonce.as_slice());
        append(&mut payload, ct.as_slice());
        self.write_frame(FRAME_CLIENT_INFO, payload.as_slice())
    }

    /// Sends a tunnel packet to a peer, addressed by node key.
    pub fn send_packet(&mut self, dst_node_pub: &[u8; 32], pkt: &[u8]) -> (r: Result<(), DerpError>)
        ensures
            final(self).stream.unread() == old(self).stream.unread(),
            r is Ok ==> final(self).stream.sent() == old(self).stream.sent() + frame_of(
                FRAME_SEND_PACKET,
                dst_node_pub@ + pkt@,
            ),
            write_on(old(self).stream.history(), final(self).stream.history()),
            r is Ok ==> wrote_on(
                old(self).stream.history(),
                final(self).stream.history(),
                frame_of(FRAME_SEND_PACKET, dst_node_pub@ + pkt@),
            ),
            r matches Err(e) ==> e == DerpError::Write,
            old(self).stream.reliable() ==> r is Ok && final(self).stream.reliable(),
    {
        let mut payload = copy(dst_node_pub.as_slice());
        append(&mut payload, pkt);
        self.write_frame(FRAME_SEND_PACKET, payload.as_slice())
    }

    /// Reads the next frame: type and payload.
    pub fn read_frame(&mut self) -> (r: Result<(u8, Vec<u8>), DerpError>)
        ensures
            final(self).stream.sent() == old(self).stream.sent(),
            read_on(old(self).stream.history(), final(self).stream.history()),
            match r {
                Ok(f) => {
                    let s = old(self).stream.unread();
                    &&& has_frame(s)
                    &&& f.0 == s[0]
                    &&& f.1@ == frame_payload(s)
                    &&& final(self).stream.unread() == rest(s, 5 + frame_len(s))
                },
                Err(e) => frame_failed(old(self).stream, e),
            },
            r is Err ==> final(self).stream.unread().len() <= old(self).stream.unread().len(),
            old(self).stream.reliable() ==> final(self).stream.reliable(),
    {
        let ghost all = self.stream.unread();
        let hdr = match read_exact(&mut self.stream, 5) {
            Ok(v) => v,
            Err(e) => {
                return Err(DerpError::Read(e));
            },
        };
        let len: u32 = read_be32(hdr.as_slice(), 1);
        assert(len == frame_len(all)) by {
            assert(hdr@[1] == all[1] && hdr@[2] == all[2] && hdr@[3] == all[3] && hdr@[4]
                == all[4]);
        }
        if len > MAX_FRAME as u32 {
            return Err(DerpError::FrameTooLarge(len));
        }
        let payload = match read_exact(&mut self.stream, len as usize) {
            Ok(v) => v,
            Err(e) => {
                return Err(DerpError::Read(e));
            },
        };
        proof {
            assert(payload@ =~= frame_payload(all));
            assert(self.stream.unread() =~= rest(all, 5 + frame_len(all)));
        }
        Ok((hdr[0], payload))
    }

    /// Writes one frame.
    fn write_frame(&mut self, typ: u8, payload: &[u8]) -> (r: Result<(), DerpError>)
        ensures
            final(self).stream.unread() == old(self).stream.unread(),
            r is Ok ==> final(self).stream.sent() == old(self).stream.sent() + frame_of(
                typ,
                payload@,
            ),
            write_on(old(self).stream.history(), final(self).stream.history()),
            r is Ok ==> wrote_on(
                old(self).stream.history(),
                final(self).stream.history(),
                frame_of(typ, payload@),
            ),
            r matches Err(e) ==> e == DerpError::Write,
            old(self).stream.reliable() ==> r is Ok && final(self).stream.reliable(),
    {
        let mut hdr: Vec<u8> = Vec::new();
        hdr.push(typ);
        push_be32(&mut hdr, (payload.len() as u64 % 4294967296) as u32);
        let ghost h0 = self.stream.history();
        match self.stream.write_all(hdr.as_slice()) {
            Ok(()) => {},
            Err(()) => {
                return Err(DerpError::Write);
            },
        }
        let ghost h1 = self.stream.history();
        proof {
            lemma_with_write(h0, hdr@);
        }
        if payload.len() > 0 {
            match self.stream.write_all(payload) {
                Ok(()) => {},
                Err(()) => {
                    return Err(DerpError::Write);
                },
            }
            proof {
                lemma_with_write(h1, payload@);
                lemma_wrote_on(h0, h1, self.stream.history(), hdr@, payload@);
            }
        }
        assert(hdr@ + payload@ =~= frame_of(typ, payload@));
        proof {
            if payload@.len() == 0 {
                assert(hdr@ =~= frame_of(typ, payload@));
            }
        }
        assert(self.stream.sent() =~= old(self).stream.sent() + frame_of(typ, payload@));
        Ok(())
    }
}

/// There is no header in the first `n` bytes, and none that is short enough beyond.
proof fn lemma_no_head(all: Seq<u8>, n: int)
    requires
        0 <= n <= all.len(),
        n == all.len() || n > MAX_HEAD,
        forall|j: int| 0 <= j <= n - 4 ==> !#[trigger] occurs_at(all, crlf2(), j),
    ensures
        headless(all),
{
    assert forall|m: int| !#[trigger] head_at(all, m) by {
        if head_at(all, m) {
            assert(occurs_at(all, crlf2(), m - 4));
        }
    }
}

/// There is one header at most.
proof fn lemma_head_unique(all: Seq<u8>, m: int, n: int)
    requires
        head_at(all, m),
        head_at(all, n),
    ensures
        m == n,
{
    if m < n {
        assert(occurs_at(all, crlf2(), m - 4));
    }
    if n < m {
        assert(occurs_at(all, crlf2(), n - 4));
    }
}

// --- serving peers over the relay ---

/// A peer's tunnel over the relay.
pub struct RelayPeer {
    /// The peer's node key.
    pub src: [u8; 32],
    pub tun: Tunnel,
    pub tcp: TcpServer,
}

/// What a `RelayPeer` holds.
pub struct RelayPeerState {
    pub src: Seq<u8>,
    pub tun: TunnelState,
    pub tcp: Conn,
}

impl View for RelayPeer {
    type V = RelayPeerState;

    open spec fn view(&self) -> RelayPeerState {
        RelayPeerState { src: self.src@, tun: self.tun@, tcp: self.tcp.conn }
    }
}

/// What the relay's side of the data plane keeps for one connection.
pub struct Relay {
    /// Tunnels, at most one per peer.
    pub peers: Vec<RelayPeer>,
    /// Peers to which a direct path was tried already.
    pub upgraded: Vec<[u8; 32]>,
}

/// What a `Relay` holds.
pub struct RelayState {
    pub peers: Seq<RelayPeerState>,
    pub upgraded: Seq<Seq<u8>>,
}

/// What a list of relay peers holds.
pub open spec fn relay_peers(v: Seq<RelayPeer>) -> Seq<RelayPeerState> {
    v.map_values(|p: RelayPeer| p@)
}

/// What a list of keys holds.
pub open spec fn keys(v: Seq<[u8; 32]>) -> Seq<Seq<u8>> {
    v.map_values(|k: [u8; 32]| k@)
}

impl View for Relay {
    type V = RelayState;

    open spec fn view(&self) -> RelayState {
        RelayState { peers: relay_peers(self.peers@), upgraded: keys(self.upgraded@) }
    }
}

/// What the caller has to do.
pub enum RelayAction {
    /// Send this packet to the peer over the relay.
    Send { dst: [u8; 32], pkt: Vec<u8> },
    /// Have the UDP data plane try a direct path to this peer.
    AddTarget(Target),
}

/// What a `RelayAction` holds.
pub enum RelayActionState {
    Send { dst: Seq<u8>, pkt: Seq<u8> },
    AddTarget(TargetState),
}

impl View for RelayAction {
    type V = RelayActionState;

    open spec fn view(&self) -> RelayActionState {
        match self {
            RelayAction::Send { dst, pkt } => RelayActionState::Send { dst: dst@, pkt: pkt@ },
            RelayAction::AddTarget(t) => RelayActionState::AddTarget(t@),
        }
    }
}

/// What a list of actions holds.
pub open spec fn relay_actions(v: Seq<RelayAction>) -> Seq<RelayActionState> {
    v.map_values(|a: RelayAction| a@)
}

/// No actions.
pub open spec fn idle() -> Seq<RelayActionState> {
    Seq::empty()
}

/// The random values that the handling of one frame may need.
pub struct RelayDraw {
    /// For a call-me-maybe.
    pub call_nonce: [u8; 24],
    /// For a pong.
    pub pong_nonce: [u8; 24],
    /// For a new tunnel.
    pub index: u32,
    pub eph: [u8; 32],
    /// For a new TCP connection.
    pub iss: u32,
}

impl RelayDraw {
    /// Draws fresh values. It fails where the system has no entropy to give; nothing is
    /// known of the values.
    pub fn draw() -> Result<RelayDraw, NoEntropy> {
        let call_nonce = match random24() {
            Ok(n) => n,
            Err(e) => {
                return Err(e);
            },
        };
        match Entropy::draw() {
            Ok(e) => Ok(
                RelayDraw {
                    call_nonce,
                    pong_nonce: e.nonce,
                    index: e.index,
                    eph: e.eph,
                    iss: e.iss,
                },
            ),
            Err(e) => Err(e),
        }
    }
}

/// The first eight bytes in hexadecimal.
pub open spec fn hex8_of(b: Seq<u8>) -> Seq<u8> {
    hex_of(
        b.subrange(
            0,
            if b.len() < 8 {
                b.len() as int
            } else {
                8
            },
        ),
    )
}

/// What a relayed peer is called: "derp:" and the beginning of its key.
pub open spec fn relay_name_of(src: Seq<u8>) -> Seq<char> {
    decode_utf8(seq![100u8, 101, 114, 112, 58] + hex8_of(src))
}

/// The target for a relayed peer.
pub open spec fn relay_target_of(disco_pub: Seq<u8>, src: Seq<u8>, endpoints: Seq<SocketAddr>) -> TargetState {
    TargetState { name: relay_name_of(src), disco_pub, node_pub: src, endpoints, spray: true }
}

/// Whether a netmap row is that of this node key.
pub open spec fn row_is(src: Seq<u8>) -> spec_fn(PeerDir) -> bool {
    |p: PeerDir| p.node_pub@ == src
}

/// The place of the peer's netmap row.
pub open spec fn row_of(up: Upgrade, src: Seq<u8>) -> int {
    first_where(up.peers@, row_is(src))
}

/// What the place of a netmap row is.
pub proof fn lemma_row(up: Upgrade, src: Seq<u8>)
    ensures
        0 <= row_of(up, src) <= up.peers@.len(),
        row_of(up, src) < up.peers@.len() ==> up.peers@[row_of(up, src)].node_pub@ == src,
        forall|j: int| 0 <= j < row_of(up, src) ==> (#[trigger] up.peers@[j]).node_pub@ != src,
{
    lemma_first_where(up.peers@, row_is(src));
    assert forall|j: int| 0 <= j < row_of(up, src) implies (#[trigger] up.peers@[j]).node_pub@ != src by {
        assert(!row_is(src)(up.peers@[j]));
    }
}

/// The call-me-maybe that tells a relayed peer where this node can be reached.
pub open spec fn call_packet(id: IdentityState, up: Upgrade, row: PeerDir, nonce: Seq<u8>) -> Seq<u8> {
    wire_of(
        id.disco_priv,
        id.disco_pub,
        row.disco_pub@,
        nonce,
        call_me_maybe_of(up.our_endpoints@),
    )
}

/// The attempt at a direct path to a relayed peer: tell it where this node is, and have its
/// endpoints probed. Nothing is tried with an unknown peer, nor where neither side has an
/// endpoint.
pub open spec fn upgrade_of(id: IdentityState, up: Upgrade, src: Seq<u8>, nonce: Seq<u8>) -> Seq<
    RelayActionState,
> {
    let k = row_of(up, src);
    if k >= up.peers@.len() || (up.peers@[k].endpoints@.len() == 0 && up.our_endpoints@.len()
        == 0) {
        idle()
    } else {
        let row = up.peers@[k];
        seq![
            RelayActionState::Send { dst: src, pkt: call_packet(id, up, row, nonce) },
            RelayActionState::AddTarget(relay_target_of(row.disco_pub@, src, row.endpoints@)),
        ]
    }
}

/// The answer to a disco packet over the relay: a ping gets a pong, and the endpoints of a
/// call-me-maybe are probed.
pub open spec fn disco_answer_of(
    id: IdentityState,
    upgrades: bool,
    src: Seq<u8>,
    pkt: Seq<u8>,
    nonce: Seq<u8>,
) -> Seq<RelayActionState> {
    match packet_of(id.disco_priv, pkt) {
        Err(_) => idle(),
        Ok(m) => if m.msg_type == PING {
            seq![
                RelayActionState::Send {
                    dst: src,
                    pkt: wire_of(
                        id.disco_priv,
                        id.disco_pub,
                        m.sender_disco_pub,
                        nonce,
                        pong_of(m.txid, v4(Ipv4Addr { a: 0, b: 0, c: 0, d: 0 }, 0)),
                    ),
                },
            ]
        } else if m.msg_type == CALL_ME_MAYBE && m.endpoints.len() > 0 && upgrades {
            seq![
                RelayActionState::AddTarget(
                    relay_target_of(m.sender_disco_pub, src, m.endpoints),
                ),
            ]
        } else {
            idle()
        },
    }
}

/// The tunnel after the inner packets were sent to the peer in order, and the actions.
pub open spec fn relay_all(t: TunnelState, inners: Seq<Seq<u8>>, dst: Seq<u8>) -> (
    TunnelState,
    Seq<RelayActionState>,
)
    decreases inners.len(),
{
    if inners.len() == 0 {
        (t, idle())
    } else {
        let (u, a) = relay_all(t, inners.drop_last(), dst);
        let inner = inners.last();
        if can_send(u, inner) {
            (
                TunnelState { tx_counter: (u.tx_counter + 1) as u64, ..u },
                a.push(
                    RelayActionState::Send {
                        dst,
                        pkt: transport_bytes(u.send_key, u.their_index, u.tx_counter, inner),
                    },
                ),
            )
        } else {
            (u, a)
        }
    }
}

/// What the services inside the tunnel answer: an echo request gets its reply, anything
/// else goes to the TCP server.
pub open spec fn inner_replies(tcp: Conn, inner: Seq<u8>, iss: u32) -> (Conn, Seq<Seq<u8>>) {
    if is_echo_request(inner) {
        (tcp, seq![echo_reply_of(inner)])
    } else {
        server_step(tcp, inner, iss)
    }
}

/// The peer after the services have seen `inner`, and the actions.
pub open spec fn relay_service(p: RelayPeerState, inner: Seq<u8>, iss: u32) -> (
    RelayPeerState,
    Seq<RelayActionState>,
) {
    let (tcp, replies) = inner_replies(p.tcp, inner, iss);
    let (t, a) = relay_all(p.tun, replies, p.src);
    (RelayPeerState { tun: t, tcp, ..p }, a)
}

/// The place of a peer's tunnel.
pub open spec fn peer_at(s: Seq<RelayPeerState>, src: Seq<u8>) -> int {
    first_where(s, |p: RelayPeerState| p.src == src)
}

impl RelayState {
    /// At most one tunnel per peer.
    pub open spec fn wf(self) -> bool {
        forall|i: int, j: int|
            0 <= i < j < self.peers.len() ==> #[trigger] self.peers[i].src
                != #[trigger] self.peers[j].src
    }

    /// With a tunnel to the peer, which replaces an earlier one.
    pub open spec fn with_peer(self, p: RelayPeerState) -> RelayState {
        let k = peer_at(self.peers, p.src);
        RelayState {
            peers: if k < self.peers.len() {
                self.peers.update(k, p)
            } else {
                self.peers.push(p)
            },
            ..self
        }
    }

    /// After a handshake initiation.
    pub open spec fn on_init(self, id: IdentityState, src: Seq<u8>, pkt: Seq<u8>, d: RelayDraw) -> (
        RelayState,
        Seq<RelayActionState>,
    ) {
        match read_initiation_of(id.node_priv, id.node_pub, pkt) {
            Err(_) => (self, idle()),
            Ok(got) => {
                let resp = response_to(pkt, got.0, got.1, d.index, d.eph@);
                (
                    self.with_peer(
                        RelayPeerState { src, tun: resp.tunnel(), tcp: Conn::idle() },
                    ),
                    seq![RelayActionState::Send { dst: src, pkt: resp.bytes() }],
                )
            },
        }
    }

    /// After a transport packet: where the peer's tunnel exists and the packet decrypts to
    /// something that the filter lets through, the services see it.
    pub open spec fn on_transport(self, id: IdentityState, src: Seq<u8>, pkt: Seq<u8>, iss: u32) -> (
        RelayState,
        Seq<RelayActionState>,
    ) {
        let k = peer_at(self.peers, src);
        if k >= self.peers.len() {
            (self, idle())
        } else {
            match transport_open(self.peers[k].tun.recv_key, pkt) {
                None => (self, idle()),
                Some(inner) => if inner.len() == 0 || !allowed(id.allowed_srcs, inner) {
                    (self, idle())
                } else {
                    let (p, a) = relay_service(self.peers[k], inner, iss);
                    (RelayState { peers: self.peers.update(k, p), ..self }, a)
                },
            }
        }
    }

    /// After WireGuard traffic.
    pub open spec fn on_wg(self, id: IdentityState, src: Seq<u8>, pkt: Seq<u8>, d: RelayDraw) -> (
        RelayState,
        Seq<RelayActionState>,
    ) {
        if pkt[0] == MSG_INITIATION {
            self.on_init(id, src, pkt, d)
        } else if pkt[0] == MSG_TRANSPORT {
            self.on_transport(id, src, pkt, d.iss)
        } else {
            (self, idle())
        }
    }

    /// With the peer noted as one to which a direct path was tried.
    pub open spec fn noted(self, up: Option<Upgrade>, src: Seq<u8>) -> RelayState {
        if up is Some && !self.upgraded.contains(src) {
            RelayState { upgraded: self.upgraded.push(src), ..self }
        } else {
            self
        }
    }

    /// Whether a frame starts the attempt at a direct path to its sender, which is when a
    /// call-me-maybe goes to it.
    pub open spec fn calls(self, up: Option<Upgrade>, typ: u8, payload: Seq<u8>) -> bool {
        up is Some && carries_packet(typ, payload) && !self.upgraded.contains(
            payload.subrange(0, 32),
        )
    }

    /// What a frame leads to. A packet from a peer that is heard for the first time starts
    /// the attempt at a direct path; then disco and WireGuard are answered.
    pub open spec fn after_frame(
        self,
        id: IdentityState,
        up: Option<Upgrade>,
        typ: u8,
        payload: Seq<u8>,
        d: RelayDraw,
    ) -> (RelayState, Seq<RelayActionState>) {
        if !carries_packet(typ, payload) {
            (self, idle())
        } else {
            let src = payload.subrange(0, 32);
            let pkt = payload.subrange(32, payload.len() as int);
            let s = self.noted(up, src);
            let first = if self.calls(up, typ, payload) {
                upgrade_of(id, up->0, src, d.call_nonce@)
            } else {
                idle()
            };
            if has_magic(pkt) {
                (s, first + disco_answer_of(id, up is Some, src, pkt, d.pong_nonce@))
            } else {
                let (t, a) = s.on_wg(id, src, pkt, d);
                (t, first + a)
            }
        }
    }
}

/// A frame that came in, and the random values that its handling draws.
pub struct FrameIn {
    pub typ: u8,
    pub payload: Seq<u8>,
    pub d: RelayDraw,
}

impl FrameIn {
    /// Whether it carries a packet from `src`.
    pub open spec fn is_from(self, src: Seq<u8>) -> bool {
        carries_packet(self.typ, self.payload) && self.payload.subrange(0, 32) == src
    }
}

impl RelayState {
    /// After the frames, in their order.
    pub open spec fn after_frames(
        self,
        id: IdentityState,
        up: Option<Upgrade>,
        frames: Seq<FrameIn>,
    ) -> RelayState
        decreases frames.len(),
    {
        if frames.len() == 0 {
            self
        } else {
            let f = frames.last();
            self.after_frames(id, up, frames.drop_last()).after_frame(
                id,
                up,
                f.typ,
                f.payload,
                f.d,
            ).0
        }
    }
}

/// Whether the frame carries a packet from a peer.
pub open spec fn carries_packet(typ: u8, payload: Seq<u8>) -> bool {
    typ == FRAME_RECV_PACKET && payload.len() > 32
}

/// The first eight bytes in hexadecimal.
pub fn hex8(b: &[u8]) -> (r: Vec<u8>)
    ensures
        r@ == hex8_of(b@),
{
    let n: usize = if b.len() < 8 {
        b.len()
    } else {
        8
    };
    let mut v: Vec<u8> = Vec::new();
    push_hex(&mut v, slice_subrange(b, 0, n));
    assert(v@ =~= hex8_of(b@));
    v
}

/// What a relayed peer is called.
fn relay_name(src: &[u8; 32]) -> (r: String)
    ensures
        r@ == relay_name_of(src@),
{
    let mut v: Vec<u8> = Vec::new();
    v.push(100);
    v.push(101);
    v.push(114);
    v.push(112);
    v.push(58);
    let mut h = hex8(src.as_slice());
    v.append(&mut h);
    assert(v@ =~= seq![100u8, 101, 114, 112, 58] + hex8_of(src@));
    let r = ascii_string(v);
    proof {
        encode_utf8_decode_utf8(r@);
    }
    r
}

impl Relay {
    /// Nothing known yet.
    pub fn new() -> (r: Self)
        ensures
            r@.peers == Seq::<RelayPeerState>::empty(),
            r@.upgraded == Seq::<Seq<u8>>::empty(),
            r@.wf(),
    {
        let r = Relay { peers: Vec::new(), upgraded: Vec::new() };
        assert(r@.peers =~= Seq::empty());
        assert(r@.upgraded =~= Seq::empty());
        r
    }

    /// Finds a peer's tunnel.
    fn find_peer(&self, src: &[u8; 32]) -> (r: usize)
        ensures
            r == peer_at(self@.peers, src@),
            r <= self.peers@.len(),
            r < self.peers@.len() ==> self.peers@[r as int].src@ == src@,
    {
        let mut i: usize = 0;
        while i < self.peers.len() && !key_eq(&self.peers[i].src, src)
            invariant
                i <= self.peers@.len(),
                forall|k: int| 0 <= k < i ==> self@.peers[k].src != src@,
            decreases self.peers@.len() - i,
        {
            assert(self@.peers[i as int].src == self.peers@[i as int].src@);
            i = i + 1;
        }
        proof {
            if i < self.peers@.len() {
                assert(self@.peers[i as int].src == self.peers@[i as int].src@);
            }
            lemma_first_where_is(self@.peers, |p: RelayPeerState| p.src == src@, i as int);
        }
        i
    }

    /// Notes that a direct path to the peer was tried. The result says whether this is the
    /// first time.
    fn note(&mut self, src: &[u8; 32]) -> (r: bool)
        ensures
            r == !old(self)@.upgraded.contains(src@),
            final(self)@ == (RelayState {
                upgraded: if r {
                    old(self)@.upgraded.push(src@)
                } else {
                    old(self)@.upgraded
                },
                ..old(self)@
            }),
    {
        let ghost u0 = self@.upgraded;
        let mut i: usize = 0;
        while i < self.upgraded.len()
            invariant
                i <= self.upgraded@.len(),
                self@ == old(self)@,
                u0 == self@.upgraded,
                forall|k: int| 0 <= k < i ==> u0[k] != src@,
            decreases self.upgraded@.len() - i,
        {
            assert(u0[i as int] == self.upgraded@[i as int]@);
            if key_eq(&self.upgraded[i], src) {
                assert(u0.contains(src@));
                return false;
            }
            i = i + 1;
        }
        self.upgraded.push(*src);
        assert(self@.upgraded =~= u0.push(src@));
        true
    }

    /// Adds a tunnel to a peer, in place of an earlier one.
    fn insert_peer(&mut self, src: [u8; 32], tun: Tunnel)
        ensures
            final(self)@ == old(self)@.with_peer(
                RelayPeerState { src: src@, tun: tun@, tcp: Conn::idle() },
            ),
    {
        let ghost s0 = self@;
        let k: usize = self.find_peer(&src);
        let p = RelayPeer { src, tun, tcp: TcpServer::new() };
        let ghost pv = p@;
        if k < self.peers.len() {
            self.peers[k] = p;
        } else {
            self.peers.push(p);
        }
        assert(self@.peers =~= s0.with_peer(pv).peers);
    }

    /// Tries a direct path to a relayed peer.
    fn try_upgrade(id: &Identity, up: &Upgrade, src: &[u8; 32], nonce: &[u8; 24]) -> (r: Vec<
        RelayAction,
    >)
        ensures
            relay_actions(r@) == upgrade_of(id@, *up, src@, nonce@),
    {
        let mut out: Vec<RelayAction> = Vec::new();
        assert(relay_actions(out@) =~= idle());
        let mut k: usize = 0;
        while k < up.peers.len() && !key_eq(&up.peers[k].node_pub, src)
            invariant
                k <= up.peers@.len(),
                forall|j: int| 0 <= j < k ==> (#[trigger] up.peers@[j]).node_pub@ != src@,
            decreases up.peers@.len() - k,
        {
            k = k + 1;
        }
        proof {
            assert forall|j: int| 0 <= j < k implies !row_is(src@)(#[trigger] up.peers@[j]) by {}
            lemma_first_where_is(up.peers@, row_is(src@), k as int);
        }
        if k == up.peers.len() {
            return out;
        }
        if up.peers[k].endpoints.len() == 0 && up.our_endpoints.len() == 0 {
            return out;
        }
        let msg = call_me_maybe_plaintext(up.our_endpoints.as_slice());
        let disco_pub = up.peers[k].disco_pub;
        let wire = seal_with(&id.disco_priv, &id.disco_pub, &disco_pub, nonce, msg.as_slice());
        out.push(RelayAction::Send { dst: *src, pkt: wire });
        let t = Target {
            name: relay_name(src),
            disco_pub,
            node_pub: *src,
            endpoints: copy_addrs(&up.peers[k].endpoints),
            spray: true,
        };
        out.push(RelayAction::AddTarget(t));
        assert(relay_actions(out@) =~= upgrade_of(id@, *up, src@, nonce@));
        out
    }

    /// Answers a disco packet over the relay.
    fn answer_disco(id: &Identity, upgrades: bool, src: &[u8; 32], pkt: &[u8], nonce: &[u8; 24]) -> (r:
        Vec<RelayAction>)
        ensures
            relay_actions(r@) == disco_answer_of(id@, upgrades, src@, pkt@, nonce@),
    {
        let mut out: Vec<RelayAction> = Vec::new();
        assert(relay_actions(out@) =~= idle());
        let msg = match disco_open(&id.disco_priv, pkt) {
            Ok(m) => m,
            Err(_) => {
                return out;
            },
        };
        if msg.msg_type == PING {
            let any = SocketAddr::new_v4(Ipv4Addr::new(0, 0, 0, 0), 0);
            let pong = pong_plaintext(&msg.txid, any);
            let wire = seal_with(
                &id.disco_priv,
                &id.disco_pub,
                &msg.sender_disco_pub,
                nonce,
                pong.as_slice(),
            );
            out.push(RelayAction::Send { dst: *src, pkt: wire });
            assert(relay_actions(out@) =~= seq![
                RelayActionState::Send { dst: src@, pkt: wire@ },
            ]);
        } else if msg.msg_type == CALL_ME_MAYBE && msg.endpoints.len() > 0 && upgrades {
            let t = Target {
                name: relay_name(src),
                disco_pub: msg.sender_disco_pub,
                node_pub: *src,
                endpoints: msg.endpoints,
                spray: true,
            };
            out.push(RelayAction::AddTarget(t));
            assert(relay_actions(out@) =~= disco_answer_of(id@, upgrades, src@, pkt@, nonce@));
        }
        out
    }

    /// The services of a peer's tunnel see `inner`.
    fn handle_inner(p: &mut RelayPeer, inner: &[u8], iss: u32) -> (r: Vec<RelayAction>)
        ensures
            (final(p)@, relay_actions(r@)) == relay_service(old(p)@, inner@, iss),
    {
        let mut out: Vec<RelayAction> = Vec::new();
        let mut replies: Vec<Vec<u8>> = Vec::new();
        match echo_reply(inner) {
            Some(reply) => {
                replies.push(reply);
            },
            None => {
                replies = p.tcp.handle_with(inner, iss);
            },
        }
        let ghost all = packets(replies@);
        let ghost p1 = p@;
        assert(all =~= inner_replies(old(p)@.tcp, inner@, iss).1);
        let mut i: usize = 0;
        assert(all.subrange(0, 0) =~= Seq::empty());
        assert(relay_actions(out@) =~= idle());
        while i < replies.len()
            invariant
                i <= replies@.len(),
                all == packets(replies@),
                p1 == (RelayPeerState { tun: old(p)@.tun, ..p1 }),
                p@ == (RelayPeerState {
                    tun: relay_all(old(p)@.tun, all.subrange(0, i as int), p1.src).0,
                    ..p1
                }),
                relay_actions(out@) == relay_all(
                    old(p)@.tun,
                    all.subrange(0, i as int),
                    p1.src,
                ).1,
            decreases replies@.len() - i,
        {
            let ghost next = all.subrange(0, i + 1);
            assert(next.drop_last() =~= all.subrange(0, i as int));
            assert(next.last() == replies@[i as int]@);
            if p.tun.tx_counter < u64::MAX && replies[i].len() as u64 <= AEAD_MAX {
                let pkt = p.tun.encrypt(replies[i].as_slice());
                out.push(RelayAction::Send { dst: p.src, pkt });
                assert(relay_actions(out@) =~= relay_all(old(p)@.tun, next, p1.src).1);
            }
            i = i + 1;
        }
        assert(all.subrange(0, i as int) =~= all);
        out
    }

    /// Handles WireGuard traffic of a peer.
    fn handle_wg(&mut self, id: &Identity, src: &[u8; 32], pkt: &[u8], d: &RelayDraw) -> (r: Vec<
        RelayAction,
    >)
        requires
            pkt@.len() > 0,
        ensures
            (final(self)@, relay_actions(r@)) == old(self)@.on_wg(id@, src@, pkt@, *d),
    {
        let ghost s0 = self@;
        let mut out: Vec<RelayAction> = Vec::new();
        assert(relay_actions(out@) =~= idle());
        if pkt[0] == MSG_INITIATION {
            if let Ok(got) = read_initiation(&id.node_priv, &id.node_pub, pkt) {
                let (resp, tun) = build_response(&got, d.index, &d.eph);
                self.insert_peer(*src, tun);
                out.push(RelayAction::Send { dst: *src, pkt: copy(resp.as_slice()) });
                assert(relay_actions(out@) =~= seq![
                    RelayActionState::Send { dst: src@, pkt: resp@ },
                ]);
            }
        } else if pkt[0] == MSG_TRANSPORT {
            let k: usize = self.find_peer(src);
            if k < self.peers.len() {
                assert(s0.peers[k as int] == self.peers@[k as int]@);
                if let Ok(inner) = self.peers[k].tun.decrypt(pkt) {
                    if inner.len() > 0 && src_allowed(&id.allowed_srcs, inner.as_slice()) {
                        out = Self::handle_inner(&mut self.peers[k], inner.as_slice(), d.iss);
                        assert(self@.peers =~= s0.on_transport(id@, src@, pkt@, d.iss).0.peers);
                    }
                }
            }
        }
        out
    }

    /// Handles one frame from the relay server. Where there is `up`, direct paths to
    /// relayed peers are tried.
    pub fn on_frame(
        &mut self,
        id: &Identity,
        up: &Option<Upgrade>,
        typ: u8,
        payload: &[u8],
        d: &RelayDraw,
    ) -> (r: Vec<RelayAction>)
        ensures
            (final(self)@, relay_actions(r@)) == old(self)@.after_frame(
                id@,
                *up,
                typ,
                payload@,
                *d,
            ),
    {
        let ghost s0 = self@;
        let mut out: Vec<RelayAction> = Vec::new();
        assert(relay_actions(out@) =~= idle());
        if typ != FRAME_RECV_PACKET || payload.len() <= 32 {
            return out;
        }
        let src = array32(payload, 0);
        let pkt = slice_subrange(payload, 32, payload.len());
        if let Some(u) = up {
            if self.note(&src) {
                out = Self::try_upgrade(id, u, &src, &d.call_nonce);
            }
        }
        assert(self@ == s0.noted(*up, src@));
        let ghost a = relay_actions(out@);
        let mut more = if is_disco(pkt) {
            Self::answer_disco(id, up.is_some(), &src, pkt, &d.pong_nonce)
        } else {
            self.handle_wg(id, &src, pkt, d)
        };
        let ghost b = relay_actions(more@);
        out.append(&mut more);
        assert(relay_actions(out@) =~= a + b);
        out
    }
}

/// The frames that carry out the sends among the actions.
pub open spec fn sends_in(acts: Seq<RelayActionState>) -> Seq<u8>
    decreases acts.len(),
{
    if acts.len() == 0 {
        Seq::empty()
    } else {
        match acts.last() {
            RelayActionState::Send { dst, pkt } => sends_in(acts.drop_last()) + frame_of(
                FRAME_SEND_PACKET,
                dst + pkt,
            ),
            _ => sends_in(acts.drop_last()),
        }
    }
}

/// The targets among the actions.
pub open spec fn targets_in(acts: Seq<RelayActionState>) -> Seq<TargetState>
    decreases acts.len(),
{
    if acts.len() == 0 {
        Seq::empty()
    } else {
        match acts.last() {
            RelayActionState::AddTarget(t) => targets_in(acts.drop_last()).push(t),
            _ => targets_in(acts.drop_last()),
        }
    }
}

impl Relay {
    /// Serves one frame: reads it, handles it and sends what is to be sent; the result is the
    /// targets to probe. Serving ends only when no frame can be read; a send that fails does
    /// not end it.
    pub fn serve_frame<S: ByteStream>(
        &mut self,
        derp: &mut Derp<S>,
        id: &Identity,
        up: &Option<Upgrade>,
        d: &RelayDraw,
    ) -> (r: Result<Vec<Target>, DerpError>)
        ensures
            old(derp).stream.reliable() ==> final(derp).stream.reliable(),
            ({
                let s = old(derp).stream.unread();
                let end = old(self)@.after_frame(id@, *up, s[0], frame_payload(s), *d);
                match r {
                    Ok(ts) => {
                        &&& has_frame(s)
                        &&& final(self)@ == end.0
                        &&& target_states(ts@) == targets_in(end.1)
                        &&& final(derp).stream.unread() == rest(s, 5 + frame_len(s))
                        &&& old(derp).stream.reliable() ==> final(derp).stream.sent() == old(
                            derp,
                        ).stream.sent() + sends_in(end.1)
                    },
                    Err(e) => {
                        &&& final(self)@ == old(self)@
                        &&& final(derp).stream.sent() == old(derp).stream.sent()
                        &&& frame_failed(old(derp).stream, e)
                    },
                }
            }),
    {
        let (typ, payload) = match derp.read_frame() {
            Ok(f) => f,
            Err(e) => {
                return Err(e);
            },
        };
        let ghost sent = derp.stream.sent();
        let ghost left = derp.stream.unread();
        let mut acts = self.on_frame(id, up, typ, payload.as_slice(), d);
        let ghost all = relay_actions(acts@);
        let ghost mut k: int = 0;
        let mut targets: Vec<Target> = Vec::new();
        assert(all.take(0) =~= Seq::empty());
        assert(all.subrange(0, all.len() as int) =~= all);
        assert(target_states(targets@) =~= Seq::empty());
        assert(sent + Seq::<u8>::empty() =~= sent);
        while acts.len() > 0
            invariant
                0 <= k <= all.len(),
                relay_actions(acts@) == all.subrange(k, all.len() as int),
                derp.stream.unread() == left,
                target_states(targets@) == targets_in(all.take(k)),
                old(derp).stream.reliable() ==> derp.stream.reliable() && derp.stream.sent()
                    == sent + sends_in(all.take(k)),
            decreases acts@.len(),
        {
            let ghost was = acts@;
            let ghost ts = targets@;
            assert(relay_actions(was).len() == was.len());
            let a = acts.remove(0);
            proof {
                let rem = all.subrange(k, all.len() as int);
                assert(relay_actions(was) == rem && rem.len() == was.len());
                assert(rem[0] == was[0]@ && rem[0] == all[k]);
                assert forall|j: int| 0 <= j < acts@.len() implies relay_actions(acts@)[j]
                    == all[k + 1 + j] by {
                    assert(acts@[j] == was[j + 1]);
                    assert(rem[j + 1] == was[j + 1]@);
                }
                assert(relay_actions(acts@) =~= all.subrange(k + 1, all.len() as int));
                assert(all.take(k + 1).drop_last() =~= all.take(k));
                assert(all.take(k + 1).last() == a@);
            }
            match a {
                RelayAction::Send { dst, pkt } => {
                    let _ = derp.send_packet(&dst, pkt.as_slice());
                    proof {
                        if old(derp).stream.reliable() {
                            assert(derp.stream.sent() =~= sent + sends_in(all.take(k + 1)));
                        }
                    }
                },
                RelayAction::AddTarget(t) => {
                    targets.push(t);
                    assert(target_states(targets@) =~= target_states(ts).push(t@));
                },
            }
            proof {
                k = k + 1;
            }
        }
        assert(all.take(k) =~= all) by {
            assert(relay_actions(acts@).len() == 0);
        }
        Ok(targets)
    }
}

/// Frames keep the relay's state well-formed: at most one tunnel per peer.
pub proof fn law_relay_wf(
    was: RelayState,
    id: IdentityState,
    up: Option<Upgrade>,
    typ: u8,
    payload: Seq<u8>,
    d: RelayDraw,
)
    requires
        was.wf(),
    ensures
        was.after_frame(id, up, typ, payload, d).0.wf(),
{
    let new = was.after_frame(id, up, typ, payload, d).0;
    if carries_packet(typ, payload) {
        let src = payload.subrange(0, 32);
        let s = was.noted(up, src);
        let p = |p: RelayPeerState| p.src == src;
        lemma_first_where(s.peers, p);
        assert forall|i: int, j: int| 0 <= i < j < new.peers.len() implies #[trigger] new.peers[i].src
            != #[trigger] new.peers[j].src by {
            if j < was.peers.len() {
                assert(was.peers[i].src != was.peers[j].src);
            } else {
                assert(!p(s.peers[i]));
            }
        }
    }
}

/// A direct path to a peer is tried once per connection: after a frame from it, it is
/// among those to which one was tried, and it stays there.
pub proof fn law_upgrade_once(
    was: RelayState,
    id: IdentityState,
    up: Option<Upgrade>,
    typ: u8,
    payload: Seq<u8>,
    d: RelayDraw,
)
    ensures
        ({
            let new = was.after_frame(id, up, typ, payload, d).0;
            &&& forall|k: Seq<u8>| was.upgraded.contains(k) ==> #[trigger] new.upgraded.contains(k)
            &&& up is Some && carries_packet(typ, payload) ==> new.upgraded.contains(
                payload.subrange(0, 32),
            )
        }),
{
    let new = was.after_frame(id, up, typ, payload, d).0;
    if carries_packet(typ, payload) {
        let src = payload.subrange(0, 32);
        let s = was.noted(up, src);
        assert(new.upgraded == s.upgraded);
        assert forall|k: Seq<u8>| was.upgraded.contains(k) implies #[trigger] new.upgraded.contains(
            k,
        ) by {
            let i = choose|i: int| 0 <= i < was.upgraded.len() && was.upgraded[i] == k;
            assert(new.upgraded[i] == k);
        }
        if up is Some && !was.upgraded.contains(src) {
            assert(s.upgraded.last() == src);
        }
    }
}

/// A frame without a packet from a peer leads to nothing.
pub proof fn law_other_frames_idle(
    was: RelayState,
    id: IdentityState,
    up: Option<Upgrade>,
    typ: u8,
    payload: Seq<u8>,
    d: RelayDraw,
)
    requires
        typ != FRAME_RECV_PACKET || payload.len() <= 32,
    ensures
        was.after_frame(id, up, typ, payload, d) == (was, idle()),
{
}

/// The peers to which a direct path was tried, after one more frame.
proof fn lemma_noted(
    was: RelayState,
    id: IdentityState,
    up: Option<Upgrade>,
    f: FrameIn,
    k: Seq<u8>,
)
    requires
        up is Some,
    ensures
        was.after_frame(id, up, f.typ, f.payload, f.d).0.upgraded.contains(k)
            <==> was.upgraded.contains(k) || f.is_from(k),
{
    let new = was.after_frame(id, up, f.typ, f.payload, f.d).0;
    law_upgrade_once(was, id, up, f.typ, f.payload, f.d);
    if carries_packet(f.typ, f.payload) {
        let src = f.payload.subrange(0, 32);
        let s = was.noted(up, src);
        assert(new.upgraded == s.upgraded);
        if new.upgraded.contains(k) && k != src {
            let i = choose|i: int| 0 <= i < new.upgraded.len() && new.upgraded[i] == k;
            assert(was.upgraded[i] == k);
        }
    }
}

/// Over a whole connection a direct path was tried to just those peers from which a packet
/// came.
pub proof fn law_tried_are_the_heard(
    was: RelayState,
    id: IdentityState,
    up: Option<Upgrade>,
    frames: Seq<FrameIn>,
    src: Seq<u8>,
)
    requires
        was.upgraded.len() == 0,
        up is Some,
    ensures
        was.after_frames(id, up, frames).upgraded.contains(src) <==> exists|j: int|
            0 <= j < frames.len() && (#[trigger] frames[j]).is_from(src),
    decreases frames.len(),
{
    if frames.len() > 0 {
        let r = frames.drop_last();
        let f = frames.last();
        law_tried_are_the_heard(was, id, up, r, src);
        lemma_noted(was.after_frames(id, up, r), id, up, f, src);
        assert(f == frames[frames.len() - 1]);
        if exists|j: int| 0 <= j < r.len() && (#[trigger] r[j]).is_from(src) {
            let j = choose|j: int| 0 <= j < r.len() && (#[trigger] r[j]).is_from(src);
            assert(frames[j] == r[j]);
        }
        if exists|j: int| 0 <= j < frames.len() && (#[trigger] frames[j]).is_from(src) {
            let j = choose|j: int| 0 <= j < frames.len() && (#[trigger] frames[j]).is_from(src);
            if j < r.len() {
                assert(r[j] == frames[j]);
            }
        }
    }
}

/// Over a whole connection the call-me-maybe to a peer goes out on the first frame with a
/// packet from it, and on no other.
pub proof fn law_call_on_first_packet(
    was: RelayState,
    id: IdentityState,
    up: Option<Upgrade>,
    frames: Seq<FrameIn>,
    i: int,
)
    requires
        was.upgraded.len() == 0,
        up is Some,
        0 <= i < frames.len(),
    ensures
        was.after_frames(id, up, frames.take(i)).calls(up, frames[i].typ, frames[i].payload)
            <==> carries_packet(frames[i].typ, frames[i].payload) && forall|j: int|
            0 <= j < i ==> !(#[trigger] frames[j]).is_from(frames[i].payload.subrange(0, 32)),
{
    let src = frames[i].payload.subrange(0, 32);
    let r = frames.take(i);
    law_tried_are_the_heard(was, id, up, r, src);
    assert forall|j: int| 0 <= j < i implies r[j] == #[trigger] frames[j] by {}
    if forall|j: int| 0 <= j < i ==> !(#[trigger] frames[j]).is_from(src) {
        assert forall|j: int| 0 <= j < r.len() implies !(#[trigger] r[j]).is_from(src) by {
            assert(!frames[j].is_from(src));
        }
    } else {
        let j = choose|j: int| 0 <= j < i && (#[trigger] frames[j]).is_from(src);
        assert(r[j].is_from(src));
    }
}

/// No two frames of a connection lead to a call-me-maybe to the same peer.
pub proof fn law_calls_once(
    was: RelayState,
    id: IdentityState,
    up: Option<Upgrade>,
    frames: Seq<FrameIn>,
    i: int,
    j: int,
)
    requires
        was.upgraded.len() == 0,
        0 <= i < j < frames.len(),
        was.after_frames(id, up, frames.take(i)).calls(up, frames[i].typ, frames[i].payload),
        was.after_frames(id, up, frames.take(j)).calls(up, frames[j].typ, frames[j].payload),
    ensures
        frames[i].payload.subrange(0, 32) != frames[j].payload.subrange(0, 32),
{
    law_call_on_first_packet(was, id, up, frames, j);
    assert(!frames[i].is_from(frames[j].payload.subrange(0, 32)));
}

} // verus!
