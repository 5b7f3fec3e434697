//! What the relay's side does for which peer, told by keys and bytes.
use vstd::prelude::*;
use vstd::utf8::{decode_utf8, encode_utf8};
use crate::bytes::get_be32;
use crate::crypto::box_seal;
use crate::dataplane::{lemma_first_where, lemma_first_where_is};
use crate::derp::{
    client_info_of, disco_answer_of, frame_of, frame_payload, has_frame, hex8_of, idle, lemma_row,
    peer_at, relay_all, relay_name_of, request_of, row_of, server_key_of, upgrade_of, RelayActionState,
    RelayDraw, RelayPeerState, RelayState,
};
use crate::disco::{addr_bytes, addr_list, packet_of, DiscoError, IncomingState};
use crate::icmp::{echo_reply_of, is_echo_request, law_echo_reply_verifies};
use crate::node::{allowed, IdentityState, PeerDir, Upgrade};
use crate::tcp::{server_step, Conn};
use crate::wg::{read_initiation_of, response_to, transport_bytes, transport_open, TunnelState};
use crate::wire::{in_four, law_byte_order, net32};

verus! {

broadcast use crate::bytes::group_lengths;

/// Whether row `k` is the first one with this node key.
pub open spec fn row_at(rows: Seq<PeerDir>, k: int, node: Seq<u8>) -> bool {
    &&& 0 <= k < rows.len()
    &&& rows[k].node_pub@ == node
    &&& forall|j: int| 0 <= j < k ==> (#[trigger] rows[j]).node_pub@ != node
}

/// The attempt at a direct path is made with the peer that was heard: the call-me-maybe lists
/// this node's endpoints in a box for the disco key of the row with that node key, and goes to
/// that node key; the target has that node key, and the disco key and endpoints of that row.
pub proof fn law_upgrade_reaches_owner(
    id: IdentityState,
    up: Upgrade,
    src: Seq<u8>,
    nonce: Seq<u8>,
)
    ensures
        upgrade_of(id, up, src, nonce).len() > 0 ==> exists|k: int|
            {
                let row = up.peers@[k];
                let acts = upgrade_of(id, up, src, nonce);
                &&& #[trigger] row_at(up.peers@, k, src)
                &&& acts.len() == 2
                &&& acts[0] == RelayActionState::Send {
                    dst: src,
                    pkt: seq![0x54u8, 0x53, 0xf0, 0x9f, 0x92, 0xac] + id.disco_pub + nonce
                        + box_seal(
                        id.disco_priv,
                        row.disco_pub@,
                        nonce,
                        seq![3u8, 0] + addr_list(up.our_endpoints@),
                    ),
                }
                &&& acts[1] matches RelayActionState::AddTarget(t)
                &&& t.node_pub == src
                &&& t.disco_pub == row.disco_pub@
                &&& t.endpoints == row.endpoints@
                &&& t.spray
            },
{
    lemma_row(up, src);
    if upgrade_of(id, up, src, nonce).len() > 0 {
        assert(row_at(up.peers@, row_of(up, src), src));
    }
}

/// The attempt is made if and only if the peer is known and one of the two has an endpoint.
pub proof fn law_upgrade_is_due(
    id: IdentityState,
    up: Upgrade,
    src: Seq<u8>,
    nonce: Seq<u8>,
    k: int,
)
    requires
        row_at(up.peers@, k, src),
    ensures
        upgrade_of(id, up, src, nonce).len() > 0 <==> up.peers@[k].endpoints@.len() > 0
            || up.our_endpoints@.len() > 0,
{
    lemma_row(up, src);
    let r = row_of(up, src);
    if r < k {
        assert(up.peers@[r].node_pub@ != src);
    }
    if k < r {
        assert(up.peers@[k].node_pub@ != src);
    }
}

/// The endpoints of a call-me-maybe stand in it one behind the other, each in its 18 bytes.
pub proof fn law_endpoints_listed(eps: Seq<crate::net::SocketAddr>, i: int)
    requires
        0 <= i < eps.len(),
    ensures
        addr_list(eps).len() == 18 * eps.len(),
        addr_list(eps).subrange(18 * i, 18 * i + 18) == addr_bytes(eps[i]),
    decreases eps.len(),
{
    let r = eps.drop_last();
    lemma_endpoint_len(eps.last());
    if r.len() == 0 {
        assert(addr_list(r) =~= Seq::empty());
        assert(addr_list(eps) =~= addr_bytes(eps.last()));
        assert(addr_list(eps).subrange(0, 18) =~= addr_bytes(eps[0]));
    } else if i < r.len() {
        law_endpoints_listed(r, i);
        assert(addr_list(eps).subrange(18 * i, 18 * i + 18) =~= addr_list(r).subrange(
            18 * i,
            18 * i + 18,
        ));
    } else {
        law_endpoints_listed(r, 0);
        assert(addr_list(eps).subrange(18 * i, 18 * i + 18) =~= addr_bytes(eps[i]));
    }
}

proof fn lemma_endpoint_len(a: crate::net::SocketAddr)
    ensures
        addr_bytes(a).len() == 18,
{
}

/// A ping over the relay is answered with a pong, to the peer that it came from, for its
/// sender's disco key and with its transaction id; the address in it is blank.
pub proof fn law_relayed_ping(
    id: IdentityState,
    upgrades: bool,
    src: Seq<u8>,
    pkt: Seq<u8>,
    nonce: Seq<u8>,
    m: IncomingState,
)
    requires
        packet_of(id.disco_priv, pkt) == Ok::<IncomingState, DiscoError>(m),
        m.msg_type == 1,
    ensures
        disco_answer_of(id, upgrades, src, pkt, nonce) == seq![
            RelayActionState::Send {
                dst: src,
                pkt: seq![0x54u8, 0x53, 0xf0, 0x9f, 0x92, 0xac] + id.disco_pub + nonce + box_seal(
                    id.disco_priv,
                    m.sender_disco_pub,
                    nonce,
                    seq![2u8, 0] + m.txid + seq![
                        0u8,
                        0,
                        0,
                        0,
                        0,
                        0,
                        0,
                        0,
                        0,
                        0,
                        0xff,
                        0xff,
                        0,
                        0,
                        0,
                        0,
                        0,
                        0,
                    ],
                ),
            },
        ],
{
    law_byte_order(0);
    let blank = crate::net::v4(crate::net::Ipv4Addr { a: 0, b: 0, c: 0, d: 0 }, 0);
    assert(addr_bytes(blank) =~= seq![
        0u8,
        0,
        0,
        0,
        0,
        0,
        0,
        0,
        0,
        0,
        0xff,
        0xff,
        0,
        0,
        0,
        0,
        0,
        0,
    ]);
}

/// A call-me-maybe over the relay has its endpoints probed, for the peer that it came from,
/// where direct paths are wanted and it lists any; it is not answered.
pub proof fn law_relayed_call(
    id: IdentityState,
    upgrades: bool,
    src: Seq<u8>,
    pkt: Seq<u8>,
    nonce: Seq<u8>,
    m: IncomingState,
)
    requires
        packet_of(id.disco_priv, pkt) == Ok::<IncomingState, DiscoError>(m),
        m.msg_type == 3,
    ensures
        ({
            let acts = disco_answer_of(id, upgrades, src, pkt, nonce);
            if upgrades && m.endpoints.len() > 0 {
                &&& acts.len() == 1
                &&& acts[0] matches RelayActionState::AddTarget(t)
                &&& t.node_pub == src
                &&& t.disco_pub == m.sender_disco_pub
                &&& t.endpoints == m.endpoints
                &&& t.spray
            } else {
                acts.len() == 0
            }
        }),
{
}

/// Whether the tunnel of the peer `src` is the one at `i`.
pub open spec fn tunnel_of(s: Seq<RelayPeerState>, i: int, src: Seq<u8>) -> bool {
    &&& 0 <= i < s.len()
    &&& s[i].src == src
    &&& forall|j: int| 0 <= j < i ==> (#[trigger] s[j]).src != src
}

/// An initiation over the relay is answered to the peer that it came from, and that peer then
/// has the tunnel that this gives, in place of an earlier one; other peers keep theirs.
pub proof fn law_relayed_initiation(
    st: RelayState,
    id: IdentityState,
    src: Seq<u8>,
    pkt: Seq<u8>,
    d: RelayDraw,
)
    requires
        pkt.len() > 0,
        pkt[0] == 1,
    ensures
        ({
            let (s, acts) = st.on_wg(id, src, pkt, d);
            match read_initiation_of(id.node_priv, id.node_pub, pkt) {
                Err(_) => s == st && acts.len() == 0,
                Ok(got) => {
                    let resp = response_to(pkt, got.0, got.1, d.index, d.eph@);
                    &&& acts == seq![RelayActionState::Send { dst: src, pkt: resp.bytes() }]
                    &&& exists|i: int|
                        #[trigger] tunnel_of(s.peers, i, src) && s.peers[i].tun == resp.tunnel()
                            && s.peers[i].tcp == Conn::idle() && forall|j: int|
                            0 <= j < st.peers.len() && j != i ==> #[trigger] s.peers[j]
                                == st.peers[j]
                    &&& s.upgraded == st.upgraded
                },
            }
        }),
{
    let f = |p: RelayPeerState| p.src == src;
    lemma_first_where(st.peers, f);
    let k = peer_at(st.peers, src);
    let s = st.on_wg(id, src, pkt, d).0;
    assert forall|j: int| 0 <= j < k implies (#[trigger] s.peers[j]).src != src by {
        assert(!f(st.peers[j]));
    }
    if read_initiation_of(id.node_priv, id.node_pub, pkt) is Ok {
        assert(tunnel_of(s.peers, k, src));
    }
}

/// A transport packet over the relay opens with the receive key of the peer that it came from.
/// An echo request in it is answered through that peer's tunnel, under its next counter; what
/// the filter denies is not.
pub proof fn law_relayed_echo(
    st: RelayState,
    id: IdentityState,
    src: Seq<u8>,
    pkt: Seq<u8>,
    d: RelayDraw,
    i: int,
    inner: Seq<u8>,
)
    requires
        pkt.len() > 0,
        pkt[0] == 4,
        tunnel_of(st.peers, i, src),
        transport_open(st.peers[i].tun.recv_key, pkt) == Some(inner),
        is_echo_request(inner),
        st.peers[i].tun.tx_counter < u64::MAX,
    ensures
        ({
            let t = st.peers[i].tun;
            let (s, acts) = st.on_wg(id, src, pkt, d);
            if allowed(id.allowed_srcs, inner) {
                &&& acts == seq![
                    RelayActionState::Send {
                        dst: src,
                        pkt: transport_bytes(
                            t.send_key,
                            t.their_index,
                            t.tx_counter,
                            echo_reply_of(inner),
                        ),
                    },
                ]
                &&& s.peers == st.peers.update(
                    i,
                    RelayPeerState {
                        tun: TunnelState { tx_counter: (t.tx_counter + 1) as u64, ..t },
                        ..st.peers[i]
                    },
                )
            } else {
                s == st && acts.len() == 0
            }
        }),
{
    let f = |p: RelayPeerState| p.src == src;
    assert forall|j: int| 0 <= j < i implies !f(#[trigger] st.peers[j]) by {}
    lemma_first_where_is(st.peers, f, i);
    law_echo_reply_verifies(inner);
    let t = st.peers[i].tun;
    let r = seq![echo_reply_of(inner)];
    assert(r.drop_last() =~= Seq::empty());
    assert(relay_all(t, r.drop_last(), src) == (t, idle()));
    assert(relay_all(t, r, src).1 =~= seq![
        RelayActionState::Send {
            dst: src,
            pkt: transport_bytes(t.send_key, t.their_index, t.tx_counter, echo_reply_of(inner)),
        },
    ]);
}

/// Anything else in it goes to that peer's own TCP server, and what that says goes back to the
/// peer in order, through its tunnel.
pub proof fn law_relayed_service(
    st: RelayState,
    id: IdentityState,
    src: Seq<u8>,
    pkt: Seq<u8>,
    d: RelayDraw,
    i: int,
    inner: Seq<u8>,
)
    requires
        pkt.len() > 0,
        pkt[0] == 4,
        tunnel_of(st.peers, i, src),
        transport_open(st.peers[i].tun.recv_key, pkt) == Some(inner),
        inner.len() > 0,
        !is_echo_request(inner),
        allowed(id.allowed_srcs, inner),
    ensures
        ({
            let p = st.peers[i];
            let (conn, replies) = server_step(p.tcp, inner, d.iss);
            let (s, acts) = st.on_wg(id, src, pkt, d);
            &&& acts == relay_all(p.tun, replies, src).1
            &&& s.peers == st.peers.update(
                i,
                RelayPeerState { tun: relay_all(p.tun, replies, src).0, tcp: conn, ..p },
            )
        }),
{
    let f = |p: RelayPeerState| p.src == src;
    assert forall|j: int| 0 <= j < i implies !f(#[trigger] st.peers[j]) by {}
    lemma_first_where_is(st.peers, f, i);
}

/// Inner packets go to a relayed peer in order, each under the next counter.
pub proof fn law_relayed_in_order(t: TunnelState, inners: Seq<Seq<u8>>, dst: Seq<u8>, k: int)
    requires
        0 <= k < inners.len(),
        t.tx_counter + inners.len() <= u64::MAX,
        forall|j: int| 0 <= j < inners.len() ==> (#[trigger] inners[j]).len() <= 65535,
    ensures
        ({
            let (u, acts) = relay_all(t, inners, dst);
            &&& acts.len() == inners.len()
            &&& acts[k] == RelayActionState::Send {
                dst,
                pkt: transport_bytes(
                    t.send_key,
                    t.their_index,
                    (t.tx_counter + k) as u64,
                    inners[k],
                ),
            }
            &&& u == TunnelState { tx_counter: (t.tx_counter + inners.len()) as u64, ..t }
        }),
    decreases inners.len(),
{
    let r = inners.drop_last();
    assert forall|j: int| 0 <= j < r.len() implies (#[trigger] r[j]).len() <= 65535 by {
        assert(r[j] == inners[j]);
    }
    assert(inners.last() == inners[inners.len() - 1]);
    if r.len() == 0 {
        assert(relay_all(t, r, dst) == (t, idle()));
    } else if k < r.len() {
        law_relayed_in_order(t, r, dst, k);
    } else {
        law_relayed_in_order(t, r, dst, 0);
    }
}

/// What a frame with a packet in it leads to: first the attempt at a direct path where the peer
/// was not heard before and such paths are wanted, then the answer to the packet, which stands
/// behind the 32 bytes of the sender's key.
pub proof fn law_frame_handled(
    st: RelayState,
    id: IdentityState,
    up: Option<Upgrade>,
    payload: Seq<u8>,
    d: RelayDraw,
)
    requires
        payload.len() > 32,
    ensures
        ({
            let src = payload.take(32);
            let pkt = payload.skip(32);
            let (s, acts) = st.after_frame(id, up, 5, payload, d);
            let first = if up is Some && !st.upgraded.contains(src) {
                upgrade_of(id, up->0, src, d.call_nonce@)
            } else {
                idle()
            };
            if crate::node_laws::starts_as_disco(pkt) {
                &&& acts == first + disco_answer_of(id, up is Some, src, pkt, d.pong_nonce@)
                &&& s.peers == st.peers
            } else {
                let (t, more) = st.on_wg(id, src, pkt, d);
                &&& acts == first + more
                &&& s.peers == t.peers
            }
        }),
{
    let src = payload.take(32);
    let pkt = payload.skip(32);
    assert(src =~= payload.subrange(0, 32));
    assert(pkt =~= payload.subrange(32, payload.len() as int));
    if pkt.len() >= 6 {
        assert(pkt.take(6) =~= pkt.subrange(0, 6));
    }
}

/// A frame, field by field: its type, the length of its payload in four bytes, the payload.
pub proof fn law_derp_frame_wire(typ: u8, payload: Seq<u8>)
    requires
        payload.len() < 4294967296,
    ensures
        frame_of(typ, payload) == seq![typ] + in_four(payload.len() as int) + payload,
{
    law_byte_order(payload.len() as int);
}

/// A frame is read as it stands: the length at byte 1, the payload behind it.
pub proof fn law_derp_frame_read(s: Seq<u8>)
    ensures
        has_frame(s) <==> s.len() >= 5 && net32(s, 1) <= 65536 && s.len() >= 5 + net32(s, 1),
        has_frame(s) ==> frame_payload(s) == s.subrange(5, 5 + net32(s, 1)),
{
    if s.len() >= 5 {
        assert(net32(s, 1) == get_be32(s, 1));
    }
}

/// The client tells the server its node key, and in a box for the server's key its version.
pub proof fn law_client_info(
    node_priv: Seq<u8>,
    node_pub: Seq<u8>,
    server_pub: Seq<u8>,
    nonce: Seq<u8>,
)
    ensures
        client_info_of(node_priv, node_pub, server_pub, nonce) == node_pub + nonce + box_seal(
            node_priv,
            server_pub,
            nonce,
            encode_utf8("{\"version\":2}"@),
        ),
{
}

/// The server's key stands behind the eight bytes of a server key frame's magic.
pub proof fn law_server_key(typ: u8, payload: Seq<u8>)
    ensures
        server_key_of(typ, payload) == if typ == 1 && payload.len() >= 40 && payload.take(8)
            == seq![0x44u8, 0x45, 0x52, 0x50, 0xf0, 0x9f, 0x94, 0x91] {
            Some(payload.subrange(8, 40))
        } else {
            None
        },
{
    if payload.len() >= 8 {
        assert(payload.take(8) =~= payload.subrange(0, 8));
    }
}

/// The upgrade request of the relay, as text.
pub proof fn law_derp_request(host: Seq<char>)
    ensures
        request_of(host) == encode_utf8("GET /derp HTTP/1.1\r\nHost: "@) + encode_utf8(host)
            + encode_utf8("\r\nConnection: Upgrade\r\nUpgrade: DERP\r\n\r\n"@),
{
}

/// A peer is noted once as one to which a direct path was tried, and only where one can be.
pub proof fn law_noted(st: RelayState, up: Option<Upgrade>, src: Seq<u8>)
    ensures
        st.noted(up, src).peers == st.peers,
        up is None ==> st.noted(up, src) == st,
        up is Some && (exists|i: int| 0 <= i < st.upgraded.len() && #[trigger] st.upgraded[i]
            == src) ==> st.noted(up, src) == st,
        up is Some && (forall|i: int| 0 <= i < st.upgraded.len() ==> #[trigger] st.upgraded[i]
            != src) ==> st.noted(up, src).upgraded == st.upgraded.push(src),
{
}

/// A relayed peer is called "derp:" and the first eight bytes of its key in hexadecimal digits.
pub proof fn law_relay_name(src: Seq<u8>)
    requires
        src.len() == 32,
    ensures
        relay_name_of(src) == decode_utf8(
            seq![100u8, 101, 114, 112, 58] + Seq::new(
                16,
                |i: int| digit(if i % 2 == 0 {
                    src[i / 2] as int / 16
                } else {
                    src[i / 2] as int % 16
                }),
            ),
        ),
{
    let t = Seq::new(
        16,
        |i: int| digit(if i % 2 == 0 {
            src[i / 2] as int / 16
        } else {
            src[i / 2] as int % 16
        }),
    );
    assert(hex8_of(src) =~= t);
}

/// A lower-case hexadecimal digit.
pub open spec fn digit(n: int) -> u8 {
    if n < 10 {
        (48 + n) as u8
    } else {
        (97 + n - 10) as u8
    }
}

} // verus!
