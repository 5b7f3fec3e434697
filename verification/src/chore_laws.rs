//! What the housekeeping and the node's own traffic do for which peer, told by addresses, keys
//! and bytes.
use vstd::prelude::*;
use vstd::utf8::encode_utf8;
use crate::crypto::box_seal;
use crate::dataplane::{
    lemma_first_where_is, nothing, ActionState, EntryState, NodeState, OutboundState,
    PendingState,
};
use crate::mdns::{fnv, forwards};
use crate::net::{Ipv4Addr, SocketAddr};
use crate::node::{IdentityState, MdnsLink, TargetState};
use crate::outbound::{ping_packet_of, udp_packet_of, ClientState};
use crate::packet_laws::{law_ping_wire, law_udp_wire, quad};
use crate::periodic::{
    at_ep, http_get, is_public, job_of, jobs_of, kept_alive, law_union, merged, refresh_of,
    retried, retry_of, same_ip, spray_all, spray_at, strikes_at, JobState, ProbeDraw,
};
use crate::stun::request_bytes;
use crate::text::dotted;
use crate::wg::{transport_bytes, TunnelState};
use crate::wire::law_byte_order;

verus! {

broadcast use crate::bytes::group_lengths;

/// Whether a tunnel goes to one of the endpoints.
pub open spec fn has_path(tunnels: Seq<EntryState>, eps: Seq<SocketAddr>) -> bool {
    exists|i: int, j: int|
        0 <= i < tunnels.len() && 0 <= j < eps.len() && #[trigger] tunnels[i].addr
            == #[trigger] eps[j]
}

/// A target is probed if and only if no tunnel goes to one of its endpoints: a disco ping, in a
/// box for the target's disco key, with this node's node key in it, for all of its endpoints.
pub proof fn law_probe(
    tunnels: Seq<EntryState>,
    id: IdentityState,
    t: TargetState,
    round: u32,
    d: ProbeDraw,
)
    ensures
        job_of(tunnels, id, t, round, d) is None <==> has_path(tunnels, t.endpoints),
        job_of(tunnels, id, t, round, d) matches Some(j) ==> {
            &&& j.pkt == seq![0x54u8, 0x53, 0xf0, 0x9f, 0x92, 0xac] + id.disco_pub + d.nonce@
                + box_seal(
                id.disco_priv,
                t.disco_pub,
                d.nonce@,
                seq![1u8, 0] + d.txid@ + id.node_pub,
            )
            &&& j.endpoints == t.endpoints
            &&& !t.spray ==> j.spray.len() == 0
        },
{
    if has_path(tunnels, t.endpoints) {
        let (i, j) = choose|i: int, j: int|
            0 <= i < tunnels.len() && 0 <= j < t.endpoints.len() && #[trigger] tunnels[i].addr
                == #[trigger] t.endpoints[j];
        assert(crate::dataplane::has_tunnel(tunnels, t.endpoints[j]));
    }
    if crate::periodic::reached(tunnels, t.endpoints) {
        let j = choose|j: int|
            0 <= j < t.endpoints.len() && crate::dataplane::has_tunnel(
                tunnels,
                #[trigger] t.endpoints[j],
            );
        let i = choose|i: int|
            0 <= i < tunnels.len() && #[trigger] tunnels[i].addr == t.endpoints[j];
        assert(tunnels[i].addr == t.endpoints[j]);
    }
}

/// Whether both have the same IPv4 address, and it is a public one.
pub open spec fn same_public(a: SocketAddr, b: SocketAddr) -> bool {
    match (a, b) {
        (SocketAddr::V4(x), SocketAddr::V4(y)) => is_public(x.ip) && x.ip == y.ip,
        _ => false,
    }
}

/// A spray goes to nothing but ports at the public addresses among the endpoints.
pub proof fn law_spray(eps: Seq<SocketAddr>, round: u32, tails: Seq<Vec<u8>>, x: SocketAddr)
    requires
        spray_all(eps, round, tails).contains(x),
    ensures
        exists|j: int|
            0 <= j < eps.len() && same_public(#[trigger] eps[j], x),
    decreases eps.len(),
{
    if eps.len() > 0 {
        let r = eps.drop_last();
        let head = spray_all(r, round, tails);
        let tail = spray_at(eps.last(), round, tails[eps.len() - 1]@);
        let k = choose|k: int| 0 <= k < (head + tail).len() && (head + tail)[k] == x;
        if k < head.len() {
            assert(head[k] == x);
            law_spray(r, round, tails, x);
            let j = choose|j: int|
                0 <= j < r.len() && same_public(#[trigger] r[j], x);
            assert(eps[j] == r[j]);
        } else {
            assert(tail[k - head.len()] == x);
            assert(eps[eps.len() - 1] == eps.last());
        }
    }
}

/// Public addresses are those outside of the private, shared, link-local, loopback and
/// unspecified networks.
pub proof fn law_public(ip: Ipv4Addr)
    ensures
        is_public(ip) <==> {
            let n = 16777216 * ip.a + 65536 * ip.b + 256 * ip.c + ip.d;
            &&& !(n < 16777216)
            &&& !(167772160 <= n < 184549376)
            &&& !(1681915904 <= n < 1686110208)
            &&& !(2130706432 <= n < 2147483648)
            &&& !(2851995648 <= n < 2852061184)
            &&& !(2886729728 <= n < 2887778304)
            &&& !(3232235520 <= n < 3232301056)
        },
{
}

/// A round probes just the targets that are due, each with its own random values.
pub proof fn law_probes(
    tunnels: Seq<EntryState>,
    id: IdentityState,
    ts: Seq<TargetState>,
    round: u32,
    ds: Seq<ProbeDraw>,
    j: JobState,
)
    ensures
        jobs_of(tunnels, id, ts, round, ds).contains(j) <==> exists|i: int|
            0 <= i < ts.len() && job_of(tunnels, id, #[trigger] ts[i], round, ds[i]) == Some(j),
    decreases ts.len(),
{
    if ts.len() > 0 {
        let r = ts.drop_last();
        let n = ts.len() - 1;
        law_probes(tunnels, id, r, round, ds, j);
        let a = jobs_of(tunnels, id, r, round, ds);
        let b = jobs_of(tunnels, id, ts, round, ds);
        assert(ts[n] == ts.last());
        if b.contains(j) {
            let k = choose|k: int| 0 <= k < b.len() && b[k] == j;
            if k < a.len() {
                assert(a[k] == j);
                let i = choose|i: int|
                    0 <= i < r.len() && job_of(tunnels, id, #[trigger] r[i], round, ds[i]) == Some(
                        j,
                    );
                assert(ts[i] == r[i]);
            } else {
                assert(job_of(tunnels, id, ts[n], round, ds[n]) == Some(j));
            }
        }
        if exists|i: int|
            0 <= i < ts.len() && job_of(tunnels, id, #[trigger] ts[i], round, ds[i]) == Some(j) {
            let i = choose|i: int|
                0 <= i < ts.len() && job_of(tunnels, id, #[trigger] ts[i], round, ds[i]) == Some(j);
            if i < n {
                assert(r[i] == ts[i]);
                let k = choose|k: int| 0 <= k < a.len() && a[k] == j;
                assert(b[k] == j);
            } else {
                assert(b[a.len() as int] == j);
            }
        }
    }
}

/// Every tunnel gets an empty packet, at its own address, with its own key, to its peer's
/// index, under its next counter; nothing else about it changes.
pub proof fn law_keepalives(s: Seq<EntryState>, k: int)
    requires
        0 <= k < s.len(),
        forall|i: int| 0 <= i < s.len() ==> (#[trigger] s[i]).tun.tx_counter < u64::MAX,
    ensures
        ({
            let (after, acts) = kept_alive(s);
            &&& after.len() == s.len()
            &&& acts.len() == s.len()
            &&& acts[k] == ActionState::Send {
                pkt: transport_bytes(
                    s[k].tun.send_key,
                    s[k].tun.their_index,
                    s[k].tun.tx_counter,
                    Seq::empty(),
                ),
                dst: s[k].addr,
            }
            &&& after[k] == EntryState {
                tun: TunnelState { tx_counter: (s[k].tun.tx_counter + 1) as u64, ..s[k].tun },
                ..s[k]
            }
        }),
    decreases s.len(),
{
    let r = s.drop_last();
    assert forall|i: int| 0 <= i < r.len() implies (#[trigger] r[i]).tun.tx_counter < u64::MAX by {
        assert(r[i] == s[i]);
    }
    assert(s.last() == s[s.len() - 1]);
    if r.len() == 0 {
        assert(kept_alive(r) == (Seq::<EntryState>::empty(), nothing()));
    } else if k < r.len() {
        law_keepalives(r, k);
    } else {
        law_keepalives(r, 0);
    }
}

/// What becomes of a handshake in flight: with a tunnel at its address it is done; up to three
/// seconds after it was sent it waits; then it is sent again, the same bytes to the same
/// address, four times at most; then it is given up.
pub proof fn law_retry(p: PendingState, tunnels: Seq<EntryState>, now_ms: u64)
    ensures
        ({
            let (q, acts) = retry_of(p, tunnels, now_ms);
            if exists|i: int| 0 <= i < tunnels.len() && #[trigger] tunnels[i].addr == p.addr {
                q is None && acts.len() == 0
            } else if now_ms <= p.sent_ms + 3000 {
                q == Some(p) && acts.len() == 0
            } else if p.retries >= 4 {
                q is None && acts.len() == 0
            } else {
                &&& q == Some(
                    PendingState { sent_ms: now_ms, retries: (p.retries + 1) as u32, ..p },
                )
                &&& acts == seq![ActionState::Send { pkt: p.init, dst: p.addr }]
            }
        }),
{
}

/// Each handshake in flight is looked after by itself: what is sent is just what each of them
/// asks for, and those that stay are just what becomes of each.
pub proof fn law_retries(
    ps: Seq<PendingState>,
    tunnels: Seq<EntryState>,
    now_ms: u64,
    act: ActionState,
    q: PendingState,
)
    ensures
        retried(ps, tunnels, now_ms).1.contains(act) <==> exists|i: int|
            0 <= i < ps.len() && retry_of(#[trigger] ps[i], tunnels, now_ms).1.contains(act),
        retried(ps, tunnels, now_ms).0.contains(q) <==> exists|i: int|
            0 <= i < ps.len() && retry_of(#[trigger] ps[i], tunnels, now_ms).0 == Some(q),
    decreases ps.len(),
{
    if ps.len() > 0 {
        let r = ps.drop_last();
        let n = ps.len() - 1;
        law_retries(r, tunnels, now_ms, act, q);
        let (left, a) = retried(r, tunnels, now_ms);
        let (p, b) = retry_of(ps[n], tunnels, now_ms);
        let (all, acts) = retried(ps, tunnels, now_ms);
        assert(acts == a + b);
        if a.contains(act) {
            let k = choose|k: int| 0 <= k < a.len() && a[k] == act;
            assert(acts[k] == act);
            let i = choose|i: int|
                0 <= i < r.len() && retry_of(#[trigger] r[i], tunnels, now_ms).1.contains(act);
            assert(ps[i] == r[i]);
        }
        if b.contains(act) {
            let k = choose|k: int| 0 <= k < b.len() && b[k] == act;
            assert(acts[a.len() + k] == act);
        }
        if acts.contains(act) {
            let k = choose|k: int| 0 <= k < acts.len() && acts[k] == act;
            if k < a.len() {
                assert(a[k] == act);
            } else {
                assert(b[k - a.len()] == act);
            }
        }
        if exists|i: int|
            0 <= i < ps.len() && retry_of(#[trigger] ps[i], tunnels, now_ms).1.contains(act) {
            let i = choose|i: int|
                0 <= i < ps.len() && retry_of(#[trigger] ps[i], tunnels, now_ms).1.contains(act);
            if i < n {
                assert(r[i] == ps[i]);
            }
        }
        if left.contains(q) {
            let k = choose|k: int| 0 <= k < left.len() && left[k] == q;
            assert(all[k] == q);
            let i = choose|i: int|
                0 <= i < r.len() && retry_of(#[trigger] r[i], tunnels, now_ms).0 == Some(q);
            assert(ps[i] == r[i]);
        }
        if p == Some(q) {
            assert(all[left.len() as int] == q);
        }
        if all.contains(q) {
            let k = choose|k: int| 0 <= k < all.len() && all[k] == q;
            if k < left.len() {
                assert(left[k] == q);
            }
        }
        if exists|i: int|
            0 <= i < ps.len() && retry_of(#[trigger] ps[i], tunnels, now_ms).0 == Some(q) {
            let i = choose|i: int|
                0 <= i < ps.len() && retry_of(#[trigger] ps[i], tunnels, now_ms).0 == Some(q);
            if i < n {
                assert(r[i] == ps[i]);
            }
        }
    }
}

/// Whether both are endpoints at one IPv4 address, or both at one IPv6 address.
pub open spec fn one_host(a: SocketAddr, b: SocketAddr) -> bool {
    match (a, b) {
        (SocketAddr::V4(x), SocketAddr::V4(y)) => quad(x.ip) == quad(y.ip),
        (SocketAddr::V6(x), SocketAddr::V6(y)) => x.ip == y.ip,
        _ => false,
    }
}

/// A target that asks for it is sprayed at all of its endpoints, but not while a tunnel goes to
/// the host of one of them, at whatever port.
pub proof fn law_spray_held(
    tunnels: Seq<EntryState>,
    id: IdentityState,
    t: TargetState,
    round: u32,
    d: ProbeDraw,
)
    requires
        t.spray,
        job_of(tunnels, id, t, round, d) is Some,
    ensures
        (exists|i: int, j: int|
            0 <= i < tunnels.len() && 0 <= j < t.endpoints.len() && one_host(
                #[trigger] tunnels[i].addr,
                #[trigger] t.endpoints[j],
            )) ==> job_of(tunnels, id, t, round, d)->0.spray.len() == 0,
        (forall|i: int, j: int|
            0 <= i < tunnels.len() && 0 <= j < t.endpoints.len() ==> !one_host(
                #[trigger] tunnels[i].addr,
                #[trigger] t.endpoints[j],
            )) ==> job_of(tunnels, id, t, round, d)->0.spray == spray_all(
            t.endpoints,
            round,
            d.tails@,
        ),
{
    assert forall|a: SocketAddr, b: SocketAddr| one_host(a, b) == #[trigger] same_ip(a, b) by {
        if let (SocketAddr::V4(x), SocketAddr::V4(y)) = (a, b) {
            if quad(x.ip) == quad(y.ip) {
                assert(quad(x.ip)[0] == quad(y.ip)[0] && quad(x.ip)[1] == quad(y.ip)[1]);
                assert(quad(x.ip)[2] == quad(y.ip)[2] && quad(x.ip)[3] == quad(y.ip)[3]);
            }
        }
    }
}

/// A target that came in is added, or brings its endpoints to the one with its node key; that
/// one keeps its name and keys, and the others stay as they are.
pub proof fn law_merged(ts: Seq<TargetState>, t: TargetState, k: int)
    requires
        0 <= k < ts.len(),
        ts[k].node_pub == t.node_pub,
        forall|j: int| 0 <= j < k ==> (#[trigger] ts[j]).node_pub != t.node_pub,
    ensures
        ({
            let m = merged(ts, t);
            &&& m.len() == ts.len()
            &&& forall|j: int| 0 <= j < ts.len() && j != k ==> #[trigger] m[j] == ts[j]
            &&& m[k].name == ts[k].name
            &&& m[k].disco_pub == ts[k].disco_pub
            &&& m[k].node_pub == ts[k].node_pub
            &&& m[k].spray == (ts[k].spray || t.spray)
            &&& forall|x: SocketAddr| #[trigger]
                m[k].endpoints.contains(x) <==> ts[k].endpoints.contains(x)
                    || t.endpoints.contains(x)
        }),
{
    let f = |e: TargetState| e.node_pub == t.node_pub;
    assert forall|j: int| 0 <= j < k implies !f(#[trigger] ts[j]) by {}
    lemma_first_where_is(ts, f, k);
    let m = merged(ts, t);
    assert forall|x: SocketAddr| #[trigger]
        m[k].endpoints.contains(x) <==> ts[k].endpoints.contains(x)
            || t.endpoints.contains(x) by {
        law_union(ts[k].endpoints, t.endpoints);
    }
}

/// A target with a new node key is added as it is.
pub proof fn law_added(ts: Seq<TargetState>, t: TargetState)
    requires
        forall|j: int| 0 <= j < ts.len() ==> (#[trigger] ts[j]).node_pub != t.node_pub,
    ensures
        merged(ts, t) == ts.push(t),
{
    let f = |e: TargetState| e.node_pub == t.node_pub;
    assert forall|j: int| 0 <= j < ts.len() implies !f(#[trigger] ts[j]) by {}
    lemma_first_where_is(ts, f, ts.len() as int);
}

/// A STUN request, field by field: type 1, no attributes, the cookie, the transaction id.
pub proof fn law_stun_request(txid: Seq<u8>)
    ensures
        request_bytes(txid) == seq![0u8, 1, 0, 0, 0x21, 0x12, 0xa4, 0x42] + txid,
{
    law_byte_order(1);
    law_byte_order(0);
    law_byte_order(0x2112_a442);
    assert(request_bytes(txid) =~= seq![0u8, 1, 0, 0, 0x21, 0x12, 0xa4, 0x42] + txid);
}

/// The mapping is refreshed by a STUN request to the server when that is due.
pub proof fn law_refresh(due: bool, server: Option<SocketAddr>, txid: Seq<u8>)
    ensures
        refresh_of(due, server, txid) == match server {
            Some(dst) if due => seq![
                ActionState::Send {
                    pkt: seq![0u8, 1, 0, 0, 0x21, 0x12, 0xa4, 0x42] + txid,
                    dst,
                },
            ],
            _ => nothing(),
        },
{
    law_stun_request(txid);
}

/// Whether tunnel `k` is the first one to this peer.
pub open spec fn path_to(tunnels: Seq<EntryState>, k: int, node: Seq<u8>) -> bool {
    &&& 0 <= k < tunnels.len()
    &&& tunnels[k].peer_node == node
    &&& forall|j: int| 0 <= j < k ==> (#[trigger] tunnels[j]).peer_node != node
}

/// The datagram that carries `inner` through the tunnel under its counter plus `n`.
pub open spec fn through(e: EntryState, n: int, inner: Seq<u8>) -> ActionState {
    ActionState::Send {
        pkt: transport_bytes(
            e.tun.send_key,
            e.tun.their_index,
            (e.tun.tx_counter + n) as u64,
            inner,
        ),
        dst: e.addr,
    }
}

/// In each round a ping goes through the tunnel to the configured peer, numbered on from the
/// last one; in the first round the client's SYN for the configured page follows, and the
/// client stands one number behind it.
pub proof fn law_own_traffic(st: NodeState, r: u32, k: int)
    requires
        st.outbound is Some,
        path_to(st.tunnels, k, st.outbound->0.target_node),
        st.tunnels[k].tun.tx_counter + 2 <= u64::MAX,
    ensures
        ({
            let o = st.outbound->0;
            let e = st.tunnels[k];
            let seq = ((o.seq + 1) % 65536) as u16;
            let ping = ping_packet_of(o.our_ip, o.target_ip, o.ident, seq, encode_utf8("tdongle-s3"@));
            let iss = if r % 0x8000_0000 == 0 {
                1
            } else {
                r % 0x8000_0000
            };
            let c = ClientState::fresh(
                o.our_ip,
                o.target_ip,
                o.sport,
                o.http_port,
                http_get(o.http_path, o.target_ip),
                iss,
            );
            let (s, acts) = st.outbound_tick_of(r);
            &&& acts == if o.started {
                seq![through(e, 0, ping)]
            } else {
                seq![through(e, 0, ping), through(e, 1, c.packet(2, Seq::empty()))]
            }
            &&& s.outbound == Some(
                if o.started {
                    OutboundState { seq, ..o }
                } else {
                    OutboundState {
                        seq,
                        started: true,
                        tcp: Some(ClientState { snd_nxt: (iss + 1) as u32, ..c }),
                        ..o
                    }
                },
            )
            &&& s.tunnels.len() == st.tunnels.len()
            &&& forall|j: int|
                0 <= j < s.tunnels.len() && j != k ==> #[trigger] s.tunnels[j] == st.tunnels[j]
            &&& s.tunnels[k] == EntryState {
                tun: TunnelState {
                    tx_counter: (e.tun.tx_counter + acts.len()) as u64,
                    ..e.tun
                },
                ..e
            }
        }),
{
    let o = st.outbound->0;
    let f = |e: EntryState| e.peer_node == o.target_node;
    assert forall|j: int| 0 <= j < k implies !f(#[trigger] st.tunnels[j]) by {}
    lemma_first_where_is(st.tunnels, f, k);
    let seq = ((o.seq + 1) % 65536) as u16;
    reveal_strlit("tdongle-s3");
    lemma_short_text();
    law_ping_wire(o.our_ip, o.target_ip, o.ident, seq, encode_utf8("tdongle-s3"@));
    let c = crate::periodic::new_client(o, r);
    crate::packet_laws::law_tcp_wire(
        crate::ipv4::TcpFields {
            src: c.src,
            dst: c.dst,
            sport: c.sport,
            dport: c.dport,
            seq: c.snd_nxt,
            ack: c.rcv_nxt,
            flags: 2,
        },
        Seq::empty(),
    );
    let (s, acts) = st.outbound_tick_of(r);
    if !o.started {
        let e = st.tunnels[k];
        let ping = ping_packet_of(o.our_ip, o.target_ip, o.ident, seq, encode_utf8("tdongle-s3"@));
        assert(acts =~= seq![through(e, 0, ping), through(e, 1, c.packet(2, Seq::empty()))]);
    }
}

proof fn lemma_short_text()
    ensures
        encode_utf8("tdongle-s3"@).len() == 10,
{
    let t = "tdongle-s3";
    reveal_strlit("tdongle-s3");
    assert(vstd::string::is_ascii(t));
    vstd::string::is_ascii_spec_bytes(t);
}

/// No tunnel to the configured peer, no traffic.
pub proof fn law_no_own_traffic(st: NodeState, r: u32)
    requires
        st.outbound matches Some(o) ==> forall|j: int|
            0 <= j < st.tunnels.len() ==> (#[trigger] st.tunnels[j]).peer_node != o.target_node,
    ensures
        st.outbound_tick_of(r) == (st, nothing()),
{
    if st.outbound is Some {
        let node = st.outbound->0.target_node;
        let f = |e: EntryState| e.peer_node == node;
        assert forall|j: int| 0 <= j < st.tunnels.len() implies !f(#[trigger] st.tunnels[j]) by {}
        lemma_first_where_is(st.tunnels, f, st.tunnels.len() as int);
    }
}

/// The request for the configured page, as text.
pub proof fn law_http_get(path: Seq<char>, host: Ipv4Addr)
    ensures
        http_get(path, host) == encode_utf8("GET "@) + encode_utf8(path) + encode_utf8(
            " HTTP/1.1\r\nHost: "@,
        ) + dotted(host) + encode_utf8(
            "\r\nUser-Agent: tdongle\r\nConnection: close\r\n\r\n"@,
        ),
{
}

/// What was captured on the LAN goes to the partner through its tunnel, as a UDP packet from
/// this node to the partner on port 5354; without a tunnel to it, nothing goes anywhere.
pub proof fn law_mdns_to_partner(st: NodeState, link: MdnsLink, payload: Seq<u8>, k: int)
    requires
        path_to(st.tunnels, k, link.partner_node@),
        st.tunnels[k].tun.tx_counter < u64::MAX,
        payload.len() <= 65507,
    ensures
        ({
            let (s, acts) = st.mdns_forward_of(link, payload);
            &&& acts == seq![
                through(
                    st.tunnels[k],
                    0,
                    udp_packet_of(link.our_ip, link.partner_ip, 5354, 5354, payload),
                ),
            ]
            &&& s.tunnels.len() == st.tunnels.len()
            &&& forall|j: int|
                0 <= j < s.tunnels.len() && j != k ==> #[trigger] s.tunnels[j] == st.tunnels[j]
        }),
{
    let node = link.partner_node@;
    let f = |e: EntryState| e.peer_node == node;
    assert forall|j: int| 0 <= j < k implies !f(#[trigger] st.tunnels[j]) by {}
    lemma_first_where_is(st.tunnels, f, k);
    law_udp_wire(link.our_ip, link.partner_ip, 5354, 5354, payload);
}

/// Payloads are told apart by their 64-bit FNV-1a hash.
pub proof fn law_fnv(data: Seq<u8>, b: u8)
    ensures
        fnv(Seq::empty()) == 14695981039346656037,
        fnv(data.push(b)) == (fnv(data) ^ (b as u64)) * 1099511628211 % 18446744073709551616,
{
    assert(data.push(b).drop_last() =~= data);
}

/// A captured payload goes to the partner unless it came from this node itself or its hash is
/// remembered.
pub proof fn law_forwards(seen: Seq<u64>, lan_ip: Ipv4Addr, from: SocketAddr, payload: Seq<u8>)
    ensures
        forwards(seen, lan_ip, from, payload) <==> {
            &&& from matches SocketAddr::V4(a) ==> quad(a.ip) != quad(lan_ip)
            &&& forall|i: int| 0 <= i < seen.len() ==> #[trigger] seen[i] != fnv(payload)
        },
{
    if let SocketAddr::V4(a) = from {
        if quad(a.ip) == quad(lan_ip) {
            assert(quad(a.ip)[0] == quad(lan_ip)[0] && quad(a.ip)[1] == quad(lan_ip)[1]
                && quad(a.ip)[2] == quad(lan_ip)[2] && quad(a.ip)[3] == quad(lan_ip)[3]);
        }
    }
    if seen.contains(fnv(payload)) {
        let i = choose|i: int| 0 <= i < seen.len() && seen[i] == fnv(payload);
        assert(seen[i] == fnv(payload));
    }
}

/// The send errors at an endpoint are those of its first entry; without one there are none.
pub proof fn law_strikes(s: Seq<(SocketAddr, u8)>, ep: SocketAddr, k: int)
    requires
        0 <= k < s.len(),
    ensures
        s[k].0 == ep && (forall|j: int| 0 <= j < k ==> (#[trigger] s[j]).0 != ep) ==> strikes_at(
            s,
            ep,
        ) == s[k].1,
        (forall|j: int| 0 <= j < s.len() ==> (#[trigger] s[j]).0 != ep) ==> strikes_at(s, ep) == 0,
{
    let f = at_ep(ep);
    if s[k].0 == ep && forall|j: int| 0 <= j < k ==> (#[trigger] s[j]).0 != ep {
        lemma_first_where_is(s, f, k);
    }
    if forall|j: int| 0 <= j < s.len() ==> (#[trigger] s[j]).0 != ep {
        lemma_first_where_is(s, f, s.len() as int);
    }
}

} // verus!
