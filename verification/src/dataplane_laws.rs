//! What every operation of the data plane keeps.
use vstd::prelude::*;
use crate::dataplane::{
    can_send, has_pending, lemma_first_where, nothing, pending_at, send_all_of, service_of,
    tunnel_at, tunnel_to, without, without_node, ActionState, Arrival, EntryState, NodeState,
    PendingState, MAX_TUNNELS,
};
use crate::bytes::get_be16;
use crate::icmp::{echo_reply_of, ihl, is_echo_request};
use crate::ipv4::{is_tcp, tcp_view_of};
use crate::net::SocketAddr;
use crate::node::{allowed, IdentityState};
use crate::periodic::{kept_alive, retried};
use crate::tcp::server_step;
use crate::wg::{padded, transport_bytes, TunnelState};

verus! {

/// Sending through a tunnel changes nothing but its counter, which never goes back.
pub proof fn law_sending_counts(t: TunnelState, inners: Seq<Seq<u8>>, dst: SocketAddr)
    ensures
        ({
            let u = send_all_of(t, inners, dst).0;
            &&& u == (TunnelState { tx_counter: u.tx_counter, ..t })
            &&& t.tx_counter <= u.tx_counter
            &&& u.tx_counter == t.tx_counter + send_all_of(t, inners, dst).1.len()
        }),
    decreases inners.len(),
{
    if inners.len() > 0 {
        law_sending_counts(t, inners.drop_last(), dst);
    }
}

/// Tunnels that stay are some of those that were there, in their order.
proof fn lemma_without(s: Seq<EntryState>, addr: SocketAddr, index: u32)
    requires
        forall|i: int, j: int|
            0 <= i < j < s.len() ==> #[trigger] s[i].tun.our_index
                != #[trigger] s[j].tun.our_index,
    ensures
        ({
            let w = without(s, addr, index);
            &&& w.len() <= s.len()
            &&& forall|i: int|
                0 <= i < w.len() ==> #[trigger] w[i].addr != addr && w[i].tun.our_index != index
                    && s.contains(w[i])
            &&& forall|i: int, j: int|
                0 <= i < j < w.len() ==> #[trigger] w[i].tun.our_index
                    != #[trigger] w[j].tun.our_index
        }),
    decreases s.len(),
{
    if s.len() > 0 {
        let r = s.drop_last();
        lemma_without(r, addr, index);
        let v = without(r, addr, index);
        let w = without(s, addr, index);
        assert forall|i: int| 0 <= i < w.len() implies #[trigger] w[i].addr != addr
            && w[i].tun.our_index != index && s.contains(w[i]) by {
            if i < v.len() {
                assert(v[i].addr != addr);
                assert(r.contains(v[i]));
                let k = choose|k: int| 0 <= k < r.len() && r[k] == v[i];
                assert(s[k] == w[i]);
            } else {
                assert(s[s.len() - 1] == w[i]);
            }
        }
        assert forall|i: int, j: int| 0 <= i < j < w.len() implies #[trigger] w[i].tun.our_index
            != #[trigger] w[j].tun.our_index by {
            if j == v.len() {
                assert(v[i].addr != addr);
                assert(r.contains(v[i]));
                let k = choose|k: int| 0 <= k < r.len() && r[k] == v[i];
                assert(s[k].tun.our_index != s[s.len() - 1].tun.our_index);
            } else {
                assert(v[i].tun.our_index != v[j].tun.our_index);
            }
        }
    }
}

/// Handshakes that stay are some of those that were there, in their order.
proof fn lemma_without_node(s: Seq<PendingState>, node: Seq<u8>)
    requires
        forall|i: int, j: int|
            0 <= i < j < s.len() ==> #[trigger] s[i].node != #[trigger] s[j].node,
    ensures
        ({
            let w = without_node(s, node);
            &&& w.len() <= s.len()
            &&& forall|i: int|
                0 <= i < w.len() ==> #[trigger] w[i].node != node && s.contains(w[i])
            &&& forall|i: int, j: int|
                0 <= i < j < w.len() ==> #[trigger] w[i].node != #[trigger] w[j].node
            &&& !has_pending(s, node) ==> w == s
        }),
    decreases s.len(),
{
    if s.len() > 0 {
        let r = s.drop_last();
        lemma_without_node(r, node);
        let v = without_node(r, node);
        let w = without_node(s, node);
        assert forall|i: int| 0 <= i < w.len() implies #[trigger] w[i].node != node && s.contains(
            w[i],
        ) by {
            if i < v.len() {
                assert(v[i].node != node);
                let k = choose|k: int| 0 <= k < r.len() && r[k] == v[i];
                assert(s[k] == w[i]);
            } else {
                assert(s[s.len() - 1] == w[i]);
            }
        }
        assert forall|i: int, j: int| 0 <= i < j < w.len() implies #[trigger] w[i].node
            != #[trigger] w[j].node by {
            if j == v.len() {
                assert(v[i].node != node);
                let k = choose|k: int| 0 <= k < r.len() && r[k] == v[i];
                assert(s[k].node != s[s.len() - 1].node);
            } else {
                assert(v[i].node != v[j].node);
            }
        }
        if !has_pending(s, node) {
            assert(s[s.len() - 1].node != node);
            assert forall|i: int| 0 <= i < r.len() implies #[trigger] r[i].node != node by {
                assert(s[i].node != node);
            }
            assert(w =~= s);
        }
    } else {
        assert(without_node(s, node) =~= s);
    }
}

/// A new handshake with an address replaces its tunnel: afterwards there is exactly
/// one tunnel to that address and exactly one with that index, the new one.
pub proof fn law_rehandshake_replaces(
    st: NodeState,
    tun: TunnelState,
    addr: SocketAddr,
    peer_node: Seq<u8>,
)
    requires
        st.wf(),
    ensures
        ({
            let s = st.with_tunnel(tun, addr, peer_node);
            &&& s.wf()
            &&& s.tunnels.last().tun == tun
            &&& forall|i: int|
                0 <= i < s.tunnels.len() - 1 ==> #[trigger] s.tunnels[i].addr != addr
                    && s.tunnels[i].tun.our_index != tun.our_index
        }),
{
    lemma_without(st.tunnels, addr, tun.our_index);
    let s = st.with_tunnel(tun, addr, peer_node);
    let w = without(st.tunnels, addr, tun.our_index);
    assert forall|i: int| 0 <= i < s.tunnels.len() - 1 implies #[trigger] s.tunnels[i].addr != addr
        && s.tunnels[i].tun.our_index != tun.our_index by {
        assert(s.tunnels[i] == w[i]);
        assert(w[i].addr != addr);
    }
    assert forall|i: int, j: int|
        0 <= i < j < s.tunnels.len() implies #[trigger] s.tunnels[i].tun.our_index
        != #[trigger] s.tunnels[j].tun.our_index by {
        if j < w.len() {
            assert(w[i].tun.our_index != w[j].tun.our_index);
        } else {
            assert(s.tunnels[i].addr != addr);
        }
    }
}

/// A handshake that goes out keeps the state well-formed.
pub proof fn law_initiated_wf(st: NodeState, p: PendingState)
    requires
        st.wf(),
    ensures
        st.with_pending(p).wf(),
{
    lemma_without_node(st.pending, p.node);
    let s = st.with_pending(p);
    let w = without_node(st.pending, p.node);
    assert forall|i: int, j: int| 0 <= i < j < s.pending.len() implies #[trigger] s.pending[i].node
        != #[trigger] s.pending[j].node by {
        if j < w.len() {
            assert(w[i].node != w[j].node);
        } else {
            assert(w[i].node != p.node);
        }
    }
}

/// No more than `MAX_TUNNELS` tunnels and handshakes come about by starting
/// handshakes.
pub proof fn law_start_respects_limit(st: NodeState, a: Arrival, disco_pub: Seq<u8>)
    requires
        st.wf(),
        st.start_of(a, disco_pub) is Some,
    ensures
        ({
            let s = st.with_pending(st.start_of(a, disco_pub)->0);
            s.tunnels.len() + s.pending.len() <= MAX_TUNNELS
        }),
{
    let p = st.start_of(a, disco_pub)->0;
    lemma_without_node(st.pending, p.node);
}

/// A handshake starts only towards a peer to which none is in flight and no tunnel exists,
/// at whatever address.
pub proof fn law_start_only_without_tunnel(st: NodeState, a: Arrival, disco_pub: Seq<u8>)
    requires
        st.start_of(a, disco_pub) is Some,
    ensures
        ({
            let p = st.start_of(a, disco_pub)->0;
            &&& forall|i: int| 0 <= i < st.pending.len() ==> #[trigger] st.pending[i].node != p.node
            &&& forall|i: int|
                0 <= i < st.tunnels.len() ==> #[trigger] st.tunnels[i].peer_node != p.node
        }),
{
    let p = st.start_of(a, disco_pub)->0;
    let f = |e: EntryState| e.peer_node == p.node;
    assert forall|i: int| 0 <= i < st.tunnels.len() implies #[trigger] st.tunnels[i].peer_node
        != p.node by {
        lemma_first_where(st.tunnels, f);
        if st.tunnels[i].peer_node == p.node {
            assert(f(st.tunnels[i]));
        }
    }
}

/// The indices of tunnels do not change while a packet is handled.
proof fn lemma_service_index(e: EntryState, inner: Seq<u8>, src: SocketAddr, iss: u32)
    ensures
        service_of(e, inner, src, iss).0.tun.our_index == e.tun.our_index,
        service_of(e, inner, src, iss).0.addr == e.addr,
        service_of(e, inner, src, iss).0.peer_node == e.peer_node,
{
    law_sending_counts(e.tun, server_step(e.tcp, inner, iss).1, src);
}

/// An entry with the same index in place of another keeps the state well-formed.
proof fn lemma_with_entry_wf(st: NodeState, i: int, e: EntryState)
    requires
        st.wf(),
        0 <= i < st.tunnels.len(),
        e.tun.our_index == st.tunnels[i].tun.our_index,
    ensures
        st.with_entry(i, e).wf(),
{
    let s = st.with_entry(i, e);
    assert forall|j: int, k: int|
        0 <= j < k < s.tunnels.len() implies #[trigger] s.tunnels[j].tun.our_index
        != #[trigger] s.tunnels[k].tun.our_index by {
        assert(st.tunnels[j].tun.our_index != st.tunnels[k].tun.our_index);
    }
}

/// An inner packet keeps the state well-formed. It adds no tunnel and removes none,
/// and the peer's address follows it.
pub proof fn law_decrypted_keeps(
    st: NodeState,
    id: IdentityState,
    index: u32,
    inner: Seq<u8>,
    src: SocketAddr,
    iss: u32,
)
    requires
        st.wf(),
    ensures
        ({
            let s = st.decrypted(id, index, inner, src, iss).0;
            let i = tunnel_at(st.tunnels, index);
            &&& s.wf()
            &&& s.tunnels.len() == st.tunnels.len()
            &&& s.pending == st.pending
            &&& s.confirmed == st.confirmed
            &&& forall|k: int|
                0 <= k < s.tunnels.len() && k != i ==> #[trigger] s.tunnels[k] == st.tunnels[k]
            &&& i < st.tunnels.len() ==> s.tunnels[i].addr == src && s.tunnels[i].tun.our_index
                == index && s.tunnels[i].peer_node == st.tunnels[i].peer_node
        }),
{
    let i = tunnel_at(st.tunnels, index);
    lemma_first_where(st.tunnels, |e: EntryState| e.tun.our_index == index);
    if i < st.tunnels.len() {
        let e1 = EntryState { addr: src, ..st.tunnels[i] };
        lemma_with_entry_wf(st, i, e1);
        let s1 = st.with_entry(i, e1);
        let (e2, _) = service_of(e1, inner, src, iss);
        lemma_service_index(e1, inner, src, iss);
        lemma_with_entry_wf(s1, i, e2);
        if s1.outbound is Some {
            let (o, segs, fresh) = crate::dataplane::outbound_of(s1.outbound->0, inner);
            law_sending_counts(e1.tun, segs, src);
            lemma_with_entry_wf(
                s1,
                i,
                EntryState { tun: send_all_of(e1.tun, segs, src).0, ..e1 },
            );
        }
    }
}

/// Whatever datagram arrives, the state stays well-formed: at most one handshake per
/// peer, at most one tunnel per index, no path confirmed twice.
pub proof fn law_packet_wf(st: NodeState, a: Arrival, pkt: Seq<u8>)
    requires
        st.wf(),
    ensures
        st.on_packet(a, pkt).0.wf(),
{
    let s = st.on_packet(a, pkt).0;
    let index = crate::bytes::get_le32(pkt, 4) as u32;
    let i = tunnel_at(st.tunnels, index);
    if i < st.tunnels.len() {
        let got = crate::wg::transport_open(st.tunnels[i].tun.recv_key, pkt);
        if got is Some {
            law_decrypted_keeps(st, a.id, index, got->0, a.src, a.iss);
        }
    }
    let read = crate::wg::read_initiation_of(a.id.node_priv, a.id.node_pub, pkt);
    if read is Ok {
        let got = read->Ok_0;
        let resp = crate::wg::response_to(pkt, got.0, got.1, a.index, a.eph);
        law_rehandshake_replaces(st, resp.tunnel(), a.src, got.1);
    }
    let named = crate::bytes::get_le32(pkt, 8) as u32;
    let k = pending_at(st.pending, named);
    lemma_first_where(st.pending, |p: PendingState| p.hs.our_index == named);
    if k < st.pending.len() {
        let p = st.pending[k];
        let r = NodeState { pending: st.pending.remove(k), ..st };
        assert(r.wf()) by {
            assert forall|x: int, y: int|
                0 <= x < y < r.pending.len() implies #[trigger] r.pending[x].node
                != #[trigger] r.pending[y].node by {
                let x2 = if x < k {
                    x
                } else {
                    x + 1
                };
                let y2 = if y < k {
                    y
                } else {
                    y + 1
                };
                assert(st.pending[x2].node != st.pending[y2].node);
            }
        }
        let t = crate::wg::read_response_of(p.hs, pkt);
        if t is Ok {
            law_rehandshake_replaces(
                r,
                TunnelState { tx_counter: 1, ..t->Ok_0 },
                a.src,
                p.node,
            );
        }
    }
    if !st.confirmed.contains(a.src) {
        assert(st.confirmed.push(a.src).no_duplicates());
    }
}

/// What the packet filter denies gets no answer and reaches no service, unless the
/// throughput sink is switched on.
pub proof fn law_denied_is_silent(
    st: NodeState,
    id: IdentityState,
    index: u32,
    inner: Seq<u8>,
    src: SocketAddr,
    iss: u32,
)
    requires
        st.bench is None,
        !allowed(id.allowed_srcs, inner),
    ensures
        st.decrypted(id, index, inner, src, iss).1 == nothing(),
        st.decrypted(id, index, inner, src, iss).0.outbound == st.outbound,
{
}

/// Handshakes that are retried keep their peers, and none appears twice.
proof fn lemma_retried(s: Seq<PendingState>, tunnels: Seq<EntryState>, now_ms: u64)
    requires
        forall|i: int, j: int|
            0 <= i < j < s.len() ==> #[trigger] s[i].node != #[trigger] s[j].node,
    ensures
        ({
            let w = retried(s, tunnels, now_ms).0;
            &&& forall|i: int|
                0 <= i < w.len() ==> exists|k: int|
                    0 <= k < s.len() && #[trigger] s[k].node == (#[trigger] w[i]).node
            &&& forall|i: int, j: int|
                0 <= i < j < w.len() ==> #[trigger] w[i].node != #[trigger] w[j].node
        }),
    decreases s.len(),
{
    if s.len() > 0 {
        let r = s.drop_last();
        lemma_retried(r, tunnels, now_ms);
        let v = retried(r, tunnels, now_ms).0;
        let w = retried(s, tunnels, now_ms).0;
        assert forall|i: int| 0 <= i < w.len() implies exists|k: int|
            0 <= k < s.len() && #[trigger] s[k].node == (#[trigger] w[i]).node by {
            if i < v.len() {
                let k = choose|k: int| 0 <= k < r.len() && #[trigger] r[k].node == v[i].node;
                assert(s[k].node == w[i].node);
            } else {
                assert(s[s.len() - 1].node == w[i].node);
            }
        }
        assert forall|i: int, j: int| 0 <= i < j < w.len() implies #[trigger] w[i].node
            != #[trigger] w[j].node by {
            if j == v.len() {
                let k = choose|k: int| 0 <= k < r.len() && #[trigger] r[k].node == v[i].node;
                assert(s[k].node != s[s.len() - 1].node);
            } else {
                assert(v[i].node != v[j].node);
            }
        }
    }
}

/// A keepalive changes nothing but a tunnel's counter.
proof fn lemma_kept_alive(s: Seq<EntryState>)
    ensures
        kept_alive(s).0.len() == s.len(),
        forall|i: int|
            0 <= i < s.len() ==> (#[trigger] kept_alive(s).0[i]).tun.our_index
                == s[i].tun.our_index && kept_alive(s).0[i].addr == s[i].addr,
    decreases s.len(),
{
    if s.len() > 0 {
        lemma_kept_alive(s.drop_last());
        let v = kept_alive(s.drop_last()).0;
        assert forall|i: int| 0 <= i < s.len() implies (#[trigger] kept_alive(
            s,
        ).0[i]).tun.our_index == s[i].tun.our_index && kept_alive(s).0[i].addr == s[i].addr by {
            if i < s.len() - 1 {
                assert(kept_alive(s).0[i] == v[i]);
                assert(s.drop_last()[i] == s[i]);
            }
        }
    }
}

/// A pass of the housekeeping keeps the state well-formed.
pub proof fn law_periodic_wf(st: NodeState, now_ms: u64, r: u32)
    requires
        st.wf(),
    ensures
        st.after_retries(now_ms).wf(),
        st.after_keepalives().wf(),
        st.outbound_tick_of(r).0.wf(),
{
    lemma_retried(st.pending, st.tunnels, now_ms);
    lemma_kept_alive(st.tunnels);
    let s = st.after_keepalives();
    assert forall|j: int, k: int|
        0 <= j < k < s.tunnels.len() implies #[trigger] s.tunnels[j].tun.our_index
        != #[trigger] s.tunnels[k].tun.our_index by {
        assert(kept_alive(st.tunnels).0[j].tun.our_index == st.tunnels[j].tun.our_index);
        assert(kept_alive(st.tunnels).0[k].tun.our_index == st.tunnels[k].tun.our_index);
    }
    if st.outbound is Some {
        let node = st.outbound->0.target_node;
        let k = tunnel_to(st.tunnels, node);
        lemma_first_where(st.tunnels, |e: EntryState| e.peer_node == node);
        if k < st.tunnels.len() {
            lemma_with_entry_wf(st, k, st.outbound_tick_of(r).0.tunnels[k]);
        }
    }
}

/// A packet and the same packet padded say the same: the length field decides where a
/// packet ends, not the padding behind it.
pub proof fn law_padding_is_no_matter(inner: Seq<u8>)
    requires
        inner.len() >= 20,
        get_be16(inner, 2) <= inner.len(),
    ensures
        is_echo_request(padded(inner)) <==> is_echo_request(inner),
        is_echo_request(inner) ==> echo_reply_of(padded(inner)) == echo_reply_of(inner),
        tcp_view_of(padded(inner)) == tcp_view_of(inner),
        tcp_view_of(inner) matches Some(v) ==> v.payload(padded(inner)) == v.payload(inner),
{
    let p = padded(inner);
    let total = get_be16(inner, 2);
    assert forall|k: int| 0 <= k < inner.len() implies #[trigger] p[k] == inner[k] by {}
    assert(get_be16(p, 2) == total);
    assert(ihl(p) == ihl(inner));
    if is_echo_request(inner) {
        assert(p.subrange(0, ihl(p)) =~= inner.subrange(0, ihl(inner)));
        assert(p.subrange(ihl(p), total) =~= inner.subrange(ihl(inner), total));
    }
    if is_tcp(inner) {
        let v = tcp_view_of(inner)->0;
        assert(v.payload(p) =~= v.payload(inner));
    }
}

/// A ping through a tunnel is answered: the reply goes back through the same tunnel to
/// where the ping came from.
pub proof fn law_ping_is_answered(
    st: NodeState,
    id: IdentityState,
    index: u32,
    inner: Seq<u8>,
    src: SocketAddr,
    iss: u32,
)
    requires
        tunnel_at(st.tunnels, index) < st.tunnels.len(),
        st.bench is None,
        allowed(id.allowed_srcs, inner),
        is_echo_request(inner),
        can_send(st.tunnels[tunnel_at(st.tunnels, index)].tun, echo_reply_of(inner)),
        !st.is_target(tunnel_at(st.tunnels, index)),
    ensures
        ({
            let t = st.tunnels[tunnel_at(st.tunnels, index)].tun;
            st.decrypted(id, index, inner, src, iss).1 == seq![
                ActionState::Send {
                    pkt: transport_bytes(
                        t.send_key,
                        t.their_index,
                        t.tx_counter,
                        echo_reply_of(inner),
                    ),
                    dst: src,
                },
            ]
        }),
{
    lemma_first_where(st.tunnels, |e: EntryState| e.tun.our_index == index);
    assert(inner[9] == 1);
}

} // verus!
