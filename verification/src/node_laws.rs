//! What the data plane does with a datagram, told by the datagram's bytes and by which peer,
//! tunnel or handshake it belongs to.
use vstd::prelude::*;
use crate::bytes::{get_be32, get_le32};
use crate::crypto::{box_open, box_seal};
use crate::dataplane::{
    lemma_first_where, lemma_first_where_is, nothing, outbound_of, send_all_of, udp_payload,
    ActionState, Arrival, EntryState, NodeState, OutboundState, PendingState,
};
use crate::disco::{addr_bytes, packet_of, wire_of, DiscoError, IncomingState};
use crate::icmp::{echo_reply_of, ihl, is_echo_request, law_echo_reply_verifies};
use crate::net::SocketAddr;
use crate::node::{allowed, IdentityState, TargetState};
use crate::packet_laws::quad;
use crate::peers::Cidr;
use crate::tcp::{server_step, Conn};
use crate::wg::{
    read_initiation_of, read_response_of, response_to, transport_bytes, transport_open,
    Initiation, TunnelState,
};
use crate::wire::{in_two, law_byte_order, lemma_low_four, low_four, net16, net32};

verus! {

broadcast use crate::bytes::group_lengths;

/// Whether a datagram begins as a disco packet does.
pub open spec fn starts_as_disco(pkt: Seq<u8>) -> bool {
    pkt.len() >= 6 && pkt.take(6) == seq![0x54u8, 0x53, 0xf0, 0x9f, 0x92, 0xac]
}

/// Whether a datagram has STUN's cookie.
pub open spec fn has_cookie(pkt: Seq<u8>) -> bool {
    pkt.len() >= 8 && net32(pkt, 4) == 0x2112_a442
}

proof fn lemma_kinds(pkt: Seq<u8>)
    ensures
        crate::disco::has_magic(pkt) <==> starts_as_disco(pkt),
        crate::stun::looks_like_stun(pkt) <==> has_cookie(pkt),
{
    if pkt.len() >= 6 {
        assert(pkt.take(6) =~= pkt.subrange(0, 6));
    }
    if pkt.len() >= 8 {
        assert(net32(pkt, 4) == get_be32(pkt, 4));
    }
}

/// Whether target `i` is the first one with this disco key.
pub open spec fn owner_at(targets: Seq<TargetState>, i: int, disco_pub: Seq<u8>) -> bool {
    &&& 0 <= i < targets.len()
    &&& targets[i].disco_pub == disco_pub
    &&& forall|j: int| 0 <= j < i ==> (#[trigger] targets[j]).disco_pub != disco_pub
}

/// A handshake starts with the owner of the disco key that answered, at the address that it
/// answered from, and with an initiation that is made for its node key.
pub proof fn law_start_with_owner(st: NodeState, a: Arrival, disco_pub: Seq<u8>)
    ensures
        st.start_of(a, disco_pub) matches Some(p) ==> exists|i: int|
            {
                let init = Initiation {
                    static_priv: a.id.node_priv,
                    static_pub: a.id.node_pub,
                    peer_pub: a.targets[i].node_pub,
                    timestamp: a.stamp,
                    index: a.index,
                    eph_priv: a.eph,
                };
                &&& #[trigger] owner_at(a.targets, i, disco_pub)
                &&& p.node == a.targets[i].node_pub
                &&& p.addr == a.src
                &&& p.init == init.bytes()
                &&& p.hs == init.handshake()
                &&& p.sent_ms == a.now_ms
                &&& p.retries == 0
            },
{
    let f = |t: TargetState| t.disco_pub == disco_pub;
    lemma_first_where(a.targets, f);
    let k = crate::dataplane::first_where(a.targets, f);
    if st.start_of(a, disco_pub) is Some {
        assert forall|j: int| 0 <= j < k implies (#[trigger] a.targets[j]).disco_pub
            != disco_pub by {
            assert(!f(a.targets[j]));
        }
        assert(owner_at(a.targets, k, disco_pub));
    }
}

/// A handshake does start where the disco key has an owner to which none is in flight and no
/// tunnel exists, while there are fewer than eight of both.
pub proof fn law_start_is_due(st: NodeState, a: Arrival, disco_pub: Seq<u8>, i: int)
    requires
        owner_at(a.targets, i, disco_pub),
    ensures
        st.start_of(a, disco_pub) is Some <==> {
            &&& forall|j: int|
                0 <= j < st.pending.len() ==> (#[trigger] st.pending[j]).node
                    != a.targets[i].node_pub
            &&& forall|j: int|
                0 <= j < st.tunnels.len() ==> (#[trigger] st.tunnels[j]).peer_node
                    != a.targets[i].node_pub
            &&& st.tunnels.len() + st.pending.len() < 8
        },
{
    let f = |t: TargetState| t.disco_pub == disco_pub;
    lemma_first_where_is(a.targets, f, i);
    let node = a.targets[i].node_pub;
    let g = |e: EntryState| e.peer_node == node;
    lemma_first_where(st.tunnels, g);
    let k = crate::dataplane::first_where(st.tunnels, g);
    if forall|j: int|
        0 <= j < st.tunnels.len() ==> (#[trigger] st.tunnels[j]).peer_node != node {
        if k < st.tunnels.len() {
            assert(g(st.tunnels[k]));
            assert(st.tunnels[k].peer_node != node);
        }
    } else {
        let j = choose|j: int|
            0 <= j < st.tunnels.len() && (#[trigger] st.tunnels[j]).peer_node == node;
        assert(g(st.tunnels[j]));
    }
}

/// What an opened disco packet says: it came from the key at byte 6, its box opened under the
/// nonce at byte 38, and type and transaction id stand at the beginning of the message.
pub proof fn law_disco_read(my_priv: Seq<u8>, pkt: Seq<u8>)
    ensures
        packet_of(my_priv, pkt) matches Ok(m) ==> {
            &&& starts_as_disco(pkt)
            &&& pkt.len() >= 78
            &&& m.sender_disco_pub == pkt.subrange(6, 38)
            &&& box_open(my_priv, m.sender_disco_pub, pkt.subrange(38, 62), pkt.skip(62)) matches Some(
                msg,
            )
            &&& msg.len() >= 14
            &&& m.msg_type == msg[0]
            &&& m.txid == msg.subrange(2, 14)
        },
{
    lemma_kinds(pkt);
    if pkt.len() >= 78 {
        assert(pkt.skip(62) =~= pkt.subrange(62, pkt.len() as int));
    }
}

/// A packet is no disco packet for its length and its first bytes, and it is refused where the
/// box does not open or holds less than a message; for nothing else.
pub proof fn law_disco_refused(my_priv: Seq<u8>, pkt: Seq<u8>)
    ensures
        ({
            let r = packet_of(my_priv, pkt);
            let got = box_open(my_priv, pkt.subrange(6, 38), pkt.subrange(38, 62), pkt.skip(62));
            if pkt.len() < 78 || !starts_as_disco(pkt) {
                r == Err::<IncomingState, DiscoError>(DiscoError::NotDisco)
            } else if got is None {
                r == Err::<IncomingState, DiscoError>(DiscoError::BadMac)
            } else if got->0.len() < 14 {
                r == Err::<IncomingState, DiscoError>(DiscoError::TooShort)
            } else {
                r is Ok
            }
        }),
{
    lemma_kinds(pkt);
    if pkt.len() >= 78 {
        assert(pkt.skip(62) =~= pkt.subrange(62, pkt.len() as int));
    }
}

/// A disco packet, field by field: the magic, the sender's key, the nonce, and the message in a
/// box between the sender and the receiver.
pub proof fn law_disco_wire(
    my_priv: Seq<u8>,
    my_pub: Seq<u8>,
    peer_pub: Seq<u8>,
    nonce: Seq<u8>,
    msg: Seq<u8>,
)
    ensures
        wire_of(my_priv, my_pub, peer_pub, nonce, msg) == seq![0x54u8, 0x53, 0xf0, 0x9f, 0x92, 0xac]
            + my_pub + nonce + box_seal(my_priv, peer_pub, nonce, msg),
{
}

/// An endpoint, field by field: an IPv4 address behind ten zero bytes and two of ones, then the
/// port.
pub proof fn law_endpoint_wire(addr: SocketAddr)
    ensures
        addr matches SocketAddr::V4(a) ==> addr_bytes(addr) == seq![
            0u8,
            0,
            0,
            0,
            0,
            0,
            0,
            0,
            0,
            0,
            0xff,
            0xff,
        ] + quad(a.ip) + in_two(a.port as int),
{
    if let SocketAddr::V4(a) = addr {
        law_byte_order(a.port as int);
        assert(addr_bytes(addr) =~= seq![0u8, 0, 0, 0, 0, 0, 0, 0, 0, 0, 0xff, 0xff] + quad(a.ip)
            + in_two(a.port as int));
    }
}

/// A disco ping is answered with one pong, to where it came from, for its sender's key, with
/// its transaction id and the address that it came from; nothing else changes.
pub proof fn law_disco_ping(st: NodeState, a: Arrival, pkt: Seq<u8>, m: IncomingState)
    requires
        packet_of(a.id.disco_priv, pkt) == Ok::<IncomingState, crate::disco::DiscoError>(m),
        m.msg_type == 1,
    ensures
        st.on_packet(a, pkt) == (
            st,
            seq![
                ActionState::Send {
                    pkt: wire_of(
                        a.id.disco_priv,
                        a.id.disco_pub,
                        m.sender_disco_pub,
                        a.nonce,
                        seq![2u8, 0] + m.txid + addr_bytes(a.src),
                    ),
                    dst: a.src,
                },
            ],
        ),
{
}

/// A disco pong confirms the path that it came by, once, and what is then started is the
/// handshake with its sender. It changes nothing but the confirmed paths.
pub proof fn law_disco_pong(st: NodeState, a: Arrival, pkt: Seq<u8>, m: IncomingState)
    requires
        packet_of(a.id.disco_priv, pkt) == Ok::<IncomingState, crate::disco::DiscoError>(m),
        m.msg_type == 2,
    ensures
        ({
            let (s, acts) = st.on_packet(a, pkt);
            &&& s == (NodeState { confirmed: s.confirmed, ..st })
            &&& s.confirmed.contains(a.src)
            &&& forall|x: SocketAddr|
                x != a.src ==> (#[trigger] s.confirmed.contains(x) <==> st.confirmed.contains(x))
            &&& forall|k: int|
                0 <= k < acts.len() ==> match #[trigger] acts[k] {
                    ActionState::Initiate(p) => st.start_of(a, m.sender_disco_pub) == Some(p),
                    ActionState::Confirmed { who, addr } => addr == a.src && !st.confirmed.contains(
                        a.src,
                    ),
                    _ => false,
                }
            &&& st.start_of(a, m.sender_disco_pub) is Some ==> acts.len() > 0 && acts.last()
                is Initiate
        }),
{
    let (s, acts) = st.on_packet(a, pkt);
    if !st.confirmed.contains(a.src) {
        assert(s.confirmed == st.confirmed.push(a.src));
        assert(s.confirmed[s.confirmed.len() - 1] == a.src);
        assert forall|x: SocketAddr| x != a.src implies (#[trigger] s.confirmed.contains(x)
            <==> st.confirmed.contains(x)) by {
            if st.confirmed.contains(x) {
                let i = choose|i: int| 0 <= i < st.confirmed.len() && st.confirmed[i] == x;
                assert(s.confirmed[i] == x);
            }
            if s.confirmed.contains(x) {
                let i = choose|i: int| 0 <= i < s.confirmed.len() && s.confirmed[i] == x;
                assert(st.confirmed[i] == x);
            }
        }
    }
}

/// A path that is confirmed for the first time is told under the name of the first target with
/// the sender's disco key, or as unknown.
pub proof fn law_confirmed_name(
    st: NodeState,
    a: Arrival,
    pkt: Seq<u8>,
    m: IncomingState,
    who: Seq<char>,
)
    requires
        packet_of(a.id.disco_priv, pkt) == Ok::<IncomingState, DiscoError>(m),
        m.msg_type == 2,
        !st.confirmed.contains(a.src),
        (exists|i: int|
            #[trigger] owner_at(a.targets, i, m.sender_disco_pub) && a.targets[i].name == who) || (
        (forall|i: int|
            0 <= i < a.targets.len() ==> (#[trigger] a.targets[i]).disco_pub
                != m.sender_disco_pub) && who == "unknown"@),
    ensures
        ({
            let (s, acts) = st.on_packet(a, pkt);
            &&& acts.len() > 0
            &&& acts[0] == ActionState::Confirmed { who, addr: a.src }
        }),
{
    let key = m.sender_disco_pub;
    let f = |t: TargetState| t.disco_pub == key;
    lemma_kinds(pkt);
    if exists|i: int| #[trigger] owner_at(a.targets, i, key) && a.targets[i].name == who {
        let i = choose|i: int| #[trigger]
            owner_at(a.targets, i, key) && a.targets[i].name == who;
        assert forall|j: int| 0 <= j < i implies !f(#[trigger] a.targets[j]) by {}
        lemma_first_where_is(a.targets, f, i);
    } else {
        assert forall|j: int| 0 <= j < a.targets.len() implies !f(#[trigger] a.targets[j]) by {}
        lemma_first_where_is(a.targets, f, a.targets.len() as int);
    }
}

/// What a disco packet that is neither says, or that does not open, changes nothing.
pub proof fn law_disco_rest(st: NodeState, a: Arrival, pkt: Seq<u8>)
    requires
        starts_as_disco(pkt),
        packet_of(a.id.disco_priv, pkt) matches Ok(m) ==> m.msg_type != 1 && m.msg_type != 2,
    ensures
        st.on_packet(a, pkt) == (st, nothing()),
{
    lemma_kinds(pkt);
}

/// An initiation that can be read is answered, to where it came from, with the response to it;
/// the tunnel that this gives leads to its sender's key at that address, and takes the place of
/// those at that address or with that index. One that cannot be read changes nothing.
pub proof fn law_initiation_answered(st: NodeState, a: Arrival, pkt: Seq<u8>)
    requires
        !starts_as_disco(pkt),
        !has_cookie(pkt),
        pkt.len() > 0,
        pkt[0] == 1,
    ensures
        ({
            let (s, acts) = st.on_packet(a, pkt);
            match read_initiation_of(a.id.node_priv, a.id.node_pub, pkt) {
                Err(_) => s == st && acts.len() == 0,
                Ok(got) => {
                    let resp = response_to(pkt, got.0, got.1, a.index, a.eph);
                    &&& acts == seq![ActionState::Send { pkt: resp.bytes(), dst: a.src }]
                    &&& s.tunnels.len() > 0
                    &&& s.tunnels.last() == EntryState {
                        tun: resp.tunnel(),
                        addr: a.src,
                        peer_node: got.1,
                        tcp: Conn::idle(),
                    }
                    &&& s == (NodeState { tunnels: s.tunnels, ..st })
                    &&& forall|e: EntryState|
                        #[trigger] s.tunnels.drop_last().contains(e) <==> st.tunnels.contains(e)
                            && e.addr != a.src && e.tun.our_index != a.index
                },
            }
        }),
{
    lemma_kinds(pkt);
    if let Ok(got) = read_initiation_of(a.id.node_priv, a.id.node_pub, pkt) {
        let s = st.on_packet(a, pkt).0;
        assert(s.tunnels.drop_last() =~= crate::dataplane::without(st.tunnels, a.src, a.index));
        assert forall|e: EntryState|
            #[trigger] s.tunnels.drop_last().contains(e) <==> st.tunnels.contains(e) && e.addr
                != a.src && e.tun.our_index != a.index by {
            lemma_without_contains(st.tunnels, a.src, a.index, e);
        }
    }
}

proof fn lemma_without_contains(s: Seq<EntryState>, addr: SocketAddr, index: u32, e: EntryState)
    ensures
        crate::dataplane::without(s, addr, index).contains(e) <==> s.contains(e) && e.addr != addr
            && e.tun.our_index != index,
    decreases s.len(),
{
    let w = crate::dataplane::without(s, addr, index);
    if s.len() > 0 {
        let r = s.drop_last();
        let v = crate::dataplane::without(r, addr, index);
        lemma_without_contains(r, addr, index, e);
        assert(s =~= r.push(s.last()));
        assert(r.push(s.last()).contains(e) <==> r.contains(e) || s.last() == e) by {
            lemma_push_contains(r, s.last(), e);
        }
        lemma_push_contains(v, s.last(), e);
    }
}

proof fn lemma_push_contains<T>(s: Seq<T>, x: T, e: T)
    ensures
        s.push(x).contains(e) <==> s.contains(e) || x == e,
{
    let t = s.push(x);
    if s.contains(e) {
        let i = choose|i: int| 0 <= i < s.len() && s[i] == e;
        assert(t[i] == e);
    }
    if x == e {
        assert(t[s.len() as int] == e);
    }
    if t.contains(e) {
        let i = choose|i: int| 0 <= i < t.len() && t[i] == e;
        if i < s.len() {
            assert(s[i] == e);
        }
    }
}

/// Whether pending handshake `k` is the first one with the index at byte 8 of the packet.
pub open spec fn awaited_at(s: Seq<PendingState>, k: int, pkt: Seq<u8>) -> bool {
    &&& 0 <= k < s.len()
    &&& pkt.subrange(8, 12) == low_four(s[k].hs.our_index as int)
    &&& forall|j: int|
        0 <= j < k ==> pkt.subrange(8, 12) != low_four((#[trigger] s[j]).hs.our_index as int)
}

/// Different numbers have different bytes.
proof fn lemma_low_four_is(n: int, m: int)
    requires
        0 <= n < 4294967296,
        0 <= m < 4294967296,
    ensures
        low_four(n) == low_four(m) <==> n == m,
{
    if low_four(n) == low_four(m) {
        let (a, b) = (low_four(n), low_four(m));
        assert(a[0] == b[0] && a[1] == b[1] && a[2] == b[2] && a[3] == b[3]);
        lemma_bytes(n);
        lemma_bytes(m);
    }
}

proof fn lemma_bytes(n: int)
    requires
        0 <= n < 4294967296,
    ensures
        n == n % 256 + 256 * (n / 256 % 256) + 65536 * (n / 65536 % 256) + 16777216 * (n / 16777216
            % 256),
{
}

/// A response ends the handshake whose index it names. If it is right, the tunnel leads to the
/// peer that the handshake was with, at the address that the response came from, and an empty
/// packet goes through it at once; if not, nothing is sent.
pub proof fn law_response_completes(st: NodeState, a: Arrival, pkt: Seq<u8>, k: int)
    requires
        !starts_as_disco(pkt),
        !has_cookie(pkt),
        pkt.len() >= 12,
        pkt[0] == 2,
        awaited_at(st.pending, k, pkt),
    ensures
        ({
            let (s, acts) = st.on_packet(a, pkt);
            &&& s.pending == st.pending.remove(k)
            &&& s == (NodeState { tunnels: s.tunnels, pending: s.pending, ..st })
            &&& match read_response_of(st.pending[k].hs, pkt) {
                Err(_) => s.tunnels == st.tunnels && acts.len() == 0,
                Ok(t) => {
                    &&& s.tunnels.len() > 0
                    &&& s.tunnels.last() == EntryState {
                        tun: TunnelState { tx_counter: 1, ..t },
                        addr: a.src,
                        peer_node: st.pending[k].node,
                        tcp: Conn::idle(),
                    }
                    &&& acts == seq![
                        ActionState::Send {
                            pkt: transport_bytes(t.send_key, t.their_index, 0, Seq::empty()),
                            dst: a.src,
                        },
                    ]
                    &&& forall|e: EntryState|
                        #[trigger] s.tunnels.drop_last().contains(e) <==> st.tunnels.contains(e)
                            && e.addr != a.src && e.tun.our_index != t.our_index
                },
            }
        }),
{
    lemma_kinds(pkt);
    lemma_low_four(pkt, 8);
    let n = get_le32(pkt, 8) as u32;
    lemma_low_four_is(n as int, st.pending[k].hs.our_index as int);
    let f = |p: PendingState| p.hs.our_index == n;
    assert forall|j: int| 0 <= j < k implies !f(#[trigger] st.pending[j]) by {
        lemma_low_four_is(n as int, st.pending[j].hs.our_index as int);
    }
    lemma_first_where_is(st.pending, f, k);
    if let Ok(t) = read_response_of(st.pending[k].hs, pkt) {
        let s = st.on_packet(a, pkt).0;
        assert(s.tunnels.drop_last() =~= crate::dataplane::without(
            st.tunnels,
            a.src,
            t.our_index,
        ));
        assert forall|e: EntryState|
            #[trigger] s.tunnels.drop_last().contains(e) <==> st.tunnels.contains(e) && e.addr
                != a.src && e.tun.our_index != t.our_index by {
            lemma_without_contains(st.tunnels, a.src, t.our_index, e);
        }
    }
}

/// A response that names no handshake in flight changes nothing.
pub proof fn law_response_unasked(st: NodeState, a: Arrival, pkt: Seq<u8>)
    requires
        !starts_as_disco(pkt),
        !has_cookie(pkt),
        pkt.len() >= 12,
        pkt[0] == 2,
        forall|j: int|
            0 <= j < st.pending.len() ==> pkt.subrange(8, 12) != low_four(
                (#[trigger] st.pending[j]).hs.our_index as int,
            ),
    ensures
        st.on_packet(a, pkt) == (st, nothing()),
{
    lemma_kinds(pkt);
    lemma_low_four(pkt, 8);
    let n = get_le32(pkt, 8) as u32;
    let f = |p: PendingState| p.hs.our_index == n;
    assert forall|j: int| 0 <= j < st.pending.len() implies !f(#[trigger] st.pending[j]) by {
        lemma_low_four_is(n as int, st.pending[j].hs.our_index as int);
    }
    lemma_first_where_is(st.pending, f, st.pending.len() as int);
}

/// Whether tunnel `i` is the first one with the index at byte 4 of the packet.
pub open spec fn addressed_at(s: Seq<EntryState>, i: int, pkt: Seq<u8>) -> bool {
    &&& 0 <= i < s.len()
    &&& pkt.subrange(4, 8) == low_four(s[i].tun.our_index as int)
    &&& forall|j: int|
        0 <= j < i ==> pkt.subrange(4, 8) != low_four((#[trigger] s[j]).tun.our_index as int)
}

/// A transport packet goes to the tunnel whose index it names. Where it opens with that
/// tunnel's receive key, what is inside is handled as that tunnel's; where not, nothing
/// changes.
pub proof fn law_transport_delivered(st: NodeState, a: Arrival, pkt: Seq<u8>, i: int)
    requires
        !starts_as_disco(pkt),
        !has_cookie(pkt),
        pkt.len() >= 16,
        pkt[0] == 4,
        addressed_at(st.tunnels, i, pkt),
    ensures
        st.on_packet(a, pkt) == match transport_open(st.tunnels[i].tun.recv_key, pkt) {
            None => (st, nothing()),
            Some(inner) => st.decrypted(
                a.id,
                st.tunnels[i].tun.our_index,
                inner,
                a.src,
                a.iss,
            ),
        },
{
    lemma_kinds(pkt);
    lemma_low_four(pkt, 4);
    let n = get_le32(pkt, 4) as u32;
    lemma_low_four_is(n as int, st.tunnels[i].tun.our_index as int);
    let f = |e: EntryState| e.tun.our_index == n;
    assert forall|j: int| 0 <= j < i implies !f(#[trigger] st.tunnels[j]) by {
        lemma_low_four_is(n as int, st.tunnels[j].tun.our_index as int);
    }
    lemma_first_where_is(st.tunnels, f, i);
}

/// The filter lets an IPv4 packet through if and only if its source address, at byte 12, agrees
/// with one of the networks in the bits of that network's mask.
pub proof fn law_filter(cidrs: Seq<Cidr>, inner: Seq<u8>)
    requires
        inner.len() >= 16,
        inner[0] / 16 == 4,
    ensures
        allowed(None, inner),
        allowed(Some(cidrs), inner) <==> exists|k: int|
            0 <= k < cidrs.len() && (net32(inner, 12) as u32) & (#[trigger] cidrs[k]).1
                == cidrs[k].0 & cidrs[k].1,
{
    assert(net32(inner, 12) == get_be32(inner, 12));
}

/// Inner packets go out through a tunnel in order, each under the next counter, with the
/// tunnel's send key, to the peer's index, and to the given address.
pub proof fn law_sent_in_order(t: TunnelState, inners: Seq<Seq<u8>>, dst: SocketAddr, k: int)
    requires
        0 <= k < inners.len(),
        t.tx_counter + inners.len() <= u64::MAX,
        forall|j: int| 0 <= j < inners.len() ==> (#[trigger] inners[j]).len() <= 65535,
    ensures
        ({
            let (u, acts) = send_all_of(t, inners, dst);
            &&& acts.len() == inners.len()
            &&& acts[k] == ActionState::Send {
                pkt: transport_bytes(
                    t.send_key,
                    t.their_index,
                    (t.tx_counter + k) as u64,
                    inners[k],
                ),
                dst,
            }
            &&& u == TunnelState { tx_counter: (t.tx_counter + inners.len()) as u64, ..t }
        }),
    decreases inners.len(),
{
    let r = inners.drop_last();
    assert forall|j: int| 0 <= j < r.len() implies (#[trigger] r[j]).len() <= 65535 by {
        assert(r[j] == inners[j]);
    }
    assert(inners.last() == inners[inners.len() - 1]);
    if r.len() == 0 {
        assert(send_all_of(t, r, dst) == (t, nothing()));
    } else if k < r.len() {
        law_sent_in_order(t, r, dst, k);
    } else {
        law_sent_in_order(t, r, dst, 0);
    }
}

/// Whatever comes through a tunnel, the peer is answered where the packet came from, other
/// tunnels stay as they are, and an empty packet has no other effect.
pub proof fn law_peer_followed(
    st: NodeState,
    id: IdentityState,
    i: int,
    inner: Seq<u8>,
    src: SocketAddr,
    iss: u32,
)
    requires
        0 <= i < st.tunnels.len(),
        forall|j: int|
            0 <= j < i ==> (#[trigger] st.tunnels[j]).tun.our_index
                != st.tunnels[i].tun.our_index,
    ensures
        ({
            let (s, acts) = st.decrypted(id, st.tunnels[i].tun.our_index, inner, src, iss);
            &&& s.tunnels.len() == st.tunnels.len()
            &&& s.tunnels[i].addr == src
            &&& s.tunnels[i].peer_node == st.tunnels[i].peer_node
            &&& forall|j: int|
                0 <= j < st.tunnels.len() && j != i ==> #[trigger] s.tunnels[j] == st.tunnels[j]
            &&& forall|k: int|
                0 <= k < acts.len() ==> ((#[trigger] acts[k]) matches ActionState::Send {
                    pkt,
                    dst,
                } ==> dst == src)
            &&& inner.len() == 0 ==> acts.len() == 0 && s == (NodeState {
                tunnels: st.tunnels.update(i, EntryState { addr: src, ..st.tunnels[i] }),
                ..st
            })
        }),
{
    let index = st.tunnels[i].tun.our_index;
    let f = |e: EntryState| e.tun.our_index == index;
    assert forall|j: int| 0 <= j < i implies !f(#[trigger] st.tunnels[j]) by {}
    lemma_first_where_is(st.tunnels, f, i);
    let e1 = EntryState { addr: src, ..st.tunnels[i] };
    let s1 = st.with_entry(i, e1);
    lemma_sends_to(e1.tun, server_step(e1.tcp, inner, iss).1, src);
    if s1.outbound is Some {
        lemma_sends_to(e1.tun, outbound_of(s1.outbound->0, inner).1, src);
    }
}

proof fn lemma_sends_to(t: TunnelState, inners: Seq<Seq<u8>>, dst: SocketAddr)
    ensures
        forall|k: int|
            0 <= k < send_all_of(t, inners, dst).1.len() ==> ((#[trigger] send_all_of(
                t,
                inners,
                dst,
            ).1[k]) matches ActionState::Send { pkt, dst: d } && d == dst),
    decreases inners.len(),
{
    if inners.len() > 0 {
        lemma_sends_to(t, inners.drop_last(), dst);
    }
}

/// What goes to a tunnel's services: the tunnel is the one at `i`, its peer is neither the mDNS
/// partner nor the peer that the node's own traffic goes to, the sink is off and the filter
/// lets the packet through.
pub open spec fn for_services(st: NodeState, id: IdentityState, i: int, inner: Seq<u8>) -> bool {
    &&& 0 <= i < st.tunnels.len()
    &&& forall|j: int|
        0 <= j < i ==> (#[trigger] st.tunnels[j]).tun.our_index != st.tunnels[i].tun.our_index
    &&& st.tunnels[i].peer_node != st.mdns_partner
    &&& !(st.outbound is Some && st.outbound->0.target_node == st.tunnels[i].peer_node)
    &&& st.bench is None
    &&& inner.len() > 0
    &&& allowed(id.allowed_srcs, inner)
}

/// An echo request through a tunnel is answered with its echo reply, through the same tunnel
/// and under its next counter.
pub proof fn law_echo_through_tunnel(
    st: NodeState,
    id: IdentityState,
    i: int,
    inner: Seq<u8>,
    src: SocketAddr,
    iss: u32,
)
    requires
        for_services(st, id, i, inner),
        is_echo_request(inner),
        st.tunnels[i].tun.tx_counter < u64::MAX,
    ensures
        ({
            let e = st.tunnels[i];
            let t = e.tun;
            let (s, acts) = st.decrypted(id, t.our_index, inner, src, iss);
            &&& acts == seq![
                ActionState::Send {
                    pkt: transport_bytes(
                        t.send_key,
                        t.their_index,
                        t.tx_counter,
                        echo_reply_of(inner),
                    ),
                    dst: src,
                },
            ]
            &&& s.tunnels[i] == (EntryState {
                tun: TunnelState { tx_counter: (t.tx_counter + 1) as u64, ..t },
                addr: src,
                ..e
            })
        }),
{
    let f = |e: EntryState| e.tun.our_index == st.tunnels[i].tun.our_index;
    assert forall|j: int| 0 <= j < i implies !f(#[trigger] st.tunnels[j]) by {}
    lemma_first_where_is(st.tunnels, f, i);
    law_echo_reply_verifies(inner);
}

/// Anything else goes to the tunnel's own TCP server, and what that says goes back through the
/// same tunnel.
pub proof fn law_server_in_tunnel(
    st: NodeState,
    id: IdentityState,
    i: int,
    inner: Seq<u8>,
    src: SocketAddr,
    iss: u32,
)
    requires
        for_services(st, id, i, inner),
        !is_echo_request(inner),
    ensures
        ({
            let e = st.tunnels[i];
            let (conn, replies) = server_step(e.tcp, inner, iss);
            let (t, sent) = send_all_of(e.tun, replies, src);
            let (s, acts) = st.decrypted(id, e.tun.our_index, inner, src, iss);
            &&& acts == sent
            &&& s.tunnels[i] == (EntryState { tun: t, addr: src, tcp: conn, ..e })
            &&& s == (NodeState { tunnels: s.tunnels, ..st })
        }),
{
    let f = |e: EntryState| e.tun.our_index == st.tunnels[i].tun.our_index;
    assert forall|j: int| 0 <= j < i implies !f(#[trigger] st.tunnels[j]) by {}
    lemma_first_where_is(st.tunnels, f, i);
}

/// A UDP packet, told by its bytes: the payload of one to `port`.
pub open spec fn datagram_to(p: Seq<u8>, port: int) -> Option<Seq<u8>> {
    let h = 4 * (p[0] % 16);
    if p.len() >= 20 && p[0] / 16 == 4 && h >= 20 && p[9] == 17 && h + 8 <= net16(p, 2) <= p.len()
        && net16(p, h + 2) == port {
        Some(p.subrange(h + 8, net16(p, 2)))
    } else {
        None
    }
}

/// The payload that is found is the one that stands in the packet.
pub proof fn law_datagram(p: Seq<u8>, port: u16)
    ensures
        udp_payload(p, port) == datagram_to(p, port as int),
{
    if p.len() >= 20 {
        assert(4 * (p[0] % 16) == ihl(p));
    }
}

/// The partner's mDNS, a UDP packet to port 5354 through its tunnel, is handed to the LAN where
/// that is switched on, and is dropped where not; nothing is sent.
pub proof fn law_mdns_from_partner(
    st: NodeState,
    id: IdentityState,
    i: int,
    inner: Seq<u8>,
    src: SocketAddr,
    iss: u32,
)
    requires
        0 <= i < st.tunnels.len(),
        forall|j: int|
            0 <= j < i ==> (#[trigger] st.tunnels[j]).tun.our_index
                != st.tunnels[i].tun.our_index,
        st.tunnels[i].peer_node == st.mdns_partner,
        st.bench is None,
        inner.len() > 0,
        allowed(id.allowed_srcs, inner),
        datagram_to(inner, 5354) is Some,
    ensures
        st.decrypted(id, st.tunnels[i].tun.our_index, inner, src, iss) == (
            NodeState {
                tunnels: st.tunnels.update(i, EntryState { addr: src, ..st.tunnels[i] }),
                ..st
            },
            if st.mdns_reinject {
                seq![ActionState::Reinject(datagram_to(inner, 5354)->0)]
            } else {
                nothing()
            },
        ),
{
    let f = |e: EntryState| e.tun.our_index == st.tunnels[i].tun.our_index;
    assert forall|j: int| 0 <= j < i implies !f(#[trigger] st.tunnels[j]) by {}
    lemma_first_where_is(st.tunnels, f, i);
    law_datagram(inner, 5354);
}

/// A segment from the peer that the node's own traffic goes to, for the client's port, is the
/// client's: what the client answers goes back through that tunnel, and the end of the response
/// is reported once.
pub proof fn law_client_in_tunnel(
    st: NodeState,
    id: IdentityState,
    i: int,
    inner: Seq<u8>,
    src: SocketAddr,
    iss: u32,
)
    requires
        0 <= i < st.tunnels.len(),
        forall|j: int|
            0 <= j < i ==> (#[trigger] st.tunnels[j]).tun.our_index
                != st.tunnels[i].tun.our_index,
        st.tunnels[i].peer_node != st.mdns_partner,
        st.outbound is Some,
        st.outbound->0.target_node == st.tunnels[i].peer_node,
        st.outbound->0.tcp is Some,
        (st.outbound->0.tcp->0).owns(inner),
        (st.outbound->0.tcp->0).step(inner).1.len() > 0,
        st.bench is None,
        allowed(id.allowed_srcs, inner),
    ensures
        ({
            let o = st.outbound->0;
            let (c, segs) = (o.tcp->0).step(inner);
            let (t, sent) = send_all_of(st.tunnels[i].tun, segs, src);
            let done = c.done && !o.http_done;
            st.decrypted(id, st.tunnels[i].tun.our_index, inner, src, iss) == (
                NodeState {
                    tunnels: st.tunnels.update(
                        i,
                        EntryState { tun: t, addr: src, ..st.tunnels[i] },
                    ),
                    outbound: Some(
                        OutboundState { tcp: Some(c), http_done: o.http_done || done, ..o },
                    ),
                    ..st
                },
                sent + if done {
                    seq![ActionState::HttpDone]
                } else {
                    nothing()
                },
            )
        }),
{
    let f = |e: EntryState| e.tun.our_index == st.tunnels[i].tun.our_index;
    assert forall|j: int| 0 <= j < i implies !f(#[trigger] st.tunnels[j]) by {}
    lemma_first_where_is(st.tunnels, f, i);
    let (s, acts) = st.decrypted(id, st.tunnels[i].tun.our_index, inner, src, iss);
    let o = st.outbound->0;
    let (c, segs) = (o.tcp->0).step(inner);
    let (t, sent) = send_all_of(st.tunnels[i].tun, segs, src);
    assert(s.tunnels =~= st.tunnels.update(
        i,
        EntryState { tun: t, addr: src, ..st.tunnels[i] },
    ));
}

/// Where the throughput sink runs, each UDP packet to port 5201 counts as one, with all its
/// bytes, and goes no further, whatever the filter says.
pub proof fn law_sink_counts(
    st: NodeState,
    id: IdentityState,
    i: int,
    inner: Seq<u8>,
    src: SocketAddr,
    iss: u32,
)
    requires
        0 <= i < st.tunnels.len(),
        forall|j: int|
            0 <= j < i ==> (#[trigger] st.tunnels[j]).tun.our_index
                != st.tunnels[i].tun.our_index,
        st.bench is Some,
        st.bench->0.bytes + inner.len() <= u64::MAX,
        st.bench->0.pkts < u64::MAX,
        datagram_to(inner, 5201) is Some,
    ensures
        ({
            let (s, acts) = st.decrypted(id, st.tunnels[i].tun.our_index, inner, src, iss);
            &&& acts == seq![ActionState::BenchCounted]
            &&& s.bench is Some
            &&& s.bench->0.bytes == st.bench->0.bytes + inner.len()
            &&& s.bench->0.pkts == st.bench->0.pkts + 1
            &&& s.outbound == st.outbound
            &&& s.pending == st.pending
        }),
{
    let index = st.tunnels[i].tun.our_index;
    let f = |e: EntryState| e.tun.our_index == index;
    assert forall|j: int| 0 <= j < i implies !f(#[trigger] st.tunnels[j]) by {}
    lemma_first_where_is(st.tunnels, f, i);
    law_datagram(inner, 5201);
}

/// Where the throughput sink runs, the filter is of no matter; without it, what the filter
/// denies leads to nothing.
pub proof fn law_sink_and_filter(
    st: NodeState,
    id: IdentityState,
    other: Option<Seq<Cidr>>,
    index: u32,
    inner: Seq<u8>,
    src: SocketAddr,
    iss: u32,
)
    ensures
        st.bench is Some ==> st.decrypted(id, index, inner, src, iss) == st.decrypted(
            IdentityState { allowed_srcs: other, ..id },
            index,
            inner,
            src,
            iss,
        ),
        st.bench is None && !allowed(id.allowed_srcs, inner) ==> st.decrypted(
            id,
            index,
            inner,
            src,
            iss,
        ).1 == nothing(),
{
}

/// The client of the node's own traffic sees what is its own from its peer's tunnel, also where
/// that leads to no answer.
pub proof fn law_client_follows(
    st: NodeState,
    id: IdentityState,
    i: int,
    inner: Seq<u8>,
    src: SocketAddr,
    iss: u32,
)
    requires
        0 <= i < st.tunnels.len(),
        forall|j: int|
            0 <= j < i ==> (#[trigger] st.tunnels[j]).tun.our_index
                != st.tunnels[i].tun.our_index,
        st.bench is None,
        inner.len() > 0,
        allowed(id.allowed_srcs, inner),
        datagram_to(inner, 5354) is None,
        st.outbound is Some,
        st.outbound->0.target_node == st.tunnels[i].peer_node,
        st.outbound->0.tcp is Some,
        st.outbound->0.tcp->0.owns(inner),
    ensures
        ({
            let (s, acts) = st.decrypted(id, st.tunnels[i].tun.our_index, inner, src, iss);
            let c = st.outbound->0.tcp->0.step(inner).0;
            &&& s.outbound is Some
            &&& s.outbound->0.tcp == Some(c)
            &&& s.outbound->0.http_done == (st.outbound->0.http_done || c.done)
            &&& s.outbound->0.seq == st.outbound->0.seq
        }),
{
    let index = st.tunnels[i].tun.our_index;
    let f = |e: EntryState| e.tun.our_index == index;
    assert forall|j: int| 0 <= j < i implies !f(#[trigger] st.tunnels[j]) by {}
    lemma_first_where_is(st.tunnels, f, i);
    law_datagram(inner, 5354);
}

} // verus!
