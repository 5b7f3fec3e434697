//! The data plane's decisions: disco path discovery, WireGuard handshakes in both
//! roles, transport, and the services inside a tunnel. Several tunnels are kept at a
//! time, one per receiver index, each with its own TCP server.
//!
//! Nothing here touches a socket. A packet or a look at the clock comes in, and a list of
//! actions goes out for the caller to carry out in order.
use vstd::prelude::*;
use crate::bytes::{copy_range, get_be16, get_le32, key_eq, packets, read_be16, read_le32};
use crate::crypto::{x25519_base, AEAD_MAX};
use crate::disco::{
    has_magic, is_disco, open as disco_open, packet_of, pong_of, pong_plaintext, seal_with,
    wire_of, PING, PONG,
};
use crate::icmp::{echo_reply, echo_reply_of, ihl, is_echo_request};
use crate::mdns::FWD_PORT;
use crate::net::{Ipv4Addr, SocketAddr};
use crate::node::{
    allowed, src_allowed, target_states, Identity, IdentityState, OutboundCfg, Target,
    TargetState,
};
use crate::outbound::{ClientState, TcpClient};
use crate::rng::Entropy;
use crate::stun::{is_stun, looks_like_stun};
use crate::tcp::{server_step, Conn, TcpServer};
use crate::wg::{
    build_initiation_with, build_response, lemma_response_index, read_initiation,
    read_initiation_of, read_response_of, response_to, transport_bytes, transport_open,
    Handshake, HandshakeInfo, Initiation, Response, Tunnel, TunnelState, INIT_LEN,
    MSG_INITIATION, MSG_RESPONSE, MSG_TRANSPORT, RESP_LEN,
};

verus! {

broadcast use crate::bytes::group_lengths;

/// Milliseconds before a handshake is retried.
pub const PENDING_TIMEOUT_MS: u64 = 3000;

/// Send errors after which an endpoint is no longer probed.
pub const MAX_STRIKES: u8 = 3;

/// Retries after which a handshake is given up.
pub const MAX_HS_RETRIES: u32 = 4;

/// Tunnels and handshakes beyond which no handshake is started.
pub const MAX_TUNNELS: usize = 8;

/// The inner UDP port of the throughput sink.
pub const BENCH_PORT: u16 = 5201;

// --- state ---

/// A handshake that was sent and waits for its response.
pub struct Pending {
    /// The peer's node key.
    pub node: [u8; 32],
    pub addr: SocketAddr,
    /// Sent again as it is on a retry, so that responses keep matching.
    pub init: [u8; 148],
    pub hs: Handshake,
    /// When it was last sent, in milliseconds on the caller's clock.
    pub sent_ms: u64,
    pub retries: u32,
}

/// What a `Pending` holds.
pub struct PendingState {
    pub node: Seq<u8>,
    pub addr: SocketAddr,
    pub init: Seq<u8>,
    pub hs: HandshakeInfo,
    pub sent_ms: u64,
    pub retries: u32,
}

impl View for Pending {
    type V = PendingState;

    open spec fn view(&self) -> PendingState {
        PendingState {
            node: self.node@,
            addr: self.addr,
            init: self.init@,
            hs: self.hs@,
            sent_ms: self.sent_ms,
            retries: self.retries,
        }
    }
}

/// An established tunnel, its peer's address and its TCP server.
pub struct TunnelEntry {
    pub tun: Tunnel,
    pub addr: SocketAddr,
    pub peer_node: [u8; 32],
    pub tcp: TcpServer,
}

/// What a `TunnelEntry` holds.
pub struct EntryState {
    pub tun: TunnelState,
    pub addr: SocketAddr,
    pub peer_node: Seq<u8>,
    pub tcp: Conn,
}

impl View for TunnelEntry {
    type V = EntryState;

    open spec fn view(&self) -> EntryState {
        EntryState {
            tun: self.tun@,
            addr: self.addr,
            peer_node: self.peer_node@,
            tcp: self.tcp.conn,
        }
    }
}

/// The traffic that the node sends to one peer of its own accord.
pub struct OutboundRun {
    pub cfg: OutboundCfg,
    /// The identifier and the last sequence number of the pings.
    pub ident: u16,
    pub seq: u16,
    pub sport: u16,
    pub tcp: Option<TcpClient>,
    pub started: bool,
    pub http_done: bool,
}

/// What an `OutboundRun` holds.
pub struct OutboundState {
    pub our_ip: Ipv4Addr,
    pub target_ip: Ipv4Addr,
    pub target_node: Seq<u8>,
    pub http_port: u16,
    pub http_path: Seq<char>,
    pub ident: u16,
    pub seq: u16,
    pub sport: u16,
    pub tcp: Option<ClientState>,
    pub started: bool,
    pub http_done: bool,
}

impl View for OutboundRun {
    type V = OutboundState;

    open spec fn view(&self) -> OutboundState {
        OutboundState {
            our_ip: self.cfg.our_ip,
            target_ip: self.cfg.target_ip,
            target_node: self.cfg.target_node@,
            http_port: self.cfg.http_port,
            http_path: self.cfg.http_path@,
            ident: self.ident,
            seq: self.seq,
            sport: self.sport,
            tcp: match self.tcp {
                Some(c) => Some(c@),
                None => None,
            },
            started: self.started,
            http_done: self.http_done,
        }
    }
}

/// The counters of the throughput sink since the last report.
#[derive(Clone, Copy, Debug, PartialEq, Eq, Structural)]
pub struct Bench {
    pub bytes: u64,
    pub pkts: u64,
}

/// Everything that the data plane keeps.
pub struct State {
    /// Handshakes in flight, at most one per peer.
    pub pending: Vec<Pending>,
    /// Tunnels, at most one per receiver index.
    pub tunnels: Vec<TunnelEntry>,
    /// Paths that a pong has confirmed.
    pub confirmed: Vec<SocketAddr>,
    pub outbound: Option<OutboundRun>,
    /// Whether mDNS from the partner is injected here.
    pub mdns_reinject: bool,
    pub mdns_partner: [u8; 32],
    /// The throughput sink, where it is switched on.
    pub bench: Option<Bench>,
}

/// What a `State` holds.
pub struct NodeState {
    pub pending: Seq<PendingState>,
    pub tunnels: Seq<EntryState>,
    pub confirmed: Seq<SocketAddr>,
    pub outbound: Option<OutboundState>,
    pub mdns_reinject: bool,
    pub mdns_partner: Seq<u8>,
    pub bench: Option<Bench>,
}

/// What a list of pending handshakes holds.
pub open spec fn pendings(v: Seq<Pending>) -> Seq<PendingState> {
    v.map_values(|p: Pending| p@)
}

/// What a list of tunnels holds.
pub open spec fn entries(v: Seq<TunnelEntry>) -> Seq<EntryState> {
    v.map_values(|e: TunnelEntry| e@)
}

impl View for State {
    type V = NodeState;

    open spec fn view(&self) -> NodeState {
        NodeState {
            pending: pendings(self.pending@),
            tunnels: entries(self.tunnels@),
            confirmed: self.confirmed@,
            outbound: match self.outbound {
                Some(o) => Some(o@),
                None => None,
            },
            mdns_reinject: self.mdns_reinject,
            mdns_partner: self.mdns_partner@,
            bench: self.bench,
        }
    }
}

impl NodeState {
    /// At most one handshake per peer, at most one tunnel per index, and no path
    /// confirmed twice.
    pub open spec fn wf(self) -> bool {
        &&& forall|i: int, j: int|
            0 <= i < j < self.pending.len() ==> #[trigger] self.pending[i].node
                != #[trigger] self.pending[j].node
        &&& forall|i: int, j: int|
            0 <= i < j < self.tunnels.len() ==> #[trigger] self.tunnels[i].tun.our_index
                != #[trigger] self.tunnels[j].tun.our_index
        &&& self.confirmed.no_duplicates()
    }
}

// --- actions ---

/// What the caller has to do.
pub enum Action {
    /// Send this datagram.
    Send { pkt: Vec<u8>, dst: SocketAddr },
    /// Send the initiation, and call `initiated` if that succeeds.
    Initiate(Pending),
    /// Multicast this mDNS payload on the LAN.
    Reinject(Vec<u8>),
    /// A path to the named peer was confirmed for the first time.
    Confirmed { who: String, addr: SocketAddr },
    /// The HTTP response is complete.
    HttpDone,
    /// A packet for the throughput sink was counted; a report may be due.
    BenchCounted,
}

/// What an `Action` holds.
pub enum ActionState {
    Send { pkt: Seq<u8>, dst: SocketAddr },
    Initiate(PendingState),
    Reinject(Seq<u8>),
    Confirmed { who: Seq<char>, addr: SocketAddr },
    HttpDone,
    BenchCounted,
}

impl View for Action {
    type V = ActionState;

    open spec fn view(&self) -> ActionState {
        match self {
            Action::Send { pkt, dst } => ActionState::Send { pkt: pkt@, dst: *dst },
            Action::Initiate(p) => ActionState::Initiate(p@),
            Action::Reinject(v) => ActionState::Reinject(v@),
            Action::Confirmed { who, addr } => ActionState::Confirmed { who: who@, addr: *addr },
            Action::HttpDone => ActionState::HttpDone,
            Action::BenchCounted => ActionState::BenchCounted,
        }
    }
}

/// What a list of actions holds.
pub open spec fn actions(v: Seq<Action>) -> Seq<ActionState> {
    v.map_values(|a: Action| a@)
}

/// No actions.
pub open spec fn nothing() -> Seq<ActionState> {
    Seq::empty()
}

// --- sending through a tunnel ---

/// Whether the tunnel can still send the inner packet.
pub open spec fn can_send(t: TunnelState, inner: Seq<u8>) -> bool {
    t.tx_counter < u64::MAX && inner.len() <= AEAD_MAX
}

/// The tunnel after the inner packet was sent to `dst`, and the datagram. A tunnel
/// whose counter is used up sends no more.
pub open spec fn send_inner_of(t: TunnelState, inner: Seq<u8>, dst: SocketAddr) -> (
    TunnelState,
    Seq<ActionState>,
) {
    if can_send(t, inner) {
        (
            TunnelState { tx_counter: (t.tx_counter + 1) as u64, ..t },
            seq![
                ActionState::Send {
                    pkt: transport_bytes(t.send_key, t.their_index, t.tx_counter, inner),
                    dst,
                },
            ],
        )
    } else {
        (t, nothing())
    }
}

/// The tunnel after the inner packets were sent to `dst` in order, and the
/// datagrams.
pub open spec fn send_all_of(t: TunnelState, inners: Seq<Seq<u8>>, dst: SocketAddr) -> (
    TunnelState,
    Seq<ActionState>,
)
    decreases inners.len(),
{
    if inners.len() == 0 {
        (t, nothing())
    } else {
        let (t1, a1) = send_all_of(t, inners.drop_last(), dst);
        let (t2, a2) = send_inner_of(t1, inners.last(), dst);
        (t2, a1 + a2)
    }
}

/// Sends one inner packet through the tunnel.
pub fn send_inner(tun: &mut Tunnel, inner: &[u8], dst: SocketAddr, out: &mut Vec<Action>)
    ensures
        final(tun)@ == send_inner_of(old(tun)@, inner@, dst).0,
        actions(final(out)@) == actions(old(out)@) + send_inner_of(old(tun)@, inner@, dst).1,
{
    if tun.tx_counter < u64::MAX && inner.len() as u64 <= AEAD_MAX {
        let pkt = tun.encrypt(inner);
        out.push(Action::Send { pkt, dst });
    }
    assert(actions(out@) =~= actions(old(out)@) + send_inner_of(old(tun)@, inner@, dst).1);
}

/// Sends inner packets through the tunnel in order.
pub fn send_all(tun: &mut Tunnel, inners: &Vec<Vec<u8>>, dst: SocketAddr, out: &mut Vec<Action>)
    ensures
        final(tun)@ == send_all_of(old(tun)@, packets(inners@), dst).0,
        actions(final(out)@) == actions(old(out)@) + send_all_of(
            old(tun)@,
            packets(inners@),
            dst,
        ).1,
{
    let ghost all = packets(inners@);
    let mut i: usize = 0;
    assert(all.subrange(0, 0) =~= Seq::empty());
    assert(actions(out@) =~= actions(old(out)@) + nothing());
    while i < inners.len()
        invariant
            i <= inners@.len(),
            all == packets(inners@),
            tun@ == send_all_of(old(tun)@, all.subrange(0, i as int), dst).0,
            actions(out@) == actions(old(out)@) + send_all_of(
                old(tun)@,
                all.subrange(0, i as int),
                dst,
            ).1,
        decreases inners@.len() - i,
    {
        let ghost next = all.subrange(0, i + 1);
        assert(next.drop_last() =~= all.subrange(0, i as int));
        assert(next.last() == inners@[i as int]@);
        send_inner(tun, inners[i].as_slice(), dst, out);
        assert(actions(out@) =~= actions(old(out)@) + send_all_of(old(tun)@, next, dst).1);
        i = i + 1;
    }
    assert(all.subrange(0, i as int) =~= all);
}

// --- finding a tunnel ---

/// The first place in `s` where `p` holds, or the length of `s`.
pub open spec fn first_where<T>(s: Seq<T>, p: spec_fn(T) -> bool) -> int
    decreases s.len(),
{
    if s.len() == 0 || p(s[0]) {
        0
    } else {
        1 + first_where(s.subrange(1, s.len() as int), p)
    }
}

/// What the first place is.
pub proof fn lemma_first_where<T>(s: Seq<T>, p: spec_fn(T) -> bool)
    ensures
        0 <= first_where(s, p) <= s.len(),
        first_where(s, p) < s.len() ==> p(s[first_where(s, p)]),
        forall|k: int| 0 <= k < first_where(s, p) ==> !p(#[trigger] s[k]),
    decreases s.len(),
{
    if s.len() > 0 && !p(s[0]) {
        let t = s.subrange(1, s.len() as int);
        lemma_first_where(t, p);
        assert forall|k: int| 0 <= k < first_where(s, p) implies !p(#[trigger] s[k]) by {
            if k > 0 {
                assert(s[k] == t[k - 1]);
            }
        }
        if first_where(t, p) < t.len() {
            assert(s[first_where(s, p)] == t[first_where(t, p)]);
        }
    }
}

/// The place with that property is the first one.
pub proof fn lemma_first_where_is<T>(s: Seq<T>, p: spec_fn(T) -> bool, i: int)
    requires
        0 <= i <= s.len(),
        i < s.len() ==> p(s[i]),
        forall|k: int| 0 <= k < i ==> !p(#[trigger] s[k]),
    ensures
        first_where(s, p) == i,
{
    lemma_first_where(s, p);
    let j = first_where(s, p);
    if j < i {
        assert(!p(s[j]));
    }
    if i < j {
        assert(!p(s[i]));
    }
}

/// The place of the tunnel with this receiver index.
pub open spec fn tunnel_at(s: Seq<EntryState>, index: u32) -> int {
    first_where(s, |e: EntryState| e.tun.our_index == index)
}

/// The place of a tunnel to this peer.
pub open spec fn tunnel_to(s: Seq<EntryState>, node: Seq<u8>) -> int {
    first_where(s, |e: EntryState| e.peer_node == node)
}

/// Whether there is a tunnel to this address.
pub open spec fn has_tunnel(s: Seq<EntryState>, addr: SocketAddr) -> bool {
    exists|i: int| 0 <= i < s.len() && #[trigger] s[i].addr == addr
}

/// Finds the tunnel with this receiver index.
pub fn find_index(v: &Vec<TunnelEntry>, index: u32) -> (r: usize)
    ensures
        r == tunnel_at(entries(v@), index),
        r <= v@.len(),
        r < v@.len() ==> v@[r as int].tun.our_index == index,
{
    let mut i: usize = 0;
    while i < v.len() && v[i].tun.our_index != index
        invariant
            i <= v@.len(),
            forall|k: int| 0 <= k < i ==> entries(v@)[k].tun.our_index != index,
        decreases v@.len() - i,
    {
        assert(entries(v@)[i as int].tun.our_index == v@[i as int].tun.our_index);
        i = i + 1;
    }
    proof {
        lemma_first_where_is(
            entries(v@),
            |e: EntryState| e.tun.our_index == index,
            i as int,
        );
    }
    i
}

/// Finds a tunnel to this peer.
pub fn find_node(v: &Vec<TunnelEntry>, node: &[u8; 32]) -> (r: usize)
    ensures
        r == tunnel_to(entries(v@), node@),
        r <= v@.len(),
{
    let mut i: usize = 0;
    while i < v.len() && !key_eq(&v[i].peer_node, node)
        invariant
            i <= v@.len(),
            forall|k: int| 0 <= k < i ==> entries(v@)[k].peer_node != node@,
        decreases v@.len() - i,
    {
        assert(entries(v@)[i as int].peer_node == v@[i as int].peer_node@);
        i = i + 1;
    }
    proof {
        if i < v@.len() {
            assert(entries(v@)[i as int].peer_node == v@[i as int].peer_node@);
        }
        lemma_first_where_is(entries(v@), |e: EntryState| e.peer_node == node@, i as int);
    }
    i
}

/// Whether there is a tunnel to this address.
pub fn tunnel_exists(v: &Vec<TunnelEntry>, addr: SocketAddr) -> (r: bool)
    ensures
        r == has_tunnel(entries(v@), addr),
{
    let mut i: usize = 0;
    while i < v.len()
        invariant
            i <= v@.len(),
            forall|k: int| 0 <= k < i ==> #[trigger] entries(v@)[k].addr != addr,
        decreases v@.len() - i,
    {
        if v[i].addr == addr {
            assert(entries(v@)[i as int].addr == addr);
            return true;
        }
        i = i + 1;
    }
    false
}

// --- inner packets ---

/// The UDP payload of `inner`, where it is an IPv4 UDP packet to `port`.
pub open spec fn udp_payload(inner: Seq<u8>, port: u16) -> Option<Seq<u8>> {
    if inner.len() >= 20 && inner[0] / 16 == 4 && ihl(inner) >= 20 && inner[9] == 17 && ihl(inner)
        + 8 <= get_be16(inner, 2) <= inner.len() && get_be16(inner, ihl(inner) + 2) == port {
        Some(inner.subrange(ihl(inner) + 8, get_be16(inner, 2)))
    } else {
        None
    }
}

/// Finds the UDP payload of `inner`, where it is an IPv4 UDP packet to `port`.
pub fn udp_payload_to_port(inner: &[u8], port: u16) -> (r: Option<Vec<u8>>)
    ensures
        match r {
            Some(p) => udp_payload(inner@, port) == Some(p@),
            None => udp_payload(inner@, port) is None,
        },
{
    if inner.len() < 20 || inner[0] / 16 != 4 || inner[9] != 17 {
        return None;
    }
    let h: usize = (inner[0] % 16) as usize * 4;
    let total: usize = read_be16(inner, 2) as usize;
    if h < 20 || h + 8 > total || total > inner.len() {
        return None;
    }
    if read_be16(inner, h + 2) != port {
        return None;
    }
    Some(copy_range(inner, h + 8, total))
}

/// The tunnel entry after the services inside the tunnel have seen `inner`: an echo
/// request is answered, anything else goes to the TCP server.
pub open spec fn service_of(e: EntryState, inner: Seq<u8>, src: SocketAddr, iss: u32) -> (
    EntryState,
    Seq<ActionState>,
) {
    if is_echo_request(inner) {
        let (t, a) = send_inner_of(e.tun, echo_reply_of(inner), src);
        (EntryState { tun: t, ..e }, a)
    } else {
        let (tcp, replies) = server_step(e.tcp, inner, iss);
        let (t, a) = send_all_of(e.tun, replies, src);
        (EntryState { tun: t, tcp, ..e }, a)
    }
}

/// The entry's services see `inner`.
pub fn service(e: &mut TunnelEntry, inner: &[u8], src: SocketAddr, iss: u32, out: &mut Vec<Action>)
    ensures
        final(e)@ == service_of(old(e)@, inner@, src, iss).0,
        actions(final(out)@) == actions(old(out)@) + service_of(old(e)@, inner@, src, iss).1,
{
    match echo_reply(inner) {
        Some(reply) => {
            send_inner(&mut e.tun, reply.as_slice(), src, out);
        },
        None => {
            let replies = e.tcp.handle_with(inner, iss);
            send_all(&mut e.tun, &replies, src, out);
        },
    }
}

/// What the node's own HTTP client does with `inner`: its state, the segments it
/// sends, and whether the response became complete just now.
pub open spec fn outbound_of(o: OutboundState, inner: Seq<u8>) -> (OutboundState, Seq<Seq<u8>>, bool) {
    match o.tcp {
        Some(c) => if c.owns(inner) {
            let (d, segs) = c.step(inner);
            let fresh = d.done && !o.http_done;
            (
                OutboundState { tcp: Some(d), http_done: o.http_done || fresh, ..o },
                segs,
                fresh,
            )
        } else {
            (o, Seq::empty(), false)
        },
        None => (o, Seq::empty(), false),
    }
}

impl OutboundRun {
    /// Feeds `inner` to the HTTP client. The result is what it sends, and whether the
    /// response became complete just now.
    pub fn on_inner(&mut self, inner: &[u8]) -> (r: (Vec<Vec<u8>>, bool))
        ensures
            (final(self)@, packets(r.0@), r.1) == outbound_of(old(self)@, inner@),
    {
        let mut segs: Vec<Vec<u8>> = Vec::new();
        let mut fresh: bool = false;
        assert(packets(segs@) =~= Seq::empty());
        if let Some(c) = &mut self.tcp {
            if c.owns(inner) {
                segs = c.on_inner(inner);
                if c.done && !self.http_done {
                    self.http_done = true;
                    fresh = true;
                }
            }
        }
        (segs, fresh)
    }
}

// --- decrypted packets ---

/// The sink's counters after one more packet.
pub open spec fn counted(b: Bench, len: nat) -> Bench {
    Bench {
        bytes: if b.bytes + len <= u64::MAX {
            (b.bytes + len) as u64
        } else {
            u64::MAX
        },
        pkts: if b.pkts < u64::MAX {
            (b.pkts + 1) as u64
        } else {
            u64::MAX
        },
    }
}

impl NodeState {
    /// With another entry at place `i`.
    pub open spec fn with_entry(self, i: int, e: EntryState) -> NodeState {
        NodeState { tunnels: self.tunnels.update(i, e), ..self }
    }

    /// Whether the peer of tunnel `i` is the one that the node's own traffic goes to.
    pub open spec fn is_target(self, i: int) -> bool {
        self.outbound is Some && self.outbound->0.target_node == self.tunnels[i].peer_node
    }

    /// The node after a packet of tunnel `i` was let through: mDNS from the partner is
    /// injected, replies to the node's own traffic go to its client, and the rest to
    /// the services.
    pub open spec fn deliver(self, i: int, inner: Seq<u8>, src: SocketAddr, iss: u32) -> (
        NodeState,
        Seq<ActionState>,
    ) {
        let e = self.tunnels[i];
        if e.peer_node == self.mdns_partner && udp_payload(inner, FWD_PORT) is Some {
            (
                self,
                if self.mdns_reinject {
                    seq![ActionState::Reinject(udp_payload(inner, FWD_PORT)->0)]
                } else {
                    nothing()
                },
            )
        } else if self.is_target(i) && self.outbound_handles(inner) {
            let (o, segs, fresh) = outbound_of(self.outbound->0, inner);
            let (t, a) = send_all_of(e.tun, segs, src);
            (
                NodeState { outbound: Some(o), ..self.with_entry(i, EntryState { tun: t, ..e }) },
                a + if fresh {
                    seq![ActionState::HttpDone]
                } else {
                    nothing()
                },
            )
        } else {
            let (e2, a) = service_of(e, inner, src, iss);
            let s = self.with_entry(i, e2);
            if self.is_target(i) {
                (NodeState { outbound: Some(outbound_of(self.outbound->0, inner).0), ..s }, a)
            } else {
                (s, a)
            }
        }
    }

    /// Whether the node's own client has something to do with `inner`.
    pub open spec fn outbound_handles(self, inner: Seq<u8>) -> bool {
        let (o, segs, fresh) = outbound_of(self.outbound->0, inner);
        segs.len() > 0 || fresh
    }

    /// The node after the inner packet of tunnel `index` came from `src`. The peer's
    /// address follows the packet. A keepalive ends there, and so does a packet that
    /// the filter denies. The sink counts before the filter, and switches it off.
    pub open spec fn decrypted(
        self,
        id: IdentityState,
        index: u32,
        inner: Seq<u8>,
        src: SocketAddr,
        iss: u32,
    ) -> (NodeState, Seq<ActionState>) {
        let i = tunnel_at(self.tunnels, index);
        if i >= self.tunnels.len() {
            (self, nothing())
        } else {
            let s = self.with_entry(i, EntryState { addr: src, ..self.tunnels[i] });
            if inner.len() == 0 {
                (s, nothing())
            } else if self.bench is Some && udp_payload(inner, BENCH_PORT) is Some {
                (
                    NodeState { bench: Some(counted(self.bench->0, inner.len())), ..s },
                    seq![ActionState::BenchCounted],
                )
            } else if self.bench is None && !allowed(id.allowed_srcs, inner) {
                (s, nothing())
            } else {
                s.deliver(i, inner, src, iss)
            }
        }
    }
}

impl State {
    /// Handles a decrypted inner packet of the tunnel with receiver index
    /// `our_index`, which came from `src`. A new TCP connection starts at sequence
    /// number `iss`.
    pub fn handle_decrypted(
        &mut self,
        id: &Identity,
        our_index: u32,
        inner: &[u8],
        src: SocketAddr,
        iss: u32,
    ) -> (r: Vec<Action>)
        ensures
            (final(self)@, actions(r@)) == old(self)@.decrypted(id@, our_index, inner@, src, iss),
    {
        let mut out: Vec<Action> = Vec::new();
        assert(actions(out@) =~= nothing());
        let ghost s0 = self@;
        let i: usize = find_index(&self.tunnels, our_index);
        if i == self.tunnels.len() {
            return out;
        }
        self.tunnels[i].addr = src;
        let ghost s1 = s0.with_entry(i as int, EntryState { addr: src, ..s0.tunnels[i as int] });
        assert(self@.tunnels =~= s1.tunnels);
        if inner.len() == 0 {
            return out;
        }
        if let Some(b) = self.bench {
            if udp_payload_to_port(inner, BENCH_PORT).is_some() {
                let n: u64 = inner.len() as u64;
                let bytes: u64 = if b.bytes <= u64::MAX - n {
                    b.bytes + n
                } else {
                    u64::MAX
                };
                let pkts: u64 = if b.pkts < u64::MAX {
                    b.pkts + 1
                } else {
                    u64::MAX
                };
                self.bench = Some(Bench { bytes, pkts });
                out.push(Action::BenchCounted);
                assert(actions(out@) =~= seq![ActionState::BenchCounted]);
                return out;
            }
        } else if !src_allowed(&id.allowed_srcs, inner) {
            return out;
        }
        self.deliver(i, inner, src, iss, &mut out);
        assert(actions(out@) =~= s1.deliver(i as int, inner@, src, iss).1);
        out
    }

    /// Delivers a packet of tunnel `i` that was let through.
    fn deliver(&mut self, i: usize, inner: &[u8], src: SocketAddr, iss: u32, out: &mut Vec<Action>)
        requires
            i < old(self).tunnels@.len(),
        ensures
            final(self)@ == old(self)@.deliver(i as int, inner@, src, iss).0,
            actions(final(out)@) == actions(old(out)@) + old(self)@.deliver(
                i as int,
                inner@,
                src,
                iss,
            ).1,
    {
        let ghost s0 = self@;
        let ghost e0 = s0.tunnels[i as int];
        let ghost was = actions(out@);
        if key_eq(&self.tunnels[i].peer_node, &self.mdns_partner) {
            if let Some(payload) = udp_payload_to_port(inner, FWD_PORT) {
                if self.mdns_reinject {
                    out.push(Action::Reinject(payload));
                }
                assert(actions(out@) =~= was + s0.deliver(i as int, inner@, src, iss).1);
                return;
            }
        }
        let is_target: bool = match &self.outbound {
            Some(o) => key_eq(&o.cfg.target_node, &self.tunnels[i].peer_node),
            None => false,
        };
        assert(is_target == s0.is_target(i as int));
        if is_target {
            let mut segs: Vec<Vec<u8>> = Vec::new();
            let mut fresh: bool = false;
            if let Some(o) = &mut self.outbound {
                let got = o.on_inner(inner);
                segs = got.0;
                fresh = got.1;
            }
            assert(packets(segs@).len() == segs@.len());
            if segs.len() > 0 || fresh {
                send_all(&mut self.tunnels[i].tun, &segs, src, out);
                let ghost mid = actions(out@);
                let ghost sent = send_all_of(e0.tun, packets(segs@), src).1;
                if fresh {
                    out.push(Action::HttpDone);
                    assert(actions(out@) =~= mid.push(ActionState::HttpDone));
                    assert(actions(out@) =~= was + (sent + seq![ActionState::HttpDone]));
                } else {
                    assert(actions(out@) =~= was + (sent + nothing()));
                }
                assert(actions(out@) =~= was + s0.deliver(i as int, inner@, src, iss).1);
                assert(self@.tunnels =~= s0.deliver(i as int, inner@, src, iss).0.tunnels);
                return;
            }
        }
        service(&mut self.tunnels[i], inner, src, iss, out);
        assert(self@.tunnels =~= s0.deliver(i as int, inner@, src, iss).0.tunnels);
    }
}

// --- tunnels and handshakes come and go ---

/// The tunnels without those to `addr` and without the one with index `index`.
pub open spec fn without(s: Seq<EntryState>, addr: SocketAddr, index: u32) -> Seq<EntryState>
    decreases s.len(),
{
    if s.len() == 0 {
        Seq::empty()
    } else {
        let rest = without(s.drop_last(), addr, index);
        if s.last().addr == addr || s.last().tun.our_index == index {
            rest
        } else {
            rest.push(s.last())
        }
    }
}

/// The pending handshakes without the one to `node`.
pub open spec fn without_node(s: Seq<PendingState>, node: Seq<u8>) -> Seq<PendingState>
    decreases s.len(),
{
    if s.len() == 0 {
        Seq::empty()
    } else {
        let rest = without_node(s.drop_last(), node);
        if s.last().node == node {
            rest
        } else {
            rest.push(s.last())
        }
    }
}

/// The place of the handshake with this index.
pub open spec fn pending_at(s: Seq<PendingState>, index: u32) -> int {
    first_where(s, |p: PendingState| p.hs.our_index == index)
}

/// Whether a handshake to `node` is in flight.
pub open spec fn has_pending(s: Seq<PendingState>, node: Seq<u8>) -> bool {
    exists|i: int| 0 <= i < s.len() && #[trigger] s[i].node == node
}

/// The name of the peer with this disco key.
pub open spec fn name_of(targets: Seq<TargetState>, disco_pub: Seq<u8>) -> Seq<char> {
    let k = first_where(targets, |t: TargetState| t.disco_pub == disco_pub);
    if k < targets.len() {
        targets[k].name
    } else {
        "unknown"@
    }
}

/// The response that a node gives to the initiation `i`.
pub open spec fn answer_to(i: Initiation, index: u32, eph: Seq<u8>) -> Response {
    Response {
        transcript: i.transcript(),
        eph_priv: eph,
        initiator_eph: x25519_base(i.eph_priv),
        initiator_pub: i.static_pub,
        our_index: index,
        their_index: i.index,
    }
}

/// What the caller knows besides the state when a packet arrives.
pub struct Arrival {
    pub id: IdentityState,
    pub targets: Seq<TargetState>,
    /// The current time in milliseconds on the caller's clock.
    pub now_ms: u64,
    /// The current time as a handshake timestamp.
    pub stamp: Seq<u8>,
    pub src: SocketAddr,
    pub nonce: Seq<u8>,
    pub index: u32,
    pub eph: Seq<u8>,
    pub iss: u32,
}

impl Arrival {
    /// The initiation to the owner of `peer_pub`.
    pub open spec fn initiation(self, peer_pub: Seq<u8>) -> Initiation {
        Initiation {
            static_priv: self.id.node_priv,
            static_pub: self.id.node_pub,
            peer_pub,
            timestamp: self.stamp,
            index: self.index,
            eph_priv: self.eph,
        }
    }
}

impl NodeState {
    /// The node with a new tunnel, which replaces others to the same address.
    pub open spec fn with_tunnel(self, tun: TunnelState, addr: SocketAddr, peer_node: Seq<u8>) -> NodeState {
        NodeState {
            tunnels: without(self.tunnels, addr, tun.our_index).push(
                EntryState { tun, addr, peer_node, tcp: Conn::idle() },
            ),
            ..self
        }
    }

    /// The node with a handshake in flight.
    pub open spec fn with_pending(self, p: PendingState) -> NodeState {
        NodeState { pending: without_node(self.pending, p.node).push(p), ..self }
    }

    /// Whether `a` is a proper answer to a handshake that is in flight.
    pub open spec fn awaits(self, a: Response) -> bool {
        let k = pending_at(self.pending, a.their_index);
        &&& k < self.pending.len()
        &&& a.transcript == self.pending[k].hs.transcript
        &&& a.initiator_eph == x25519_base(self.pending[k].hs.eph_priv)
        &&& a.initiator_pub == x25519_base(self.pending[k].hs.our_static_priv)
        &&& a.their_index == self.pending[k].hs.our_index
        &&& a.eph_priv.len() == 32
        &&& a.shaped()
    }

    /// The handshake to start once a path to the peer with this disco key is
    /// confirmed: none to an unknown peer, none while one is in flight or a tunnel to the
    /// peer exists, and none beyond the limit.
    pub open spec fn start_of(self, a: Arrival, disco_pub: Seq<u8>) -> Option<PendingState> {
        let k = first_where(a.targets, |t: TargetState| t.disco_pub == disco_pub);
        if k >= a.targets.len() {
            None
        } else {
            let t = a.targets[k];
            if has_pending(self.pending, t.node_pub) || tunnel_to(self.tunnels, t.node_pub)
                < self.tunnels.len() || self.tunnels.len() + self.pending.len() >= MAX_TUNNELS {
                None
            } else {
                let i = a.initiation(t.node_pub);
                Some(
                    PendingState {
                        node: t.node_pub,
                        addr: a.src,
                        init: i.bytes(),
                        hs: i.handshake(),
                        sent_ms: a.now_ms,
                        retries: 0,
                    },
                )
            }
        }
    }

    /// After a pong: the path is confirmed, and a handshake may start.
    pub open spec fn on_pong(self, a: Arrival, disco_pub: Seq<u8>) -> (NodeState, Seq<ActionState>) {
        let known = self.confirmed.contains(a.src);
        (
            if known {
                self
            } else {
                NodeState { confirmed: self.confirmed.push(a.src), ..self }
            },
            (if known {
                nothing()
            } else {
                seq![ActionState::Confirmed { who: name_of(a.targets, disco_pub), addr: a.src }]
            }) + match self.start_of(a, disco_pub) {
                Some(p) => seq![ActionState::Initiate(p)],
                None => nothing(),
            },
        )
    }

    /// After a disco packet: a ping is answered with a pong, a pong confirms the path.
    pub open spec fn on_disco(self, a: Arrival, pkt: Seq<u8>) -> (NodeState, Seq<ActionState>) {
        match packet_of(a.id.disco_priv, pkt) {
            Err(_) => (self, nothing()),
            Ok(m) => if m.msg_type == PING {
                (
                    self,
                    seq![
                        ActionState::Send {
                            pkt: wire_of(
                                a.id.disco_priv,
                                a.id.disco_pub,
                                m.sender_disco_pub,
                                a.nonce,
                                pong_of(m.txid, a.src),
                            ),
                            dst: a.src,
                        },
                    ],
                )
            } else if m.msg_type == PONG {
                self.on_pong(a, m.sender_disco_pub)
            } else {
                (self, nothing())
            },
        }
    }

    /// After a peer's handshake initiation: the response goes out and the tunnel is
    /// there.
    pub open spec fn on_init(self, a: Arrival, pkt: Seq<u8>) -> (NodeState, Seq<ActionState>) {
        match read_initiation_of(a.id.node_priv, a.id.node_pub, pkt) {
            Err(_) => (self, nothing()),
            Ok(got) => {
                let resp = response_to(pkt, got.0, got.1, a.index, a.eph);
                (
                    self.with_tunnel(resp.tunnel(), a.src, got.1),
                    seq![ActionState::Send { pkt: resp.bytes(), dst: a.src }],
                )
            },
        }
    }

    /// After a handshake response: the pending handshake that it names ends, and if the
    /// response is right the tunnel is there and a keepalive goes out.
    pub open spec fn on_response(self, pkt: Seq<u8>, src: SocketAddr) -> (
        NodeState,
        Seq<ActionState>,
    ) {
        let k = pending_at(self.pending, get_le32(pkt, 8) as u32);
        if pkt.len() < 12 || k >= self.pending.len() {
            (self, nothing())
        } else {
            let p = self.pending[k];
            let s = NodeState { pending: self.pending.remove(k), ..self };
            match read_response_of(p.hs, pkt) {
                Err(_) => (s, nothing()),
                Ok(t) => (
                    s.with_tunnel(TunnelState { tx_counter: 1, ..t }, src, p.node),
                    seq![
                        ActionState::Send {
                            pkt: transport_bytes(t.send_key, t.their_index, 0, Seq::empty()),
                            dst: src,
                        },
                    ],
                ),
            }
        }
    }

    /// After a transport packet: where its tunnel exists and it decrypts, the inner
    /// packet is handled.
    pub open spec fn on_transport(self, a: Arrival, pkt: Seq<u8>) -> (NodeState, Seq<ActionState>) {
        let index = get_le32(pkt, 4) as u32;
        let i = tunnel_at(self.tunnels, index);
        if pkt.len() < 16 || i >= self.tunnels.len() {
            (self, nothing())
        } else {
            match transport_open(self.tunnels[i].tun.recv_key, pkt) {
                None => (self, nothing()),
                Some(inner) => self.decrypted(a.id, index, inner, a.src, a.iss),
            }
        }
    }

    /// After a datagram.
    pub open spec fn on_packet(self, a: Arrival, pkt: Seq<u8>) -> (NodeState, Seq<ActionState>) {
        if has_magic(pkt) {
            self.on_disco(a, pkt)
        } else if looks_like_stun(pkt) || pkt.len() == 0 {
            (self, nothing())
        } else if pkt[0] == MSG_INITIATION {
            self.on_init(a, pkt)
        } else if pkt[0] == MSG_RESPONSE {
            self.on_response(pkt, a.src)
        } else if pkt[0] == MSG_TRANSPORT {
            self.on_transport(a, pkt)
        } else {
            (self, nothing())
        }
    }
}

/// Finds the target with this disco key.
fn find_target(targets: &Vec<Target>, disco_pub: &[u8; 32]) -> (r: usize)
    ensures
        r == first_where(
            target_states(targets@),
            |t: TargetState| t.disco_pub == disco_pub@,
        ),
        r <= targets@.len(),
{
    let mut i: usize = 0;
    while i < targets.len() && !key_eq(&targets[i].disco_pub, disco_pub)
        invariant
            i <= targets@.len(),
            forall|k: int| 0 <= k < i ==> target_states(targets@)[k].disco_pub != disco_pub@,
        decreases targets@.len() - i,
    {
        assert(target_states(targets@)[i as int].disco_pub == targets@[i as int].disco_pub@);
        i = i + 1;
    }
    proof {
        if i < targets@.len() {
            assert(target_states(targets@)[i as int].disco_pub == targets@[i as int].disco_pub@);
        }
        lemma_first_where_is(
            target_states(targets@),
            |t: TargetState| t.disco_pub == disco_pub@,
            i as int,
        );
    }
    i
}

/// The name of the peer with this disco key.
pub fn name_for(targets: &Vec<Target>, disco_pub: &[u8; 32]) -> (r: String)
    ensures
        r@ == name_of(target_states(targets@), disco_pub@),
{
    let k: usize = find_target(targets, disco_pub);
    if k < targets.len() {
        targets[k].name.clone()
    } else {
        "unknown".to_owned()
    }
}

/// Drops the tunnels to `addr` and the one with index `index`.
fn drop_tunnels(v: &mut Vec<TunnelEntry>, addr: SocketAddr, index: u32)
    ensures
        entries(final(v)@) == without(entries(old(v)@), addr, index),
{
    let ghost orig = entries(v@);
    let ghost n = orig.len() as int;
    let ghost mut j: int = 0;
    let mut i: usize = 0;
    assert(orig.subrange(0, 0) =~= Seq::empty());
    assert(entries(v@) =~= without(orig.subrange(0, 0), addr, index) + orig.subrange(0, n));
    while i < v.len()
        invariant
            0 <= j <= n,
            n == orig.len(),
            i <= v@.len(),
            i == without(orig.subrange(0, j), addr, index).len(),
            entries(v@) == without(orig.subrange(0, j), addr, index) + orig.subrange(j, n),
        decreases v@.len() - i,
    {
        let ghost was = entries(v@);
        let ghost left = without(orig.subrange(0, j), addr, index);
        proof {
            assert(was.len() == v@.len());
            assert(was[i as int] == orig[j]);
            assert(v@[i as int]@ == orig[j]);
            assert(orig.subrange(0, j + 1).drop_last() =~= orig.subrange(0, j));
        }
        if v[i].addr == addr || v[i].tun.our_index == index {
            let _ = v.remove(i);
            assert(entries(v@) =~= was.remove(i as int));
            assert(entries(v@) =~= left + orig.subrange(j + 1, n));
        } else {
            assert(was =~= left.push(orig[j]) + orig.subrange(j + 1, n));
            i = i + 1;
        }
        proof {
            j = j + 1;
        }
    }
    proof {
        assert(j == n) by {
            assert(entries(v@).len() == v@.len());
        }
        assert(orig.subrange(0, n) =~= orig);
        assert(entries(v@) =~= without(orig, addr, index));
    }
}

/// Drops the handshake to `node`.
fn drop_pending(v: &mut Vec<Pending>, node: &[u8; 32])
    ensures
        pendings(final(v)@) == without_node(pendings(old(v)@), node@),
{
    let ghost orig = pendings(v@);
    let ghost n = orig.len() as int;
    let ghost mut j: int = 0;
    let mut i: usize = 0;
    assert(orig.subrange(0, 0) =~= Seq::empty());
    assert(pendings(v@) =~= without_node(orig.subrange(0, 0), node@) + orig.subrange(0, n));
    while i < v.len()
        invariant
            0 <= j <= n,
            n == orig.len(),
            i <= v@.len(),
            i == without_node(orig.subrange(0, j), node@).len(),
            pendings(v@) == without_node(orig.subrange(0, j), node@) + orig.subrange(j, n),
        decreases v@.len() - i,
    {
        let ghost was = pendings(v@);
        let ghost left = without_node(orig.subrange(0, j), node@);
        proof {
            assert(was.len() == v@.len());
            assert(was[i as int] == orig[j]);
            assert(v@[i as int]@ == orig[j]);
            assert(orig.subrange(0, j + 1).drop_last() =~= orig.subrange(0, j));
        }
        if key_eq(&v[i].node, node) {
            let _ = v.remove(i);
            assert(pendings(v@) =~= was.remove(i as int));
            assert(pendings(v@) =~= left + orig.subrange(j + 1, n));
        } else {
            assert(was =~= left.push(orig[j]) + orig.subrange(j + 1, n));
            i = i + 1;
        }
        proof {
            j = j + 1;
        }
    }
    proof {
        assert(j == n) by {
            assert(pendings(v@).len() == v@.len());
        }
        assert(orig.subrange(0, n) =~= orig);
        assert(pendings(v@) =~= without_node(orig, node@));
    }
}

/// Whether an address is in the list.
pub fn addr_in(v: &Vec<SocketAddr>, a: SocketAddr) -> (r: bool)
    ensures
        r == v@.contains(a),
{
    let mut i: usize = 0;
    while i < v.len()
        invariant
            i <= v@.len(),
            forall|k: int| 0 <= k < i ==> v@[k] != a,
        decreases v@.len() - i,
    {
        if v[i] == a {
            assert(v@[i as int] == a);
            return true;
        }
        i = i + 1;
    }
    false
}

/// What the caller knows besides the state when a packet arrives.
pub open spec fn arrival(
    id: Identity,
    targets: Vec<Target>,
    now_ms: u64,
    stamp: [u8; 12],
    src: SocketAddr,
    ent: Entropy,
) -> Arrival {
    Arrival {
        id: id@,
        targets: target_states(targets@),
        now_ms,
        stamp: stamp@,
        src,
        nonce: ent.nonce@,
        index: ent.index,
        eph: ent.eph@,
        iss: ent.iss,
    }
}

impl State {
    /// Adds a tunnel; a new handshake with the same address replaces its tunnel.
    pub fn insert_tunnel(&mut self, tun: Tunnel, addr: SocketAddr, peer_node: [u8; 32])
        ensures
            final(self)@ == old(self)@.with_tunnel(tun@, addr, peer_node@),
    {
        let ghost s0 = self@;
        drop_tunnels(&mut self.tunnels, addr, tun.our_index);
        self.tunnels.push(TunnelEntry { tun, addr, peer_node, tcp: TcpServer::new() });
        assert(self@.tunnels =~= s0.with_tunnel(tun@, addr, peer_node@).tunnels);
    }

    /// Notes that an initiation went out.
    pub fn initiated(&mut self, p: Pending)
        ensures
            final(self)@ == old(self)@.with_pending(p@),
    {
        let ghost s0 = self@;
        let node = p.node;
        drop_pending(&mut self.pending, &node);
        self.pending.push(p);
        assert(self@.pending =~= s0.with_pending(p@).pending);
    }

    /// Whether a handshake to `node` is in flight.
    fn in_flight(&self, node: &[u8; 32]) -> (r: bool)
        ensures
            r == has_pending(self@.pending, node@),
    {
        let mut i: usize = 0;
        while i < self.pending.len()
            invariant
                i <= self.pending@.len(),
                forall|k: int| 0 <= k < i ==> #[trigger] self@.pending[k].node != node@,
            decreases self.pending@.len() - i,
        {
            assert(self@.pending[i as int].node == self.pending@[i as int].node@);
            if key_eq(&self.pending[i].node, node) {
                return true;
            }
            i = i + 1;
        }
        false
    }

    /// The handshake to start on a confirmed path to the peer with this disco key, if
    /// one is due.
    pub fn maybe_start_handshake(
        &self,
        id: &Identity,
        targets: &Vec<Target>,
        now_ms: u64,
        stamp: [u8; 12],
        disco_pub: &[u8; 32],
        src: SocketAddr,
        ent: &Entropy,
    ) -> (r: Option<Pending>)
        ensures
            match r {
                Some(p) => self@.start_of(
                    arrival(*id, *targets, now_ms, stamp, src, *ent),
                    disco_pub@,
                ) == Some(p@),
                None => self@.start_of(
                    arrival(*id, *targets, now_ms, stamp, src, *ent),
                    disco_pub@,
                ) is None,
            },
            r matches Some(p) ==> arrival(*id, *targets, now_ms, stamp, src, *ent).initiation(
                p.node@,
            ).shaped(),
    {
        let k: usize = find_target(targets, disco_pub);
        if k == targets.len() {
            return None;
        }
        assert(target_states(targets@)[k as int] == targets@[k as int]@);
        let node = targets[k].node_pub;
        if self.in_flight(&node) || find_node(&self.tunnels, &node) < self.tunnels.len()
            || self.tunnels.len() >= MAX_TUNNELS || self.pending.len() >= MAX_TUNNELS
            - self.tunnels.len() {
            return None;
        }
        let (init, hs) = build_initiation_with(
            &id.node_priv,
            &id.node_pub,
            &node,
            stamp,
            ent.index,
            ent.eph,
        );
        Some(Pending { node, addr: src, init, hs, sent_ms: now_ms, retries: 0 })
    }

    /// Handles a disco packet.
    fn handle_disco(
        &mut self,
        id: &Identity,
        targets: &Vec<Target>,
        now_ms: u64,
        stamp: [u8; 12],
        pkt: &[u8],
        src: SocketAddr,
        ent: &Entropy,
    ) -> (r: Vec<Action>)
        ensures
            (final(self)@, actions(r@)) == old(self)@.on_disco(
                arrival(*id, *targets, now_ms, stamp, src, *ent),
                pkt@,
            ),
    {
        let ghost s0 = self@;
        let ghost a = arrival(*id, *targets, now_ms, stamp, src, *ent);
        let mut out: Vec<Action> = Vec::new();
        assert(actions(out@) =~= nothing());
        let msg = match disco_open(&id.disco_priv, pkt) {
            Ok(m) => m,
            Err(_) => {
                return out;
            },
        };
        if msg.msg_type == PING {
            let pt = pong_plaintext(&msg.txid, src);
            let reply = seal_with(
                &id.disco_priv,
                &id.disco_pub,
                &msg.sender_disco_pub,
                &ent.nonce,
                pt.as_slice(),
            );
            out.push(Action::Send { pkt: reply, dst: src });
            assert(actions(out@) =~= s0.on_disco(a, pkt@).1);
        } else if msg.msg_type == PONG {
            let start = self.maybe_start_handshake(
                id,
                targets,
                now_ms,
                stamp,
                &msg.sender_disco_pub,
                src,
                ent,
            );
            if !addr_in(&self.confirmed, src) {
                self.confirmed.push(src);
                let who = name_for(targets, &msg.sender_disco_pub);
                out.push(Action::Confirmed { who, addr: src });
            }
            if let Some(p) = start {
                out.push(Action::Initiate(p));
            }
            assert(actions(out@) =~= s0.on_disco(a, pkt@).1);
        }
        out
    }

    /// Handles a handshake initiation: a peer wants to reach this node. One that was made for
    /// this node's keys is answered, and the tunnel is there.
    pub fn handle_wg_init(&mut self, id: &Identity, pkt: &[u8], src: SocketAddr, ent: &Entropy) -> (r:
        Vec<Action>)
        ensures
            forall|a: Arrival|
                a.id == id@ && a.src == src && a.index == ent.index && a.eph == ent.eph@
                    ==> (final(self)@, actions(r@)) == #[trigger] old(self)@.on_init(a, pkt@),
            forall|i: Initiation|
                i.wf() && i.peer_pub == id@.node_pub && id@.node_pub == x25519_base(id@.node_priv)
                    && i.shaped() && pkt@.len() == INIT_LEN && pkt@ == #[trigger] i.bytes() ==> {
                    let resp = answer_to(i, ent.index, ent.eph@);
                    &&& final(self)@ == old(self)@.with_tunnel(resp.tunnel(), src, i.static_pub)
                    &&& actions(r@) == seq![ActionState::Send { pkt: resp.bytes(), dst: src }]
                    &&& resp.shaped()
                    &&& resp.bytes().len() == RESP_LEN
                },
    {
        let mut out: Vec<Action> = Vec::new();
        assert(actions(out@) =~= nothing());
        match read_initiation(&id.node_priv, &id.node_pub, pkt) {
            Ok(got) => {
                let (resp, tun) = build_response(&got, ent.index, &ent.eph);
                self.insert_tunnel(tun, src, got.initiator_pub);
                let pkt_out = copy_range(resp.as_slice(), 0, 92);
                assert(pkt_out@ =~= resp@);
                out.push(Action::Send { pkt: pkt_out, dst: src });
                assert(actions(out@) =~= seq![ActionState::Send { pkt: resp@, dst: src }]);
            },
            Err(_) => {},
        }
        out
    }

    /// Handles a handshake response. A proper answer to a handshake in flight brings up the
    /// other end of the responder's tunnel.
    pub fn handle_wg_response(&mut self, pkt: &[u8], src: SocketAddr) -> (r: Vec<Action>)
        ensures
            (final(self)@, actions(r@)) == old(self)@.on_response(pkt@, src),
            forall|a: Response|
                old(self)@.awaits(a) && pkt@.len() == RESP_LEN && pkt@ == #[trigger] a.bytes()
                    ==> final(self)@.tunnels.last().tun == (TunnelState {
                    tx_counter: 1,
                    ..a.initiator_tunnel()
                }),
    {
        let ghost s0 = self@;
        let mut out: Vec<Action> = Vec::new();
        assert(actions(out@) =~= nothing());
        proof {
            assert forall|a: Response| a.shaped() && pkt@ == #[trigger] a.bytes() implies get_le32(
                pkt@,
                8,
            ) == a.their_index by {
                lemma_response_index(a);
            }
        }
        if pkt.len() < 12 {
            return out;
        }
        let recv: u32 = read_le32(pkt, 8);
        let mut k: usize = 0;
        while k < self.pending.len() && self.pending[k].hs.our_index != recv
            invariant
                k <= self.pending@.len(),
                recv == get_le32(pkt@, 8),
                self@ == s0,
                forall|j: int| 0 <= j < k ==> #[trigger] s0.pending[j].hs.our_index != recv,
            decreases self.pending@.len() - k,
        {
            assert(s0.pending[k as int].hs.our_index == self.pending@[k as int].hs.our_index);
            k = k + 1;
        }
        proof {
            if k < self.pending@.len() {
                assert(s0.pending[k as int].hs.our_index == self.pending@[k as int].hs.our_index);
            }
            lemma_first_where_is(s0.pending, |p: PendingState| p.hs.our_index == recv, k as int);
            assert(k == pending_at(s0.pending, recv));
        }
        if k == self.pending.len() {
            return out;
        }
        let p = self.pending.remove(k);
        assert(self@.pending =~= s0.pending.remove(k as int));
        let node = p.node;
        match p.hs.consume_response(pkt) {
            Ok(tunnel) => {
                let mut tun = tunnel;
                let ka = tun.keepalive();
                out.push(Action::Send { pkt: ka, dst: src });
                self.insert_tunnel(tun, src, node);
                assert(actions(out@) =~= s0.on_response(pkt@, src).1);
            },
            Err(_) => {},
        }
        out
    }

    /// Handles a transport packet.
    pub fn handle_wg_transport(&mut self, id: &Identity, pkt: &[u8], src: SocketAddr, iss: u32) -> (r:
        Vec<Action>)
        ensures
            forall|a: Arrival|
                a.id == id@ && a.src == src && a.iss == iss ==> (final(self)@, actions(r@))
                    == #[trigger] old(self)@.on_transport(a, pkt@),
    {
        let out: Vec<Action> = Vec::new();
        assert(actions(out@) =~= nothing());
        if pkt.len() < 16 {
            return out;
        }
        let index: u32 = read_le32(pkt, 4);
        let i: usize = find_index(&self.tunnels, index);
        if i == self.tunnels.len() {
            return out;
        }
        match self.tunnels[i].tun.decrypt(pkt) {
            Ok(inner) => self.handle_decrypted(id, index, inner.as_slice(), src, iss),
            Err(_) => out,
        }
    }

    /// Handles one datagram.
    pub fn handle_packet(
        &mut self,
        id: &Identity,
        targets: &Vec<Target>,
        now_ms: u64,
        stamp: [u8; 12],
        pkt: &[u8],
        src: SocketAddr,
        ent: &Entropy,
    ) -> (r: Vec<Action>)
        ensures
            (final(self)@, actions(r@)) == old(self)@.on_packet(
                arrival(*id, *targets, now_ms, stamp, src, *ent),
                pkt@,
            ),
    {
        let ghost a = arrival(*id, *targets, now_ms, stamp, src, *ent);
        if is_disco(pkt) {
            return self.handle_disco(id, targets, now_ms, stamp, pkt, src, ent);
        }
        if !is_stun(pkt) && pkt.len() > 0 {
            if pkt[0] == MSG_INITIATION {
                let ghost s0 = self@;
                let out = self.handle_wg_init(id, pkt, src, ent);
                assert((self@, actions(out@)) == s0.on_init(a, pkt@));
                return out;
            }
            if pkt[0] == MSG_RESPONSE {
                return self.handle_wg_response(pkt, src);
            }
            if pkt[0] == MSG_TRANSPORT {
                let ghost s0 = self@;
                let out = self.handle_wg_transport(id, pkt, src, ent.iss);
                assert((self@, actions(out@)) == s0.on_transport(a, pkt@));
                return out;
            }
        }
        let out: Vec<Action> = Vec::new();
        assert(actions(out@) =~= nothing());
        out
    }
}

// --- diagnostics ---

/// What a datagram looks like from outside.
#[derive(Clone, Copy, Debug, PartialEq, Eq, Structural)]
pub enum PacketKind {
    Disco,
    WgInit,
    WgResponse,
    WgData,
    Other,
}

/// What a datagram looks like.
pub open spec fn kind_of(pkt: Seq<u8>) -> PacketKind {
    if has_magic(pkt) {
        PacketKind::Disco
    } else if pkt.len() == 0 {
        PacketKind::Other
    } else if pkt[0] == MSG_INITIATION {
        PacketKind::WgInit
    } else if pkt[0] == MSG_RESPONSE {
        PacketKind::WgResponse
    } else if pkt[0] == MSG_TRANSPORT {
        PacketKind::WgData
    } else {
        PacketKind::Other
    }
}

/// Tells a datagram from outside the local network, other than a STUN answer, from the
/// rest: what it looks like.
pub fn remote_kind(pkt: &[u8], src: SocketAddr) -> (r: Option<PacketKind>)
    ensures
        r == if (src matches SocketAddr::V4(a) && a.ip.a == 192 && a.ip.b == 168)
            || looks_like_stun(pkt@) {
            None
        } else {
            Some(kind_of(pkt@))
        },
{
    if let SocketAddr::V4(a) = src {
        if a.ip.a == 192 && a.ip.b == 168 {
            return None;
        }
    }
    if is_stun(pkt) {
        return None;
    }
    if is_disco(pkt) {
        return Some(PacketKind::Disco);
    }
    if pkt.len() == 0 {
        return Some(PacketKind::Other);
    }
    let first: u8 = pkt[0];
    if first == MSG_INITIATION {
        Some(PacketKind::WgInit)
    } else if first == MSG_RESPONSE {
        Some(PacketKind::WgResponse)
    } else if first == MSG_TRANSPORT {
        Some(PacketKind::WgData)
    } else {
        Some(PacketKind::Other)
    }
}

} // verus!
