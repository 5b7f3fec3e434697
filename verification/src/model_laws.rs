//! The models stand for the values: each field of a model is what that field of the value holds.
use vstd::prelude::*;
use vstd::utf8::encode_utf8;
use crate::dataplane::{actions, Action, ActionState, OutboundRun, Pending, State, TunnelEntry};
use crate::derp::{relay_actions, Relay, RelayAction, RelayActionState, RelayPeer};
use crate::disco::Incoming;
use crate::h2::Frame;
use crate::keys::KeyStore;
use crate::noise::Transport;
use crate::node::{target_states, Identity, Target};
use crate::outbound::TcpClient;
use crate::peers::PeerInfo;
use crate::periodic::{jobs, ProbeJob};
use crate::wg::{Handshake, Tunnel};

verus! {

/// Of a tunnel and of a handshake in progress.
pub proof fn law_tunnel_model(t: Tunnel, hs: Handshake)
    ensures
        t@.send_key == t.send_key@,
        t@.recv_key == t.recv_key@,
        t@.their_index == t.their_index,
        t@.our_index == t.our_index,
        t@.tx_counter == t.tx_counter,
        hs@.transcript.c == hs.chaining@,
        hs@.transcript.h == hs.hash@,
        hs@.eph_priv == hs.eph_priv@,
        hs@.our_static_priv == hs.our_static_priv@,
        hs@.our_index == hs.our_index,
{
}

/// Of a pending handshake and of an established tunnel.
pub proof fn law_entry_model(p: Pending, e: TunnelEntry)
    ensures
        p@.node == p.node@,
        p@.addr == p.addr,
        p@.init == p.init@,
        p@.hs == p.hs@,
        p@.sent_ms == p.sent_ms,
        p@.retries == p.retries,
        e@.tun == e.tun@,
        e@.addr == e.addr,
        e@.peer_node == e.peer_node@,
        e@.tcp == e.tcp.conn,
{
}

/// Of the node's own traffic.
pub proof fn law_outbound_model(o: OutboundRun)
    ensures
        o@.our_ip == o.cfg.our_ip,
        o@.target_ip == o.cfg.target_ip,
        o@.target_node == o.cfg.target_node@,
        o@.http_port == o.cfg.http_port,
        o@.http_path == o.cfg.http_path@,
        o@.ident == o.ident,
        o@.seq == o.seq,
        o@.sport == o.sport,
        o@.tcp is Some <==> o.tcp is Some,
        o.tcp is Some ==> o@.tcp->0 == o.tcp->0@,
        o@.started == o.started,
        o@.http_done == o.http_done,
{
}

/// Of the data plane: its lists in their order.
pub proof fn law_state_model(s: State)
    ensures
        s@.pending.len() == s.pending@.len(),
        forall|i: int| 0 <= i < s.pending@.len() ==> s@.pending[i] == (#[trigger] s.pending@[i])@,
        s@.tunnels.len() == s.tunnels@.len(),
        forall|i: int| 0 <= i < s.tunnels@.len() ==> s@.tunnels[i] == (#[trigger] s.tunnels@[i])@,
        s@.confirmed == s.confirmed@,
        s@.outbound is Some <==> s.outbound is Some,
        s.outbound is Some ==> s@.outbound->0 == s.outbound->0@,
        s@.mdns_reinject == s.mdns_reinject,
        s@.mdns_partner == s.mdns_partner@,
        s@.bench == s.bench,
{
}

/// Of what there is to do, in its order.
pub proof fn law_actions_model(v: Seq<Action>, i: int)
    requires
        0 <= i < v.len(),
    ensures
        actions(v).len() == v.len(),
        match v[i] {
            Action::Send { pkt, dst } => actions(v)[i] == (ActionState::Send { pkt: pkt@, dst }),
            Action::Initiate(p) => actions(v)[i] == ActionState::Initiate(p@),
            Action::Reinject(b) => actions(v)[i] == ActionState::Reinject(b@),
            Action::Confirmed { who, addr } => actions(v)[i] == (ActionState::Confirmed {
                who: who@,
                addr,
            }),
            Action::HttpDone => actions(v)[i] == ActionState::HttpDone,
            Action::BenchCounted => actions(v)[i] == ActionState::BenchCounted,
        },
{
}

/// Of what there is to do over the relay, in its order.
pub proof fn law_relay_actions_model(v: Seq<RelayAction>, i: int)
    requires
        0 <= i < v.len(),
    ensures
        relay_actions(v).len() == v.len(),
        match v[i] {
            RelayAction::Send { dst, pkt } => relay_actions(v)[i] == (RelayActionState::Send {
                dst: dst@,
                pkt: pkt@,
            }),
            RelayAction::AddTarget(t) => relay_actions(v)[i] == RelayActionState::AddTarget(t@),
        },
{
}

/// Of the relay.
pub proof fn law_relay_model(r: Relay, p: RelayPeer)
    ensures
        p@.src == p.src@,
        p@.tun == p.tun@,
        p@.tcp == p.tcp.conn,
        r@.peers.len() == r.peers@.len(),
        forall|i: int| 0 <= i < r.peers@.len() ==> r@.peers[i] == (#[trigger] r.peers@[i])@,
        r@.upgraded.len() == r.upgraded@.len(),
        forall|i: int|
            0 <= i < r.upgraded@.len() ==> r@.upgraded[i] == (#[trigger] r.upgraded@[i])@,
{
}

/// Of a target and of the targets in their order.
pub proof fn law_target_model(t: Target, v: Seq<Target>)
    ensures
        t@.name == t.name@,
        t@.disco_pub == t.disco_pub@,
        t@.node_pub == t.node_pub@,
        t@.endpoints == t.endpoints@,
        t@.spray == t.spray,
        target_states(v).len() == v.len(),
        forall|i: int| 0 <= i < v.len() ==> target_states(v)[i] == (#[trigger] v[i])@,
{
}

/// Of this node's identity.
pub proof fn law_identity_model(id: Identity)
    ensures
        id@.disco_priv == id.disco_priv@,
        id@.disco_pub == id.disco_pub@,
        id@.node_priv == id.node_priv@,
        id@.node_pub == id.node_pub@,
        id@.allowed_srcs is Some <==> id.allowed_srcs is Some,
        id.allowed_srcs is Some ==> id@.allowed_srcs->0 == id.allowed_srcs->0@,
{
}

/// Of a peer of the netmap.
pub proof fn law_peer_model(p: PeerInfo)
    ensures
        p@.node_key == p.node_key@,
        p@.disco_key == p.disco_key@,
        p@.tailscale_ip is Some <==> p.tailscale_ip is Some,
        p.tailscale_ip is Some ==> p@.tailscale_ip->0 == encode_utf8(p.tailscale_ip->0@),
        p@.endpoints == p.endpoints@,
        p@.hostname == p.hostname@,
{
}

/// Of a disco message that came in.
pub proof fn law_incoming_model(m: Incoming)
    ensures
        m@.sender_disco_pub == m.sender_disco_pub@,
        m@.msg_type == m.msg_type,
        m@.txid == m.txid@,
        m@.endpoints == m.endpoints@,
{
}

/// Of the three stored keys, each under its own name.
pub proof fn law_store_model(k: KeyStore)
    ensures
        k@.machine is Some <==> k.machine is Some,
        k.machine is Some ==> k@.machine->0 == k.machine->0@,
        k@.node is Some <==> k.node is Some,
        k.node is Some ==> k@.node->0 == k.node->0@,
        k@.disco is Some <==> k.disco is Some,
        k.disco is Some ==> k@.disco->0 == k.disco->0@,
{
}

/// Of the keys and counters of the control channel.
pub proof fn law_transport_model(t: Transport)
    ensures
        t@.send_key == t.send_key@,
        t@.recv_key == t.recv_key@,
        t@.tx_nonce == t.tx_nonce,
        t@.rx_nonce == t.rx_nonce,
{
}

/// Of an HTTP/2 frame.
pub proof fn law_frame_model(f: Frame)
    ensures
        f@.typ == f.typ,
        f@.flags == f.flags,
        f@.stream_id == f.stream_id,
        f@.payload == f.payload@,
{
}

/// Of a probe and of the probes in their order.
pub proof fn law_job_model(j: ProbeJob, v: Seq<ProbeJob>)
    ensures
        j@.pkt == j.pkt@,
        j@.endpoints == j.endpoints@,
        j@.spray == j.spray@,
        jobs(v).len() == v.len(),
        forall|i: int| 0 <= i < v.len() ==> jobs(v)[i] == (#[trigger] v[i])@,
{
}

/// Of the client of the node's own traffic.
pub proof fn law_client_model(c: TcpClient)
    ensures
        c@.src == c.src,
        c@.dst == c.dst,
        c@.sport == c.sport,
        c@.dport == c.dport,
        c@.snd_nxt == c.snd_nxt,
        c@.rcv_nxt == c.rcv_nxt,
        c@.request == c.request@,
        c@.response == c.response@,
        c@.done == c.done,
        c@.established == c.established,
{
}

} // verus!
