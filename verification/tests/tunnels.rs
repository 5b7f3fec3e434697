use tailscale_core::dataplane::{
    name_for, remote_kind, udp_payload_to_port, Action, OutboundRun, PacketKind, State,
};
use tailscale_core::disco::{open as disco_open, ping_plaintext, pong_plaintext, seal_with, PING, PONG};
use tailscale_core::icmp::echo_reply;
use tailscale_core::ipv4::{tcp_packet, tcp_view, TcpFields, ACK, PSH, SYN};
use tailscale_core::keys::Keypair;
use tailscale_core::net::{Ipv4Addr, SocketAddr, SocketAddrV4, SocketAddrV6};
use tailscale_core::node::{src_allowed, Identity, MdnsLink, OutboundCfg, Target};
use tailscale_core::outbound::{icmp_echo_request, udp_datagram};
use tailscale_core::periodic::{
    bench_stats_inner, birthday_ports, draw_probes, ip_eq, is_public_v4, merge_target, Pass, Route,
    Strikes,
};
use tailscale_core::rng::Entropy;
use tailscale_core::stun::is_stun;
use tailscale_core::wg::{decrypt_transport, tai64n, Tunnel};

fn ip(a: u8, b: u8, c: u8, d: u8) -> Ipv4Addr {
    Ipv4Addr::new(a, b, c, d)
}

fn at(last: u8, port: u16) -> SocketAddr {
    SocketAddr::V4(SocketAddrV4 { ip: ip(192, 168, 1, last), port })
}

fn identity(n: u8) -> Identity {
    let disco = Keypair::from_private([n; 32]);
    let node = Keypair::from_private([n + 100; 32]);
    Identity {
        disco_priv: disco.private,
        disco_pub: disco.public,
        node_priv: node.private,
        node_pub: node.public,
        allowed_srcs: None,
    }
}

fn target(n: u8, eps: Vec<SocketAddr>) -> Target {
    let id = identity(n);
    Target {
        name: format!("peer{n}"),
        disco_pub: id.disco_pub,
        node_pub: id.node_pub,
        endpoints: eps,
        spray: false,
    }
}

fn entropy(n: u8) -> Entropy {
    Entropy { nonce: [n; 24], index: 1000 + n as u32, eph: [n + 50; 32], iss: 7000 }
}

fn stamp() -> [u8; 12] {
    tai64n(1_700_000_000, 0)
}

fn sends(v: &[Action]) -> Vec<(Vec<u8>, SocketAddr)> {
    v.iter()
        .filter_map(|a| match a {
            Action::Send { pkt, dst } => Some((pkt.clone(), *dst)),
            _ => None,
        })
        .collect()
}

/// Two nodes with a tunnel between them, brought up through their packets.
fn connected() -> (State, Identity, State, Identity) {
    let (ia, ib) = (identity(1), identity(2));
    let (mut a, mut b) = (State::new(None, &None, false), State::new(None, &None, false));
    let ta = vec![target(2, vec![at(2, 200)])];
    let none: Vec<Target> = Vec::new();
    // B's pong reaches A, A starts the handshake.
    let pong = seal_with(
        &ib.disco_priv,
        &ib.disco_pub,
        &ia.disco_pub,
        &[8u8; 24],
        &pong_plaintext(&[1u8; 12], at(1, 100)),
    );
    let mut acts = a.handle_packet(&ia, &ta, 1, stamp(), &pong, at(2, 200), &entropy(1));
    assert_eq!(acts.len(), 2);
    let init = match acts.pop() {
        Some(Action::Initiate(p)) => p,
        _ => panic!("a handshake must start"),
    };
    match &acts[0] {
        Action::Confirmed { who, addr } => {
            assert_eq!(who, "peer2");
            assert_eq!(*addr, at(2, 200));
        }
        _ => panic!("the path must be confirmed"),
    }
    assert_eq!(init.addr, at(2, 200));
    let wire = init.init;
    a.initiated(init);
    assert_eq!(a.pending.len(), 1);
    let back = sends(&b.handle_packet(&ib, &none, 1, stamp(), &wire, at(1, 100), &entropy(2)));
    assert_eq!(back.len(), 1);
    assert_eq!(back[0].1, at(1, 100));
    let ka = sends(&a.handle_packet(&ia, &ta, 2, stamp(), &back[0].0, at(2, 200), &entropy(3)));
    assert_eq!(ka.len(), 1);
    assert!(a.pending.is_empty());
    assert_eq!((a.tunnels.len(), b.tunnels.len()), (1, 1));
    assert_eq!(a.tunnels[0].peer_node, ib.node_pub);
    assert_eq!(b.tunnels[0].peer_node, ia.node_pub);
    assert!(b.handle_packet(&ib, &none, 2, stamp(), &ka[0].0, at(1, 100), &entropy(4)).is_empty());
    (a, ia, b, ib)
}

fn through(st: &mut State, inner: &[u8]) -> Vec<u8> {
    st.tunnels[0].tun.encrypt(inner)
}

#[test]
fn disco_ping_gets_a_pong() {
    let (ia, ib) = (identity(1), identity(2));
    let mut st = State::new(None, &None, false);
    let ping = seal_with(
        &ib.disco_priv,
        &ib.disco_pub,
        &ia.disco_pub,
        &[8u8; 24],
        &ping_plaintext(&[5u8; 12], &ib.node_pub),
    );
    let out = sends(&st.handle_packet(&ia, &Vec::new(), 0, stamp(), &ping, at(2, 200), &entropy(1)));
    assert_eq!(out.len(), 1);
    assert_eq!(out[0].1, at(2, 200));
    let m = disco_open(&ib.disco_priv, &out[0].0).ok().unwrap();
    assert_eq!((m.msg_type, m.txid), (PONG, [5u8; 12]));
    assert_eq!(m.sender_disco_pub, ia.disco_pub);
}

#[test]
fn tunnel_comes_up_and_answers_a_ping() {
    let (mut a, _ia, mut b, ib) = connected();
    let req = icmp_echo_request(ip(100, 64, 0, 1), ip(100, 64, 0, 2), 3, 4, b"data");
    let pkt = through(&mut a, &req);
    // The peer has moved: the answer follows it.
    let out = sends(&b.handle_packet(&ib, &Vec::new(), 5, stamp(), &pkt, at(9, 900), &entropy(5)));
    assert_eq!(out.len(), 1);
    assert_eq!(out[0].1, at(9, 900));
    assert_eq!(b.tunnels[0].addr, at(9, 900));
    let inner = a.tunnels[0].tun.decrypt(&out[0].0).unwrap();
    let want = echo_reply(&req).unwrap();
    assert_eq!(&inner[..want.len()], &want[..]);
}

#[test]
fn tunnel_serves_the_page() {
    let (mut a, _ia, mut b, ib) = connected();
    let seg = |seq: u32, flags: u8, payload: &[u8]| {
        tcp_packet(
            &TcpFields {
                src: ip(100, 64, 0, 1),
                dst: ip(100, 64, 0, 2),
                sport: 4000,
                dport: 80,
                seq,
                ack: 0,
                flags,
            },
            payload,
        )
    };
    let pkt = through(&mut a, &seg(1, SYN, &[]));
    let out = sends(&b.handle_packet(&ib, &Vec::new(), 5, stamp(), &pkt, at(1, 100), &entropy(5)));
    let inner = a.tunnels[0].tun.decrypt(&out[0].0).unwrap();
    assert_eq!(tcp_view(&inner).unwrap().seq, 7000);
    let pkt = through(&mut a, &seg(2, PSH | ACK, b"GET /"));
    let out = sends(&b.handle_packet(&ib, &Vec::new(), 5, stamp(), &pkt, at(1, 100), &entropy(5)));
    let inner = a.tunnels[0].tun.decrypt(&out[0].0).unwrap();
    let v = tcp_view(&inner).unwrap();
    assert!(inner[v.from..v.to].starts_with(b"HTTP/1.1 200 OK\r\n"));
    assert!(inner[v.from..v.to].ends_with(b"100.64.0.2</p></body></html>"));
}

#[test]
fn packet_filter_is_enforced() {
    let (mut a, _ia, mut b, mut ib) = connected();
    let req = icmp_echo_request(ip(100, 64, 0, 1), ip(100, 64, 0, 2), 3, 4, b"data");
    ib.allowed_srcs = Some(vec![(0x0a00_0000, 0xff00_0000)]);
    let pkt = through(&mut a, &req);
    assert!(b.handle_packet(&ib, &Vec::new(), 5, stamp(), &pkt, at(1, 100), &entropy(5)).is_empty());
    ib.allowed_srcs = Some(vec![(0x0a00_0000, 0xff00_0000), (0x6440_0000, 0xffc0_0000)]);
    let pkt = through(&mut a, &req);
    assert_eq!(
        b.handle_packet(&ib, &Vec::new(), 5, stamp(), &pkt, at(1, 100), &entropy(5)).len(),
        1
    );
    assert!(src_allowed(&None, &req));
    assert!(!src_allowed(&Some(Vec::new()), &req));
    assert!(src_allowed(&Some(Vec::new()), &[0x60; 40]));
    assert!(src_allowed(&Some(Vec::new()), &[0x45; 10]));
}

#[test]
fn unknown_and_damaged_packets_are_ignored() {
    let (mut a, _ia, mut b, ib) = connected();
    let none: Vec<Target> = Vec::new();
    let mut pkt = through(&mut a, &[0x45; 40]);
    pkt[40] ^= 1;
    assert!(b.handle_packet(&ib, &none, 5, stamp(), &pkt, at(7, 700), &entropy(5)).is_empty());
    assert_eq!(b.tunnels[0].addr, at(1, 100));
    let mut pkt = through(&mut a, &[0x45; 40]);
    pkt[4] ^= 1;
    assert!(b.handle_packet(&ib, &none, 5, stamp(), &pkt, at(7, 700), &entropy(5)).is_empty());
    for junk in [vec![], vec![1u8; 20], vec![2u8; 20], vec![4u8; 10], vec![9u8; 60]] {
        assert!(b.handle_packet(&ib, &none, 5, stamp(), &junk, at(7, 700), &entropy(5)).is_empty());
    }
    assert_eq!(b.tunnels.len(), 1);
}

#[test]
fn handshake_starts_once_and_respects_the_limit() {
    let (ia, ib) = (identity(1), identity(2));
    let ta = vec![target(2, vec![at(2, 200)])];
    let mut a = State::new(None, &None, false);
    let first = a.maybe_start_handshake(&ia, &ta, 1, stamp(), &ib.disco_pub, at(2, 200), &entropy(1));
    a.initiated(first.unwrap());
    assert!(a
        .maybe_start_handshake(&ia, &ta, 1, stamp(), &ib.disco_pub, at(3, 300), &entropy(2))
        .is_none());
    assert!(a
        .maybe_start_handshake(&ia, &ta, 1, stamp(), &[0u8; 32], at(3, 300), &entropy(2))
        .is_none());
    let mut full = State::new(None, &None, false);
    for i in 0..8u8 {
        let tun = Tunnel {
            send_key: [i; 32],
            recv_key: [i; 32],
            their_index: 0,
            our_index: i as u32,
            tx_counter: 0,
        };
        full.insert_tunnel(tun, at(100 + i, 1), [i; 32]);
    }
    assert!(full
        .maybe_start_handshake(&ia, &ta, 1, stamp(), &ib.disco_pub, at(2, 200), &entropy(1))
        .is_none());
}

#[test]
fn a_new_handshake_replaces_the_tunnel() {
    let mut st = State::new(None, &None, false);
    let tun = |i: u32| Tunnel {
        send_key: [0; 32],
        recv_key: [0; 32],
        their_index: 0,
        our_index: i,
        tx_counter: 0,
    };
    st.insert_tunnel(tun(1), at(1, 1), [1; 32]);
    st.insert_tunnel(tun(2), at(2, 2), [2; 32]);
    st.insert_tunnel(tun(3), at(1, 1), [3; 32]);
    assert_eq!(st.tunnels.len(), 2);
    assert_eq!((st.tunnels[0].tun.our_index, st.tunnels[1].tun.our_index), (2, 3));
    st.insert_tunnel(tun(3), at(4, 4), [4; 32]);
    assert_eq!(st.tunnels.len(), 2);
    assert_eq!(st.tunnels[1].addr, at(4, 4));
}

#[test]
fn handshakes_are_retried_then_given_up() {
    let (ia, ib) = (identity(1), identity(2));
    let ta = vec![target(2, vec![at(2, 200)])];
    let mut a = State::new(None, &None, false);
    let p = a.maybe_start_handshake(&ia, &ta, 1000, stamp(), &ib.disco_pub, at(2, 200), &entropy(1));
    let init = p.as_ref().unwrap().init.to_vec();
    a.initiated(p.unwrap());
    // A burst of packets means many looks at the clock, not time that passes.
    for _ in 0..100 {
        assert!(a.retry_handshakes(1999).is_empty());
    }
    assert!(a.retry_handshakes(4000).is_empty());
    assert_eq!((a.pending[0].retries, a.pending[0].sent_ms), (0, 1000));
    let mut now = 1000;
    for round in 1..=4u32 {
        now += 3001;
        let out = sends(&a.retry_handshakes(now));
        assert_eq!(out, vec![(init.clone(), at(2, 200))]);
        assert_eq!((a.pending[0].retries, a.pending[0].sent_ms), (round, now));
        assert!(a.retry_handshakes(now + 3000).is_empty());
    }
    assert!(a.retry_handshakes(now + 3001).is_empty());
    assert!(a.pending.is_empty());
    // A clock that stands before the time of sending makes nothing overdue.
    let p = a.maybe_start_handshake(&ia, &ta, 9000, stamp(), &ib.disco_pub, at(2, 200), &entropy(1));
    a.initiated(p.unwrap());
    assert!(a.retry_handshakes(0).is_empty());
    assert_eq!(a.pending.len(), 1);
    // A tunnel to the address ends the waiting.
    let tun = Tunnel { send_key: [0; 32], recv_key: [0; 32], their_index: 0, our_index: 5, tx_counter: 0 };
    a.insert_tunnel(tun, at(2, 200), ib.node_pub);
    assert!(a.retry_handshakes(9001).is_empty());
    assert!(a.pending.is_empty());
}

#[test]
fn housekeeping_retries_by_the_clock() {
    let (ia, ib) = (identity(1), identity(2));
    let ta = vec![target(2, vec![at(2, 200)])];
    let mut a = State::new(None, &None, false);
    let p = a.maybe_start_handshake(&ia, &ta, 500, stamp(), &ib.disco_pub, at(2, 200), &entropy(1));
    a.initiated(p.unwrap());
    let mut round = 0u32;
    for _ in 0..10 {
        let out = a.run_periodic(&ia, &ta, &mut round, &Vec::new(), &pass(1400, 0, 0));
        assert!(out.retries.is_empty());
    }
    assert_eq!(a.pending[0].retries, 0);
    let out = a.run_periodic(&ia, &ta, &mut round, &Vec::new(), &pass(3501, 0, 0));
    assert_eq!(out.retries.len(), 1);
    assert_eq!(a.pending[0].retries, 1);
}

#[test]
fn no_handshake_beside_a_tunnel_to_the_peer() {
    let (ia, ib) = (identity(1), identity(2));
    let ta = vec![target(2, vec![at(2, 200)])];
    let start = |s: &State| {
        s.maybe_start_handshake(&ia, &ta, 1, stamp(), &ib.disco_pub, at(2, 200), &entropy(1))
    };
    let tun = Tunnel { send_key: [0; 32], recv_key: [0; 32], their_index: 0, our_index: 5, tx_counter: 0 };
    let mut other = State::new(None, &None, false);
    // Another peer's tunnel does not matter, not even at the same address.
    other.insert_tunnel(tun, at(2, 200), [9u8; 32]);
    assert!(start(&other).is_some());
    let tun = Tunnel { send_key: [0; 32], recv_key: [0; 32], their_index: 0, our_index: 6, tx_counter: 0 };
    let mut same = State::new(None, &None, false);
    same.insert_tunnel(tun, at(7, 700), ib.node_pub);
    assert!(start(&same).is_none());
}

#[test]
fn udp_payload_needs_a_whole_header() {
    let mut bad = vec![0x40u8, 0, 0, 28, 0, 0, 0, 0, 64, 17];
    bad.extend_from_slice(&[0u8; 18]);
    assert!(udp_payload_to_port(&bad, 28).is_none());
    let mut good = vec![0x45u8, 0, 0, 30, 0, 0, 0, 0, 64, 17];
    good.extend_from_slice(&[0u8; 12]);
    good.extend_from_slice(&[0, 28, 0, 10, 0, 0, 7, 8]);
    assert_eq!(udp_payload_to_port(&good, 28), Some(vec![7, 8]));
    assert!(udp_payload_to_port(&good, 29).is_none());
    good[0] = 0x44;
    assert!(udp_payload_to_port(&good, 28).is_none());
}

#[test]
fn targets_merge() {
    let mut ts = vec![target(2, vec![at(2, 200)])];
    let mut t = target(2, vec![at(2, 200), at(2, 201), at(2, 201)]);
    t.spray = true;
    assert_eq!(merge_target(&mut ts, t), Some(1));
    assert_eq!(ts.len(), 1);
    assert_eq!(ts[0].endpoints, vec![at(2, 200), at(2, 201)]);
    assert!(ts[0].spray);
    assert_eq!(merge_target(&mut ts, target(3, vec![])), None);
    assert_eq!(ts.len(), 2);
    assert_eq!(name_for(&ts, &identity(3).disco_pub), "peer3");
    assert_eq!(name_for(&ts, &[0u8; 32]), "unknown");
}

#[test]
fn strikes_count_send_errors() {
    let mut s = Strikes::new();
    assert!(s.admits(at(1, 1)));
    assert!(!s.record(at(1, 1), false));
    assert!(!s.record(at(1, 1), false));
    assert!(s.admits(at(1, 1)));
    assert!(!s.record(at(1, 1), true));
    assert!(!s.record(at(1, 1), false));
    assert!(!s.record(at(1, 1), false));
    assert!(s.record(at(1, 1), false));
    assert!(!s.admits(at(1, 1)));
    assert!(s.admits(at(1, 2)));
}

#[test]
fn spray_ports_walk_outward() {
    let tail = [0u8; 512];
    let p = birthday_ports(40000, 0, &tail);
    assert_eq!((p.len(), p[0], p[1023]), (1024, 39488, 40511));
    let p = birthday_ports(40000, 2, &tail);
    assert_eq!((p[0], p[1023]), (38464, 39487));
    let p = birthday_ports(40000, 4, &tail);
    assert_eq!((p[0], p[1023]), (40512, 41535));
    let p = birthday_ports(1100, 0, &tail);
    assert_eq!((p.len(), p[0]), (588, 1024));
    let p = birthday_ports(65535, 1, &tail);
    assert_eq!((p.len(), *p.last().unwrap()), (513, 65535));
    assert!(birthday_ports(40000, u32::MAX, &tail).is_empty());
    let mut tail = [0u8; 512];
    tail[0] = 0xff;
    tail[1] = 0x03;
    tail[2] = 0x00;
    tail[3] = 0x04;
    let p = birthday_ports(40000, u32::MAX, &tail);
    assert_eq!(p, vec![1024]);
}

#[test]
fn public_addresses() {
    for (a, b) in [(10, 0), (172, 16), (172, 31), (192, 168), (169, 254), (127, 0), (100, 64), (100, 127), (0, 1)] {
        assert!(!is_public_v4(&ip(a, b, 1, 1)));
    }
    for (a, b) in [(8, 8), (172, 15), (172, 32), (192, 167), (100, 63), (100, 128), (169, 253)] {
        assert!(is_public_v4(&ip(a, b, 1, 1)));
    }
    assert!(ip_eq(at(1, 1), at(1, 2)));
    assert!(!ip_eq(at(1, 1), at(2, 1)));
    let six = SocketAddr::V6(SocketAddrV6 { ip: 1, port: 1, flowinfo: 0, scope_id: 0 });
    assert!(ip_eq(six, six));
    assert!(!ip_eq(six, at(1, 1)));
}

fn pass(now_ms: u64, probe_ms: u64, stun_ms: u64) -> Pass {
    Pass { now_ms, probe_ms, stun_ms, stun_addr: Some(at(99, 3478)), iss: 5, txid: [6u8; 12] }
}

#[test]
fn housekeeping_probes_and_refreshes() {
    let (ia, ib) = (identity(1), identity(2));
    let mut ts = vec![target(2, vec![at(2, 200), at(2, 201)])];
    ts[0].spray = true;
    ts[0].endpoints.push(SocketAddr::V4(SocketAddrV4 { ip: ip(8, 8, 4, 4), port: 40000 }));
    let mut st = State::new(None, &None, false);
    let mut round = 0u32;
    let idle = st.run_periodic(&ia, &ts, &mut round, &Vec::new(), &pass(1, 1999, 14999));
    assert!(!idle.probed && !idle.refreshed);
    assert!(idle.jobs.is_empty() && idle.sends.is_empty() && idle.stun.is_empty());
    assert_eq!(round, 0);
    assert_eq!(draw_probes(&Vec::new()).map(|v| v.len()), Ok(0));
    let ds = draw_probes(&ts).unwrap();
    let p = st.run_periodic(&ia, &ts, &mut round, &ds, &pass(1, 2000, 15000));
    assert!(p.probed && p.refreshed);
    assert_eq!(round, 1);
    assert_eq!(p.jobs.len(), 1);
    let m = disco_open(&ib.disco_priv, &p.jobs[0].pkt).ok().unwrap();
    assert_eq!((m.msg_type, m.txid), (PING, ds[0].txid));
    assert_eq!(p.jobs[0].endpoints, ts[0].endpoints);
    assert!(p.jobs[0].spray.len() >= 1024);
    assert!(p.jobs[0].spray.iter().all(|a| ip_eq(*a, ts[0].endpoints[2])));
    let stun = sends(&p.stun);
    assert_eq!(stun[0].1, at(99, 3478));
    assert!(is_stun(&stun[0].0));
    assert_eq!(&stun[0].0[8..], &[6u8; 12]);
}

#[test]
fn housekeeping_keeps_tunnels_alive() {
    let (mut a, ia, mut b, ib) = connected();
    let ts = vec![target(2, vec![at(2, 200)])];
    let ds = draw_probes(&ts).unwrap();
    let mut round = u32::MAX;
    let p = a.run_periodic(&ia, &ts, &mut round, &ds, &pass(9, 5000, 0));
    assert_eq!(round, 0);
    // The peer is reached: no probe, only a keepalive.
    assert!(p.jobs.is_empty());
    let ka = sends(&p.sends);
    assert_eq!(ka.len(), 1);
    assert_eq!(ka[0].1, at(2, 200));
    assert!(b.tunnels[0].tun.decrypt(&ka[0].0).unwrap().is_empty());
    assert!(b.handle_packet(&ib, &Vec::new(), 9, stamp(), &ka[0].0, at(1, 100), &entropy(7)).is_empty());
}

fn outbound(target_node: [u8; 32]) -> OutboundRun {
    OutboundRun::new(
        OutboundCfg {
            our_ip: ip(100, 64, 0, 1),
            target_ip: ip(100, 64, 0, 2),
            target_node,
            http_port: 80,
            http_path: "/status".to_string(),
        },
        [0x34, 0x12, 0xff, 0xff],
    )
}

#[test]
fn own_traffic_pings_and_fetches() {
    let (mut a, ia, mut b, ib) = connected();
    a.outbound = Some(outbound(ib.node_pub));
    let run = a.outbound.as_ref().unwrap();
    assert_eq!((run.ident, run.sport), (0x1234, 1024 + 5535));
    let ts: Vec<Target> = Vec::new();
    let mut round = 0;
    let p = a.run_periodic(&ia, &ts, &mut round, &Vec::new(), &pass(9, 2000, 0));
    let out = sends(&p.sends);
    assert_eq!(out.len(), 3);
    let ping = b.tunnels[0].tun.decrypt(&out[1].0).unwrap();
    let want = icmp_echo_request(ip(100, 64, 0, 1), ip(100, 64, 0, 2), 0x1234, 1, b"tdongle-s3");
    assert_eq!(&ping[..want.len()], &want[..]);
    let mut to_b: Vec<Vec<u8>> = vec![out[2].0.clone()];
    let mut done = false;
    let mut request = Vec::new();
    // Carry the exchange back and forth until both sides fall silent.
    for _ in 0..10 {
        let mut to_a = Vec::new();
        for p in to_b.drain(..) {
            let inner = b.tunnels[0].tun.decrypt(&p).unwrap();
            let v = tcp_view(&inner).unwrap();
            request.extend_from_slice(&inner[v.from..v.to]);
            to_a.extend(sends(&b.handle_packet(&ib, &ts, 9, stamp(), &p, at(1, 100), &entropy(8))));
        }
        for (p, _) in to_a {
            let acts = a.handle_packet(&ia, &ts, 9, stamp(), &p, at(2, 200), &entropy(9));
            done = done || acts.iter().any(|x| matches!(x, Action::HttpDone));
            to_b.extend(sends(&acts).into_iter().map(|x| x.0));
        }
    }
    assert_eq!(
        String::from_utf8(request).unwrap(),
        "GET /status HTTP/1.1\r\nHost: 100.64.0.2\r\nUser-Agent: tdongle\r\nConnection: close\r\n\r\n"
    );
    assert!(done);
    let run = a.outbound.as_ref().unwrap();
    assert!(run.http_done);
    let resp = &run.tcp.as_ref().unwrap().response;
    assert!(resp.starts_with(b"HTTP/1.1 200 OK\r\n"));
    // The next round sends a ping and no second SYN.
    let p = a.run_periodic(&ia, &ts, &mut round, &Vec::new(), &pass(10, 2000, 0));
    assert_eq!(sends(&p.sends).len(), 2);
    assert_eq!(a.outbound.as_ref().unwrap().seq, 2);
}

#[test]
fn mdns_crosses_the_tunnel() {
    let (mut a, _ia, mut b, ib) = connected();
    let link = MdnsLink {
        our_ip: ip(100, 64, 0, 1),
        partner_ip: ip(100, 64, 0, 2),
        partner_node: ib.node_pub,
    };
    let out = sends(&a.mdns_forward(&link, b"mdns payload"));
    assert_eq!(out.len(), 1);
    b.mdns_partner = b.tunnels[0].peer_node;
    b.mdns_reinject = true;
    let acts = b.handle_packet(&ib, &Vec::new(), 1, stamp(), &out[0].0, at(1, 100), &entropy(1));
    assert_eq!(acts.len(), 1);
    match &acts[0] {
        Action::Reinject(p) => assert_eq!(p, b"mdns payload"),
        _ => panic!("the payload must be injected"),
    }
    let nobody = MdnsLink { our_ip: link.our_ip, partner_ip: link.partner_ip, partner_node: [9; 32] };
    assert!(a.mdns_forward(&nobody, b"x").is_empty());
    let st = State::new(None, &Some(nobody), false);
    assert!(st.mdns_reinject);
    assert_eq!(st.mdns_partner, [9; 32]);
}

#[test]
fn udp_payload_is_found_by_port() {
    let p = udp_datagram(ip(1, 2, 3, 4), ip(5, 6, 7, 8), 1, 5354, b"abc");
    assert_eq!(udp_payload_to_port(&p, 5354), Some(b"abc".to_vec()));
    assert_eq!(udp_payload_to_port(&p, 5353), None);
    assert_eq!(udp_payload_to_port(&p[..30], 5354), None);
    let e = icmp_echo_request(ip(1, 2, 3, 4), ip(5, 6, 7, 8), 1, 1, b"abc");
    assert_eq!(udp_payload_to_port(&e, 5354), None);
}

#[test]
fn throughput_sink_counts_and_reports() {
    let (mut a, _ia, mut b, mut ib) = connected();
    b.bench = State::new(None, &None, true).bench;
    // The sink comes before the filter.
    ib.allowed_srcs = Some(Vec::new());
    let load = udp_datagram(ip(1, 2, 3, 4), ip(5, 6, 7, 8), 1, 5201, &[0u8; 100]);
    let pkt = through(&mut a, &load);
    let acts = b.handle_packet(&ib, &Vec::new(), 1, stamp(), &pkt, at(1, 100), &entropy(1));
    assert!(matches!(acts[0], Action::BenchCounted));
    let c = b.bench.unwrap();
    assert_eq!((c.bytes, c.pkts), (128, 1));
    let index = b.tunnels[0].tun.our_index();
    let out = sends(&b.bench_report(index, at(1, 100), b"RXMBPS:1.00 PPS:2"));
    let inner = a.tunnels[0].tun.decrypt(&out[0].0).unwrap();
    assert_eq!(udp_payload_to_port(&inner, 5202), Some(b"RXMBPS:1.00 PPS:2".to_vec()));
    let c = b.bench.unwrap();
    assert_eq!((c.bytes, c.pkts), (0, 0));
    let raw = bench_stats_inner(b"x");
    assert_eq!(tailscale_core::icmp::checksum(&raw[..20]), 0);
    assert_eq!(&raw[12..20], &[100, 64, 0, 1, 100, 64, 0, 99]);
    assert_eq!(&raw[26..28], &[0, 0]);
}

#[test]
fn two_cores_reach_the_same_result() {
    let (mut a, _ia, mut b, ib) = connected();
    let req = icmp_echo_request(ip(100, 64, 0, 1), ip(100, 64, 0, 2), 3, 4, b"data");
    let pkt = through(&mut a, &req);
    match b.route(&pkt) {
        Route::Decrypt { index, key } => {
            let inner = decrypt_transport(&key, &pkt).unwrap();
            let acts = b.handle_decrypted(&ib, index, &inner, at(1, 100), 0);
            assert_eq!(sends(&acts).len(), 1);
        }
        _ => panic!("a transport packet of a known tunnel"),
    }
    let mut other = pkt.clone();
    other[4] ^= 1;
    assert!(matches!(b.route(&other), Route::Drop));
    assert!(matches!(b.route(&[1u8; 148]), Route::Handle));
    assert!(matches!(b.route(&[4u8; 15]), Route::Handle));
}

#[test]
fn remote_packets_are_told_apart() {
    let far = SocketAddr::V4(SocketAddrV4 { ip: ip(8, 8, 8, 8), port: 1 });
    assert_eq!(remote_kind(&[1u8; 20], at(1, 1)), None);
    assert_eq!(remote_kind(&[1u8; 20], far), Some(PacketKind::WgInit));
    assert_eq!(remote_kind(&[2u8; 20], far), Some(PacketKind::WgResponse));
    assert_eq!(remote_kind(&[4u8; 20], far), Some(PacketKind::WgData));
    assert_eq!(remote_kind(&[9u8; 20], far), Some(PacketKind::Other));
    assert_eq!(remote_kind(&[], far), Some(PacketKind::Other));
    assert_eq!(
        remote_kind(&[0x54, 0x53, 0xf0, 0x9f, 0x92, 0xac], far),
        Some(PacketKind::Disco)
    );
    assert_eq!(remote_kind(&[0, 1, 0, 0, 0x21, 0x12, 0xa4, 0x42], far), None);
}

#[test]
fn entropy_is_fresh() {
    let (a, b) = (Entropy::draw().unwrap(), Entropy::draw().unwrap());
    assert_ne!(a.nonce, b.nonce);
    assert_ne!(a.eph, b.eph);
}
