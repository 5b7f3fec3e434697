use tailscale_core::derp::{
    hex8, parse_server_key, Derp, DerpError, Relay, RelayAction, RelayDraw, FRAME_CLIENT_INFO,
    FRAME_KEEPALIVE, FRAME_RECV_PACKET, FRAME_SEND_PACKET, FRAME_SERVER_KEY,
};
use tailscale_core::disco::{
    call_me_maybe_plaintext, open as disco_open, ping_plaintext, seal_with, CALL_ME_MAYBE, PONG,
};
use tailscale_core::icmp::echo_reply;
use tailscale_core::keys::Keypair;
use tailscale_core::net::{Ipv4Addr, SocketAddr, SocketAddrV4};
use tailscale_core::node::{Identity, PeerDir, Upgrade};
use tailscale_core::outbound::icmp_echo_request;
use tailscale_core::platform::{ByteStream, Connector, ReadError};
use tailscale_core::wg::{build_initiation_with, tai64n};
use crypto_box::aead::Aead;

struct Mem {
    input: Vec<u8>,
    at: usize,
    sent: Vec<u8>,
    step: usize,
    dead: bool,
}

impl Mem {
    fn new(input: Vec<u8>) -> Mem {
        Mem { input, at: 0, sent: Vec::new(), step: 3, dead: false }
    }
}

impl ByteStream for Mem {
    fn read(&mut self, buf: &mut [u8]) -> Result<usize, ()> {
        let n = buf.len().min(self.step).min(self.input.len() - self.at);
        if self.dead && n == 0 {
            return Err(());
        }
        buf[..n].copy_from_slice(&self.input[self.at..self.at + n]);
        self.at += n;
        Ok(n)
    }
    fn write_all(&mut self, buf: &[u8]) -> Result<(), ()> {
        self.sent.extend_from_slice(buf);
        Ok(())
    }
}

struct Dial(Vec<u8>);

impl Connector for Dial {
    type Stream = Mem;
    fn connect_tcp(&self, _host: &str, _port: u16) -> Result<Mem, ()> {
        Err(())
    }
    fn connect_tls(&self, _host: &str, port: u16) -> Result<Mem, ()> {
        if port == 443 && !self.0.is_empty() {
            Ok(Mem::new(self.0.clone()))
        } else {
            Err(())
        }
    }
}

fn frame(typ: u8, payload: &[u8]) -> Vec<u8> {
    let mut v = vec![typ];
    v.extend_from_slice(&(payload.len() as u32).to_be_bytes());
    v.extend_from_slice(payload);
    v
}

fn server_hello(server: &Keypair) -> Vec<u8> {
    let mut v = b"HTTP/1.1 101 Switching Protocols\r\nUpgrade: DERP\r\n\r\n".to_vec();
    let mut key = b"DERP\xf0\x9f\x94\x91".to_vec();
    key.extend_from_slice(&server.public);
    v.extend_from_slice(&frame(FRAME_SERVER_KEY, &key));
    v
}

fn identity(n: u8) -> Identity {
    let disco = Keypair::from_private([n; 32]);
    let node = Keypair::from_private([n + 100; 32]);
    Identity {
        disco_priv: disco.private,
        disco_pub: disco.public,
        node_priv: node.private,
        node_pub: node.public,
        allowed_srcs: None,
    }
}

fn draw() -> RelayDraw {
    RelayDraw { call_nonce: [1; 24], pong_nonce: [2; 24], index: 77, eph: [3; 32], iss: 4 }
}

fn at(last: u8) -> SocketAddr {
    SocketAddr::V4(SocketAddrV4 { ip: Ipv4Addr::new(8, 8, 8, last), port: 41641 })
}

fn recv(src: &[u8; 32], pkt: &[u8]) -> Vec<u8> {
    let mut v = src.to_vec();
    v.extend_from_slice(pkt);
    v
}

#[test]
fn relay_connection_comes_up() {
    let (server, node) = (Keypair::from_private([9; 32]), Keypair::from_private([5; 32]));
    let mut input = server_hello(&server);
    input.extend_from_slice(&frame(FRAME_RECV_PACKET, b"after"));
    let mut d =
        Derp::handshake(Mem::new(input), "derp.example", &node.private, &node.public, &[7; 24]).ok().unwrap();
    let req = b"GET /derp HTTP/1.1\r\nHost: derp.example\r\nConnection: Upgrade\r\nUpgrade: DERP\r\n\r\n";
    assert!(d.stream.sent.starts_with(req));
    let info = &d.stream.sent[req.len()..];
    assert_eq!(info[0], FRAME_CLIENT_INFO);
    assert_eq!(&info[1..5], &[0, 0, 0, 32 + 24 + 16 + 13]);
    assert_eq!(&info[5..37], &node.public);
    assert_eq!(&info[37..61], &[7u8; 24]);
    let bx = crypto_box::SalsaBox::new(
        &crypto_box::PublicKey::from(node.public),
        &crypto_box::SecretKey::from(server.private),
    );
    let json = bx.decrypt(crypto_box::Nonce::from_slice(&[7u8; 24]), &info[61..]).unwrap();
    assert_eq!(json, b"{\"version\":2}".to_vec());
    let (typ, payload) = d.read_frame().ok().unwrap();
    assert_eq!((typ, payload), (FRAME_RECV_PACKET, b"after".to_vec()));
    let sent = d.stream.sent.len();
    assert!(d.send_packet(&[6; 32], b"pkt").is_ok());
    assert_eq!(d.stream.sent[sent..], frame(FRAME_SEND_PACKET, &recv(&[6; 32], b"pkt"))[..]);
}

#[test]
fn relay_connects_over_tls() {
    let (server, node) = (Keypair::from_private([9; 32]), Keypair::from_private([5; 32]));
    assert!(Derp::connect(&Dial(server_hello(&server)), "h", &node.private, &node.public).is_ok());
    let none = Derp::connect(&Dial(Vec::new()), "h", &node.private, &node.public);
    assert!(matches!(none.err(), Some(DerpError::Connect)));
}

#[test]
fn relay_handshake_errors() {
    let node = Keypair::from_private([5; 32]);
    let run = |input: Vec<u8>| {
        Derp::handshake(Mem::new(input), "h", &node.private, &node.public, &[7; 24]).err().unwrap()
    };
    match run(b"HTTP/1.1 403 Forbidden\r\n\r\n".to_vec()) {
        DerpError::Refused(line) => assert_eq!(line, b"HTTP/1.1 403 Forbidden\r".to_vec()),
        e => panic!("{e:?}"),
    }
    assert!(matches!(run(b"HTTP/1.1 101 x".to_vec()), DerpError::Read(ReadError::Closed)));
    assert!(matches!(run(vec![b'x'; 5000]), DerpError::HeadTooLarge));
    let ok = b"HTTP/1.1 101 Switching\r\n\r\n".to_vec();
    let mut wrong = ok.clone();
    wrong.extend_from_slice(&frame(FRAME_KEEPALIVE, &[]));
    assert!(matches!(run(wrong), DerpError::NotServerKey(FRAME_KEEPALIVE)));
    let mut bad = ok.clone();
    bad.extend_from_slice(&frame(FRAME_SERVER_KEY, &[0; 50]));
    assert!(matches!(run(bad), DerpError::BadServerKey(50)));
    let mut huge = ok.clone();
    huge.extend_from_slice(&[1, 0, 1, 0, 1]);
    assert!(matches!(run(huge), DerpError::FrameTooLarge(65537)));
    let mut m = Mem::new(ok);
    m.dead = true;
    let e = Derp::handshake(m, "h", &node.private, &node.public, &[7; 24]).err().unwrap();
    assert!(matches!(e, DerpError::Read(ReadError::Failed)));
    assert!(parse_server_key(FRAME_SERVER_KEY, &[0; 10]).is_err());
}

#[test]
fn relay_answers_handshake_and_ping() {
    let (us, them) = (identity(1), identity(2));
    let mut r = Relay::new();
    let (init, hs) = build_initiation_with(
        &them.node_priv,
        &them.node_pub,
        &us.node_pub,
        tai64n(1, 1),
        55,
        [8; 32],
    );
    let acts = r.on_frame(&us, &None, FRAME_RECV_PACKET, &recv(&them.node_pub, &init), &draw());
    assert_eq!(acts.len(), 1);
    let resp = match &acts[0] {
        RelayAction::Send { dst, pkt } => {
            assert_eq!(*dst, them.node_pub);
            pkt.clone()
        }
        _ => panic!("the response must go out"),
    };
    let mut tun = hs.consume_response(&resp).ok().unwrap();
    assert_eq!(tun.their_index, 77);
    let req = icmp_echo_request(Ipv4Addr::new(100, 64, 0, 2), Ipv4Addr::new(100, 64, 0, 1), 1, 2, b"x");
    let pkt = tun.encrypt(&req);
    let acts = r.on_frame(&us, &None, FRAME_RECV_PACKET, &recv(&them.node_pub, &pkt), &draw());
    assert_eq!(acts.len(), 1);
    match &acts[0] {
        RelayAction::Send { dst, pkt } => {
            assert_eq!(*dst, them.node_pub);
            let inner = tun.decrypt(pkt).unwrap();
            let want = echo_reply(&req).unwrap();
            assert_eq!(&inner[..want.len()], &want[..]);
        }
        _ => panic!("the reply must go out"),
    }
    // A keepalive, another sender, a filtered packet: nothing.
    let ka = tun.keepalive();
    assert!(r.on_frame(&us, &None, FRAME_RECV_PACKET, &recv(&them.node_pub, &ka), &draw()).is_empty());
    let pkt = tun.encrypt(&req);
    assert!(r.on_frame(&us, &None, FRAME_RECV_PACKET, &recv(&[7; 32], &pkt), &draw()).is_empty());
    let mut strict = identity(1);
    strict.allowed_srcs = Some(Vec::new());
    assert!(r.on_frame(&strict, &None, FRAME_RECV_PACKET, &recv(&them.node_pub, &pkt), &draw()).is_empty());
    // A second handshake replaces the tunnel.
    r.on_frame(&us, &None, FRAME_RECV_PACKET, &recv(&them.node_pub, &init), &draw());
    assert_eq!(r.peers.len(), 1);
}

#[test]
fn relay_ignores_other_frames() {
    let us = identity(1);
    let mut r = Relay::new();
    assert!(r.on_frame(&us, &None, FRAME_KEEPALIVE, &[0; 100], &draw()).is_empty());
    assert!(r.on_frame(&us, &None, FRAME_RECV_PACKET, &[0; 31], &draw()).is_empty());
    assert!(r.on_frame(&us, &None, FRAME_RECV_PACKET, &[0; 32], &draw()).is_empty());
    assert!(r.on_frame(&us, &None, FRAME_RECV_PACKET, &[9; 60], &draw()).is_empty());
}

#[test]
fn relay_tries_a_direct_path_once() {
    let (us, them) = (identity(1), identity(2));
    let up = Some(Upgrade {
        our_endpoints: vec![at(1)],
        peers: vec![PeerDir {
            node_pub: them.node_pub,
            disco_pub: them.disco_pub,
            endpoints: vec![at(2)],
        }],
    });
    let mut r = Relay::new();
    let ping = seal_with(
        &them.disco_priv,
        &them.disco_pub,
        &us.disco_pub,
        &[9; 24],
        &ping_plaintext(&[5; 12], &them.node_pub),
    );
    let acts = r.on_frame(&us, &up, FRAME_RECV_PACKET, &recv(&them.node_pub, &ping), &draw());
    assert_eq!(acts.len(), 3);
    match &acts[0] {
        RelayAction::Send { dst, pkt } => {
            assert_eq!(*dst, them.node_pub);
            let m = disco_open(&them.disco_priv, pkt).ok().unwrap();
            assert_eq!(m.msg_type, CALL_ME_MAYBE);
            assert_eq!(m.endpoints, vec![at(1)]);
        }
        _ => panic!("call-me-maybe first"),
    }
    match &acts[1] {
        RelayAction::AddTarget(t) => {
            assert_eq!(t.name, format!("derp:{}", String::from_utf8(hex8(&them.node_pub)).unwrap()));
            assert_eq!(t.endpoints, vec![at(2)]);
            assert_eq!((t.node_pub, t.disco_pub), (them.node_pub, them.disco_pub));
            assert!(t.spray);
        }
        _ => panic!("then the target"),
    }
    match &acts[2] {
        RelayAction::Send { pkt, .. } => {
            let m = disco_open(&them.disco_priv, pkt).ok().unwrap();
            assert_eq!((m.msg_type, m.txid), (PONG, [5; 12]));
        }
        _ => panic!("then the pong"),
    }
    let acts = r.on_frame(&us, &up, FRAME_RECV_PACKET, &recv(&them.node_pub, &ping), &draw());
    assert_eq!(acts.len(), 1);
    // Fresh endpoints of the peer are probed each time.
    let cmm = seal_with(
        &them.disco_priv,
        &them.disco_pub,
        &us.disco_pub,
        &[9; 24],
        &call_me_maybe_plaintext(&[at(3), at(4)]),
    );
    let acts = r.on_frame(&us, &up, FRAME_RECV_PACKET, &recv(&them.node_pub, &cmm), &draw());
    assert_eq!(acts.len(), 1);
    match &acts[0] {
        RelayAction::AddTarget(t) => assert_eq!(t.endpoints, vec![at(3), at(4)]),
        _ => panic!("the endpoints must be probed"),
    }
    assert!(r.on_frame(&us, &None, FRAME_RECV_PACKET, &recv(&them.node_pub, &cmm), &draw()).is_empty());
}

#[test]
fn relay_serves_until_no_frame_comes() {
    let (us, them) = (identity(1), identity(2));
    let up = Some(Upgrade {
        our_endpoints: vec![at(1)],
        peers: vec![PeerDir {
            node_pub: them.node_pub,
            disco_pub: them.disco_pub,
            endpoints: vec![at(2)],
        }],
    });
    let ping = seal_with(
        &them.disco_priv,
        &them.disco_pub,
        &us.disco_pub,
        &[9; 24],
        &ping_plaintext(&[5; 12], &them.node_pub),
    );
    let mut input = frame(FRAME_KEEPALIVE, &[0; 40]);
    for _ in 0..2 {
        input.extend_from_slice(&frame(FRAME_RECV_PACKET, &recv(&them.node_pub, &ping)));
    }
    let mut d = Derp { stream: Mem::new(input) };
    let mut r = Relay::new();
    assert!(r.serve_frame(&mut d, &us, &up, &draw()).ok().unwrap().is_empty());
    assert!(d.stream.sent.is_empty());
    let ts = r.serve_frame(&mut d, &us, &up, &draw()).ok().unwrap();
    assert_eq!(ts.len(), 1);
    assert_eq!(ts[0].endpoints, vec![at(2)]);
    assert_eq!(d.stream.sent[0], FRAME_SEND_PACKET);
    let first = d.stream.sent.len();
    assert!(r.serve_frame(&mut d, &us, &up, &draw()).ok().unwrap().is_empty());
    let pong = &d.stream.sent[first..];
    assert_eq!(&pong[5..37], &them.node_pub);
    assert_eq!(disco_open(&them.disco_priv, &pong[37..]).ok().unwrap().msg_type, PONG);
    let e = r.serve_frame(&mut d, &us, &up, &draw()).err().unwrap();
    assert!(matches!(e, DerpError::Read(ReadError::Closed)));
}

#[test]
fn relay_names() {
    assert_eq!(hex8(&[0x01, 0xab, 0xff]), b"01abff".to_vec());
    assert_eq!(hex8(&[0x11; 32]), b"1111111111111111".to_vec());
    let a = RelayDraw::draw().unwrap();
    assert_ne!(a.call_nonce, a.pong_nonce);
}
