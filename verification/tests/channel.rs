use std::cell::RefCell;
use std::rc::Rc;
use tailscale_core::control::{
    connect, connect_and_register, fetch_map, fetch_peers, finish_handshake, handshake, register,
    stream_map, update_endpoints, Config, ControlError,
};
use tailscale_core::h2::{
    decode_status, enc_header, enc_str, frame, strip_wire_prefix, H2Error, FL_ACK, FL_END_HEADERS,
    FL_END_STREAM, FT_DATA, FT_GOAWAY, FT_HEADERS, FT_SETTINGS, FT_WINDOW_UPDATE, H2,
};
use tailscale_core::keys::{Keypair, NodeKeys};
use tailscale_core::noise::{frame_initiation, start, NoiseError, Transport};
use tailscale_core::platform::{ByteStream, Connector, ReadError};
use tailscale_core::transport::{
    base64_std, build_request, connect_and_upgrade, is_switching, upgrade_stream, Conn, ConnError,
};

/// What a test server does with the plaintext it gets.
type Answer = fn(&mut Server);

/// A control server over memory.
struct Server {
    private: [u8; 32],
    /// Raw bytes on their way to the client.
    out: Vec<u8>,
    raw_in: Vec<u8>,
    tr: Option<Transport>,
    /// Decrypted bytes from the client.
    got: Vec<u8>,
    answer: Answer,
    stage: usize,
    refuse: bool,
}

impl Server {
    fn seal(&mut self, pt: &[u8]) {
        let rec = self.tr.as_mut().unwrap().seal_record(pt).unwrap();
        self.out.extend_from_slice(&rec);
    }

    fn upgrade(&mut self) {
        let text = String::from_utf8(self.raw_in.clone()).unwrap();
        if !text.ends_with("\r\n\r\n") {
            return;
        }
        self.raw_in.clear();
        if self.refuse {
            self.out.extend_from_slice(b"HTTP/1.1 500 Oops \r\n\r\n  sorry ");
            return;
        }
        assert!(text.starts_with("POST /ts2021 HTTP/1.1\r\nHost: control.example\r\n"));
        let header = text.split("X-Tailscale-Handshake: ").nth(1).unwrap().lines().next().unwrap();
        let framed = unbase64(header);
        assert_eq!(framed.len(), 101);
        assert_eq!(&framed[..5], &[0, 1, 1, 0, 96]);
        let mut hs = snow::Builder::new("Noise_IK_25519_ChaChaPoly_BLAKE2s".parse().unwrap())
            .prologue(b"Tailscale Control Protocol v1")
            .unwrap()
            .local_private_key(&self.private)
            .unwrap()
            .build_responder()
            .unwrap();
        let mut buf = [0u8; 256];
        hs.read_message(&framed[5..], &mut buf).unwrap();
        let n = hs.write_message(&[], &mut buf).unwrap();
        let (c1, c2) = hs.dangerously_get_raw_split();
        self.out.extend_from_slice(b"HTTP/1.1 101 Switching Protocols\r\nUpgrade: x\r\n\r\n");
        self.out.push(2);
        self.out.extend_from_slice(&(n as u16).to_be_bytes());
        self.out.extend_from_slice(&buf[..n]);
        self.tr = Some(Transport::new(&c2, &c1));
    }

    fn take(&mut self, bytes: &[u8]) {
        self.raw_in.extend_from_slice(bytes);
        if self.tr.is_none() {
            self.upgrade();
            return;
        }
        while self.raw_in.len() >= 3 {
            let n = 3 + u16::from_be_bytes([self.raw_in[1], self.raw_in[2]]) as usize;
            if self.raw_in.len() < n {
                return;
            }
            assert_eq!(self.raw_in[0], 4);
            let ct: Vec<u8> = self.raw_in.drain(..n).skip(3).collect();
            let pt = self.tr.as_mut().unwrap().open_record(&ct).unwrap();
            self.got.extend_from_slice(&pt);
            (self.answer)(self);
        }
    }

    /// The frames that the client sent after its preface.
    fn frames(&self) -> Vec<(u8, u8, u32, Vec<u8>)> {
        let preface = b"PRI * HTTP/2.0\r\n\r\nSM\r\n\r\n";
        assert!(self.got.starts_with(preface));
        let mut at = preface.len();
        let mut v = Vec::new();
        while at + 9 <= self.got.len() {
            let g = &self.got[at..];
            let n = ((g[0] as usize) << 16) | ((g[1] as usize) << 8) | g[2] as usize;
            if g.len() < 9 + n {
                break;
            }
            let id = u32::from_be_bytes([g[5], g[6], g[7], g[8]]);
            v.push((g[3], g[4], id, g[9..9 + n].to_vec()));
            at += 9 + n;
        }
        v
    }
}

#[derive(Clone)]
struct Link(Rc<RefCell<Server>>);

impl ByteStream for Link {
    fn read(&mut self, buf: &mut [u8]) -> Result<usize, ()> {
        let mut s = self.0.borrow_mut();
        let n = buf.len().min(s.out.len()).min(700);
        buf[..n].copy_from_slice(&s.out[..n]);
        s.out.drain(..n);
        Ok(n)
    }
    fn write_all(&mut self, buf: &[u8]) -> Result<(), ()> {
        self.0.borrow_mut().take(buf);
        Ok(())
    }
}

struct Net(Link);

impl Connector for Net {
    type Stream = Link;
    fn connect_tcp(&self, host: &str, port: u16) -> Result<Link, ()> {
        assert_eq!((host, port), ("control.example", 80));
        Ok(self.0.clone())
    }
    fn connect_tls(&self, _host: &str, _port: u16) -> Result<Link, ()> {
        Err(())
    }
}

struct Nowhere;

impl Connector for Nowhere {
    type Stream = Link;
    fn connect_tcp(&self, _host: &str, _port: u16) -> Result<Link, ()> {
        Err(())
    }
    fn connect_tls(&self, _host: &str, _port: u16) -> Result<Link, ()> {
        Err(())
    }
}

fn unbase64(s: &str) -> Vec<u8> {
    let t = b"ABCDEFGHIJKLMNOPQRSTUVWXYZabcdefghijklmnopqrstuvwxyz0123456789+/";
    let mut bits = 0u32;
    let mut n = 0;
    let mut out = Vec::new();
    for c in s.bytes().filter(|c| *c != b'=') {
        bits = (bits << 6) | t.iter().position(|x| *x == c).unwrap() as u32;
        n += 6;
        if n >= 8 {
            n -= 8;
            out.push((bits >> n) as u8);
            bits &= (1 << n) - 1;
        }
    }
    out
}

fn setup(answer: Answer) -> (Net, Rc<RefCell<Server>>, [u8; 32]) {
    let k = Keypair::from_private([42; 32]);
    let s = Rc::new(RefCell::new(Server {
        private: k.private,
        out: Vec::new(),
        raw_in: Vec::new(),
        tr: None,
        got: Vec::new(),
        answer,
        stage: 0,
        refuse: false,
    }));
    (Net(Link(s.clone())), s, k.public)
}

fn config() -> Config {
    Config {
        hostname: "dongle".to_string(),
        os_name: "linux".to_string(),
        os_version: "6.1".to_string(),
        go_arch: "arm64".to_string(),
        device_name: "dongle".to_string(),
        capability_version: 106,
        advertise_tags: Vec::new(),
        subnet_routes: Vec::new(),
        advertise_exit_node: false,
        control_host: "control.example".to_string(),
        ts2021_port: 80,
    }
}

fn keys() -> NodeKeys {
    NodeKeys {
        machine: Keypair::from_private([1; 32]),
        node: Keypair::from_private([2; 32]),
        disco: Keypair::from_private([3; 32]),
    }
}

fn greet(s: &mut Server) {
    if s.stage == 0 {
        s.stage = 1;
        s.seal(b"\xff\xff\xffTS\x00\x00\x00\x02{}");
        s.seal(&frame(FT_WINDOW_UPDATE, 0, 0, &[0, 0, 1, 0]));
        s.seal(&frame(FT_SETTINGS, 0, 0, &[]));
    }
}

/// Greets, then answers the first complete POST with status 200 and a JSON body.
fn answer_json(s: &mut Server) {
    greet(s);
    let f = s.frames();
    if s.stage == 1 && f.iter().any(|x| x.0 == FT_DATA && x.1 & FL_END_STREAM != 0) {
        s.stage = 2;
        s.seal(&frame(FT_SETTINGS, 0, 0, &[]));
        s.seal(&frame(FT_DATA, 0, 9, b"another stream"));
        s.seal(&frame(FT_HEADERS, FL_END_HEADERS, 1, &[0x88]));
        let body = b"{\"MachineAuthorized\":true,\"AuthURL\":\"\",\"Node\":{\"Addresses\":[\"100.65.1.2/32\"]}}";
        let mut all = (body.len() as u32).to_le_bytes().to_vec();
        all.extend_from_slice(body);
        let (x, y) = all.split_at(10);
        s.seal(&frame(FT_DATA, 0, 1, x));
        s.seal(&frame(FT_DATA, FL_END_STREAM, 1, y));
    }
}

fn answer_url(s: &mut Server) {
    greet(s);
    let f = s.frames();
    if s.stage == 1 && f.iter().any(|x| x.0 == FT_DATA && x.1 & FL_END_STREAM != 0) {
        s.stage = 2;
        let mut block = Vec::new();
        enc_header(&mut block, "x", b"y");
        enc_header(&mut block, ":status", b"403");
        s.seal(&frame(FT_HEADERS, FL_END_HEADERS, 1, &block));
        s.seal(&frame(FT_DATA, FL_END_STREAM, 1, b"{\"AuthURL\":\"https://login/x\"}"));
    }
}

fn answer_goaway(s: &mut Server) {
    greet(s);
    if s.stage == 1 && s.frames().iter().any(|x| x.0 == FT_DATA) {
        s.stage = 2;
        s.seal(&frame(FT_HEADERS, FL_END_HEADERS, 1, &[0x88]));
        s.seal(&frame(FT_GOAWAY, 0, 0, &[]));
    }
}

fn answer_stream(s: &mut Server) {
    greet(s);
    if s.stage == 1 && s.frames().iter().any(|x| x.0 == FT_DATA) {
        s.stage = 2;
        s.seal(&frame(FT_HEADERS, FL_END_HEADERS, 1, &[0x88]));
        let mut all = vec![2u8, 0, 0, 0, b'{', b'}', 72, 0, 0, 0];
        all.extend_from_slice(b"{\"Peers\":[{\"Addresses\":[\"100.99.9.9/32\"]}],");
        all.extend_from_slice(b"\"Node\":{\"Addresses\":[\"100.99.3.4/32\"]}}");
        // The first payload ends inside the address.
        let cut = all.windows(8).position(|w| w == b"100.99.3").unwrap() + 8;
        let (x, y) = all.split_at(cut);
        s.seal(&frame(FT_DATA, 0, 1, x));
        s.seal(&frame(FT_DATA, 0, 1, y));
        s.seal(&frame(FT_DATA, 0, 1, b"keepalive"));
        s.seal(&frame(FT_DATA, 0, 1, b""));
        s.seal(&frame(FT_HEADERS, FL_END_STREAM, 1, &[]));
    }
}

fn only_goaway(s: &mut Server) {
    if s.stage == 0 {
        s.stage = 1;
        s.seal(&frame(FT_GOAWAY, 0, 0, &[]));
    }
}

fn silent(_s: &mut Server) {}

#[test]
fn base64_values() {
    assert_eq!(base64_std(b""), "");
    assert_eq!(base64_std(b"f"), "Zg==");
    assert_eq!(base64_std(b"fo"), "Zm8=");
    assert_eq!(base64_std(b"foo"), "Zm9v");
    assert_eq!(base64_std(b"foobar"), "Zm9vYmFy");
    assert_eq!(base64_std(&[0xfb, 0xff, 0xfe]), "+//+");
    let all: Vec<u8> = (0..=255u8).collect();
    assert_eq!(unbase64(&base64_std(&all)), all);
}

#[test]
fn noise_initiation_is_framed() {
    let k = Keypair::from_private([42; 32]);
    let (_, framed) = start(&[1; 32], &k.public).ok().unwrap();
    assert_eq!(framed.len(), 101);
    assert_eq!(&framed[..5], &[0, 1, 1, 0, 96]);
    let (_, other) = start(&[1; 32], &k.public).ok().unwrap();
    assert_ne!(framed, other);
    assert_eq!(frame_initiation(&[7; 3]), vec![0, 1, 1, 0, 3, 7, 7, 7]);
}

#[test]
fn noise_refuses_a_wrong_response() {
    let k = Keypair::from_private([42; 32]);
    let (hs, _) = start(&[1; 32], &k.public).ok().unwrap();
    assert_eq!(hs.complete(&[0; 48]).err(), Some(NoiseError::Response));
}

#[test]
fn noise_records() {
    let mut a = Transport::new(&[1; 32], &[2; 32]);
    let mut b = Transport::new(&[2; 32], &[1; 32]);
    let r1 = a.seal_record(b"one").unwrap();
    let r2 = a.seal_record(b"two").unwrap();
    assert_eq!(&r1[..3], &[4, 0, 19]);
    assert_eq!(b.open_record(&r1[3..]), Ok(b"one".to_vec()));
    // A record out of turn does not open, and its nonce is spent.
    assert_eq!(b.open_record(&r1[3..]), Err(NoiseError::OpenFailed(1)));
    assert_eq!(b.rx_nonce, 2);
    b.rx_nonce = 1;
    assert_eq!(b.open_record(&r2[3..]), Ok(b"two".to_vec()));
    a.tx_nonce = u64::MAX;
    assert_eq!(a.seal_record(b"x").err(), Some(NoiseError::Exhausted));
    a.rx_nonce = u64::MAX;
    assert_eq!(a.open_record(&[0; 20]).err(), Some(NoiseError::Exhausted));
}

#[test]
fn noise_nonce_is_big_endian() {
    let mut a = Transport::new(&[1; 32], &[2; 32]);
    a.tx_nonce = 0x0102;
    let rec = a.seal_record(b"text").unwrap();
    let c = <chacha20poly1305::ChaCha20Poly1305 as chacha20poly1305::KeyInit>::new_from_slice(&[1; 32]).unwrap();
    let nonce = [0u8, 0, 0, 0, 0, 0, 0, 0, 0, 0, 1, 2];
    let pt = chacha20poly1305::aead::Aead::decrypt(
        &c,
        chacha20poly1305::Nonce::from_slice(&nonce),
        &rec[3..],
    )
    .unwrap();
    assert_eq!(pt, b"text".to_vec());
}

#[test]
fn handshake_agrees_with_the_server() {
    let (net, server, public) = setup(silent);
    let (conn, mut tr) = handshake(&net, &config(), &[1; 32], &public).ok().unwrap();
    assert!(conn.rx.is_empty());
    let rec = tr.seal_record(b"hello").unwrap();
    let opened = server.borrow_mut().tr.as_mut().unwrap().open_record(&rec[3..]);
    assert_eq!(opened, Ok(b"hello".to_vec()));
    let back = server.borrow_mut().tr.as_mut().unwrap().seal_record(b"back").unwrap();
    assert_eq!(tr.open_record(&back[3..]), Ok(b"back".to_vec()));
}

#[test]
fn handshake_errors() {
    let (_, _, public) = setup(silent);
    let e = handshake(&Nowhere, &config(), &[1; 32], &public).err().unwrap();
    assert!(matches!(e, ControlError::Connect));
    let (net, server, public) = setup(silent);
    server.borrow_mut().refuse = true;
    match handshake(&net, &config(), &[1; 32], &public).err().unwrap() {
        ControlError::Conn(ConnError::Refused { status, body }) => {
            assert_eq!(status, "HTTP/1.1 500 Oops");
            assert_eq!(body, "sorry");
        }
        e => panic!("{e:?}"),
    }
}

fn memory(input: &[u8]) -> Conn<Link> {
    let (net, server, _) = setup(silent);
    server.borrow_mut().out = input.to_vec();
    Conn { stream: net.0, rx: Vec::new() }
}

#[test]
fn handshake_reply_types() {
    let k = Keypair::from_private([42; 32]);
    let fin = |input: &[u8]| {
        let (hs, _) = start(&[1; 32], &k.public).ok().unwrap();
        finish_handshake(hs, memory(input)).err().unwrap()
    };
    match fin(&[3, 0, 2, b'n', b'o']) {
        ControlError::Server(b) => assert_eq!(b, b"no".to_vec()),
        e => panic!("{e:?}"),
    }
    assert!(matches!(fin(&[9, 0, 0]), ControlError::Unexpected(9)));
    assert!(matches!(fin(&[2, 0, 1, 0]), ControlError::Noise(NoiseError::Response)));
    assert!(matches!(fin(&[2, 0]), ControlError::Conn(ConnError::Read(ReadError::Closed))));
}

/// A stream whose other end does not look at what is written.
struct Deaf(Link);
impl ByteStream for Deaf {
    fn read(&mut self, buf: &mut [u8]) -> Result<usize, ()> {
        self.0.read(buf)
    }
    fn write_all(&mut self, _buf: &[u8]) -> Result<(), ()> {
        Ok(())
    }
}

#[test]
fn upgrade_keeps_early_bytes() {
    let (net, server, _) = setup(silent);
    server.borrow_mut().tr = Some(Transport::new(&[0; 32], &[0; 32]));
    server.borrow_mut().raw_in.clear();
    server.borrow_mut().out = b"HTTP/1.1 101 OK\r\n\r\n\x02\x00\x03abc\x04".to_vec();
    let mut c = connect_and_upgrade(Deaf(net.0), "h", "x").ok().unwrap();
    assert_eq!(c.read_frame().ok().unwrap(), (2, b"abc".to_vec()));
    assert!(c.read_frame().is_err());
}

/// A stream that notes the calls on it.
struct Noted {
    input: Vec<u8>,
    refuse: bool,
    calls: Vec<Option<Vec<u8>>>,
}

impl ByteStream for Noted {
    fn read(&mut self, buf: &mut [u8]) -> Result<usize, ()> {
        self.calls.push(None);
        let n = buf.len().min(self.input.len()).min(5);
        buf[..n].copy_from_slice(&self.input[..n]);
        self.input.drain(..n);
        Ok(n)
    }
    fn write_all(&mut self, buf: &[u8]) -> Result<(), ()> {
        self.calls.push(Some(buf.to_vec()));
        if self.refuse {
            Err(())
        } else {
            Ok(())
        }
    }
}

#[test]
fn upgrade_asks_before_it_reads() {
    let want = b"POST /ts2021 HTTP/1.1\r\nHost: h\r\nUpgrade: tailscale-control-protocol\r\n\
        Connection: upgrade\r\nX-Tailscale-Handshake: QQ==\r\nContent-Length: 0\r\n\r\n";
    assert_eq!(build_request("h", "QQ=="), want.to_vec());
    let run = |input: &[u8], refuse: bool| {
        let mut s = Noted { input: input.to_vec(), refuse, calls: Vec::new() };
        let r = upgrade_stream(&mut s, "h", "QQ==");
        (r, s.calls)
    };
    let (r, calls) = run(b"HTTP/1.1 101 OK\r\n\r\nabc", false);
    assert!(b"abc".starts_with(&r.ok().unwrap()));
    assert_eq!(calls[0], Some(want.to_vec()));
    assert!(calls.len() > 1 && calls[1..].iter().all(|c| c.is_none()));
    let (r, calls) = run(b"HTTP/1.1 403 No\r\n\r\n", false);
    assert!(matches!(r.err(), Some(ConnError::Refused { .. })));
    assert_eq!(calls[0], Some(want.to_vec()));
    assert!(calls[1..].iter().all(|c| c.is_none()));
    let (r, calls) = run(b"HTTP/1.1 101 OK\r\n\r\n", true);
    assert!(matches!(r.err(), Some(ConnError::Write)));
    assert_eq!(calls, vec![Some(want.to_vec())]);
}

#[test]
fn status_lines() {
    assert!(is_switching("HTTP/1.1 101 Switching Protocols"));
    assert!(!is_switching("HTTP/1.1 101"));
    assert!(!is_switching("HTTP/1.1 1012 x"));
    assert!(!is_switching(""));
}

#[test]
fn session_starts_and_registers() {
    let (net, server, public) = setup(answer_json);
    let (mut sess, early) = connect(&net, &config(), &[1; 32], &public).ok().unwrap();
    assert_eq!(early, Some(b"{}".to_vec()));
    assert_eq!(sess.next_stream, 1);
    let r = register(&mut sess, &config(), &keys(), "tskey").ok().unwrap();
    assert_eq!((r.status, r.machine_authorized, r.auth_url), (200, true, None));
    assert!(r.raw.starts_with("{\"MachineAuthorized\""));
    assert_eq!(sess.next_stream, 3);
    let f = server.borrow().frames();
    assert_eq!((f[0].0, f[0].1), (FT_SETTINGS, 0));
    assert_eq!(f[0].3, vec![0, 2, 0, 0, 0, 0, 0, 5, 0, 0, 0x40, 0]);
    assert_eq!((f[1].0, f[1].1), (FT_SETTINGS, FL_ACK));
    assert_eq!((f[2].0, f[2].1, f[2].2), (FT_HEADERS, FL_END_HEADERS, 1));
    let mut head = Vec::new();
    enc_header(&mut head, ":method", b"POST");
    enc_header(&mut head, ":scheme", b"http");
    enc_header(&mut head, ":authority", b"control.example");
    enc_header(&mut head, ":path", b"/machine/register");
    assert!(f[2].3.starts_with(&head));
    let body: serde_json::Value = serde_json::from_slice(&f[3].3).unwrap();
    assert_eq!(body["Auth"]["AuthKey"], "tskey");
    assert_eq!(body["NodeKey"], format!("nodekey:{}", keys().node.public_hex()));
    assert_eq!(body["MachineKey"], format!("mkey:{}", keys().machine.public_hex()));
    // Settings were acknowledged and the window was given back for each payload.
    let updates: Vec<_> = f.iter().filter(|x| x.0 == FT_WINDOW_UPDATE).collect();
    assert_eq!(updates.len(), 4);
    assert_eq!((updates[0].2, updates[1].2), (1, 0));
    assert_eq!(updates[0].3, vec![0, 0, 0, 10]);
    assert_eq!(f.iter().filter(|x| x.0 == FT_SETTINGS && x.1 == FL_ACK).count(), 2);
}

#[test]
fn registration_hands_out_an_address() {
    let (net, _, public) = setup(answer_url);
    let r = connect_and_register(&net, &config(), &[1; 32], &public, &keys(), "").ok().unwrap();
    assert_eq!((r.status, r.machine_authorized), (403, false));
    assert_eq!(r.auth_url, Some("https://login/x".to_string()));
}

#[test]
fn map_requests() {
    let (net, server, public) = setup(answer_json);
    let (mut sess, _) = connect(&net, &config(), &[1; 32], &public).ok().unwrap();
    let m = fetch_map(&mut sess, &config(), &keys()).ok().unwrap();
    assert_eq!((m.status, m.ip), (200, Some("100.65.1.2".to_string())));
    assert_eq!(m.body_len, 78);
    let f = server.borrow().frames();
    let body: serde_json::Value = serde_json::from_slice(&f[3].3).unwrap();
    assert_eq!((&body["Stream"], &body["OmitPeers"]), (&false.into(), &false.into()));

    let (net, server, public) = setup(answer_json);
    let eps = vec!["1.2.3.4:5".to_string()];
    assert_eq!(update_endpoints(&net, &config(), &[1; 32], &public, &keys(), &eps).ok(), Some(200));
    let f = server.borrow().frames();
    let body: serde_json::Value = serde_json::from_slice(&f[3].3).unwrap();
    assert_eq!(body["OmitPeers"], true);
    assert_eq!(body["Endpoints"][0], "1.2.3.4:5");

    let (net, _, public) = setup(answer_json);
    let raw = fetch_peers(&net, &config(), &[1; 32], &public, &keys(), &eps).ok().unwrap();
    assert!(raw.starts_with(b"{\"MachineAuthorized\""));
}

#[test]
fn map_stream_finds_the_address() {
    let (net, server, public) = setup(answer_stream);
    let (mut sess, sid, ip) =
        stream_map(&net, &config(), &[1; 32], &public, &keys(), &Vec::new()).ok().unwrap();
    assert_eq!((sid, ip), (1, Some("100.99.3.4".to_string())));
    assert_eq!(sess.read_data(sid).ok(), Some(b"keepalive".to_vec()));
    assert!(matches!(sess.read_data(sid), Err(H2Error::HeadersClosed)));
    let f = server.borrow().frames();
    let body: serde_json::Value = serde_json::from_slice(&f[3].3).unwrap();
    assert_eq!((&body["Stream"], &body["KeepAlive"]), (&true.into(), &true.into()));
}

#[test]
fn server_goes_away() {
    let (net, _, public) = setup(answer_goaway);
    match connect_and_register(&net, &config(), &[1; 32], &public, &keys(), "").err().unwrap() {
        ControlError::Session(H2Error::Goaway(status)) => assert_eq!(status, 200),
        e => panic!("{e:?}"),
    }
    let (net, _, public) = setup(only_goaway);
    match connect(&net, &config(), &[1; 32], &public).err().unwrap() {
        ControlError::Session(H2Error::Goaway(_)) => {}
        e => panic!("{e:?}"),
    }
    let (net, _, public) = setup(silent);
    match connect(&net, &config(), &[1; 32], &public).err().unwrap() {
        ControlError::Session(H2Error::Conn(ConnError::Read(ReadError::Closed))) => {}
        e => panic!("{e:?}"),
    }
}

fn session(input: &[u8]) -> H2<Link> {
    H2 {
        conn: memory(input),
        tr: Transport::new(&[1; 32], &[2; 32]),
        rx: Vec::new(),
        next_stream: 1,
        authority: "h".to_string(),
    }
}

#[test]
fn session_errors() {
    assert!(matches!(session(&[3, 0, 1, b'x']).read_data(1), Err(H2Error::Control(b)) if b == b"x"));
    assert!(matches!(session(&[7, 0, 0]).read_data(1), Err(H2Error::Unexpected(7))));
    assert!(matches!(
        session(&[4, 0, 0]).read_data(1),
        Err(H2Error::Noise(NoiseError::OpenFailed(0)))
    ));
    let mut peer = Transport::new(&[2; 32], &[1; 32]);
    let rec = peer.seal_record(&frame(FT_DATA, FL_END_STREAM, 1, &[])).unwrap();
    assert!(matches!(session(&rec).read_data(1), Err(H2Error::StreamClosed)));
    let mut peer = Transport::new(&[2; 32], &[1; 32]);
    let rec = peer.seal_record(&frame(FT_GOAWAY, 0, 0, &[])).unwrap();
    assert!(matches!(session(&rec).read_data(1), Err(H2Error::Goaway(_))));
    let mut s = session(&[]);
    s.tr.tx_nonce = u64::MAX;
    assert!(matches!(s.post_stream("/", b""), Err(H2Error::Noise(NoiseError::Exhausted))));
}

#[test]
fn long_messages_go_out_in_several_records() {
    let (net, server, public) = setup(answer_json);
    let (mut sess, _) = connect(&net, &config(), &[1; 32], &public).ok().unwrap();
    let before = sess.tr.tx_nonce;
    let body = vec![b'x'; 5000];
    let (status, _) = sess.post_json("/p", &body).ok().unwrap();
    assert_eq!(status, 200);
    let f = server.borrow().frames();
    assert_eq!(f[3].3, body);
    // Three records for the request, and one for each small answer.
    assert_eq!(sess.tr.tx_nonce - before, 3 + 1 + 4);
}

#[test]
fn header_blocks() {
    assert_eq!(decode_status(&[0x88]), Some(200));
    assert_eq!(decode_status(&[0x82, 0x88]), Some(200));
    assert_eq!(decode_status(&[]), None);
    assert_eq!(decode_status(&[0x40, 0x88]), None);
    let mut b = Vec::new();
    enc_header(&mut b, ":status", b"404");
    assert_eq!(decode_status(&b), Some(404));
    let mut c = Vec::new();
    enc_header(&mut c, "server", b"x");
    enc_header(&mut c, ":status", b"+7");
    assert_eq!(decode_status(&c), Some(7));
    let mut d = Vec::new();
    enc_header(&mut d, ":status", b"70000");
    assert_eq!(decode_status(&d), None);
    assert_eq!(decode_status(&b[..9]), None);
    assert_eq!(decode_status(&[0x00, 5, b'a']), None);
}

#[test]
fn string_lengths() {
    let mut b = Vec::new();
    enc_str(&mut b, &[b'a'; 126]);
    assert_eq!((b[0], b.len()), (126, 127));
    let mut b = Vec::new();
    enc_str(&mut b, &[b'a'; 127]);
    assert_eq!((&b[..2], b.len()), (&[127u8, 0][..], 129));
    let mut b = Vec::new();
    enc_str(&mut b, &[b'a'; 127 + 300]);
    assert_eq!(&b[..3], &[127, 0xac, 0x02]);
}

#[test]
fn frames_and_bodies() {
    assert_eq!(
        frame(FT_DATA, FL_END_STREAM, 0x8000_0003, b"ab"),
        vec![0, 0, 2, 0, 1, 0, 0, 0, 3, b'a', b'b']
    );
    assert_eq!(frame(FT_DATA, 0, 1, &[0; 70000])[..3], [1, 0x11, 0x70]);
    assert_eq!(strip_wire_prefix(vec![9, 0, 0, 0, b'{', b'}']), b"{}".to_vec());
    assert_eq!(strip_wire_prefix(b"{abc{".to_vec()), b"{abc{".to_vec());
    assert_eq!(strip_wire_prefix(vec![9, 0, 0, 0]), vec![9, 0, 0, 0]);
}
