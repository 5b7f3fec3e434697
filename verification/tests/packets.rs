use tailscale_core::bytes::{
    append_zeros, array32, bytes_eq, push_be16, push_be32, push_be64, push_le32, push_le64, read_be16,
    read_be32, read_le32, read_le64, seq_advance, starts_with,
};
use tailscale_core::icmp::{checksum, echo_reply, finish, sum16};
use tailscale_core::ipv4::{ipv4_packet, l4_checksum, tcp_packet, tcp_view, TcpFields, ACK, FIN, PSH, RST, SYN};
use tailscale_core::net::Ipv4Addr;
use tailscale_core::outbound::{icmp_echo_request, initial_seq, udp_datagram, TcpClient};
use tailscale_core::platform::ByteStream;
use tailscale_core::proxy::{lan_fetch, ProxyAction, TcpProxy};
use tailscale_core::tcp::{http_response, page, TcpServer};

fn ip(a: u8, b: u8, c: u8, d: u8) -> Ipv4Addr {
    Ipv4Addr::new(a, b, c, d)
}

fn segment(sport: u16, dport: u16, seq: u32, flags: u8, payload: &[u8]) -> Vec<u8> {
    let f = TcpFields {
        src: ip(100, 64, 0, 2),
        dst: ip(100, 64, 0, 1),
        sport,
        dport,
        seq,
        ack: 0,
        flags,
    };
    tcp_packet(&f, payload)
}

/// A stream over memory that hands out at most `step` bytes per read.
struct Mem {
    input: Vec<u8>,
    at: usize,
    sent: Vec<u8>,
    step: usize,
    fail: bool,
}

impl Mem {
    fn new(input: Vec<u8>, step: usize) -> Mem {
        Mem { input, at: 0, sent: Vec::new(), step, fail: false }
    }
}

impl ByteStream for Mem {
    fn read(&mut self, buf: &mut [u8]) -> Result<usize, ()> {
        if self.fail {
            return Err(());
        }
        let n = buf.len().min(self.step).min(self.input.len() - self.at);
        buf[..n].copy_from_slice(&self.input[self.at..self.at + n]);
        self.at += n;
        Ok(n)
    }
    fn write_all(&mut self, buf: &[u8]) -> Result<(), ()> {
        self.sent.extend_from_slice(buf);
        Ok(())
    }
}

#[test]
fn integers_on_the_wire() {
    let mut v = Vec::new();
    push_be16(&mut v, 0x0102);
    push_be32(&mut v, 0x0304_0506);
    push_be64(&mut v, 0x0708_090a_0b0c_0d0e);
    assert_eq!(v, vec![1, 2, 3, 4, 5, 6, 7, 8, 9, 10, 11, 12, 13, 14]);
    let mut w = Vec::new();
    push_le32(&mut w, 0x0102_0304);
    push_le64(&mut w, 0x0506_0708_090a_0b0c);
    assert_eq!(w, vec![4, 3, 2, 1, 12, 11, 10, 9, 8, 7, 6, 5]);
    assert_eq!(read_be16(&v, 0), 0x0102);
    assert_eq!(read_be32(&v, 2), 0x0304_0506);
    assert_eq!(read_le32(&w, 0), 0x0102_0304);
    assert_eq!(read_le64(&w, 4), 0x0506_0708_090a_0b0c);
    append_zeros(&mut v, 3);
    assert_eq!(v.len(), 17);
    assert!(bytes_eq(&[1, 2], &[1, 2]));
    assert!(!bytes_eq(&[1, 2], &[1, 3]));
    assert!(!bytes_eq(&[1, 2], &[1]));
    assert!(starts_with(&[1, 2, 3], &[1, 2]));
    assert!(!starts_with(&[1], &[1, 2]));
    assert_eq!(array32(&[9u8; 40], 3), [9u8; 32]);
    assert_eq!(seq_advance(u32::MAX, 2), 1);
}

#[test]
fn checksum_of_known_header() {
    // A header whose checksum field holds 0xb861.
    let mut h = vec![
        0x45, 0x00, 0x00, 0x73, 0x00, 0x00, 0x40, 0x00, 0x40, 0x11, 0x00, 0x00, 0xc0, 0xa8, 0x00, 0x01,
        0xc0, 0xa8, 0x00, 0xc7,
    ];
    assert_eq!(checksum(&h), 0xb861);
    h[10] = 0xb8;
    h[11] = 0x61;
    assert_eq!(checksum(&h), 0);
    assert_eq!(checksum(&[]), 0xffff);
    assert_eq!(checksum(&[0x12]), !0x1200);
    assert_eq!(finish(0x0001_ffff), 0xfffe);
    assert_eq!(finish(sum16(&[0xff, 0xff, 0x00, 0x01], 0)), 0xfffe);
}

#[test]
fn checksum_of_a_long_input_carries_around() {
    let data = vec![0xffu8; 400_000];
    assert_eq!(checksum(&data), 0);
}

#[test]
fn echo_request_is_answered() {
    let req = icmp_echo_request(ip(100, 64, 0, 2), ip(100, 64, 0, 1), 7, 9, b"hello");
    assert_eq!(req.len(), 33);
    assert_eq!(req[20], 8);
    assert_eq!(checksum(&req[..20]), 0);
    assert_eq!(checksum(&req[20..]), 0);
    let rep = echo_reply(&req).unwrap();
    assert_eq!(rep.len(), req.len());
    assert_eq!(&rep[12..16], &[100, 64, 0, 1]);
    assert_eq!(&rep[16..20], &[100, 64, 0, 2]);
    assert_eq!(rep[20], 0);
    assert_eq!(&rep[24..], &req[24..]);
    assert_eq!(checksum(&rep[..20]), 0);
    assert_eq!(checksum(&rep[20..]), 0);
    // Padding behind the packet makes no difference.
    let mut padded = req.clone();
    padded.resize(48, 0);
    assert_eq!(echo_reply(&padded).unwrap(), rep);
}

#[test]
fn echo_reply_refuses_everything_else() {
    let req = icmp_echo_request(ip(1, 2, 3, 4), ip(5, 6, 7, 8), 1, 1, &[]);
    assert!(echo_reply(&req[..19]).is_none());
    let mut v6 = req.clone();
    v6[0] = 0x65;
    assert!(echo_reply(&v6).is_none());
    let mut short_ihl = req.clone();
    short_ihl[0] = 0x44;
    assert!(echo_reply(&short_ihl).is_none());
    let mut total_over = req.clone();
    total_over[3] = 200;
    assert!(echo_reply(&total_over).is_none());
    let mut udp = req.clone();
    udp[9] = 17;
    assert!(echo_reply(&udp).is_none());
    let mut reply = req.clone();
    reply[20] = 0;
    assert!(echo_reply(&reply).is_none());
    assert!(echo_reply(&ipv4_packet(ip(1, 1, 1, 1), ip(2, 2, 2, 2), 1, &[8, 0, 0])).is_none());
    assert!(echo_reply(&[]).is_none());
}

#[test]
fn udp_datagram_bytes() {
    let p = udp_datagram(ip(10, 0, 0, 1), ip(10, 0, 0, 2), 5354, 5354, b"abc");
    assert_eq!(p.len(), 31);
    assert_eq!(&p[..10], &[0x45, 0, 0, 31, 0, 0, 0x40, 0, 64, 17]);
    assert_eq!(&p[20..26], &[0x14, 0xea, 0x14, 0xea, 0, 11]);
    assert_eq!(&p[28..], b"abc");
    assert_eq!(checksum(&p[..20]), 0);
    assert_eq!(l4_checksum(ip(10, 0, 0, 1), ip(10, 0, 0, 2), 17, &p[20..]), 0);
}

#[test]
fn tcp_packet_roundtrip() {
    let p = segment(40000, 80, 0xfffffff0, PSH | ACK, b"GET / HTTP/1.1\r\n\r\n");
    let v = tcp_view(&p).unwrap();
    assert_eq!((v.sport, v.dport, v.seq, v.flags), (40000, 80, 0xfffffff0, PSH | ACK));
    assert_eq!(v.src, ip(100, 64, 0, 2));
    assert_eq!(v.dst, ip(100, 64, 0, 1));
    assert_eq!(&p[v.from..v.to], b"GET / HTTP/1.1\r\n\r\n");
    assert_eq!(p[32], 0x50);
    assert_eq!(&p[34..36], &[0xfa, 0xf0]);
    assert_eq!(checksum(&p[..20]), 0);
    assert_eq!(l4_checksum(v.src, v.dst, 6, &p[20..]), 0);
    assert!(tcp_view(&p[..39]).is_none());
}

#[test]
fn server_serves_one_page() {
    let mut s = TcpServer::new();
    let out = s.handle_with(&segment(40000, 80, 1000, SYN, &[]), 5000);
    assert_eq!(out.len(), 1);
    let v = tcp_view(&out[0]).unwrap();
    assert_eq!((v.sport, v.dport, v.seq, v.flags), (80, 40000, 5000, SYN | ACK));
    assert_eq!(read_be32(&out[0], 28), 1001);

    assert!(s.handle_with(&segment(40000, 80, 1001, ACK, &[]), 0).is_empty());

    let out = s.handle_with(&segment(40000, 80, 1001, PSH | ACK, b"GET /"), 0);
    assert_eq!(out.len(), 1);
    let v = tcp_view(&out[0]).unwrap();
    assert_eq!((v.seq, v.flags), (5001, PSH | ACK | FIN));
    assert_eq!(read_be32(&out[0], 28), 1006);
    let body = page(&ip(100, 64, 0, 1));
    assert_eq!(&out[0][v.from..v.to], &http_response(&body)[..]);

    let out = s.handle_with(&segment(40000, 80, 1006, FIN | ACK, &[]), 0);
    assert_eq!(out.len(), 1);
    let v = tcp_view(&out[0]).unwrap();
    assert_eq!(v.flags, ACK);
    assert_eq!(v.seq, 5001 + (v.to - v.from) as u32 + http_response(&body).len() as u32 + 1);
    assert!(!s.conn.active);
}

#[test]
fn page_and_response_text() {
    let p = String::from_utf8(page(&ip(100, 65, 240, 107))).unwrap();
    assert_eq!(
        p,
        "<!doctype html><html><head><meta charset=utf-8><title>Tailscale-Rust</title></head>\
         <body style=\"font-family:sans-serif\"><h1>Tailscale-Rust on T-Dongle S3</h1>\
         <p>Pure-Rust WireGuard tunnel, no DERP.</p>\
         <p>Tailscale IP: 100.65.240.107</p></body></html>"
    );
    let r = String::from_utf8(http_response(b"0123456789ab")).unwrap();
    assert_eq!(
        r,
        "HTTP/1.1 200 OK\r\nContent-Type: text/html; charset=utf-8\r\nContent-Length: 12\r\n\
         Connection: close\r\n\r\n0123456789ab"
    );
}

#[test]
fn server_ignores_what_is_not_its_own() {
    let mut s = TcpServer::new();
    assert!(s.handle_with(&segment(40000, 81, 1, SYN, &[]), 1).is_empty());
    assert!(s.handle_with(&[0u8; 10], 1).is_empty());
    assert!(s.handle_with(&segment(40000, 80, 1, ACK, b"x"), 1).is_empty());
    s.handle_with(&segment(40000, 80, 1, SYN, &[]), 1);
    assert!(s.handle_with(&segment(40001, 80, 2, ACK, b"x"), 1).is_empty());
    assert!(s.conn.active);
    assert!(s.handle_with(&segment(40000, 80, 2, RST, &[]), 1).is_empty());
    assert!(!s.conn.active);
}

#[test]
fn server_draws_its_own_sequence_number() {
    let mut s = TcpServer::new();
    let out = s.handle(&segment(40000, 80, 1000, SYN, &[])).unwrap();
    assert_eq!(out.len(), 1);
    let first = tcp_view(&out[0]).unwrap().seq;
    assert_eq!(s.conn.snd_nxt, first.wrapping_add(1));
    let mut seen = vec![first];
    for _ in 0..4 {
        let out = s.handle(&segment(40000, 80, 1000, SYN, &[])).unwrap();
        seen.push(tcp_view(&out[0]).unwrap().seq);
    }
    assert!(seen.iter().any(|x| *x != first));
}

#[test]
fn client_runs_one_exchange() {
    let (us, them) = (ip(100, 64, 0, 1), ip(100, 64, 0, 2));
    let mut c = TcpClient::with_random(us, them, 5555, 80, b"GET /".to_vec(), 0x8000_0064);
    assert_eq!(c.snd_nxt, 100);
    let syn = c.open();
    let v = tcp_view(&syn).unwrap();
    assert_eq!((v.sport, v.dport, v.seq, v.flags), (5555, 80, 100, SYN));

    let back = |seq: u32, flags: u8, payload: &[u8]| {
        tcp_packet(
            &TcpFields { src: them, dst: us, sport: 80, dport: 5555, seq, ack: 101, flags },
            payload,
        )
    };
    let out = c.on_inner(&back(700, SYN | ACK, &[]));
    assert_eq!(out.len(), 2);
    assert_eq!(tcp_view(&out[0]).unwrap().flags, ACK);
    let v = tcp_view(&out[1]).unwrap();
    assert_eq!((v.seq, v.flags), (101, PSH | ACK));
    assert_eq!(&out[1][v.from..v.to], b"GET /");
    assert_eq!(c.snd_nxt, 106);

    assert_eq!(c.on_inner(&back(701, ACK, b"HTTP")).len(), 1);
    // Out of order: acknowledged, not kept.
    assert_eq!(c.on_inner(&back(900, ACK, b"????")).len(), 1);
    assert_eq!(c.response, b"HTTP".to_vec());
    let out = c.on_inner(&back(705, FIN | ACK, b" OK"));
    assert_eq!(out.len(), 3);
    assert_eq!(tcp_view(&out[2]).unwrap().flags, FIN | ACK);
    assert_eq!(c.response, b"HTTP OK".to_vec());
    assert!(c.done);
    assert!(c.on_inner(&back(709, ACK, b"more")).is_empty());
}

#[test]
fn client_takes_only_its_own_port() {
    let (us, them) = (ip(100, 64, 0, 1), ip(100, 64, 0, 2));
    let mut c = TcpClient::with_random(us, them, 5555, 80, Vec::new(), 1);
    let other = segment(80, 5556, 1, SYN | ACK, &[]);
    assert!(!c.owns(&other));
    assert!(c.on_inner(&other).is_empty());
    assert!(!c.owns(&[0x45; 10]));
    assert!(c.owns(&segment(80, 5555, 1, ACK, &[])));
}

#[test]
fn client_sequence_number_is_never_zero() {
    assert_eq!(initial_seq(0), 1);
    assert_eq!(initial_seq(0x8000_0000), 1);
    assert_eq!(initial_seq(u32::MAX), 0x7fff_ffff);
    let c = TcpClient::new(ip(1, 1, 1, 1), ip(2, 2, 2, 2), 1, 2, Vec::new()).unwrap();
    assert!(c.snd_nxt >= 1 && c.snd_nxt < 0x8000_0000);
    assert!(!c.done && !c.established && c.response.is_empty());
}

#[test]
fn proxy_forwards_one_request() {
    let mut p = TcpProxy::new(8080);
    match p.handle(&segment(40000, 80, 1, SYN, &[]), 9) {
        ProxyAction::Reply(v) => assert!(v.is_empty()),
        ProxyAction::Fetch { .. } => panic!("not for this port"),
    }
    match p.handle(&segment(40000, 8080, 1000, SYN, &[]), 9000) {
        ProxyAction::Reply(v) => {
            assert_eq!(v.len(), 1);
            let s = tcp_view(&v[0]).unwrap();
            assert_eq!((s.sport, s.seq, s.flags), (8080, 9000, SYN | ACK));
        }
        ProxyAction::Fetch { .. } => panic!("nothing to fetch yet"),
    }
    match p.handle(&segment(40000, 8080, 1001, PSH | ACK, b"GET /x"), 0) {
        ProxyAction::Fetch { ack, request } => {
            assert_eq!(request, b"GET /x".to_vec());
            let s = tcp_view(&ack).unwrap();
            assert_eq!((s.seq, s.flags), (9001, ACK));
            assert_eq!(read_be32(&ack, 28), 1007);
        }
        ProxyAction::Reply(_) => panic!("the request must be forwarded"),
    }
    let resp: Vec<u8> = (0..2500u32).map(|i| i as u8).collect();
    let out = p.respond(&resp);
    assert_eq!(out.len(), 3);
    let mut joined = Vec::new();
    let mut next = 9001u32;
    for (i, seg) in out.iter().enumerate() {
        let s = tcp_view(seg).unwrap();
        assert_eq!(s.seq, next);
        assert_eq!(s.flags, if i == 2 { PSH | ACK | FIN } else { PSH | ACK });
        next += (s.to - s.from) as u32;
        joined.extend_from_slice(&seg[s.from..s.to]);
    }
    assert_eq!(joined, resp);
    assert_eq!(p.conn.snd_nxt, 9001 + 2500 + 1);
    // A second request on the connection is not forwarded.
    match p.handle(&segment(40000, 8080, 1007, PSH | ACK, b"again"), 0) {
        ProxyAction::Reply(v) => assert!(v.is_empty()),
        ProxyAction::Fetch { .. } => panic!("one request per connection"),
    }
}

#[test]
fn proxy_closes_on_an_empty_response() {
    let mut p = TcpProxy::new(8080);
    p.handle(&segment(40000, 8080, 1000, SYN, &[]), 1);
    p.handle(&segment(40000, 8080, 1001, ACK, b"GET"), 0);
    let out = p.respond(&[]);
    assert_eq!(out.len(), 1);
    assert_eq!(tcp_view(&out[0]).unwrap().flags, FIN | ACK);
    assert_eq!(p.conn.snd_nxt, 3);
    match p.handle(&segment(40000, 8080, 1004, FIN | ACK, &[]), 0) {
        ProxyAction::Reply(v) => assert_eq!(v.len(), 1),
        ProxyAction::Fetch { .. } => panic!("closing"),
    }
    assert!(!p.conn.active);
}

#[test]
fn lan_fetch_collects_until_the_end() {
    let mut m = Mem::new(vec![7u8; 3000], 100);
    assert_eq!(lan_fetch(&mut m, b"GET"), vec![7u8; 3000]);
    assert_eq!(m.sent, b"GET".to_vec());
    let mut big = Mem::new(vec![1u8; 100_000], 5000);
    let got = lan_fetch(&mut big, b"GET");
    assert!(got.len() > 65536 && got.len() <= 65536 + 1460);
    let mut broken = Mem::new(vec![1u8; 10], 5);
    broken.fail = true;
    assert!(lan_fetch(&mut broken, b"GET").is_empty());
}
