use crypto_box::aead::Aead;
use tailscale_core::disco::{
    call_me_maybe_plaintext, decode, is_disco, open, ping_plaintext, pong_plaintext, seal, seal_with,
    DiscoError, CALL_ME_MAYBE, PING, PONG,
};
use tailscale_core::keys::Keypair;
use tailscale_core::magicsock::{judge_reply, query_step, MagicSock, QueryError};
use tailscale_core::net::{Ipv4Addr, SocketAddr, SocketAddrV4, SocketAddrV6};
use tailscale_core::platform::{Clock, UdpSock};
use tailscale_core::stun::{
    binding_request, binding_request_with, is_stun, parse_mapped, parse_response, parse_xor_mapped,
    StunError,
};
use std::cell::RefCell;

fn v4(a: u8, b: u8, c: u8, d: u8, port: u16) -> SocketAddr {
    SocketAddr::V4(SocketAddrV4 { ip: Ipv4Addr::new(a, b, c, d), port })
}

fn header(txid: &[u8; 12], len: u16) -> Vec<u8> {
    let mut v = vec![1, 1, (len >> 8) as u8, len as u8, 0x21, 0x12, 0xa4, 0x42];
    v.extend_from_slice(txid);
    v
}

fn xor_attr(a: u8, b: u8, c: u8, d: u8, port: u16) -> Vec<u8> {
    let p = port ^ 0x2112;
    vec![
        0, 0x20, 0, 8, 0, 1, (p >> 8) as u8, p as u8, a ^ 0x21, b ^ 0x12, c ^ 0xa4, d ^ 0x42,
    ]
}

#[test]
fn stun_request_bytes() {
    let r = binding_request_with(&[7u8; 12]);
    assert_eq!(&r[..8], &[0, 1, 0, 0, 0x21, 0x12, 0xa4, 0x42]);
    assert_eq!(&r[8..], &[7u8; 12]);
    assert!(is_stun(&r));
    let (req, txid) = binding_request().unwrap();
    assert_eq!(&req[8..], &txid);
    let (_, other) = binding_request().unwrap();
    assert_ne!(txid, other);
}

#[test]
fn stun_xor_mapped_address() {
    let txid = [3u8; 12];
    let mut m = header(&txid, 12);
    m.extend_from_slice(&xor_attr(192, 0, 2, 1, 32853));
    assert!(is_stun(&m));
    assert_eq!(
        parse_response(&m, &txid),
        Ok(SocketAddrV4 { ip: Ipv4Addr::new(192, 0, 2, 1), port: 32853 })
    );
    assert_eq!(
        parse_xor_mapped(&m[24..]),
        Some(SocketAddrV4 { ip: Ipv4Addr::new(192, 0, 2, 1), port: 32853 })
    );
}

#[test]
fn stun_legacy_and_unknown_attributes() {
    let txid = [3u8; 12];
    // An unknown attribute of five bytes, padded to eight, then MAPPED-ADDRESS.
    let mut m = header(&txid, 24);
    m.extend_from_slice(&[0x80, 0x22, 0, 5, b'h', b'e', b'l', b'l', b'o', 0, 0, 0]);
    m.extend_from_slice(&[0, 1, 0, 8, 0, 1, 0x12, 0x34, 10, 1, 2, 3]);
    assert_eq!(
        parse_response(&m, &txid),
        Ok(SocketAddrV4 { ip: Ipv4Addr::new(10, 1, 2, 3), port: 0x1234 })
    );
    assert!(parse_mapped(&[0, 2, 0, 0, 0, 0, 0, 0]).is_none());
    assert!(parse_xor_mapped(&[0, 1, 0]).is_none());
}

#[test]
fn stun_legacy_address_is_a_fallback() {
    let txid = [0u8; 12];
    let want = Ok(SocketAddrV4 { ip: Ipv4Addr::new(192, 0, 2, 1), port: 32853 });
    let mapped = [0u8, 1, 0, 8, 0, 1, 0x03, 0xE8, 10, 0, 0, 1];
    let xored = [0u8, 0x20, 0, 8, 0, 1, 0xA1, 0x47, 0xE1, 0x12, 0xA6, 0x43];
    let mut m = header(&txid, 24);
    m.extend_from_slice(&mapped);
    m.extend_from_slice(&xored);
    assert_eq!(parse_response(&m, &txid), want);
    let mut m = header(&txid, 24);
    m.extend_from_slice(&xored);
    m.extend_from_slice(&mapped);
    assert_eq!(parse_response(&m, &txid), want);
    // An unusable XOR-MAPPED-ADDRESS leaves the first legacy one.
    let legacy = Ok(SocketAddrV4 { ip: Ipv4Addr::new(10, 0, 0, 1), port: 1000 });
    let mut m = header(&txid, 36);
    m.extend_from_slice(&mapped);
    m.extend_from_slice(&[0, 1, 0, 8, 0, 1, 0, 1, 10, 0, 0, 2]);
    m.extend_from_slice(&[0, 0x20, 0, 8, 0, 2, 0, 0, 0, 0, 0, 0]);
    assert_eq!(parse_response(&m, &txid), legacy);
    // So does an attribute that runs over the end.
    let mut m = header(&txid, 24);
    m.extend_from_slice(&mapped);
    m.extend_from_slice(&[0, 0x20, 0, 9, 0, 1, 0, 0, 0, 0, 0, 0]);
    assert_eq!(parse_response(&m, &txid), legacy);
}

#[test]
fn stun_errors() {
    let txid = [3u8; 12];
    assert_eq!(parse_response(&[0u8; 19], &txid), Err(StunError::TooShort(19)));
    let mut m = header(&txid, 0);
    assert_eq!(parse_response(&m, &txid), Err(StunError::NoAddress));
    assert_eq!(parse_response(&m, &[4u8; 12]), Err(StunError::TxidMismatch));
    m[0] = 0;
    assert_eq!(parse_response(&m, &txid), Err(StunError::NotResponse(1)));
    m[0] = 1;
    m[4] = 0;
    assert_eq!(parse_response(&m, &txid), Err(StunError::BadCookie(0x0012_a442)));
    assert!(!is_stun(&m));
    // An attribute that runs over the end stops the search.
    let mut cut = header(&txid, 12);
    cut.extend_from_slice(&xor_attr(1, 2, 3, 4, 5)[..10]);
    assert_eq!(parse_response(&cut, &txid), Err(StunError::NoAddress));
}

struct Script {
    replies: RefCell<Vec<Result<Vec<u8>, ()>>>,
    sent: RefCell<Vec<Vec<u8>>>,
}

impl UdpSock for Script {
    fn local_port(&self) -> u16 {
        4242
    }
    fn send_to(&self, buf: &[u8], _dst: SocketAddr) -> Result<(), ()> {
        self.sent.borrow_mut().push(buf.to_vec());
        Ok(())
    }
    fn recv_from(&self, buf: &mut [u8]) -> Result<(usize, SocketAddr), ()> {
        let next = self.replies.borrow_mut().remove(0)?;
        let mut bytes = next;
        if bytes.len() >= 20 && bytes[0] == 1 {
            // A real server answers with the transaction id of the request.
            let req = self.sent.borrow().last().unwrap().clone();
            bytes[8..20].copy_from_slice(&req[8..20]);
        }
        buf[..bytes.len()].copy_from_slice(&bytes);
        Ok((bytes.len(), v4(9, 9, 9, 9, 3478)))
    }
}

#[test]
fn stun_query_passes_over_noise() {
    let mut good = header(&[0u8; 12], 12);
    good.extend_from_slice(&xor_attr(203, 0, 113, 5, 1000));
    let s = Script {
        replies: RefCell::new(vec![Err(()), Ok(vec![1, 2, 3]), Ok(good)]),
        sent: RefCell::new(Vec::new()),
    };
    let m = MagicSock::new(s);
    assert_eq!(m.local_port, 4242);
    assert_eq!(
        m.stun_public_addr(v4(9, 9, 9, 9, 3478)),
        Ok(SocketAddrV4 { ip: Ipv4Addr::new(203, 0, 113, 5), port: 1000 })
    );
    assert_eq!(m.sock.sent.borrow().len(), 3);
    let silent = Script {
        replies: RefCell::new(vec![Err(()), Err(()), Err(())]),
        sent: RefCell::new(Vec::new()),
    };
    assert_eq!(
        MagicSock::new(silent).stun_public_addr(v4(9, 9, 9, 9, 3478)),
        Err(QueryError::NoReply)
    );
    let empty = Script {
        replies: RefCell::new(vec![Ok(header(&[0u8; 12], 0))]),
        sent: RefCell::new(Vec::new()),
    };
    assert_eq!(
        MagicSock::new(empty).stun_public_addr(v4(9, 9, 9, 9, 3478)),
        Err(QueryError::Bad(StunError::NoAddress))
    );
    assert!(judge_reply(&[1, 2, 3], &[0u8; 12]).is_none());
}

#[test]
fn stun_query_step() {
    let txid = [0u8; 12];
    let mut good = header(&txid, 12);
    good.extend_from_slice(&xor_attr(203, 0, 113, 5, 1000));
    let want = SocketAddrV4 { ip: Ipv4Addr::new(203, 0, 113, 5), port: 1000 };
    assert_eq!(query_step(1, true, Some(&good), &txid), Some(Ok(want)));
    assert_eq!(query_step(1, false, None, &txid), Some(Err(QueryError::Send)));
    for made in [1, 2] {
        assert_eq!(query_step(made, true, None, &txid), None);
        assert_eq!(query_step(made, true, Some(&[1, 2, 3]), &txid), None);
    }
    assert_eq!(query_step(3, true, None, &txid), Some(Err(QueryError::NoReply)));
    assert_eq!(
        query_step(3, true, Some(&good), &[1u8; 12]),
        Some(Err(QueryError::Bad(StunError::TxidMismatch)))
    );
}

struct Mute;

impl UdpSock for Mute {
    fn local_port(&self) -> u16 {
        1
    }
    fn send_to(&self, _buf: &[u8], _dst: SocketAddr) -> Result<(), ()> {
        Err(())
    }
    fn recv_from(&self, _buf: &mut [u8]) -> Result<(usize, SocketAddr), ()> {
        Err(())
    }
}

#[test]
fn node_socket_gives_what_its_socket_gives() {
    let s = Script {
        replies: RefCell::new(vec![Ok(vec![7, 8, 9]), Err(())]),
        sent: RefCell::new(Vec::new()),
    };
    let m = MagicSock::new(s);
    assert_eq!(m.send_to(&[1, 2], v4(9, 9, 9, 9, 3478)), Ok(()));
    assert_eq!(*m.sock.sent.borrow(), vec![vec![1u8, 2]]);
    let mut buf = [0u8; 8];
    assert!(matches!(m.recv_from(&mut buf), Ok((3, _))));
    assert_eq!(buf, [7, 8, 9, 0, 0, 0, 0, 0]);
    assert!(m.recv_from(&mut buf).is_err());
    let mute = MagicSock::new(Mute);
    assert_eq!(mute.send_to(&[1, 2], v4(9, 9, 9, 9, 3478)), Err(()));
    assert_eq!(mute.stun_public_addr(v4(9, 9, 9, 9, 3478)), Err(QueryError::Send));
}

struct Coarse;

impl Clock for Coarse {
    fn unix_secs(&self) -> u64 {
        5
    }
}

#[test]
fn what_a_platform_may_leave_out() {
    assert_eq!(Coarse.unix_secs(), 5);
    assert_eq!(Coarse.unix_nanos(), 0);
    assert!(!Mute.would_block());
}

#[test]
fn disco_messages_on_the_wire() {
    let p = ping_plaintext(&[1u8; 12], &[2u8; 32]);
    assert_eq!(p.len(), 46);
    assert_eq!(&p[..3], &[PING, 0, 1]);
    let q = pong_plaintext(&[1u8; 12], v4(192, 168, 1, 7, 0x0102));
    assert_eq!(&q[..2], &[PONG, 0]);
    assert_eq!(
        &q[14..],
        &[0, 0, 0, 0, 0, 0, 0, 0, 0, 0, 0xff, 0xff, 192, 168, 1, 7, 1, 2]
    );
    let six = SocketAddr::V6(SocketAddrV6 {
        ip: 0x2001_0db8_0000_0000_0000_0000_0000_0001,
        port: 443,
        flowinfo: 0,
        scope_id: 0,
    });
    let c = call_me_maybe_plaintext(&[six, v4(1, 2, 3, 4, 5)]);
    assert_eq!(c.len(), 2 + 36);
    assert_eq!(&c[..6], &[CALL_ME_MAYBE, 0, 0x20, 0x01, 0x0d, 0xb8]);
    assert_eq!(&c[16..20], &[0, 1, 1, 0xbb]);
}

#[test]
fn disco_seal_and_open() {
    let a = Keypair::from_private([11u8; 32]);
    let b = Keypair::from_private([22u8; 32]);
    let msg = ping_plaintext(&[5u8; 12], &[6u8; 32]);
    let wire = seal(&a.private, &a.public, &b.public, &msg).unwrap();
    assert!(is_disco(&wire));
    assert_eq!(wire.len(), 62 + 16 + msg.len());
    assert_eq!(&wire[..6], &[0x54, 0x53, 0xf0, 0x9f, 0x92, 0xac]);
    assert_eq!(&wire[6..38], &a.public);
    let got = open(&b.private, &wire).ok().unwrap();
    assert_eq!(got.sender_disco_pub, a.public);
    assert_eq!(got.msg_type, PING);
    assert_eq!(got.txid, [5u8; 12]);
    assert!(got.endpoints.is_empty());
    // Two seals of one message differ in their nonce.
    let again = seal(&a.private, &a.public, &b.public, &msg).unwrap();
    assert_ne!(wire[38..62], again[38..62]);
    // With the nonce given, the packet is fixed.
    let fixed = seal_with(&a.private, &a.public, &b.public, &[9u8; 24], &msg);
    assert_eq!(fixed, seal_with(&a.private, &a.public, &b.public, &[9u8; 24], &msg));
    assert!(!fixed.windows(12).any(|w| w == [5u8; 12]));
}

#[test]
fn disco_box_is_a_nacl_box() {
    let a = Keypair::from_private([11u8; 32]);
    let b = Keypair::from_private([22u8; 32]);
    let wire = seal_with(&a.private, &a.public, &b.public, &[9u8; 24], b"some plaintext here");
    let bx = crypto_box::SalsaBox::new(
        &crypto_box::PublicKey::from(a.public),
        &crypto_box::SecretKey::from(b.private),
    );
    let pt = bx.decrypt(crypto_box::Nonce::from_slice(&wire[38..62]), &wire[62..]).unwrap();
    assert_eq!(pt, b"some plaintext here".to_vec());
    assert_eq!(crypto_box::SecretKey::from(b.private).public_key().to_bytes(), b.public);
}

#[test]
fn disco_call_me_maybe_lists_ipv4_endpoints() {
    let a = Keypair::from_private([11u8; 32]);
    let b = Keypair::from_private([22u8; 32]);
    let six = SocketAddr::V6(SocketAddrV6 { ip: 1 << 96, port: 443, flowinfo: 0, scope_id: 0 });
    let eps = vec![v4(1, 2, 3, 4, 5), six, v4(6, 7, 8, 9, 65535)];
    let msg = call_me_maybe_plaintext(&eps);
    let wire = seal_with(&a.private, &a.public, &b.public, &[1u8; 24], &msg);
    let got = open(&b.private, &wire).ok().unwrap();
    assert_eq!(got.msg_type, CALL_ME_MAYBE);
    assert_eq!(got.endpoints, vec![v4(1, 2, 3, 4, 5), v4(6, 7, 8, 9, 65535)]);
}

#[test]
fn disco_errors() {
    let a = Keypair::from_private([11u8; 32]);
    let b = Keypair::from_private([22u8; 32]);
    let mut wire = seal_with(&a.private, &a.public, &b.public, &[1u8; 24], &[1u8; 20]);
    assert_eq!(open(&b.private, &wire[..77]).err(), Some(DiscoError::NotDisco));
    assert_eq!(open(&a.private, &wire).err(), Some(DiscoError::BadMac));
    *wire.last_mut().unwrap() ^= 1;
    assert_eq!(open(&b.private, &wire).err(), Some(DiscoError::BadMac));
    wire[0] = 0;
    assert_eq!(open(&b.private, &wire).err(), Some(DiscoError::NotDisco));
    assert!(!is_disco(&wire));
    assert!(!is_disco(&[0x54, 0x53]));
    let short = seal_with(&a.private, &a.public, &b.public, &[1u8; 24], &[1u8; 13]);
    assert_eq!(open(&b.private, &short).err(), Some(DiscoError::TooShort));
    assert_eq!(decode(&a.public, &[1u8; 13]).err(), Some(DiscoError::TooShort));
}
