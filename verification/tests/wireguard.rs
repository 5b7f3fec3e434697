use blake2::digest::consts::U16;
use blake2::digest::Mac;
use blake2::{Blake2s256, Blake2sMac, Digest};
use chacha20poly1305::aead::{Aead, KeyInit};
use tailscale_core::keys::Keypair;
use tailscale_core::wg::{
    build_initiation, build_initiation_with, build_response, consume_initiation, decrypt_transport,
    random_index, read_initiation, tai64n, Tunnel, WgError, MSG_TRANSPORT,
};

fn key(n: u8) -> Keypair {
    Keypair::from_private([n; 32])
}

fn pair() -> (Tunnel, Tunnel) {
    let (a, b) = (key(1), key(2));
    let (init, hs) = build_initiation_with(&a.private, &a.public, &b.public, tai64n(1, 2), 7, [3u8; 32]);
    let got = read_initiation(&b.private, &b.public, &init).ok().unwrap();
    let (resp, tb) = build_response(&got, 9, &[4u8; 32]);
    let ta = hs.consume_response(&resp).ok().unwrap();
    (ta, tb)
}

#[test]
fn public_key_of_a_known_private_key() {
    // The first key pair of the X25519 test vectors.
    let private = [
        0x77, 0x07, 0x6d, 0x0a, 0x73, 0x18, 0xa5, 0x7d, 0x3c, 0x16, 0xc1, 0x72, 0x51, 0xb2, 0x66, 0x45,
        0xdf, 0x4c, 0x2f, 0x87, 0xeb, 0xc0, 0x99, 0x2a, 0xb1, 0x77, 0xfb, 0xa5, 0x1d, 0xb9, 0x2c, 0x2a,
    ];
    let k = Keypair::from_private(private);
    assert_eq!(
        k.public_hex(),
        "8520f0098930a754748b7ddcb43ef75a0dbf3a0d26381af4eba4a98eaa9b4e6a"
    );
}

#[test]
fn handshake_brings_up_crossed_keys() {
    let (a, b) = pair();
    assert_eq!(a.send_key, b.recv_key);
    assert_eq!(a.recv_key, b.send_key);
    assert_ne!(a.send_key, a.recv_key);
    assert_eq!((a.our_index(), a.their_index), (7, 9));
    assert_eq!((b.our_index(), b.their_index), (9, 7));
    assert_eq!(a.recv_key(), a.recv_key);
}

#[test]
fn handshake_with_fresh_keys() {
    let (a, b) = (key(1), key(2));
    let (init, hs) = build_initiation(&a.private, &a.public, &b.public, tai64n(5, 0), 77).unwrap();
    assert_eq!(init.len(), 148);
    assert_eq!(&init[..8], &[1, 0, 0, 0, 77, 0, 0, 0]);
    assert_eq!(&init[132..], &[0u8; 16]);
    let (resp, tb, who) = consume_initiation(&b.private, &b.public, &init, 88).ok().unwrap();
    assert_eq!(who, a.public);
    assert_eq!(&resp[..12], &[2, 0, 0, 0, 88, 0, 0, 0, 77, 0, 0, 0]);
    let ta = hs.consume_response(&resp).ok().unwrap();
    assert_eq!(ta.send_key, tb.recv_key);
    let (again, _) = build_initiation(&a.private, &a.public, &b.public, tai64n(5, 0), 77).unwrap();
    assert_ne!(init, again);
}

#[test]
fn initiation_carries_mac1() {
    let (a, b) = (key(1), key(2));
    let (init, _) = build_initiation_with(&a.private, &a.public, &b.public, tai64n(1, 2), 7, [3u8; 32]);
    let mut h = Blake2s256::new();
    Digest::update(&mut h, b"mac1----");
    Digest::update(&mut h, b.public);
    let k: [u8; 32] = h.finalize().into();
    let mut m = <Blake2sMac<U16> as Mac>::new_from_slice(&k).unwrap();
    Mac::update(&mut m, &init[..116]);
    let mac: [u8; 16] = m.finalize().into_bytes().into();
    assert_eq!(&init[116..132], &mac);
    assert_eq!(&init[8..40], &Keypair::from_private([3u8; 32]).public);
}

#[test]
fn initiation_errors() {
    let (a, b) = (key(1), key(2));
    let (init, _) = build_initiation_with(&a.private, &a.public, &b.public, tai64n(1, 2), 7, [3u8; 32]);
    let err = |bytes: &[u8]| consume_initiation(&b.private, &b.public, bytes, 1).err();
    assert_eq!(err(&init[..147]), Some(WgError::TooShort(147)));
    let mut t = init;
    t[0] = 2;
    assert_eq!(err(&t), Some(WgError::WrongType(2)));
    let mut s = init;
    s[50] ^= 1;
    assert_eq!(err(&s), Some(WgError::StaticDecrypt));
    let mut ts = init;
    ts[90] ^= 1;
    assert_eq!(err(&ts), Some(WgError::TimestampDecrypt));
    let c = key(3);
    assert_eq!(
        consume_initiation(&c.private, &c.public, &init, 1).err(),
        Some(WgError::StaticDecrypt)
    );
}

#[test]
fn response_errors() {
    let (a, b) = (key(1), key(2));
    let start = || build_initiation_with(&a.private, &a.public, &b.public, tai64n(1, 2), 7, [3u8; 32]);
    let (init, _) = start();
    let got = read_initiation(&b.private, &b.public, &init).ok().unwrap();
    let (resp, _) = build_response(&got, 9, &[4u8; 32]);
    let err = |bytes: &[u8]| start().1.consume_response(bytes).err();
    assert_eq!(err(&resp[..91]), Some(WgError::TooShort(91)));
    let mut t = resp;
    t[0] = 1;
    assert_eq!(err(&t), Some(WgError::WrongType(1)));
    let mut i = resp;
    i[8] = 8;
    assert_eq!(err(&i), Some(WgError::WrongIndex(8)));
    let mut x = resp;
    x[50] ^= 1;
    assert_eq!(err(&x), Some(WgError::AuthFailed));
    assert_eq!(err(&resp), None);
}

#[test]
fn transport_roundtrip_pads_to_sixteen() {
    let (mut a, mut b) = pair();
    let pkt = a.encrypt(b"hello");
    assert_eq!(pkt.len(), 16 + 16 + 16);
    assert_eq!(&pkt[..4], &[MSG_TRANSPORT, 0, 0, 0]);
    assert_eq!(&pkt[4..16], &[9, 0, 0, 0, 0, 0, 0, 0, 0, 0, 0, 0]);
    let mut want = b"hello".to_vec();
    want.resize(16, 0);
    assert_eq!(b.decrypt(&pkt), Ok(want.clone()));
    assert_eq!(decrypt_transport(&b.recv_key, &pkt), Some(want));
    let second = a.encrypt(&[1u8; 16]);
    assert_eq!(second[8], 1);
    assert_eq!(a.tx_counter, 2);
    assert_eq!(b.decrypt(&second), Ok(vec![1u8; 16]));
    let back = b.encrypt(b"x");
    assert_eq!(a.decrypt(&back).unwrap()[0], b'x');
}

#[test]
fn keepalive_is_empty() {
    let (mut a, b) = pair();
    let ka = a.keepalive();
    assert_eq!(ka.len(), 32);
    assert_eq!(b.decrypt(&ka), Ok(Vec::new()));
    assert_eq!(a.tx_counter, 1);
}

#[test]
fn transport_is_chacha_with_a_little_endian_counter() {
    let (mut a, _) = pair();
    a.tx_counter = 0x0102_0304;
    let pkt = a.encrypt(&[7u8; 32]);
    let c = chacha20poly1305::ChaCha20Poly1305::new_from_slice(&a.send_key).unwrap();
    let nonce = [0u8, 0, 0, 0, 4, 3, 2, 1, 0, 0, 0, 0];
    let pt = c.decrypt(chacha20poly1305::Nonce::from_slice(&nonce), &pkt[16..]).unwrap();
    assert_eq!(pt, vec![7u8; 32]);
}

#[test]
fn transport_errors() {
    let (mut a, b) = pair();
    let mut pkt = a.encrypt(b"hello");
    assert_eq!(b.decrypt(&pkt[..31]), Err(WgError::TooShort(31)));
    assert_eq!(a.decrypt(&pkt), Err(WgError::AuthFailed));
    pkt[20] ^= 1;
    assert_eq!(b.decrypt(&pkt), Err(WgError::AuthFailed));
    assert_eq!(decrypt_transport(&b.recv_key, &pkt), None);
    pkt[0] = 3;
    assert_eq!(b.decrypt(&pkt), Err(WgError::WrongType(3)));
    assert_eq!(decrypt_transport(&b.recv_key, &[4u8; 8]), None);
}

#[test]
fn timestamps() {
    assert_eq!(tai64n(0, 0), [0x40, 0, 0, 0, 0, 0, 0, 10, 0, 0, 0, 0]);
    assert_eq!(tai64n(0xf6, 0x01020304), [0x40, 0, 0, 0, 0, 0, 1, 0, 1, 2, 3, 4]);
    assert!(tai64n(100, 999_999_999) < tai64n(101, 0));
    assert!(tai64n(100, 1) < tai64n(100, 2));
}

#[test]
fn indices_are_random() {
    let first = random_index().unwrap();
    assert!((0..4).any(|_| random_index().unwrap() != first));
}
