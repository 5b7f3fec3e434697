use tailscale_core::mdns::{contains, group, hash, remember, Reflector, DEDUP_MAX};
use tailscale_core::net::{Ipv4Addr, SocketAddr, SocketAddrV4};

fn from(last: u8) -> SocketAddr {
    SocketAddr::V4(SocketAddrV4 { ip: Ipv4Addr::new(192, 168, 1, last), port: 5353 })
}

#[test]
fn fnv_values() {
    assert_eq!(hash(b""), 0xcbf29ce484222325);
    assert_eq!(hash(b"a"), 0xaf63dc4c8601ec8c);
    assert_eq!(hash(b"foobar"), 0x85944171f73967e8);
}

#[test]
fn window_forgets_the_oldest() {
    let mut seen = Vec::new();
    for i in 0..DEDUP_MAX as u64 {
        remember(&mut seen, i);
    }
    assert!(contains(&seen, 0));
    remember(&mut seen, 1000);
    assert_eq!(seen.len(), DEDUP_MAX);
    assert!(!contains(&seen, 0));
    assert!(contains(&seen, 1));
    assert_eq!(seen.last(), Some(&1000));
}

#[test]
fn captured_payloads_go_out_once() {
    let me = Ipv4Addr::new(192, 168, 1, 5);
    let mut r = Reflector::new();
    assert!(r.captured(me, from(9), b"query"));
    assert!(!r.captured(me, from(9), b"query"));
    assert!(!r.captured(me, from(5), b"own"));
    assert!(r.captured(me, from(9), b"own"));
    assert_eq!(r.seen.len(), 2);
}

#[test]
fn injected_payloads_do_not_loop() {
    let me = Ipv4Addr::new(192, 168, 1, 5);
    let mut r = Reflector::new();
    r.injected(b"from partner");
    assert!(!r.captured(me, from(9), b"from partner"));
    for i in 0..63u8 {
        assert!(r.captured(me, from(9), &[i]));
    }
    assert!(!r.captured(me, from(9), b"from partner"));
    assert!(r.captured(me, from(9), &[63]));
    // The window has moved on.
    assert!(r.captured(me, from(9), b"from partner"));
    assert_eq!(group(), Ipv4Addr::new(224, 0, 0, 251));
}
