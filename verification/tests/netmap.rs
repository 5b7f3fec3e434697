use tailscale_core::control::{
    build_hostinfo_json, build_map_json, build_register_json, hex_decode_32, parse_control_key,
    parse_mkey, parse_register, read_netmap, scan_tailscale_ip, scan_whole_ip, Config, KeyError, RegisterResult,
};
use tailscale_core::keys::{
    hex_lower, load_or_generate, FreshKeys, KeyName, KeyStore, Keypair, NodeKeys,
};
use tailscale_core::net::{ipv4_from_number, Ipv4Addr, SocketAddr, SocketAddrV4, SocketAddrV6};
use tailscale_core::peers::{
    cidr_contains, cidr_match, parse_allowed_srcs, parse_cidr, parse_keyed_hex, parse_peers, FilterResp,
    FilterRule, HostinfoT, MapResp, NetPortRange, PeerInfo, PeerT,
};
use tailscale_core::setup::{
    build_lan_targets, build_mdns_link, build_outbound_cfg, build_peer_dir, login_step, parse_endpoints,
    wrap_url, LoginStep,
};
use tailscale_core::text::{hex_val, parse_ipv4, parse_number, push_dec};

fn s(x: &str) -> String {
    x.to_string()
}

fn config() -> Config {
    Config {
        hostname: s("dongle \"x\""),
        os_name: s("linux"),
        os_version: s("6.1"),
        go_arch: s("arm64"),
        device_name: s("T-Dongle"),
        capability_version: 106,
        advertise_tags: Vec::new(),
        subnet_routes: Vec::new(),
        advertise_exit_node: false,
        control_host: s("control.example"),
        ts2021_port: 80,
    }
}

fn keys() -> NodeKeys {
    NodeKeys {
        machine: Keypair::from_private([1; 32]),
        node: Keypair::from_private([2; 32]),
        disco: Keypair::from_private([3; 32]),
    }
}

#[test]
fn numbers_and_addresses_in_text() {
    assert_eq!(parse_number(b"4294967295", u32::MAX), Some(u32::MAX));
    assert_eq!(parse_number(b"4294967296", u32::MAX), None);
    assert_eq!(parse_number(b"+8", 100), Some(8));
    assert_eq!(parse_number(b"+", 100), None);
    assert_eq!(parse_number(b"", 100), None);
    assert_eq!(parse_number(b"-1", 100), None);
    assert_eq!(parse_number(b"1x", 100), None);
    assert_eq!(parse_number(b"000000000000000000000007", 100), Some(7));
    let mut v = Vec::new();
    push_dec(&mut v, 0);
    push_dec(&mut v, 907);
    assert_eq!(v, b"0907".to_vec());
    for (t, want) in [
        ("1.2.3.4", Some(Ipv4Addr::new(1, 2, 3, 4))),
        ("255.255.255.255", Some(Ipv4Addr::new(255, 255, 255, 255))),
        ("0.0.0.0", Some(Ipv4Addr::new(0, 0, 0, 0))),
        ("1.2.3", None),
        ("1.2.3.4.5", None),
        ("256.1.1.1", None),
        ("01.2.3.4", None),
        ("1.2.3.+4", None),
        ("1..3.4", None),
        ("1.2.3.4 ", None),
        ("", None),
    ] {
        assert_eq!(parse_ipv4(t.as_bytes()), want);
        // The standard library reads the same texts.
        assert_eq!(t.parse::<core::net::Ipv4Addr>().is_ok(), want.is_some());
    }
    assert_eq!((hex_val(b'a'), hex_val(b'F'), hex_val(b'9'), hex_val(b'g')), (Some(10), Some(15), Some(9), None));
    assert_eq!(ipv4_from_number(0x0102_0304), Ipv4Addr::new(1, 2, 3, 4));
}

#[test]
fn networks() {
    assert_eq!(parse_cidr(b"100.64.0.0/10"), Some((0x6440_0000, 0xffc0_0000)));
    assert_eq!(parse_cidr(b"10.1.2.3"), Some((0x0a01_0203, u32::MAX)));
    assert_eq!(parse_cidr(b"1.2.3.4/0"), Some((0x0102_0304, 0)));
    assert_eq!(parse_cidr(b"1.2.3.4/99"), Some((0x0102_0304, u32::MAX)));
    assert_eq!(parse_cidr(b"1.2.3.4/"), None);
    assert_eq!(parse_cidr(b"fd7a::/48"), None);
    let net = parse_cidr(b"100.64.0.0/10");
    assert!(cidr_contains(net, 0x647f_ffff));
    assert!(!cidr_contains(net, 0x6480_0000));
    assert!(!cidr_contains(None, 0));
    assert!(cidr_match(&[(0, 0)], 12345));
    assert!(!cidr_match(&[], 12345));
    assert!(cidr_match(&[(1, u32::MAX), (0x0a00_0000, 0xff00_0000)], 0x0a05_0000));
}

fn rule(srcs: &[&str], dsts: &[&str]) -> FilterRule {
    FilterRule {
        src_ips: Some(srcs.iter().map(|x| s(x)).collect()),
        dst_ports: Some(dsts.iter().map(|x| NetPortRange { ip: Some(s(x)) }).collect()),
    }
}

#[test]
fn packet_filter_for_this_node() {
    let f = FilterResp {
        packet_filter: Some(vec![
            rule(&["100.64.0.1", "fd7a::1", "10.0.0.0/8"], &["100.64.0.9/32"]),
            rule(&["*"], &["192.168.0.0/16"]),
            rule(&["1.2.3.4"], &["nonsense", "*"]),
            FilterRule { src_ips: None, dst_ports: Some(vec![NetPortRange { ip: Some(s("*")) }]) },
            FilterRule { src_ips: Some(vec![s("9.9.9.9")]), dst_ports: None },
        ]),
    };
    assert_eq!(
        parse_allowed_srcs(&f, "100.64.0.9"),
        Some(vec![(0x6440_0001, u32::MAX), (0x0a00_0000, 0xff00_0000), (0x0102_0304, u32::MAX)])
    );
    assert_eq!(
        parse_allowed_srcs(&f, "192.168.7.7"),
        Some(vec![(0, 0), (0x0102_0304, u32::MAX)])
    );
    assert_eq!(parse_allowed_srcs(&f, "not an address"), None);
    assert_eq!(parse_allowed_srcs(&FilterResp { packet_filter: None }, "100.64.0.9"), None);
    assert_eq!(
        parse_allowed_srcs(&FilterResp { packet_filter: Some(Vec::new()) }, "100.64.0.9"),
        Some(Vec::new())
    );
}

fn peer(key: &str, disco: &str) -> PeerT {
    PeerT {
        key: Some(s(key)),
        disco_key: Some(s(disco)),
        addresses: Some(vec![s("fd7a::1/128"), s("100.64.0.7/32"), s("100.64.0.8/32")]),
        endpoints: Some(vec![s("192.168.1.9:41641"), s("8.8.8.8:1"), s("192.168.1.9:bad")]),
        hostinfo: Some(HostinfoT { hostname: Some(s("laptop")) }),
    }
}

#[test]
fn usable_peers() {
    let hex = "ab".repeat(32);
    let m = MapResp {
        peers: Some(vec![
            peer(&format!("nodekey:{hex}"), &format!("discokey:{}", "CD".repeat(32))),
            peer("nodekey:short", &hex),
            PeerT { key: None, disco_key: Some(hex.clone()), addresses: None, endpoints: None, hostinfo: None },
            PeerT {
                key: Some(hex.clone()),
                disco_key: Some(hex.clone()),
                addresses: None,
                endpoints: None,
                hostinfo: None,
            },
        ]),
    };
    let p = parse_peers(&m);
    assert_eq!(p.len(), 2);
    assert_eq!((p[0].node_key, p[0].disco_key), ([0xab; 32], [0xcd; 32]));
    assert_eq!(p[0].tailscale_ip, Some(s("100.64.0.7")));
    assert_eq!(p[0].hostname, "laptop");
    assert_eq!(p[0].endpoints.len(), 3);
    assert_eq!((p[1].tailscale_ip.clone(), p[1].hostname.as_str()), (None, "?"));
    assert!(parse_peers(&MapResp { peers: None }).is_empty());
    assert_eq!(parse_keyed_hex("a:b:zz"), None);
    assert_eq!(parse_keyed_hex(&format!("x:y:{hex}")), Some([0xab; 32]));
    assert_eq!(parse_keyed_hex(&"g".repeat(64)), None);
}

#[test]
fn whole_netmap() {
    let hex = "ab".repeat(32);
    let m = MapResp { peers: Some(vec![peer(&hex, &hex)]) };
    let f = Some(FilterResp { packet_filter: Some(vec![rule(&["1.1.1.1"], &["*"])]) });
    let body = br#"{"Peers":[{"Addresses":["100.64.0.7/32"]}],"Node":{"Addresses":["100.64.0.9/32"]}}"#;
    let n = read_netmap(body, &m, &f);
    assert_eq!(n.ip, Some(s("100.64.0.9")));
    assert_eq!(n.peers.len(), 1);
    assert_eq!(n.allowed, Some(vec![(0x0101_0101, u32::MAX)]));
    assert_eq!(read_netmap(b"nothing", &m, &f).allowed, None);
    assert_eq!(read_netmap(body, &m, &None).allowed, None);
}

#[test]
fn own_address_in_raw_bytes() {
    let own = |list: &str| scan_tailscale_ip(format!("{{\"Node\":{{\"Addresses\":[{list}]}}}}").as_bytes());
    assert_eq!(own("\"100.101.102.103/32\""), Some(s("100.101.102.103")));
    assert_eq!(own("\"fd7a::1/128\", \"100.64.0.1/32\",\"100.64.0.2/32\""), Some(s("100.64.0.1")));
    assert_eq!(own("\"100.1.2\""), Some(s("100.1.2")));
    assert_eq!(own("\"100.1\""), None);
    assert_eq!(own("\"100.1.2.x/32\",\"100.9.9.9\""), None);
    assert_eq!(own("100.1.2.3"), None);
    assert_eq!(own(""), None);
    assert_eq!(scan_tailscale_ip(b"{\"Node\":{\"Addresses\":[\"100.1.2.3"), Some(s("100.1.2.3")));
    assert_eq!(scan_tailscale_ip(b"{\"Node\":{\"Addresses\":[\"100.\xff\xff1234\"]}}"), None);
    assert_eq!(scan_tailscale_ip(b""), None);
}

#[test]
fn own_address_is_not_another_nodes() {
    let own = Some(s("100.64.0.1"));
    for raw in [
        r#"{"Peers":[{"Addresses":["100.64.0.9/32"]}],"Node":{"Addresses":["100.64.0.1/32"]}}"#,
        r#"{ "Node" : { "ID" : 7 , "Addresses" : [ "100.64.0.1/32" ] }, "Peers":[] }"#,
        r#"{"Node":{"Hostinfo":{"Addresses":["100.64.0.9"]},"Addresses":["100.64.0.1"]}}"#,
        r#"{"Peers":[{"Node":{"Addresses":["100.64.0.9"]}}],"Node":{"Addresses":["100.64.0.1"]}}"#,
        r#"{"Name":"\"Node\":{\"Addresses\":[\"100.64.0.9\"","Node":{"Addresses":["100.64.0.1"]}}"#,
        r#"{"Node":{"AllowedIPs":["100.64.0.9/32"],"Addresses":["100.64.0.1/32"]}}"#,
        r#"{"Nodes":{"Addresses":["100.64.0.9"]},"Node":{"Addresses":["100.64.0.1"]}}"#,
        r#"{"Kind":"Node","X":{"Addresses":["100.64.0.9"]},"Node":{"Addresses":["100.64.0.1"]}}"#,
        r#"{"Node":{"Tags":["Addresses"],"Y":["100.64.0.9"],"Addresses":["100.64.0.1"]}}"#,
    ] {
        assert_eq!(scan_tailscale_ip(raw.as_bytes()), own, "{raw}");
    }
    for raw in [
        r#"{"Addresses":["100.64.0.9/32"]}"#,
        r#"{"Peers":[{"Addresses":["100.64.0.9/32"]}]}"#,
        r#"{"Node":{"Name":"a"},"Addresses":["100.64.0.9"]}"#,
        r#"{"Node":{"Addresses":{"a":"100.64.0.9"}}}"#,
        r#"{"Node":{"Addresses":[["100.64.0.9"]]}}"#,
    ] {
        assert_eq!(scan_tailscale_ip(raw.as_bytes()), None, "{raw}");
    }
    // Lengths in front of messages, also where they look like an opening.
    let mut stream = vec![19u8, 0, 0, 0];
    stream.extend_from_slice(br#"{"KeepAlive":true }"#);
    stream.extend_from_slice(&[123, 34, 91, 0]);
    stream.extend_from_slice(br#"{"Node":{"Addresses":["100.64.0.1/32"]}}"#);
    assert_eq!(scan_tailscale_ip(&stream), own);
}

#[test]
fn key_texts() {
    let hex = "0aB1".repeat(16);
    let mut want = [0u8; 32];
    for i in 0..16 {
        want[2 * i] = 0x0a;
        want[2 * i + 1] = 0xb1;
    }
    assert_eq!(hex_decode_32(&hex), Ok(want));
    assert_eq!(hex_decode_32(&format!(" \u{2003}{hex}\n")), Ok(want));
    assert_eq!(hex_decode_32("abc"), Err(KeyError::Length(3)));
    assert_eq!(hex_decode_32(&format!("{}xy", &hex[..62])), Err(KeyError::BadChar(b'x')));
    assert_eq!(parse_mkey(&format!("mkey:{hex}")), Ok(want));
    assert_eq!(parse_mkey(&hex), Ok(want));
    let body = format!("{{\"legacyPublicKey\":\"mkey:00\",\"publicKey\":\"mkey:{hex}\"}}");
    assert_eq!(parse_control_key(body.as_bytes()), Ok(want));
    assert_eq!(parse_control_key(b"not json"), Err(KeyError::NotJson));
    assert_eq!(parse_control_key(b"{}"), Err(KeyError::Missing));
    assert_eq!(parse_control_key(b"{\"publicKey\":7}"), Err(KeyError::Missing));
    assert_eq!(parse_control_key(b"{\"publicKey\":\"mkey:12\"}"), Err(KeyError::Length(2)));
}

#[test]
fn stored_keys() {
    let (k, fresh) = Keypair::load_or_make(&None, [7; 32]);
    assert!(fresh);
    assert_eq!(k.private, [7; 32]);
    let (again, fresh) = Keypair::load_or_make(&Some(k.private.to_vec()), [8; 32]);
    assert!(!fresh);
    assert_eq!((again.private, again.public), (k.private, k.public));
    let (short, fresh) = Keypair::load_or_make(&Some(vec![1; 31]), [9; 32]);
    assert!(fresh);
    assert_eq!(short.private, [9; 32]);
    assert_eq!(hex_lower(&[0, 0x1f, 0xa0]), "001fa0");
}

#[test]
fn keys_are_loaded_or_made() {
    let mut store = KeyStore { machine: None, node: Some(vec![4; 32]), disco: Some(vec![1; 31]) };
    let fresh = FreshKeys { machine: [7; 32], node: [8; 32], disco: [9; 32] };
    let (k, missing) = load_or_generate(&mut store, &fresh);
    assert_eq!((k.machine.private, k.node.private, k.disco.private), ([7; 32], [4; 32], [9; 32]));
    assert_eq!(k.node.public, Keypair::from_private([4; 32]).public);
    assert_eq!(missing, vec![KeyName::Machine, KeyName::Disco]);
    assert_eq!(store.machine, Some(vec![7; 32]));
    assert_eq!(store.disco, Some(vec![9; 32]));
    let other = FreshKeys { machine: [1; 32], node: [2; 32], disco: [3; 32] };
    let (again, missing) = load_or_generate(&mut store, &other);
    assert!(missing.is_empty());
    assert_eq!(
        (again.machine.public, again.node.public, again.disco.public),
        (k.machine.public, k.node.public, k.disco.public)
    );
    assert_eq!((store.machine, store.node), (Some(vec![7; 32]), Some(vec![4; 32])));
    let names: Vec<&str> = [KeyName::Machine, KeyName::Node, KeyName::Disco].iter().map(|n| n.name()).collect();
    assert_eq!(names, vec!["k_machine", "k_node", "k_disco"]);
}

#[test]
fn a_cut_address_does_not_count_yet() {
    let all = r#"{"Node":{"Addresses":["100.64.0.12/32"]}}"#.as_bytes();
    let end = all.iter().position(|c| *c == b'/').unwrap();
    for n in 0..=end {
        assert_eq!(scan_whole_ip(&all[..n]), None);
    }
    for n in end + 1..=all.len() {
        assert_eq!(scan_whole_ip(&all[..n]), Some(s("100.64.0.12")));
    }
    assert_eq!(scan_tailscale_ip(&all[..end]), Some(s("100.64.0.12")));
}

#[test]
fn requests_in_json() {
    let text = build_map_json(&config(), &keys(), true, false, true, &vec![s("1.2.3.4:5")]);
    let v: serde_json::Value = serde_json::from_str(&text).unwrap();
    assert_eq!(v["Version"], 106);
    assert_eq!(v["NodeKey"], format!("nodekey:{}", keys().node.public_hex()));
    assert_eq!(v["DiscoKey"], format!("discokey:{}", keys().disco.public_hex()));
    assert_eq!(v["Endpoints"][0], "1.2.3.4:5");
    assert_eq!((v["Stream"].clone(), v["OmitPeers"].clone()), (true.into(), false.into()));
    assert_eq!((v["KeepAlive"].clone(), v["ReadOnly"].clone()), (true.into(), false.into()));
    assert_eq!(v["Compress"], "");
    assert_eq!(v["Hostinfo"]["Hostname"], "dongle \"x\"");
    assert_eq!(v["Hostinfo"]["NetInfo"]["WorkingIPv4"], true);
    assert_eq!(v["Hostinfo"]["NetInfo"]["PreferredDERP"], 1);
    assert_eq!(v.as_object().unwrap().len(), 10);
    let text = build_register_json(&config(), &keys(), "");
    let v: serde_json::Value = serde_json::from_str(&text).unwrap();
    assert_eq!(v["MachineKey"], format!("mkey:{}", keys().machine.public_hex()));
    assert_eq!(v["DeviceName"], "T-Dongle");
    assert_eq!(v["Endpoints"].as_array().unwrap().len(), 0);
    assert!(v.get("Auth").is_none());
    let text = build_register_json(&config(), &keys(), "k");
    let v: serde_json::Value = serde_json::from_str(&text).unwrap();
    assert_eq!(v["Auth"]["AuthKey"], "k");
}

#[test]
fn hostinfo_advertises() {
    let v: serde_json::Value = serde_json::from_str(&build_hostinfo_json(&config())).unwrap();
    assert!(v.get("RequestTags").is_none() && v.get("RoutableIPs").is_none());
    let mut c = config();
    c.advertise_tags = vec![s("tag:iot")];
    c.subnet_routes = vec![s("10.0.0.0/24")];
    c.advertise_exit_node = true;
    let v: serde_json::Value = serde_json::from_str(&build_hostinfo_json(&c)).unwrap();
    assert_eq!(v["RequestTags"][0], "tag:iot");
    assert_eq!(v["RoutableIPs"].as_array().unwrap().len(), 3);
    assert_eq!(v["RoutableIPs"][2], "::/0");
}

#[test]
fn registration_answers() {
    let r = parse_register(200, b"{\"MachineAuthorized\":true}");
    assert!(r.machine_authorized && r.auth_url.is_none() && r.status == 200);
    let r = parse_register(200, b"{\"MachineAuthorized\":\"yes\",\"AuthURL\":\"https://x\"}");
    assert_eq!((r.machine_authorized, r.auth_url), (false, Some(s("https://x"))));
    let r = parse_register(500, b"oops \xff");
    assert_eq!((r.machine_authorized, r.auth_url, r.raw), (false, None, s("oops \u{fffd}")));
}

fn result(authorized: bool, url: Option<&str>) -> RegisterResult {
    RegisterResult {
        status: 200,
        machine_authorized: authorized,
        auth_url: url.map(|x| x.to_string()),
        raw: String::new(),
    }
}

#[test]
fn login_steps() {
    assert!(matches!(login_step(&result(true, Some("u")), false, false), LoginStep::Registered));
    assert!(matches!(login_step(&result(false, Some("u")), false, true), LoginStep::Show(u) if u == "u"));
    assert!(matches!(login_step(&result(false, Some("u")), true, true), LoginStep::Again));
    assert!(matches!(login_step(&result(false, None), false, true), LoginStep::Refused));
    assert!(matches!(login_step(&result(false, None), false, false), LoginStep::Again));
}

#[test]
fn login_address_is_wrapped() {
    assert_eq!(wrap_url("https://abcdefgh", 3), vec![s("abc"), s("def"), s("gh")]);
    assert_eq!(wrap_url("http://ab", 26), vec![s("http://ab")]);
    assert_eq!(wrap_url("\u{e9}\u{e8}x", 2), vec![s("\u{e9}\u{e8}"), s("x")]);
    assert!(wrap_url("https://", 5).is_empty());
}

fn info(n: u8, ip: &str, eps: &[&str]) -> PeerInfo {
    PeerInfo {
        node_key: [n; 32],
        disco_key: [n + 1; 32],
        tailscale_ip: Some(s(ip)),
        endpoints: eps.iter().map(|x| s(x)).collect(),
        hostname: format!("host{n}"),
    }
}

#[test]
fn lan_targets_and_rows() {
    let peers = vec![
        info(1, "100.64.0.1", &["192.168.1.20:5", "8.8.8.8:6", "192.168.1.x:7"]),
        info(3, "100.64.0.3", &["8.8.4.4:1"]),
    ];
    let t = build_lan_targets(&peers, "192.168.1.77");
    assert_eq!(t.len(), 1);
    assert_eq!((t[0].name.as_str(), t[0].node_pub, t[0].disco_pub), ("host1", [1; 32], [2; 32]));
    let near = SocketAddr::V4(SocketAddrV4 { ip: Ipv4Addr::new(192, 168, 1, 20), port: 5 });
    assert_eq!(t[0].endpoints, vec![near]);
    assert!(!t[0].spray);
    assert!(build_lan_targets(&peers, "nodots").is_empty());
    let rows = build_peer_dir(&peers);
    assert_eq!(rows.len(), 2);
    assert_eq!(rows[0].endpoints.len(), 2);
    assert_eq!(rows[1].disco_pub, [4; 32]);
    let six = parse_endpoints(&vec![s("[2001:db8::1%5]:443"), s("junk"), s("[::1]:1")]);
    assert_eq!(
        six[0],
        SocketAddr::V6(SocketAddrV6 {
            ip: 0x2001_0db8_0000_0000_0000_0000_0000_0001,
            port: 443,
            flowinfo: 0,
            scope_id: 5
        })
    );
    assert_eq!(six.len(), 2);
}

#[test]
fn far_ends_are_resolved() {
    let peers = vec![info(1, "100.64.0.1", &[]), info(3, "100.64.0.3", &[])];
    let us = Some(s("100.64.0.9"));
    let c = build_outbound_cfg(&peers, &us, "100.64.0.3", 8080, "/x").unwrap();
    assert_eq!((c.target_node, c.http_port, c.http_path.as_str()), ([3; 32], 8080, "/x"));
    assert_eq!((c.our_ip, c.target_ip), (Ipv4Addr::new(100, 64, 0, 9), Ipv4Addr::new(100, 64, 0, 3)));
    assert!(build_outbound_cfg(&peers, &us, "", 1, "/").is_none());
    assert!(build_outbound_cfg(&peers, &None, "100.64.0.3", 1, "/").is_none());
    assert!(build_outbound_cfg(&peers, &us, "100.64.0.4", 1, "/").is_none());
    let (l, lan) = build_mdns_link(&peers, &us, "192.168.1.5", "100.64.0.1").unwrap();
    assert_eq!((l.partner_node, lan), ([1; 32], Ipv4Addr::new(192, 168, 1, 5)));
    assert!(build_mdns_link(&peers, &us, "lan", "100.64.0.1").is_none());
}
