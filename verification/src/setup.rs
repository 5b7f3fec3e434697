//! What a node sets up from its netmap: the peers to try on the local network, the rows
//! that the relay needs, the targets of its own traffic, and the steps of its login.
use vstd::prelude::*;
use vstd::slice::slice_subrange;
use vstd::utf8::encode_utf8;
use crate::bytes::{bytes_eq, starts, starts_with};
use crate::control::RegisterResult;
use crate::net::{Ipv4Addr, SocketAddr, SocketAddrV4, SocketAddrV6};
use crate::node::{target_states, MdnsLink, OutboundCfg, PeerDir, Target, TargetState};
use crate::peers::{PeerInfo, PeerState};
use crate::text::{after_last, find_last_byte, ipv4_text, parse_ipv4};

verus! {

/// The endpoint that a text denotes, if it denotes one.
pub uninterp spec fn addr_text(s: Seq<char>) -> Option<SocketAddr>;

/// `core::net::SocketAddr`'s `FromStr`: what a text denotes depends on the text alone.
#[verifier::external_body]
fn parse_addr(s: &str) -> (r: Option<SocketAddr>)
    ensures
        r == addr_text(s@),
{
    match s.parse::<core::net::SocketAddr>().ok()? {
        core::net::SocketAddr::V4(a) => {
            let [o0, o1, o2, o3] = a.ip().octets();
            let ip = Ipv4Addr { a: o0, b: o1, c: o2, d: o3 };
            Some(SocketAddr::V4(SocketAddrV4 { ip, port: a.port() }))
        },
        core::net::SocketAddr::V6(a) => Some(SocketAddr::V6(SocketAddrV6 {
            ip: u128::from(*a.ip()), port: a.port(), flowinfo: a.flowinfo(), scope_id: a.scope_id(),
        })),
    }
}

/// The endpoints that a list of texts denotes; what denotes none is left out.
pub open spec fn addrs_of(v: Seq<String>) -> Seq<SocketAddr>
    decreases v.len(),
{
    if v.len() == 0 {
        Seq::empty()
    } else {
        match addr_text(v.last()@) {
            Some(a) => addrs_of(v.drop_last()).push(a),
            None => addrs_of(v.drop_last()),
        }
    }
}

/// The texts of a list that begin with `prefix`.
pub open spec fn with_prefix(v: Seq<String>, prefix: Seq<u8>) -> Seq<String>
    decreases v.len(),
{
    if v.len() == 0 {
        Seq::empty()
    } else if starts(encode_utf8(v.last()@), prefix) {
        with_prefix(v.drop_last(), prefix).push(v.last())
    } else {
        with_prefix(v.drop_last(), prefix)
    }
}

/// The endpoints that a list of texts denotes.
pub fn parse_endpoints(v: &Vec<String>) -> (r: Vec<SocketAddr>)
    ensures
        r@ == addrs_of(v@),
{
    let mut out: Vec<SocketAddr> = Vec::new();
    let mut i: usize = 0;
    assert(v@.subrange(0, 0) =~= Seq::empty());
    while i < v.len()
        invariant
            i <= v@.len(),
            out@ == addrs_of(v@.subrange(0, i as int)),
        decreases v@.len() - i,
    {
        assert(v@.subrange(0, i + 1).drop_last() =~= v@.subrange(0, i as int));
        if let Some(a) = parse_addr(v[i].as_str()) {
            out.push(a);
        }
        i = i + 1;
    }
    assert(v@.subrange(0, i as int) =~= v@);
    out
}

/// The texts of a list that begin with `prefix`.
pub fn filter_prefix(v: &Vec<String>, prefix: &[u8]) -> (r: Vec<String>)
    ensures
        r@ == with_prefix(v@, prefix@),
{
    let mut out: Vec<String> = Vec::new();
    let mut i: usize = 0;
    assert(v@.subrange(0, 0) =~= Seq::empty());
    while i < v.len()
        invariant
            i <= v@.len(),
            out@ == with_prefix(v@.subrange(0, i as int), prefix@),
        decreases v@.len() - i,
    {
        assert(v@.subrange(0, i + 1).drop_last() =~= v@.subrange(0, i as int));
        if starts_with(v[i].as_str().as_bytes(), prefix) {
            out.push(v[i].clone());
        }
        i = i + 1;
    }
    assert(v@.subrange(0, i as int) =~= v@);
    out
}

/// The endpoints of a peer on the network that `prefix` begins.
pub open spec fn lan_addrs(p: PeerState, prefix: Seq<u8>) -> Seq<SocketAddr> {
    addrs_of(with_prefix(p.endpoints, prefix))
}

/// The target for a peer with these endpoints; none without an endpoint.
pub open spec fn target_of(p: PeerState, eps: Seq<SocketAddr>) -> Option<TargetState> {
    if eps.len() == 0 {
        None
    } else {
        Some(
            TargetState {
                name: p.hostname,
                disco_pub: p.disco_key,
                node_pub: p.node_key,
                endpoints: eps,
                spray: false,
            },
        )
    }
}

/// The targets on the network that `prefix` begins.
pub open spec fn lan_targets(ps: Seq<PeerInfo>, prefix: Seq<u8>) -> Seq<TargetState>
    decreases ps.len(),
{
    if ps.len() == 0 {
        Seq::empty()
    } else {
        let rest = lan_targets(ps.drop_last(), prefix);
        match target_of(ps.last()@, lan_addrs(ps.last()@, prefix)) {
            Some(t) => rest.push(t),
            None => rest,
        }
    }
}

/// The network part of an address text: everything up to and with the last dot.
pub open spec fn net_prefix(ip: Seq<u8>) -> Seq<u8> {
    ip.subrange(0, find_last_byte(ip, 46) + 1)
}

/// The target for a peer with these endpoints.
pub fn make_target(p: &PeerInfo, eps: Vec<SocketAddr>) -> (r: Option<Target>)
    ensures
        match r {
            Some(t) => target_of(p@, eps@) == Some(t@),
            None => target_of(p@, eps@) is None,
        },
{
    if eps.len() == 0 {
        return None;
    }
    Some(
        Target {
            name: p.hostname.clone(),
            disco_pub: p.disco_key,
            node_pub: p.node_key,
            endpoints: eps,
            spray: false,
        },
    )
}

/// The targets to probe from the start: peers with an endpoint on the node's own network.
/// Remote peers are reached over the relay instead.
pub fn build_lan_targets(peers: &Vec<PeerInfo>, our_ip: &str) -> (r: Vec<Target>)
    ensures
        target_states(r@) == if find_last_byte(encode_utf8(our_ip@), 46) < 0 {
            Seq::empty()
        } else {
            lan_targets(peers@, net_prefix(encode_utf8(our_ip@)))
        },
{
    let mut out: Vec<Target> = Vec::new();
    assert(target_states(out@) =~= Seq::empty());
    let b = our_ip.as_bytes();
    let cut: usize = after_last(b, 46);
    if cut == 0 {
        return out;
    }
    let prefix = slice_subrange(b, 0, cut);
    let ghost pre = net_prefix(encode_utf8(our_ip@));
    let mut i: usize = 0;
    assert(peers@.subrange(0, 0) =~= Seq::empty());
    while i < peers.len()
        invariant
            i <= peers@.len(),
            prefix@ == pre,
            target_states(out@) == lan_targets(peers@.subrange(0, i as int), pre),
        decreases peers@.len() - i,
    {
        let ghost was = out@;
        assert(peers@.subrange(0, i + 1).drop_last() =~= peers@.subrange(0, i as int));
        let near = filter_prefix(&peers[i].endpoints, prefix);
        let eps = parse_endpoints(&near);
        if let Some(t) = make_target(&peers[i], eps) {
            out.push(t);
            assert(target_states(out@) =~= target_states(was).push(t@));
        }
        i = i + 1;
    }
    assert(peers@.subrange(0, i as int) =~= peers@);
    out
}

/// Whether a row is that of the peer.
pub open spec fn is_row(row: PeerDir, p: PeerState) -> bool {
    &&& row.node_pub@ == p.node_key
    &&& row.disco_pub@ == p.disco_key
    &&& row.endpoints@ == addrs_of(p.endpoints)
}

/// The netmap rows that the relay needs, one for each peer.
pub fn build_peer_dir(peers: &Vec<PeerInfo>) -> (r: Vec<PeerDir>)
    ensures
        r@.len() == peers@.len(),
        forall|i: int| 0 <= i < r@.len() ==> is_row(#[trigger] r@[i], peers@[i]@),
{
    let mut out: Vec<PeerDir> = Vec::new();
    let mut i: usize = 0;
    while i < peers.len()
        invariant
            i <= peers@.len(),
            out@.len() == i,
            forall|k: int| 0 <= k < i ==> is_row(#[trigger] out@[k], peers@[k]@),
        decreases peers@.len() - i,
    {
        out.push(
            PeerDir {
                node_pub: peers[i].node_key,
                disco_pub: peers[i].disco_key,
                endpoints: parse_endpoints(&peers[i].endpoints),
            },
        );
        i = i + 1;
    }
    out
}

/// The node key of the first peer with this Tailscale address.
pub open spec fn node_at(ps: Seq<PeerInfo>, ip: Seq<u8>) -> Option<Seq<u8>>
    decreases ps.len(),
{
    if ps.len() == 0 {
        None
    } else if ps[0]@.tailscale_ip == Some(ip) {
        Some(ps[0]@.node_key)
    } else {
        node_at(ps.subrange(1, ps.len() as int), ip)
    }
}

/// Finds the node key of the first peer with this Tailscale address.
pub fn find_node_key(peers: &Vec<PeerInfo>, ip: &str) -> (r: Option<[u8; 32]>)
    ensures
        match r {
            Some(k) => node_at(peers@, encode_utf8(ip@)) == Some(k@),
            None => node_at(peers@, encode_utf8(ip@)) is None,
        },
{
    let ghost want = encode_utf8(ip@);
    let mut i: usize = 0;
    assert(peers@.subrange(0, peers@.len() as int) =~= peers@);
    while i < peers.len()
        invariant
            i <= peers@.len(),
            want == encode_utf8(ip@),
            node_at(peers@.subrange(i as int, peers@.len() as int), want) == node_at(
                peers@,
                want,
            ),
        decreases peers@.len() - i,
    {
        let ghost left = peers@.subrange(i as int, peers@.len() as int);
        assert(left[0] == peers@[i as int]);
        assert(left.subrange(1, left.len() as int) =~= peers@.subrange(
            i + 1,
            peers@.len() as int,
        ));
        if let Some(s) = &peers[i].tailscale_ip {
            if bytes_eq(s.as_str().as_bytes(), ip.as_bytes()) {
                return Some(peers[i].node_key);
            }
        }
        i = i + 1;
    }
    None
}

/// The addresses at both ends and the far end's node key, where all are known: this
/// node's address, the partner's address, and a peer that has it.
pub open spec fn link_of(ps: Seq<PeerInfo>, our_ip: Option<Seq<u8>>, far: Seq<u8>) -> Option<
    (Ipv4Addr, Ipv4Addr, Seq<u8>),
> {
    if far.len() == 0 || our_ip is None {
        None
    } else {
        match (ipv4_text(our_ip->0), ipv4_text(far), node_at(ps, far)) {
            (Some(a), Some(b), Some(k)) => Some((a, b, k)),
            _ => None,
        }
    }
}

/// Resolves a configured far end.
fn resolve_link(peers: &Vec<PeerInfo>, our_ip: &Option<String>, far: &str) -> (r: Option<
    (Ipv4Addr, Ipv4Addr, [u8; 32]),
>)
    ensures
        match r {
            Some(l) => link_of(peers@, opt_text(*our_ip), encode_utf8(far@)) == Some(
                (l.0, l.1, l.2@),
            ),
            None => link_of(peers@, opt_text(*our_ip), encode_utf8(far@)) is None,
        },
{
    if far.as_bytes().len() == 0 {
        return None;
    }
    let ours = match our_ip {
        Some(s) => parse_ipv4(s.as_str().as_bytes()),
        None => {
            return None;
        },
    };
    let theirs = parse_ipv4(far.as_bytes());
    let key = find_node_key(peers, far);
    match (ours, theirs, key) {
        (Some(a), Some(b), Some(k)) => Some((a, b, k)),
        _ => None,
    }
}

/// What an optional text holds.
pub open spec fn opt_text(s: Option<String>) -> Option<Seq<u8>> {
    match s {
        Some(s) => Some(encode_utf8(s@)),
        None => None,
    }
}

/// The configuration of the node's own traffic: the configured target's address and node
/// key. `None` where no target is configured or one of the addresses is not known.
pub fn build_outbound_cfg(
    peers: &Vec<PeerInfo>,
    our_ip: &Option<String>,
    target: &str,
    http_port: u16,
    http_path: &str,
) -> (r: Option<OutboundCfg>)
    ensures
        match r {
            Some(c) => {
                &&& link_of(peers@, opt_text(*our_ip), encode_utf8(target@)) == Some(
                    (c.our_ip, c.target_ip, c.target_node@),
                )
                &&& c.http_port == http_port
                &&& c.http_path@ == http_path@
            },
            None => link_of(peers@, opt_text(*our_ip), encode_utf8(target@)) is None,
        },
{
    match resolve_link(peers, our_ip, target) {
        Some((a, b, k)) => Some(
            OutboundCfg {
                our_ip: a,
                target_ip: b,
                target_node: k,
                http_port,
                http_path: http_path.to_owned(),
            },
        ),
        None => None,
    }
}

/// The link to the mDNS partner, and this node's address on the LAN. `None` where no
/// partner is configured or one of the addresses is not known.
pub fn build_mdns_link(peers: &Vec<PeerInfo>, our_ip: &Option<String>, lan_ip: &str, partner: &str) -> (r:
    Option<(MdnsLink, Ipv4Addr)>)
    ensures
        match r {
            Some(l) => {
                &&& link_of(peers@, opt_text(*our_ip), encode_utf8(partner@)) == Some(
                    (l.0.our_ip, l.0.partner_ip, l.0.partner_node@),
                )
                &&& ipv4_text(encode_utf8(lan_ip@)) == Some(l.1)
            },
            None => link_of(peers@, opt_text(*our_ip), encode_utf8(partner@)) is None || ipv4_text(
                encode_utf8(lan_ip@),
            ) is None,
        },
{
    let lan = match parse_ipv4(lan_ip.as_bytes()) {
        Some(ip) => ip,
        None => {
            return None;
        },
    };
    match resolve_link(peers, our_ip, partner) {
        Some((a, b, k)) => Some((MdnsLink { our_ip: a, partner_ip: b, partner_node: k }, lan)),
        None => None,
    }
}

// --- logging in ---

/// What to do after an attempt to register.
pub enum LoginStep {
    /// The node is registered.
    Registered,
    /// Show this address for the user to open, then try again.
    Show(String),
    /// A pre-auth key was given and did not help; give up.
    Refused,
    /// Try again.
    Again,
}

/// Decides what to do after an attempt to register: an address is shown once, and an
/// attempt with a pre-auth key that brings neither authorization nor an address is the
/// last.
pub fn login_step(r: &RegisterResult, shown: bool, with_key: bool) -> (s: LoginStep)
    ensures
        match s {
            LoginStep::Registered => r.machine_authorized,
            LoginStep::Show(url) => !r.machine_authorized && !shown && r.auth_url is Some && url@
                == r.auth_url->0@,
            LoginStep::Refused => !r.machine_authorized && r.auth_url is None && with_key,
            LoginStep::Again => !r.machine_authorized && if r.auth_url is Some {
                shown
            } else {
                !with_key
            },
        },
{
    if r.machine_authorized {
        return LoginStep::Registered;
    }
    match &r.auth_url {
        Some(url) => if shown {
            LoginStep::Again
        } else {
            LoginStep::Show(url.clone())
        },
        None => if with_key {
            LoginStep::Refused
        } else {
            LoginStep::Again
        },
    }
}

/// The text without "https://" in front.
pub open spec fn without_scheme(url: Seq<char>) -> Seq<char> {
    if url.len() >= 8 && url.subrange(0, 8) == "https://"@ {
        url.subrange(8, url.len() as int)
    } else {
        url
    }
}

/// The lines of a text, `width` characters each; the last may be shorter.
pub open spec fn lines_of(s: Seq<char>, width: nat) -> Seq<Seq<char>>
    decreases s.len(),
{
    if s.len() == 0 || width == 0 {
        Seq::empty()
    } else if s.len() <= width {
        seq![s]
    } else {
        seq![s.subrange(0, width as int)] + lines_of(
            s.subrange(width as int, s.len() as int),
            width,
        )
    }
}

/// What a list of texts holds.
pub open spec fn texts(v: Seq<String>) -> Seq<Seq<char>> {
    v.map_values(|s: String| s@)
}

/// Breaks the login address into lines for a narrow display, without its scheme.
pub fn wrap_url(url: &str, width: usize) -> (r: Vec<String>)
    requires
        width > 0,
    ensures
        texts(r@) == lines_of(without_scheme(url@), width as nat),
{
    let n: usize = url.unicode_len();
    let mut from: usize = 0;
    if n >= 8 {
        let head = url.substring_char(0, 8);
        let scheme = "https://";
        if bytes_eq(head.as_bytes(), scheme.as_bytes()) {
            proof {
                vstd::utf8::encode_utf8_decode_utf8(head@);
                vstd::utf8::encode_utf8_decode_utf8(scheme@);
            }
            from = 8;
        }
    }
    let ghost s = without_scheme(url@);
    assert(s =~= url@.subrange(from as int, n as int));
    let mut out: Vec<String> = Vec::new();
    let mut i: usize = from;
    assert(texts(out@) + lines_of(s, width as nat) =~= lines_of(s, width as nat));
    while i < n
        invariant
            from <= i <= n,
            n == url@.len(),
            width > 0,
            texts(out@) + lines_of(url@.subrange(i as int, n as int), width as nat) == lines_of(
                s,
                width as nat,
            ),
        decreases n - i,
    {
        let ghost left = url@.subrange(i as int, n as int);
        let ghost was = texts(out@);
        let end: usize = if n - i > width {
            i + width
        } else {
            n
        };
        let part = url.substring_char(i, end);
        out.push(part.to_owned());
        proof {
            let next = url@.subrange(end as int, n as int);
            assert(texts(out@) =~= was.push(part@));
            if left.len() <= width {
                assert(part@ =~= left);
                assert(next =~= Seq::empty());
                assert(was + seq![left] =~= texts(out@) + lines_of(next, width as nat));
            } else {
                assert(part@ =~= left.subrange(0, width as int));
                assert(left.subrange(width as int, left.len() as int) =~= next);
                assert(was + (seq![part@] + lines_of(next, width as nat)) =~= texts(out@)
                    + lines_of(next, width as nat));
            }
        }
        i = end;
    }
    assert(url@.subrange(n as int, n as int) =~= Seq::empty());
    assert(texts(out@) + Seq::<Seq<char>>::empty() =~= texts(out@));
    out
}

} // verus!
