//! What the data plane takes from a netmap: the peers that can be reached directly,
//! and the sources that the packet filter lets through. The netmap is large, so only
//! the few fields that are read have a place in the types here.
use vstd::prelude::*;
use vstd::slice::slice_subrange;
use vstd::utf8::encode_utf8;
use crate::bytes::{append, bytes_eq, copy, starts, starts_with};

use crate::text::{
    after_last, find_byte, find_last_byte, hex_bytes, hex_decode_64, index_of, ipv4_text,
    number_of, parse_ipv4, parse_number, prefix_string,
};

verus! {

/// The minimum that a peer needs for a direct path.
#[derive(Clone, Debug)]
pub struct PeerInfo {
    pub node_key: [u8; 32],
    pub disco_key: [u8; 32],
    /// The first 100.x address, without its prefix length.
    pub tailscale_ip: Option<String>,
    /// Candidate "ip:port" direct paths.
    pub endpoints: Vec<String>,
    pub hostname: String,
}

/// The part of a map response that lists the peers.
pub struct MapResp {
    pub peers: Option<Vec<PeerT>>,
}

/// One peer of a map response.
pub struct PeerT {
    pub key: Option<String>,
    pub disco_key: Option<String>,
    pub addresses: Option<Vec<String>>,
    pub endpoints: Option<Vec<String>>,
    pub hostinfo: Option<HostinfoT>,
}

/// What a peer says of its host.
pub struct HostinfoT {
    pub hostname: Option<String>,
}

/// The part of a map response that holds the packet filter.
pub struct FilterResp {
    pub packet_filter: Option<Vec<FilterRule>>,
}

/// One rule of the packet filter.
pub struct FilterRule {
    pub src_ips: Option<Vec<String>>,
    pub dst_ports: Option<Vec<NetPortRange>>,
}

/// One destination of a rule.
pub struct NetPortRange {
    pub ip: Option<String>,
}

/// An IPv4 network: address and mask.
pub type Cidr = (u32, u32);

/// What a `PeerInfo` holds. Texts that are cut out of others are given as bytes.
pub struct PeerState {
    pub node_key: Seq<u8>,
    pub disco_key: Seq<u8>,
    pub tailscale_ip: Option<Seq<u8>>,
    pub endpoints: Seq<String>,
    pub hostname: Seq<char>,
}

impl View for PeerInfo {
    type V = PeerState;

    open spec fn view(&self) -> PeerState {
        PeerState {
            node_key: self.node_key@,
            disco_key: self.disco_key@,
            tailscale_ip: match self.tailscale_ip {
                Some(s) => Some(encode_utf8(s@)),
                None => None,
            },
            endpoints: self.endpoints@,
            hostname: self.hostname@,
        }
    }
}

/// The elements of an optional list; none if it is absent.
pub open spec fn list<T>(v: Option<Vec<T>>) -> Seq<T> {
    match v {
        Some(v) => v@,
        None => Seq::empty(),
    }
}

// --- networks ---

/// The mask of a prefix length. Lengths over 32 count as 32.
pub open spec fn mask_of(bits: nat) -> u32 {
    if bits == 0 {
        0
    } else if bits >= 32 {
        u32::MAX
    } else {
        u32::MAX << ((32 - bits) as u32)
    }
}

/// The network that `s` denotes: an address, and a prefix length after a slash. A
/// bare address is a network of one.
pub open spec fn cidr_of(s: Seq<u8>) -> Option<Cidr> {
    let i = find_byte(s, 47);
    let bits = if i < s.len() {
        number_of(s.subrange(i + 1, s.len() as int), u32::MAX as nat)
    } else {
        Some(32nat)
    };
    match (bits, ipv4_text(s.subrange(0, i))) {
        (Some(b), Some(ip)) => Some((ip.number() as u32, mask_of(b))),
        _ => None,
    }
}

/// Whether the network covers the address.
pub open spec fn covers(c: Cidr, ip: u32) -> bool {
    ip & c.1 == c.0 & c.1
}

/// Whether one of the networks covers the address.
pub open spec fn any_covers(allowed: Seq<Cidr>, ip: u32) -> bool {
    exists|i: int| 0 <= i < allowed.len() && covers(#[trigger] allowed[i], ip)
}

/// Whether one of the networks covers `ip`.
pub fn cidr_match(allowed: &[Cidr], ip: u32) -> (r: bool)
    ensures
        r == any_covers(allowed@, ip),
{
    let mut i: usize = 0;
    while i < allowed.len()
        invariant
            i <= allowed@.len(),
            forall|k: int| 0 <= k < i ==> !covers(#[trigger] allowed@[k], ip),
        decreases allowed@.len() - i,
    {
        let (net, mask) = allowed[i];
        if ip & mask == net & mask {
            assert(covers(allowed@[i as int], ip));
            return true;
        }
        i = i + 1;
    }
    false
}

/// Whether the network, if it is one, covers `ip`.
pub fn cidr_contains(c: Option<Cidr>, ip: u32) -> (r: bool)
    ensures
        r == (c is Some && covers(c->0, ip)),
{
    match c {
        Some((net, mask)) => ip & mask == net & mask,
        None => false,
    }
}

/// Parses a network.
pub fn parse_cidr(s: &[u8]) -> (r: Option<Cidr>)
    ensures
        r == cidr_of(s@),
{
    let i: usize = index_of(s, 47);
    let bits: u32 = if i < s.len() {
        match parse_number(slice_subrange(s, i + 1, s.len()), u32::MAX) {
            Some(b) => b,
            None => {
                return None;
            },
        }
    } else {
        32
    };
    let ip = match parse_ipv4(slice_subrange(s, 0, i)) {
        Some(ip) => ip,
        None => {
            return None;
        },
    };
    let mask: u32 = if bits == 0 {
        0
    } else if bits >= 32 {
        u32::MAX
    } else {
        u32::MAX << (32 - bits)
    };
    Some((ip.to_number(), mask))
}

/// A network of prefix length `bits` covers exactly the addresses whose first
/// `bits` bits are its own.
pub proof fn law_cidr_prefix(net: u32, ip: u32, bits: u32)
    requires
        0 < bits <= 32,
    ensures
        covers((net, mask_of(bits as nat)), ip) <==> (ip >> ((32 - bits) as u32)) == (net >> ((32
            - bits) as u32)),
{
    let s = (32 - bits) as u32;
    assert(s < 32 ==> ((ip & (u32::MAX << s) == net & (u32::MAX << s)) <==> (ip >> s) == (net
        >> s))) by (bit_vector);
    assert(u32::MAX << 0u32 == u32::MAX) by (bit_vector);
}

/// A network of prefix length zero covers every address.
pub proof fn law_cidr_any(net: u32, ip: u32)
    ensures
        covers((net, mask_of(0)), ip),
{
    assert(ip & 0 == 0u32 && net & 0 == 0u32) by (bit_vector);
}

// --- the packet filter ---

/// Whether the text is the wildcard.
pub open spec fn is_star(s: Seq<char>) -> bool {
    encode_utf8(s) == seq![42u8]
}

/// Whether the destination covers the address.
pub open spec fn dst_covers(d: NetPortRange, our: u32) -> bool {
    match d.ip {
        Some(ip) => is_star(ip@) || (cidr_of(encode_utf8(ip@)) matches Some(c) && covers(c, our)),
        None => false,
    }
}

/// Whether one of the rule's destinations covers the address.
pub open spec fn rule_covers(rule: FilterRule, our: u32) -> bool {
    exists|i: int|
        0 <= i < list(rule.dst_ports).len() && dst_covers(#[trigger] list(rule.dst_ports)[i], our)
}

/// The network that a source denotes, if it denotes one. The wildcard denotes all.
pub open spec fn src_of(s: String) -> Option<Cidr> {
    if is_star(s@) {
        Some((0u32, 0u32))
    } else {
        cidr_of(encode_utf8(s@))
    }
}

/// The networks of a list of sources; what denotes none is left out.
pub open spec fn srcs_of(ips: Seq<String>) -> Seq<Cidr>
    decreases ips.len(),
{
    if ips.len() == 0 {
        Seq::empty()
    } else {
        match src_of(ips.last()) {
            Some(c) => srcs_of(ips.drop_last()).push(c),
            None => srcs_of(ips.drop_last()),
        }
    }
}

/// The sources of the rules that cover the address.
pub open spec fn allowed_of(rules: Seq<FilterRule>, our: u32) -> Seq<Cidr>
    decreases rules.len(),
{
    if rules.len() == 0 {
        Seq::empty()
    } else {
        let rest = allowed_of(rules.drop_last(), our);
        if rule_covers(rules.last(), our) {
            rest + srcs_of(list(rules.last().src_ips))
        } else {
            rest
        }
    }
}

/// What the filter lets through to `our_ip`: nothing is said without a filter, or
/// where `our_ip` is no address.
pub open spec fn filter_of(f: FilterResp, our_ip: Seq<u8>) -> Option<Seq<Cidr>> {
    match (f.packet_filter, cidr_of(our_ip + seq![47u8, 51, 50])) {
        (Some(rules), Some(our)) => Some(allowed_of(rules@, our.0)),
        _ => None,
    }
}

/// Whether the text is the wildcard.
fn star(s: &String) -> (r: bool)
    ensures
        r == is_star(s@),
{
    let b = s.as_str().as_bytes();
    let one: [u8; 1] = [42u8];
    assert(one@ =~= seq![42u8]);
    bytes_eq(b, one.as_slice())
}

/// Whether one of the rule's destinations covers the address.
fn covers_us(rule: &FilterRule, our: u32) -> (r: bool)
    ensures
        r == rule_covers(*rule, our),
{
    let ports = match &rule.dst_ports {
        Some(v) => v,
        None => {
            return false;
        },
    };
    let mut i: usize = 0;
    while i < ports.len()
        invariant
            i <= ports@.len(),
            list(rule.dst_ports) == ports@,
            forall|k: int| 0 <= k < i ==> !dst_covers(#[trigger] ports@[k], our),
        decreases ports@.len() - i,
    {
        if let Some(ip) = &ports[i].ip {
            if star(ip) || cidr_contains(parse_cidr(ip.as_str().as_bytes()), our) {
                assert(dst_covers(list(rule.dst_ports)[i as int], our));
                return true;
            }
        }
        i = i + 1;
    }
    false
}

/// Appends the networks of the rule's sources.
fn push_srcs(out: &mut Vec<Cidr>, rule: &FilterRule)
    ensures
        final(out)@ == old(out)@ + srcs_of(list(rule.src_ips)),
{
    let ips = match &rule.src_ips {
        Some(v) => v,
        None => {
            assert(out@ =~= old(out)@ + srcs_of(list(rule.src_ips)));
            return;
        },
    };
    let mut i: usize = 0;
    assert(out@ =~= old(out)@ + srcs_of(ips@.subrange(0, 0)));
    while i < ips.len()
        invariant
            i <= ips@.len(),
            out@ == old(out)@ + srcs_of(ips@.subrange(0, i as int)),
        decreases ips@.len() - i,
    {
        let ghost next = ips@.subrange(0, i + 1);
        assert(next.drop_last() =~= ips@.subrange(0, i as int));
        assert(next.last() == ips@[i as int]);
        if star(&ips[i]) {
            out.push((0u32, 0u32));
        } else if let Some(c) = parse_cidr(ips[i].as_str().as_bytes()) {
            out.push(c);
        }
        assert(out@ =~= old(out)@ + srcs_of(next));
        i = i + 1;
    }
    assert(ips@.subrange(0, i as int) =~= ips@);
}

/// The IPv4 sources that the packet filter permits to reach `our_ip`. An empty
/// result with a filter present means that nothing may; `None` without a filter.
pub fn parse_allowed_srcs(f: &FilterResp, our_ip: &str) -> (r: Option<Vec<Cidr>>)
    ensures
        match r {
            Some(v) => filter_of(*f, encode_utf8(our_ip@)) == Some(v@),
            None => filter_of(*f, encode_utf8(our_ip@)) is None,
        },
{
    let rules = match &f.packet_filter {
        Some(v) => v,
        None => {
            return None;
        },
    };
    let mut text = copy(our_ip.as_bytes());
    let suffix: [u8; 3] = [47u8, 51, 50];
    assert(suffix@ =~= seq![47u8, 51, 50]);
    append(&mut text, suffix.as_slice());
    let our: u32 = match parse_cidr(text.as_slice()) {
        Some((net, _)) => net,
        None => {
            return None;
        },
    };
    let mut out: Vec<Cidr> = Vec::new();
    let mut i: usize = 0;
    assert(out@ =~= allowed_of(rules@.subrange(0, 0), our));
    while i < rules.len()
        invariant
            i <= rules@.len(),
            out@ == allowed_of(rules@.subrange(0, i as int), our),
        decreases rules@.len() - i,
    {
        assert(rules@.subrange(0, i + 1).drop_last() =~= rules@.subrange(0, i as int));
        assert(rules@.subrange(0, i + 1).last() == rules@[i as int]);
        if covers_us(&rules[i], our) {
            push_srcs(&mut out, &rules[i]);
        }
        i = i + 1;
    }
    assert(rules@.subrange(0, i as int) =~= rules@);
    Some(out)
}

/// The networks of a list of sources are exactly those that its members denote.
pub proof fn law_sources_exact(ips: Seq<String>, c: Cidr)
    ensures
        srcs_of(ips).contains(c) <==> exists|i: int|
            0 <= i < ips.len() && src_of(#[trigger] ips[i]) == Some(c),
    decreases ips.len(),
{
    if ips.len() > 0 {
        let rest = ips.drop_last();
        law_sources_exact(rest, c);
        if srcs_of(ips).contains(c) {
            let k = choose|k: int| 0 <= k < srcs_of(ips).len() && srcs_of(ips)[k] == c;
            if src_of(ips.last()) == Some(c) {
                assert(src_of(ips[ips.len() - 1]) == Some(c));
            } else {
                assert(srcs_of(rest)[k] == c);
                let i = choose|i: int|
                    0 <= i < rest.len() && src_of(#[trigger] rest[i]) == Some(c);
                assert(src_of(ips[i]) == Some(c));
            }
        }
        if exists|i: int| 0 <= i < ips.len() && src_of(#[trigger] ips[i]) == Some(c) {
            let i = choose|i: int| 0 <= i < ips.len() && src_of(#[trigger] ips[i]) == Some(c);
            if i == ips.len() - 1 {
                assert(srcs_of(ips).last() == c);
            } else {
                assert(src_of(rest[i]) == Some(c));
                let k = choose|k: int| 0 <= k < srcs_of(rest).len() && srcs_of(rest)[k] == c;
                assert(srcs_of(ips)[k] == c);
            }
        }
    }
}

/// A network is permitted if and only if some rule that covers this node names it
/// as a source.
pub proof fn law_allowed_exact(rules: Seq<FilterRule>, our: u32, c: Cidr)
    ensures
        allowed_of(rules, our).contains(c) <==> exists|j: int|
            0 <= j < rules.len() && rule_covers(#[trigger] rules[j], our) && srcs_of(
                list(rules[j].src_ips),
            ).contains(c),
    decreases rules.len(),
{
    if rules.len() > 0 {
        let rest = rules.drop_last();
        let last = rules.last();
        law_allowed_exact(rest, our, c);
        let a = allowed_of(rest, our);
        let b = srcs_of(list(last.src_ips));
        if allowed_of(rules, our).contains(c) {
            let k = choose|k: int|
                0 <= k < allowed_of(rules, our).len() && allowed_of(rules, our)[k] == c;
            if k < a.len() {
                assert(a[k] == c);
                let j = choose|j: int|
                    0 <= j < rest.len() && rule_covers(#[trigger] rest[j], our) && srcs_of(
                        list(rest[j].src_ips),
                    ).contains(c);
                assert(rule_covers(rules[j], our));
            } else {
                assert(b[k - a.len()] == c);
                assert(rule_covers(rules[rules.len() - 1], our));
            }
        }
        if exists|j: int|
            0 <= j < rules.len() && rule_covers(#[trigger] rules[j], our) && srcs_of(
                list(rules[j].src_ips),
            ).contains(c) {
            let j = choose|j: int|
                0 <= j < rules.len() && rule_covers(#[trigger] rules[j], our) && srcs_of(
                    list(rules[j].src_ips),
                ).contains(c);
            if j == rules.len() - 1 {
                let k = choose|k: int| 0 <= k < b.len() && b[k] == c;
                assert((a + b)[a.len() + k] == c);
            } else {
                assert(rule_covers(rest[j], our));
                let k = choose|k: int| 0 <= k < a.len() && a[k] == c;
                assert(allowed_of(rules, our)[k] == c);
            }
        }
    }
}

// --- the peers ---

/// The key in "<type>:<64 hexadecimal digits>", or in the digits alone.
pub open spec fn keyed_hex(s: Seq<u8>) -> Option<Seq<u8>> {
    let hex = s.subrange(find_last_byte(s, 58) + 1, s.len() as int);
    if hex.len() == 64 {
        hex_bytes(hex)
    } else {
        None
    }
}

/// Decodes a key such as `nodekey:abcd..` or its bare digits.
pub fn parse_keyed_hex(s: &str) -> (r: Option<[u8; 32]>)
    ensures
        match r {
            Some(k) => keyed_hex(encode_utf8(s@)) == Some(k@),
            None => keyed_hex(encode_utf8(s@)) is None,
        },
{
    let b = s.as_bytes();
    let from: usize = after_last(b, 58);
    let hex = slice_subrange(b, from, b.len());
    if hex.len() != 64 {
        return None;
    }
    hex_decode_64(hex)
}

/// The address in "address/bits".
pub open spec fn bare_addr(a: String) -> Seq<u8> {
    encode_utf8(a@).subrange(0, find_byte(encode_utf8(a@), 47))
}

/// Whether the address begins with "100.".
pub open spec fn is_tailscale(a: Seq<u8>) -> bool {
    starts(a, seq![49u8, 48, 48, 46])
}

/// The first Tailscale address of a list.
pub open spec fn first_tailscale(addrs: Seq<String>) -> Option<Seq<u8>>
    decreases addrs.len(),
{
    if addrs.len() == 0 {
        None
    } else if is_tailscale(bare_addr(addrs[0])) {
        Some(bare_addr(addrs[0]))
    } else {
        first_tailscale(addrs.subrange(1, addrs.len() as int))
    }
}

/// The key that an optional text denotes.
pub open spec fn opt_key(s: Option<String>) -> Option<Seq<u8>> {
    match s {
        Some(s) => keyed_hex(encode_utf8(s@)),
        None => None,
    }
}

/// What the data plane takes from a peer. A peer that lacks a node key or a disco
/// key is of no use.
pub open spec fn peer_of(p: PeerT) -> Option<PeerState> {
    match (opt_key(p.key), opt_key(p.disco_key)) {
        (Some(node_key), Some(disco_key)) => Some(
            PeerState {
                node_key,
                disco_key,
                tailscale_ip: first_tailscale(list(p.addresses)),
                endpoints: list(p.endpoints),
                hostname: match p.hostinfo {
                    Some(h) => match h.hostname {
                        Some(n) => n@,
                        None => "?"@,
                    },
                    None => "?"@,
                },
            },
        ),
        _ => None,
    }
}

/// The usable peers of a list, in its order.
pub open spec fn peers_of(ps: Seq<PeerT>) -> Seq<PeerState>
    decreases ps.len(),
{
    if ps.len() == 0 {
        Seq::empty()
    } else {
        match peer_of(ps.last()) {
            Some(p) => peers_of(ps.drop_last()).push(p),
            None => peers_of(ps.drop_last()),
        }
    }
}

/// What a list of `PeerInfo` holds.
pub open spec fn peer_states(v: Seq<PeerInfo>) -> Seq<PeerState> {
    v.map_values(|p: PeerInfo| p@)
}

/// The key that an optional text denotes.
fn opt_keyed_hex(s: &Option<String>) -> (r: Option<[u8; 32]>)
    ensures
        match r {
            Some(k) => opt_key(*s) == Some(k@),
            None => opt_key(*s) is None,
        },
{
    match s {
        Some(s) => parse_keyed_hex(s.as_str()),
        None => None,
    }
}

/// A copy of a list of texts.
pub fn clone_strings(v: &Option<Vec<String>>) -> (r: Vec<String>)
    ensures
        r@ == list(*v),
{
    let mut out: Vec<String> = Vec::new();
    let src = match v {
        Some(s) => s,
        None => {
            assert(out@ =~= list(*v));
            return out;
        },
    };
    let mut i: usize = 0;
    while i < src.len()
        invariant
            i <= src@.len(),
            out@ == src@.subrange(0, i as int),
        decreases src@.len() - i,
    {
        out.push(src[i].clone());
        assert(out@ =~= src@.subrange(0, i + 1));
        i = i + 1;
    }
    assert(out@ =~= list(*v));
    out
}

/// The first Tailscale address of a list.
fn find_tailscale(v: &Option<Vec<String>>) -> (r: Option<String>)
    ensures
        match r {
            Some(s) => first_tailscale(list(*v)) == Some(encode_utf8(s@)),
            None => first_tailscale(list(*v)) is None,
        },
{
    let addrs = match v {
        Some(a) => a,
        None => {
            return None;
        },
    };
    let want: [u8; 4] = [49u8, 48, 48, 46];
    assert(want@ =~= seq![49u8, 48, 48, 46]);
    let mut i: usize = 0;
    assert(addrs@.subrange(0, addrs@.len() as int) =~= addrs@);
    while i < addrs.len()
        invariant
            i <= addrs@.len(),
            want@ == seq![49u8, 48, 48, 46],
            list(*v) == addrs@,
            first_tailscale(addrs@.subrange(i as int, addrs@.len() as int)) == first_tailscale(
                addrs@,
            ),
        decreases addrs@.len() - i,
    {
        let ghost rest = addrs@.subrange(i as int, addrs@.len() as int);
        assert(rest.subrange(1, rest.len() as int) =~= addrs@.subrange(
            i + 1,
            addrs@.len() as int,
        ));
        assert(rest[0] == addrs@[i as int]);
        let text = addrs[i].as_str();
        let b = text.as_bytes();
        let cut: usize = index_of(b, 47);
        if starts_with(slice_subrange(b, 0, cut), want.as_slice()) {
            assert(is_tailscale(bare_addr(rest[0])));
            return Some(prefix_string(text, cut));
        }
        i = i + 1;
    }
    None
}

/// What the data plane takes from a peer.
fn parse_peer(p: &PeerT) -> (r: Option<PeerInfo>)
    ensures
        match r {
            Some(i) => peer_of(*p) == Some(i@),
            None => peer_of(*p) is None,
        },
{
    let node_key = match opt_keyed_hex(&p.key) {
        Some(k) => k,
        None => {
            return None;
        },
    };
    let disco_key = match opt_keyed_hex(&p.disco_key) {
        Some(k) => k,
        None => {
            return None;
        },
    };
    let tailscale_ip = find_tailscale(&p.addresses);
    let hostname: String = match &p.hostinfo {
        Some(h) => match &h.hostname {
            Some(n) => n.clone(),
            None => "?".to_owned(),
        },
        None => "?".to_owned(),
    };
    Some(
        PeerInfo {
            node_key,
            disco_key,
            tailscale_ip,
            endpoints: clone_strings(&p.endpoints),
            hostname,
        },
    )
}

/// The peers of a map response that have both a node key and a disco key.
pub fn parse_peers(m: &MapResp) -> (r: Vec<PeerInfo>)
    ensures
        peer_states(r@) == peers_of(list(m.peers)),
{
    let mut out: Vec<PeerInfo> = Vec::new();
    assert(peer_states(out@) =~= Seq::empty());
    let ps = match &m.peers {
        Some(v) => v,
        None => {
            return out;
        },
    };
    let mut i: usize = 0;
    assert(ps@.subrange(0, 0) =~= Seq::empty());
    while i < ps.len()
        invariant
            i <= ps@.len(),
            peer_states(out@) == peers_of(ps@.subrange(0, i as int)),
        decreases ps@.len() - i,
    {
        let ghost was = out@;
        assert(ps@.subrange(0, i + 1).drop_last() =~= ps@.subrange(0, i as int));
        assert(ps@.subrange(0, i + 1).last() == ps@[i as int]);
        if let Some(p) = parse_peer(&ps[i]) {
            out.push(p);
            assert(peer_states(out@) =~= peer_states(was).push(p@));
        }
        i = i + 1;
    }
    assert(ps@.subrange(0, i as int) =~= ps@);
    out
}

} // verus!
