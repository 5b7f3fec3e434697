//! What the node takes from the netmap: addresses, networks, the filter, peers and whom it tries
//! to reach; and the address that a STUN server reports.
use vstd::prelude::*;
use vstd::utf8::encode_utf8;
use crate::bytes::{get_be16, get_be32, starts};
use crate::net::{ipv4_from, Ipv4Addr, SocketAddr, SocketAddrV4};
use crate::node::{PeerDir, TargetState};
use crate::peers::{
    allowed_of, bare_addr, cidr_of, covers, dst_covers, filter_of, first_tailscale, is_tailscale,
    keyed_hex, law_allowed_exact, law_cidr_any, law_cidr_prefix, law_sources_exact, list, peer_of,
    peers_of, rule_covers, src_of, srcs_of, Cidr, FilterResp, FilterRule, PeerInfo, PeerState,
    PeerT,
};
use crate::setup::{
    addr_text, addrs_of, is_row, lan_targets, lines_of, link_of, net_prefix, node_at, with_prefix,
};
use crate::stun::{attr_addr, first_addr, padding, response_of, StunError};
use crate::text::{
    after_dot, before_dot, dec, digits_value, dotted, find_byte, find_last_byte, has_dot, hex_bytes, hex_digit,
    ipv4_text, law_dec_roundtrip, law_number_roundtrip, lemma_find_byte, lemma_find_byte_is,
    octet_of,
};
use crate::wire::{net16, net32};

verus! {

broadcast use crate::bytes::group_lengths;

/// A number below 1000 in decimal digits, without zeros in front.
pub open spec fn decimal(n: int) -> Seq<u8> {
    if n >= 100 {
        seq![(48 + n / 100) as u8, (48 + n / 10 % 10) as u8, (48 + n % 10) as u8]
    } else if n >= 10 {
        seq![(48 + n / 10) as u8, (48 + n % 10) as u8]
    } else {
        seq![(48 + n) as u8]
    }
}

/// Numbers are written in decimal.
pub proof fn law_decimal(n: nat)
    requires
        n < 1000,
    ensures
        dec(n) == decimal(n as int),
{
    reveal_with_fuel(dec, 4);
    assert(dec(n) =~= decimal(n as int));
}

/// An address in its usual notation: four numbers with dots between them.
pub open spec fn in_dots(ip: Ipv4Addr) -> Seq<u8> {
    decimal(ip.a as int) + seq![46u8] + decimal(ip.b as int) + seq![46u8] + decimal(ip.c as int)
        + seq![46u8] + decimal(ip.d as int)
}

/// Digits hold no dot and no slash, and are one to three for an octet.
proof fn lemma_digits(n: int)
    requires
        0 <= n < 256,
    ensures
        1 <= decimal(n).len() <= 3,
        forall|k: int| 0 <= k < decimal(n).len() ==> 48 <= #[trigger] decimal(n)[k] <= 57,
        octet_of(decimal(n)) == Some(n as u8),
        dec(n as nat) == decimal(n),
{
    law_decimal(n as nat);
    law_dec_roundtrip(n as nat);
}

proof fn lemma_first_dot(n: int, tail: Seq<u8>)
    requires
        0 <= n < 256,
    ensures
        ({
            let s = decimal(n) + (seq![46u8] + tail);
            &&& find_byte(s, 46) == decimal(n).len()
            &&& has_dot(s)
            &&& before_dot(s) == decimal(n)
            &&& after_dot(s) == tail
        }),
{
    lemma_digits(n);
    let s = decimal(n) + (seq![46u8] + tail);
    assert forall|k: int| 0 <= k < decimal(n).len() implies s[k] != 46 by {
        assert(s[k] == decimal(n)[k]);
    }
    lemma_find_byte_is(s, 46, decimal(n).len() as int);
    assert(before_dot(s) =~= decimal(n));
    assert(after_dot(s) =~= tail);
}

proof fn lemma_grouped(a: Seq<u8>, b: Seq<u8>, c: Seq<u8>, d: Seq<u8>, x: Seq<u8>)
    ensures
        a + (x + (b + (x + (c + (x + d))))) == a + x + b + x + c + x + d,
{
    assert(a + (x + (b + (x + (c + (x + d))))) =~= a + x + b + x + c + x + d);
}

/// An address in its usual notation reads as that address, and is written so.
pub proof fn law_ipv4_text(ip: Ipv4Addr)
    ensures
        ipv4_text(in_dots(ip)) == Some(ip),
        dotted(ip) == in_dots(ip),
{
    let (a, b, c, d) = (ip.a as int, ip.b as int, ip.c as int, ip.d as int);
    lemma_digits(a);
    lemma_digits(b);
    lemma_digits(c);
    lemma_digits(d);
    let r3 = decimal(d);
    let r2 = decimal(c) + (seq![46u8] + r3);
    let r1 = decimal(b) + (seq![46u8] + r2);
    let s = decimal(a) + (seq![46u8] + r1);
    lemma_first_dot(a, r1);
    lemma_first_dot(b, r2);
    lemma_first_dot(c, r3);
    lemma_grouped(decimal(a), decimal(b), decimal(c), r3, seq![46u8]);
    assert(in_dots(ip) == s);
}

proof fn lemma_octet_text(s: Seq<u8>)
    ensures
        octet_of(s) matches Some(v) ==> s == decimal(v as int),
{
    if octet_of(s) is Some {
        reveal_with_fuel(digits_value, 4);
        if s.len() == 1 {
            assert(s.drop_last().len() == 0);
        } else if s.len() == 2 {
            assert(s.drop_last()[0] == s[0]);
            assert(s.drop_last().drop_last().len() == 0);
        } else {
            assert(s.drop_last()[0] == s[0] && s.drop_last()[1] == s[1]);
            assert(s.drop_last().drop_last()[0] == s[0]);
            assert(s.drop_last().drop_last().drop_last().len() == 0);
        }
        assert(s =~= decimal(octet_of(s)->0 as int));
    }
}

proof fn lemma_at_dot(s: Seq<u8>)
    ensures
        has_dot(s) ==> s == before_dot(s) + (seq![46u8] + after_dot(s)),
{
    lemma_find_byte(s, 46);
    if has_dot(s) {
        assert(s =~= before_dot(s) + (seq![46u8] + after_dot(s)));
    }
}

/// Nothing reads as an address but its usual notation.
pub proof fn law_ipv4_text_only(s: Seq<u8>)
    ensures
        ipv4_text(s) matches Some(ip) ==> s == in_dots(ip),
{
    let r1 = after_dot(s);
    let r2 = after_dot(r1);
    let r3 = after_dot(r2);
    lemma_at_dot(s);
    lemma_at_dot(r1);
    lemma_at_dot(r2);
    lemma_octet_text(before_dot(s));
    lemma_octet_text(before_dot(r1));
    lemma_octet_text(before_dot(r2));
    lemma_octet_text(r3);
    lemma_grouped(before_dot(s), before_dot(r1), before_dot(r2), r3, seq![46u8]);
}

/// An address as one number, its first octet the most significant.
pub open spec fn as_number(ip: Ipv4Addr) -> int {
    16777216 * ip.a + 65536 * ip.b + 256 * ip.c + ip.d
}

/// A network in its usual notation, address and prefix length, covers just the addresses that
/// agree with it in that many leading bits; an address alone covers itself alone.
pub proof fn law_network_text(ip: Ipv4Addr, bits: u32, x: u32)
    requires
        bits <= 32,
    ensures
        cidr_of(in_dots(ip) + seq![47u8] + decimal(bits as int)) matches Some(c) && (covers(c, x)
            <==> (bits == 0 || x >> ((32 - bits) as u32) == (as_number(ip) as u32) >> ((32
            - bits) as u32))),
        cidr_of(in_dots(ip)) matches Some(c) && (covers(c, x) <==> x == as_number(ip)),
{
    let s = in_dots(ip) + seq![47u8] + decimal(bits as int);
    let n = in_dots(ip).len() as int;
    lemma_dots(ip);
    assert forall|k: int| 0 <= k < n implies s[k] != 47 by {
        assert(s[k] == in_dots(ip)[k]);
    }
    lemma_find_byte_is(s, 47, n);
    lemma_find_byte_is(in_dots(ip), 47, n);
    assert(s.subrange(0, n) =~= in_dots(ip));
    assert(in_dots(ip).subrange(0, n) =~= in_dots(ip));
    assert(s.subrange(n + 1, s.len() as int) =~= decimal(bits as int));
    law_ipv4_text(ip);
    law_decimal(bits as nat);
    law_number_roundtrip(bits as nat, u32::MAX as nat);
    assert(ip.number() == as_number(ip));
    let net = as_number(ip) as u32;
    if bits == 0 {
        law_cidr_any(net, x);
    } else {
        law_cidr_prefix(net, x, bits);
    }
    law_cidr_prefix(net, x, 32);
    assert(x >> 0u32 == x && net >> 0u32 == net) by (bit_vector);
}

/// An address in its usual notation is made of digits and dots, seven of them at least; one that
/// begins with 100 begins with "100.".
pub proof fn lemma_dots(ip: Ipv4Addr)
    ensures
        in_dots(ip).len() >= 7,
        forall|k: int|
            0 <= k < in_dots(ip).len() ==> 48 <= #[trigger] in_dots(ip)[k] <= 57 || in_dots(ip)[k]
                == 46,
        ip.a == 100 ==> starts(in_dots(ip), seq![49u8, 48, 48, 46]),
{
    lemma_digits(ip.a as int);
    lemma_digits(ip.b as int);
    lemma_digits(ip.c as int);
    lemma_digits(ip.d as int);
    let (a, b, c, d) = (
        decimal(ip.a as int),
        decimal(ip.b as int),
        decimal(ip.c as int),
        decimal(ip.d as int),
    );
    let s = in_dots(ip);
    let (i, j, k) = (
        a.len() as int,
        a.len() + 1 + b.len() as int,
        a.len() + 1 + b.len() + 1 + c.len() as int,
    );
    assert forall|m: int| 0 <= m < s.len() implies 48 <= #[trigger] s[m] <= 57 || s[m] == 46 by {
        if m < i {
            assert(s[m] == a[m]);
        } else if m == i {
        } else if m < j {
            assert(s[m] == b[m - i - 1]);
        } else if m == j {
        } else if m < k {
            assert(s[m] == c[m - j - 1]);
        } else if m == k {
        } else {
            assert(s[m] == d[m - k - 1]);
        }
    }
    if ip.a == 100 {
        assert(s.subrange(0, 4) =~= seq![49u8, 48, 48, 46]);
    }
}

/// A source address may reach the node `our` if and only if some rule that names this node as a
/// destination, or any node, names a network with that source in it, or any source.
pub proof fn law_filter_rules(rules: Seq<FilterRule>, our: u32, x: u32)
    ensures
        (exists|c: Cidr| #[trigger] allowed_of(rules, our).contains(c) && covers(c, x)) <==> exists|
            j: int,
            k: int,
        |
            0 <= j < rules.len() && 0 <= k < list(rules[j].src_ips).len() && #[trigger] names_node(
                rules[j],
                our,
            ) && #[trigger] names_source(list(rules[j].src_ips)[k], x),
{
    if exists|c: Cidr| #[trigger] allowed_of(rules, our).contains(c) && covers(c, x) {
        let c = choose|c: Cidr| #[trigger] allowed_of(rules, our).contains(c) && covers(c, x);
        law_allowed_exact(rules, our, c);
        let j = choose|j: int|
            0 <= j < rules.len() && rule_covers(#[trigger] rules[j], our) && srcs_of(
                list(rules[j].src_ips),
            ).contains(c);
        law_sources_exact(list(rules[j].src_ips), c);
        let k = choose|k: int|
            0 <= k < list(rules[j].src_ips).len() && src_of(
                #[trigger] list(rules[j].src_ips)[k],
            ) == Some(c);
        lemma_names(rules[j], our);
        assert(names_node(rules[j], our));
        assert(names_source(list(rules[j].src_ips)[k], x));
    }
    if exists|j: int, k: int|
        0 <= j < rules.len() && 0 <= k < list(rules[j].src_ips).len() && #[trigger] names_node(
            rules[j],
            our,
        ) && #[trigger] names_source(list(rules[j].src_ips)[k], x) {
        let (j, k) = choose|j: int, k: int|
            0 <= j < rules.len() && 0 <= k < list(rules[j].src_ips).len() && #[trigger] names_node(
                rules[j],
                our,
            ) && #[trigger] names_source(list(rules[j].src_ips)[k], x);
        lemma_names(rules[j], our);
        let ip = list(rules[j].src_ips)[k];
        let c = src_of(ip)->0;
        assert(x & 0 == 0u32 && 0u32 & 0 == 0u32) by (bit_vector);
        law_sources_exact(list(rules[j].src_ips), c);
        law_allowed_exact(rules, our, c);
        assert(allowed_of(rules, our).contains(c) && covers(c, x));
    }
}

/// Whether the rule names the node as a destination: by a star, or by a network that it is in.
pub open spec fn names_node(rule: FilterRule, our: u32) -> bool {
    exists|i: int|
        0 <= i < list(rule.dst_ports).len() && ((#[trigger] list(rule.dst_ports)[i]).ip matches Some(
            ip,
        ) && (encode_utf8(ip@) == seq![42u8] || (cidr_of(encode_utf8(ip@)) matches Some(c) && our
            & c.1 == c.0 & c.1)))
}

/// Whether the text names the source: by a star, or by a network that it is in.
pub open spec fn names_source(s: String, x: u32) -> bool {
    encode_utf8(s@) == seq![42u8] || (cidr_of(encode_utf8(s@)) matches Some(c) && x & c.1 == c.0
        & c.1)
}

proof fn lemma_names(rule: FilterRule, our: u32)
    ensures
        names_node(rule, our) <==> rule_covers(rule, our),
{
    if rule_covers(rule, our) {
        let i = choose|i: int|
            0 <= i < list(rule.dst_ports).len() && dst_covers(
                #[trigger] list(rule.dst_ports)[i],
                our,
            );
        assert(list(rule.dst_ports)[i].ip is Some);
    }
    if names_node(rule, our) {
        let i = choose|i: int|
            0 <= i < list(rule.dst_ports).len() && ((#[trigger] list(
                rule.dst_ports,
            )[i]).ip matches Some(ip) && (encode_utf8(ip@) == seq![42u8] || (cidr_of(
                encode_utf8(ip@),
            ) matches Some(c) && our & c.1 == c.0 & c.1)));
        assert(dst_covers(list(rule.dst_ports)[i], our));
    }
}

/// Without a filter nothing is said; with one, it is what its rules say of this node's address.
pub proof fn law_filter_present(f: FilterResp, ip: Ipv4Addr)
    ensures
        match f.packet_filter {
            None => filter_of(f, in_dots(ip)) is None,
            Some(rules) => filter_of(f, in_dots(ip)) == Some(
                allowed_of(rules@, as_number(ip) as u32),
            ),
        },
{
    let s = in_dots(ip) + seq![47u8, 51, 50];
    assert(s =~= in_dots(ip) + seq![47u8] + decimal(32));
    law_network_text(ip, 32, 0);
    lemma_cidr_net(ip);
}

proof fn lemma_cidr_net(ip: Ipv4Addr)
    ensures
        cidr_of(in_dots(ip) + seq![47u8] + decimal(32)) matches Some(c) && c.0 == as_number(ip),
{
    let s = in_dots(ip) + seq![47u8] + decimal(32);
    let n = in_dots(ip).len() as int;
    lemma_dots(ip);
    assert forall|k: int| 0 <= k < n implies s[k] != 47 by {
        assert(s[k] == in_dots(ip)[k]);
    }
    lemma_find_byte_is(s, 47, n);
    assert(s.subrange(0, n) =~= in_dots(ip));
    assert(s.subrange(n + 1, s.len() as int) =~= decimal(32));
    law_ipv4_text(ip);
    law_decimal(32);
    law_number_roundtrip(32, u32::MAX as nat);
}

/// The value of a hexadecimal digit of either case.
pub open spec fn nibble(c: u8) -> int {
    if 48 <= c <= 57 {
        c - 48
    } else if 97 <= c <= 102 {
        c - 97 + 10
    } else if 65 <= c <= 70 {
        c - 65 + 10
    } else {
        -1
    }
}

/// Whether two digits at `at` stand for the byte.
pub open spec fn digits_at(text: Seq<u8>, at: int, byte: u8) -> bool {
    &&& nibble(text[at]) >= 0
    &&& nibble(text[at + 1]) >= 0
    &&& byte == 16 * nibble(text[at]) + nibble(text[at + 1])
}

/// Whether the last 64 bytes of the text are the digits of the key, with a colon before them or
/// nothing.
pub open spec fn spells(text: Seq<u8>, key: Seq<u8>) -> bool {
    let from = text.len() - 64;
    &&& from >= 0
    &&& from == 0 || text[from - 1] == 58
    &&& key.len() == 32
    &&& forall|i: int| 0 <= i < 32 ==> digits_at(text, from + 2 * i, #[trigger] key[i])
}

proof fn lemma_last(s: Seq<u8>, c: u8)
    ensures
        -1 <= find_last_byte(s, c) < s.len(),
        find_last_byte(s, c) >= 0 ==> s[find_last_byte(s, c)] == c,
    decreases s.len(),
{
    if s.len() > 0 && s.last() != c {
        lemma_last(s.drop_last(), c);
    }
}

proof fn lemma_last_is(s: Seq<u8>, c: u8, i: int)
    requires
        -1 <= i < s.len(),
        i >= 0 ==> s[i] == c,
        forall|k: int| i < k < s.len() ==> s[k] != c,
    ensures
        find_last_byte(s, c) == i,
    decreases s.len(),
{
    if s.len() > 0 && i < s.len() - 1 {
        assert(s.last() != c);
        lemma_last_is(s.drop_last(), c, i);
    }
}

/// A text denotes a key if and only if it spells it.
pub proof fn law_key_text(text: Seq<u8>, key: Seq<u8>)
    ensures
        keyed_hex(text) == Some(key) <==> spells(text, key),
{
    let from = text.len() - 64;
    if keyed_hex(text) == Some(key) {
        lemma_last(text, 58);
        let hex = text.subrange(from, text.len() as int);
        assert(find_last_byte(text, 58) == from - 1);
        assert forall|i: int| 0 <= i < 32 implies digits_at(
            text,
            text.len() - 64 + 2 * i,
            #[trigger] key[i],
        ) by {
            assert(hex[2 * i] == text[from + 2 * i] && hex[2 * i + 1] == text[from + 2 * i + 1]);
            assert(hex_digit(hex[2 * i]) is Some && hex_digit(hex[2 * i + 1]) is Some);
        }
    }
    if spells(text, key) {
        let hex = text.subrange(from, text.len() as int);
        assert forall|k: int| 0 <= k < 64 implies hex_digit(#[trigger] hex[k]) is Some by {
            let i = k / 2;
            assert(digits_at(text, from + 2 * i, key[i]));
            assert(k == 2 * i || k == 2 * i + 1);
            assert(hex[k] == text[from + k]);
        }
        assert forall|k: int| from - 1 < k < text.len() implies text[k] != 58 by {
            assert(hex_digit(hex[k - from]) is Some);
        }
        lemma_last_is(text, 58, from - 1);
        let bytes = hex_bytes(hex)->0;
        assert forall|i: int| 0 <= i < 32 implies #[trigger] bytes[i] == key[i] by {
            assert(digits_at(text, from + 2 * i, key[i]));
            assert(hex[2 * i] == text[from + 2 * i] && hex[2 * i + 1] == text[from + 2 * i + 1]);
            assert(hex_digit(hex[2 * i]) is Some && hex_digit(hex[2 * i + 1]) is Some);
        }
        assert(bytes =~= key);
    }
}

/// A peer is kept if and only if both its key texts spell keys, and what is kept is its own:
/// the node key from the one text and the disco key from the other, its endpoints, and its name
/// or a question mark.
pub proof fn law_peer(p: PeerT, node: Seq<u8>, disco: Seq<u8>)
    ensures
        (p.key is Some && p.disco_key is Some && spells(encode_utf8(p.key->0@), node) && spells(
            encode_utf8(p.disco_key->0@),
            disco,
        )) <==> (peer_of(p) is Some && peer_of(p)->0.node_key == node && peer_of(p)->0.disco_key
            == disco),
        peer_of(p) is Some ==> {
            let x = peer_of(p)->0;
            &&& x.endpoints == list(p.endpoints)
            &&& x.tailscale_ip == first_tailscale(list(p.addresses))
            &&& if p.hostinfo is Some && (p.hostinfo->0).hostname is Some {
                x.hostname == (p.hostinfo->0).hostname->0@
            } else {
                x.hostname == "?"@
            }
        },
{
    if p.key is Some {
        law_key_text(encode_utf8(p.key->0@), node);
    }
    if p.disco_key is Some {
        law_key_text(encode_utf8(p.disco_key->0@), disco);
    }
}

/// Whether the text begins with "100.".
pub open spec fn on_tailnet(s: String) -> bool {
    encode_utf8(s@).len() >= 4 && encode_utf8(s@).take(4) == seq![49u8, 48, 48, 46]
}

/// A peer's Tailscale address is the first of its addresses that begins with "100.", up to the
/// slash.
pub proof fn law_peer_address(addrs: Seq<String>)
    ensures
        match first_tailscale(addrs) {
            Some(a) => exists|i: int|
                0 <= i < addrs.len() && is_bare(#[trigger] addrs[i], a) && on_tailnet(addrs[i])
                    && forall|j: int| 0 <= j < i ==> !on_tailnet(#[trigger] addrs[j]),
            None => forall|j: int| 0 <= j < addrs.len() ==> !on_tailnet(#[trigger] addrs[j]),
        },
    decreases addrs.len(),
{
    if addrs.len() > 0 {
        let t = encode_utf8(addrs[0]@);
        let b = bare_addr(addrs[0]);
        lemma_find_byte(t, 47);
        if t.len() >= 4 {
            assert(t.take(4) =~= t.subrange(0, 4));
            if on_tailnet(addrs[0]) {
                assert(t.take(4)[0] == t[0] && t.take(4)[1] == t[1] && t.take(4)[2] == t[2]
                    && t.take(4)[3] == t[3]);
                assert(b.subrange(0, 4) =~= t.take(4));
            }
        }
        if is_tailscale(b) {
            assert(b.subrange(0, 4) =~= t.take(4));
            assert(is_bare(addrs[0], b));
        } else {
            let r = addrs.subrange(1, addrs.len() as int);
            law_peer_address(r);
            if let Some(a) = first_tailscale(r) {
                let i = choose|i: int|
                    0 <= i < r.len() && is_bare(#[trigger] r[i], a) && on_tailnet(r[i])
                        && forall|j: int| 0 <= j < i ==> !on_tailnet(#[trigger] r[j]);
                assert(addrs[i + 1] == r[i]);
                assert forall|j: int| 0 <= j < i + 1 implies !on_tailnet(#[trigger] addrs[j]) by {
                    if j > 0 {
                        assert(addrs[j] == r[j - 1]);
                    }
                }
            } else {
                assert forall|j: int| 0 <= j < addrs.len() implies !on_tailnet(
                    #[trigger] addrs[j],
                ) by {
                    if j > 0 {
                        assert(addrs[j] == r[j - 1]);
                    }
                }
            }
        }
    }
}

/// Whether `a` is the text up to its first slash.
pub open spec fn is_bare(s: String, a: Seq<u8>) -> bool {
    let t = encode_utf8(s@);
    &&& a.len() <= t.len()
    &&& t.take(a.len() as int) == a
    &&& a.len() == t.len() || t[a.len() as int] == 47
    &&& forall|k: int| 0 <= k < a.len() ==> #[trigger] t[k] != 47
}

/// The peers that are kept are just those with both keys.
pub proof fn law_peers(ps: Seq<PeerT>, x: PeerState)
    ensures
        peers_of(ps).contains(x) <==> exists|i: int|
            0 <= i < ps.len() && peer_of(#[trigger] ps[i]) == Some(x),
    decreases ps.len(),
{
    if ps.len() > 0 {
        let r = ps.drop_last();
        let n = ps.len() - 1;
        law_peers(r, x);
        let a = peers_of(r);
        let b = peers_of(ps);
        assert(ps[n] == ps.last());
        if b.contains(x) {
            let k = choose|k: int| 0 <= k < b.len() && b[k] == x;
            if k < a.len() {
                assert(a[k] == x);
                let i = choose|i: int| 0 <= i < r.len() && peer_of(#[trigger] r[i]) == Some(x);
                assert(ps[i] == r[i]);
            } else {
                assert(peer_of(ps[n]) == Some(x));
            }
        }
        if exists|i: int| 0 <= i < ps.len() && peer_of(#[trigger] ps[i]) == Some(x) {
            let i = choose|i: int| 0 <= i < ps.len() && peer_of(#[trigger] ps[i]) == Some(x);
            if i < n {
                assert(r[i] == ps[i]);
                let k = choose|k: int| 0 <= k < a.len() && a[k] == x;
                assert(b[k] == x);
            } else {
                assert(b[a.len() as int] == x);
            }
        }
    }
}

/// The endpoints of a list are just those that its texts denote.
pub proof fn law_endpoints(v: Seq<String>, x: SocketAddr)
    ensures
        addrs_of(v).contains(x) <==> exists|i: int|
            0 <= i < v.len() && addr_text((#[trigger] v[i])@) == Some(x),
    decreases v.len(),
{
    if v.len() > 0 {
        let r = v.drop_last();
        let n = v.len() - 1;
        law_endpoints(r, x);
        let a = addrs_of(r);
        let b = addrs_of(v);
        assert(v[n] == v.last());
        if b.contains(x) {
            let k = choose|k: int| 0 <= k < b.len() && b[k] == x;
            if k < a.len() {
                assert(a[k] == x);
                let i = choose|i: int|
                    0 <= i < r.len() && addr_text((#[trigger] r[i])@) == Some(x);
                assert(v[i] == r[i]);
            } else {
                assert(addr_text(v[n]@) == Some(x));
            }
        }
        if exists|i: int| 0 <= i < v.len() && addr_text((#[trigger] v[i])@) == Some(x) {
            let i = choose|i: int| 0 <= i < v.len() && addr_text((#[trigger] v[i])@) == Some(x);
            if i < n {
                assert(r[i] == v[i]);
                let k = choose|k: int| 0 <= k < a.len() && a[k] == x;
                assert(b[k] == x);
            } else {
                assert(b[a.len() as int] == x);
            }
        }
    }
}

/// The texts that are kept are just those that begin with the prefix.
pub proof fn law_prefixed(v: Seq<String>, prefix: Seq<u8>, x: String)
    ensures
        with_prefix(v, prefix).contains(x) <==> v.contains(x) && encode_utf8(x@).len()
            >= prefix.len() && encode_utf8(x@).take(prefix.len() as int) == prefix,
    decreases v.len(),
{
    if v.len() > 0 {
        let r = v.drop_last();
        let n = v.len() - 1;
        law_prefixed(r, prefix, x);
        let a = with_prefix(r, prefix);
        let b = with_prefix(v, prefix);
        if encode_utf8(x@).len() >= prefix.len() {
            assert(encode_utf8(x@).take(prefix.len() as int) =~= encode_utf8(x@).subrange(
                0,
                prefix.len() as int,
            ));
        }
        if b.contains(x) {
            let k = choose|k: int| 0 <= k < b.len() && b[k] == x;
            if k < a.len() {
                assert(a[k] == x);
                let i = choose|i: int| 0 <= i < r.len() && r[i] == x;
                assert(v[i] == x);
            } else {
                assert(v[n] == x);
            }
        }
        if v.contains(x) && starts(encode_utf8(x@), prefix) {
            let i = choose|i: int| 0 <= i < v.len() && v[i] == x;
            if i < n {
                assert(r[i] == x);
                let k = choose|k: int| 0 <= k < a.len() && a[k] == x;
                assert(b[k] == x);
            } else {
                assert(b[a.len() as int] == x);
            }
        }
    }
}

/// The targets on the local network are just the peers with an endpoint on it, each with its own
/// keys, its name and those endpoints.
pub proof fn law_lan_targets(ps: Seq<PeerInfo>, prefix: Seq<u8>, t: TargetState)
    ensures
        lan_targets(ps, prefix).contains(t) <==> exists|i: int|
            0 <= i < ps.len() && is_lan_target((#[trigger] ps[i])@, prefix, t),
    decreases ps.len(),
{
    if ps.len() > 0 {
        let r = ps.drop_last();
        let n = ps.len() - 1;
        law_lan_targets(r, prefix, t);
        let a = lan_targets(r, prefix);
        let b = lan_targets(ps, prefix);
        assert(ps[n] == ps.last());
        if b.contains(t) {
            let k = choose|k: int| 0 <= k < b.len() && b[k] == t;
            if k < a.len() {
                assert(a[k] == t);
                let i = choose|i: int|
                    0 <= i < r.len() && is_lan_target((#[trigger] r[i])@, prefix, t);
                assert(ps[i] == r[i]);
            } else {
                assert(is_lan_target(ps[n]@, prefix, t));
            }
        }
        if exists|i: int| 0 <= i < ps.len() && is_lan_target((#[trigger] ps[i])@, prefix, t) {
            let i = choose|i: int|
                0 <= i < ps.len() && is_lan_target((#[trigger] ps[i])@, prefix, t);
            if i < n {
                assert(r[i] == ps[i]);
                let k = choose|k: int| 0 <= k < a.len() && a[k] == t;
                assert(b[k] == t);
            } else {
                assert(b[a.len() as int] == t);
            }
        }
    }
}

/// Whether `t` is what is tried to reach the peer on the network that the prefix begins.
pub open spec fn is_lan_target(p: PeerState, prefix: Seq<u8>, t: TargetState) -> bool {
    &&& t.name == p.hostname
    &&& t.disco_pub == p.disco_key
    &&& t.node_pub == p.node_key
    &&& t.endpoints == addrs_of(with_prefix(p.endpoints, prefix))
    &&& t.endpoints.len() > 0
    &&& !t.spray
}

/// The network part of an address is its first three numbers with their dots.
pub proof fn law_network_part(ip: Ipv4Addr)
    ensures
        net_prefix(in_dots(ip)) == decimal(ip.a as int) + seq![46u8] + decimal(ip.b as int)
            + seq![46u8] + decimal(ip.c as int) + seq![46u8],
{
    let s = in_dots(ip);
    let d = decimal(ip.d as int);
    lemma_digits(ip.d as int);
    let n = s.len() - d.len() - 1;
    assert forall|k: int| n < k < s.len() implies s[k] != 46 by {
        assert(s[k] == d[k - n - 1]);
    }
    lemma_last_is(s, 46, n);
    assert(net_prefix(s) =~= decimal(ip.a as int) + seq![46u8] + decimal(ip.b as int)
        + seq![46u8] + decimal(ip.c as int) + seq![46u8]);
}

/// A row of the relay's directory holds the peer's own keys and endpoints.
pub proof fn law_row(row: PeerDir, p: PeerState)
    requires
        is_row(row, p),
    ensures
        row.node_pub@ == p.node_key,
        row.disco_pub@ == p.disco_key,
        row.endpoints@ == addrs_of(p.endpoints),
{
}

/// A link runs from this node's address to the partner's, with the partner's node key; it needs
/// a peer with that address.
pub proof fn law_link(ps: Seq<PeerInfo>, ours: Ipv4Addr, theirs: Ipv4Addr)
    ensures
        match node_at(ps, in_dots(theirs)) {
            Some(k) => link_of(ps, Some(in_dots(ours)), in_dots(theirs)) == Some(
                (ours, theirs, k),
            ),
            None => link_of(ps, Some(in_dots(ours)), in_dots(theirs)) is None,
        },
        link_of(ps, None, in_dots(theirs)) is None,
        link_of(ps, Some(in_dots(ours)), Seq::empty()) is None,
{
    law_ipv4_text(ours);
    law_ipv4_text(theirs);
    lemma_digits(theirs.a as int);
}

/// A node key is found by the Tailscale address of the first peer that has it.
pub proof fn law_node_at(ps: Seq<PeerInfo>, ip: Seq<u8>)
    ensures
        match node_at(ps, ip) {
            Some(k) => exists|i: int|
                0 <= i < ps.len() && (#[trigger] ps[i])@.tailscale_ip == Some(ip)
                    && ps[i]@.node_key == k && forall|j: int|
                    0 <= j < i ==> (#[trigger] ps[j])@.tailscale_ip != Some(ip),
            None => forall|j: int|
                0 <= j < ps.len() ==> (#[trigger] ps[j])@.tailscale_ip != Some(ip),
        },
    decreases ps.len(),
{
    if ps.len() > 0 && ps[0]@.tailscale_ip != Some(ip) {
        let r = ps.subrange(1, ps.len() as int);
        law_node_at(r, ip);
        if let Some(k) = node_at(r, ip) {
            let i = choose|i: int|
                0 <= i < r.len() && (#[trigger] r[i])@.tailscale_ip == Some(ip)
                    && r[i]@.node_key == k && forall|j: int|
                    0 <= j < i ==> (#[trigger] r[j])@.tailscale_ip != Some(ip);
            assert(ps[i + 1] == r[i]);
            assert forall|j: int| 0 <= j < i + 1 implies (#[trigger] ps[j])@.tailscale_ip != Some(
                ip,
            ) by {
                if j > 0 {
                    assert(ps[j] == r[j - 1]);
                }
            }
        } else {
            assert forall|j: int| 0 <= j < ps.len() implies (#[trigger] ps[j])@.tailscale_ip
                != Some(ip) by {
                if j > 0 {
                    assert(ps[j] == r[j - 1]);
                }
            }
        }
    }
}

/// The lines of a text put together are the text; all but the last have the width, and the last
/// is not longer.
pub proof fn law_lines(s: Seq<char>, width: nat)
    requires
        width > 0,
    ensures
        lines_of(s, width).flatten() == s,
        forall|i: int| 0 <= i < lines_of(s, width).len() - 1 ==> (#[trigger] lines_of(
            s,
            width,
        )[i]).len() == width,
        forall|i: int| 0 <= i < lines_of(s, width).len() ==> 0 < (#[trigger] lines_of(
            s,
            width,
        )[i]).len() <= width,
    decreases s.len(),
{
    let v = lines_of(s, width);
    if s.len() == 0 {
        assert(v.flatten() =~= s);
    } else if s.len() <= width {
        assert(v.drop_first() =~= Seq::empty());
        assert(v.drop_first().flatten() =~= Seq::<char>::empty());
        assert(v.flatten() =~= s);
    } else {
        let r = s.subrange(width as int, s.len() as int);
        law_lines(r, width);
        assert(v.drop_first() =~= lines_of(r, width));
        assert(v.flatten() =~= s.subrange(0, width as int) + r);
        assert(s =~= s.subrange(0, width as int) + r);
        assert forall|i: int| 0 <= i < v.len() implies 0 < (#[trigger] v[i]).len() <= width by {
            if i > 0 {
                assert(v[i] == lines_of(r, width)[i - 1]);
            }
        }
        assert forall|i: int| 0 <= i < v.len() - 1 implies (#[trigger] v[i]).len() == width by {
            if i > 0 {
                assert(v[i] == lines_of(r, width)[i - 1]);
            }
        }
    }
}

/// The address in a STUN attribute, byte by byte: behind the family, port and address, in the
/// XOR form masked with the cookie 0x2112a442.
pub proof fn law_stun_address(val: Seq<u8>)
    requires
        val.len() >= 8,
        val[1] == 1,
    ensures
        attr_addr(1, val) == Some(
            SocketAddrV4 {
                ip: Ipv4Addr { a: val[4], b: val[5], c: val[6], d: val[7] },
                port: net16(val, 2) as u16,
            },
        ),
        attr_addr(0x20, val) == Some(
            SocketAddrV4 {
                ip: Ipv4Addr {
                    a: val[4] ^ 0x21,
                    b: val[5] ^ 0x12,
                    c: val[6] ^ 0xa4,
                    d: val[7] ^ 0x42,
                },
                port: (net16(val, 2) as u16) ^ 0x2112,
            },
        ),
{
    assert(net16(val, 2) == get_be16(val, 2));
    lemma_octets(val[4], val[5], val[6], val[7]);
    let n = get_be32(val, 4) as u32;
    lemma_masked(val[4], val[5], val[6], val[7], n);
}

/// Whether the datagram is a STUN Binding Response to the request: the type 0x0101, the cookie
/// and the request's transaction id stand in its header.
pub open spec fn answers(buf: Seq<u8>, txid: Seq<u8>) -> bool {
    &&& buf.len() >= 20
    &&& buf[0] == 1 && buf[1] == 1
    &&& buf[4] == 0x21 && buf[5] == 0x12 && buf[6] == 0xa4 && buf[7] == 0x42
    &&& buf.subrange(8, 20) == txid
}

/// Where the attributes end: as many bytes behind the header as its length field says, but not
/// behind the datagram's end.
pub open spec fn bound(buf: Seq<u8>) -> int {
    if 20 + net16(buf, 2) <= buf.len() {
        20 + net16(buf, 2)
    } else {
        buf.len() as int
    }
}

/// A datagram that does not answer the request gives no address; one that does gives the first
/// address that came masked, else the first that came in the clear, else none.
pub proof fn law_stun_response(buf: Seq<u8>, txid: Seq<u8>)
    ensures
        !answers(buf, txid) ==> response_of(buf, txid) is Err,
        answers(buf, txid) ==> match (
            first_addr(buf, 0x20, 20, bound(buf)),
            first_addr(buf, 1, 20, bound(buf)),
        ) {
            (Some(a), _) => response_of(buf, txid) == Ok::<SocketAddrV4, StunError>(a),
            (None, Some(a)) => response_of(buf, txid) == Ok::<SocketAddrV4, StunError>(a),
            (None, None) => response_of(buf, txid) == Err::<SocketAddrV4, StunError>(
                StunError::NoAddress,
            ),
        },
        buf.len() < 20 ==> response_of(buf, txid) == Err::<SocketAddrV4, StunError>(
            StunError::TooShort(buf.len() as usize),
        ),
        buf.len() >= 20 && net16(buf, 0) != 0x101 ==> response_of(buf, txid) == Err::<
            SocketAddrV4,
            StunError,
        >(StunError::NotResponse(net16(buf, 0) as u16)),
        buf.len() >= 20 && net16(buf, 0) == 0x101 && net32(buf, 4) != 0x2112a442 ==> response_of(
            buf,
            txid,
        ) == Err::<SocketAddrV4, StunError>(StunError::BadCookie(net32(buf, 4) as u32)),
        buf.len() >= 20 && net16(buf, 0) == 0x101 && net32(buf, 4) == 0x2112a442 && buf.subrange(
            8,
            20,
        ) != txid ==> response_of(buf, txid) == Err::<SocketAddrV4, StunError>(
            StunError::TxidMismatch,
        ),
{
    if buf.len() >= 20 {
        assert(net16(buf, 2) == get_be16(buf, 2) && net16(buf, 0) == get_be16(buf, 0));
        assert(net32(buf, 4) == get_be32(buf, 4));
    }
}

/// The attributes are read one behind the other, each padded to a multiple of four bytes: one of
/// another type is passed over, one of the type with an IPv4 address in it ends the search, and
/// so does the end.
pub proof fn law_stun_attributes(buf: Seq<u8>, atype: u16, i: int, end: int)
    requires
        0 <= i,
        end <= buf.len(),
    ensures
        i + 4 > end ==> first_addr(buf, atype, i, end) is None,
        i + 4 <= end ==> {
            let len = net16(buf, i + 2);
            let after = i + 4 + (len + 3) / 4 * 4;
            &&& i + 4 + len > end ==> first_addr(buf, atype, i, end) is None
            &&& i + 4 + len <= end && net16(buf, i) == atype && (atype == 1 || atype == 0x20)
                && len >= 8 && buf[i + 5] == 1 ==> first_addr(buf, atype, i, end) == attr_addr(
                atype,
                buf.subrange(i + 4, i + 4 + len),
            )
            &&& i + 4 + len <= end && (net16(buf, i) != atype || len < 8 || buf[i + 5] != 1)
                ==> first_addr(buf, atype, i, end) == first_addr(buf, atype, after, end)
        },
{
    if i + 4 <= end {
        let len = net16(buf, i + 2);
        assert(len == get_be16(buf, i + 2) && net16(buf, i) == get_be16(buf, i));
        assert(len + padding(len) == (len + 3) / 4 * 4);
        if i + 4 + len <= end && len >= 8 {
            assert(buf.subrange(i + 4, i + 4 + len)[1] == buf[i + 5]);
        }
    }
}

proof fn lemma_octets(a: u8, b: u8, c: u8, d: u8)
    ensures
        ipv4_from(a * 16777216 + b * 65536 + c * 256 + d) == (Ipv4Addr { a, b, c, d }),
{
    let n = a * 16777216 + b * 65536 + c * 256 + d;
    assert(n / 16777216 == a);
    assert(n / 65536 == a * 256 + b);
    assert(n / 256 == a * 65536 + b * 256 + c);
}

proof fn lemma_masked(a: u8, b: u8, c: u8, d: u8, n: u32)
    requires
        n == a * 16777216 + b * 65536 + c * 256 + d,
    ensures
        ipv4_from((n ^ 0x2112_a442u32) as int) == (Ipv4Addr {
            a: a ^ 0x21,
            b: b ^ 0x12,
            c: c ^ 0xa4,
            d: d ^ 0x42,
        }),
{
    let (w, x, y, z) = ((a ^ 0x21u8), (b ^ 0x12u8), (c ^ 0xa4u8), (d ^ 0x42u8));
    assert((n ^ 0x2112_a442u32) == w * 16777216 + x * 65536 + y * 256 + z) by (bit_vector)
        requires
            n == a * 16777216 + b * 65536 + c * 256 + d,
            w == a ^ 0x21u8,
            x == b ^ 0x12u8,
            y == c ^ 0xa4u8,
            z == d ^ 0x42u8,
    ;
    lemma_octets(w, x, y, z);
}

} // verus!
