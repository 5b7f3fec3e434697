//! Just enough IPv4 and ICMP to answer a ping, and the internet checksum that
//! every other packet builder shares.
use vstd::prelude::*;
use vstd::arithmetic::div_mod::lemma_mod_multiples_vanish;
use crate::bytes::{be16, copy_range, get_be16, read_be16};

verus! {

broadcast use crate::bytes::group_lengths;

pub const PROTO_ICMP: u8 = 1;

pub const ICMP_ECHO_REQUEST: u8 = 8;

pub const ICMP_ECHO_REPLY: u8 = 0;

/// The sum of the big-endian 16-bit words of `s`; an odd last byte is padded
/// with a zero byte.
pub open spec fn word_sum(s: Seq<u8>) -> nat
    decreases s.len(),
{
    if s.len() == 0 {
        0
    } else if s.len() == 1 {
        (s[0] * 256) as nat
    } else {
        (s[0] * 256 + s[1] + word_sum(s.subrange(2, s.len() as int))) as nat
    }
}

/// The one's-complement value of a sum of 16-bit words: the number in
/// `0..=65535` that repeated end-around carries lead to.
pub open spec fn ones(n: nat) -> nat {
    if n == 0 {
        0
    } else {
        ((n - 1) % 65535 + 1) as nat
    }
}

/// The internet checksum: the complement of the one's-complement sum.
pub open spec fn inet_checksum(s: Seq<u8>) -> u16 {
    (65535 - ones(word_sum(s))) as u16
}

/// Moving the carry of a sum to its low end does not change its value.
proof fn lemma_fold(n: nat)
    ensures
        ones((n % 65536 + n / 65536) as nat) == ones(n),
{
    if n >= 65536 {
        let m = n % 65536 + n / 65536;
        let q = (n / 65536) as int;
        assert(n - 1 == 65535 * q + (m - 1));
        lemma_mod_multiples_vanish(q, m - 1, 65535);
    }
}

/// Sums of equal value stay so when the same is added to both.
pub proof fn lemma_ones_add(a: nat, b: nat, c: nat)
    requires
        ones(a) == ones(b),
    ensures
        ones(a + c) == ones(b + c),
{
    if a > 0 && b > 0 {
        let q = (a - 1) / 65535 - (b - 1) / 65535;
        assert(a - 1 == (a - 1) / 65535 * 65535 + (a - 1) % 65535);
        assert(b - 1 == (b - 1) / 65535 * 65535 + (b - 1) % 65535);
        assert(a - b == 65535 * q);
        lemma_mod_multiples_vanish(q, b + c - 1, 65535);
    }
}

/// The words of an even-length prefix and of the rest add up.
pub proof fn lemma_word_sum_concat(a: Seq<u8>, b: Seq<u8>)
    requires
        a.len() % 2 == 0,
    ensures
        word_sum(a + b) == word_sum(a) + word_sum(b),
    decreases a.len(),
{
    if a.len() == 0 {
        assert(a + b =~= b);
    } else {
        let t = a.subrange(2, a.len() as int);
        lemma_word_sum_concat(t, b);
        assert((a + b).subrange(2, (a + b).len() as int) =~= t + b);
    }
}

/// The words of a single 16-bit number.
proof fn lemma_word_sum_be16(n: int)
    requires
        0 <= n < 65536,
    ensures
        word_sum(be16(n)) == n,
{
    reveal(be16);
    let s = be16(n);
    assert(s.subrange(2, 2) =~= Seq::<u8>::empty());
    assert(word_sum(s.subrange(2, 2)) == 0);
}

/// Data that carries its own checksum: with the field zero while the checksum is
/// taken, and the result put in the field, the whole has checksum zero.
pub proof fn law_checksum_verifies(before: Seq<u8>, after: Seq<u8>)
    requires
        before.len() % 2 == 0,
    ensures
        ({
            let c = inet_checksum(before + be16(0) + after);
            inet_checksum(before + be16(c as int) + after) == 0
        }),
{
    let c = inet_checksum(before + be16(0) + after);
    let w = word_sum(before) + word_sum(after);
    lemma_word_sum_concat(before, be16(0));
    lemma_word_sum_concat(before + be16(0), after);
    lemma_word_sum_be16(0);
    assert(word_sum(before + be16(0) + after) == w);
    assert(c == 65535 - ones(w));
    lemma_word_sum_concat(before, be16(c as int));
    lemma_word_sum_concat(before + be16(c as int), after);
    lemma_word_sum_be16(c as int);
    assert(word_sum(before + be16(c as int) + after) == w + c);
    if w > 0 {
        let q = ((w - 1) / 65535) as int;
        assert(w - 1 == 65535 * q + (w - 1) % 65535);
        assert(w + c - 1 == 65535 * q + 65534);
        lemma_mod_multiples_vanish(q, 65534, 65535);
    }
}

/// Adds the words of `data` to `sum`, carrying end around.
pub fn sum16(data: &[u8], sum: u32) -> (r: u32)
    ensures
        ones(r as nat) == ones(sum as nat + word_sum(data@)),
{
    let mut acc: u32 = sum % 65536 + sum / 65536;
    proof {
        lemma_fold(sum as nat);
        lemma_ones_add(acc as nat, sum as nat, word_sum(data@));
        assert(data@.subrange(0, data@.len() as int) =~= data@);
    }
    let n: usize = data.len();
    let mut i: usize = 0;
    while n - i >= 2
        invariant
            i <= n,
            n == data@.len(),
            acc <= 131072,
            ones(acc as nat + word_sum(data@.subrange(i as int, n as int))) == ones(
                sum as nat + word_sum(data@),
            ),
        decreases n - i,
    {
        let ghost rest = data@.subrange(i as int, n as int);
        let w: u32 = read_be16(data, i) as u32;
        let t: u32 = acc + w;
        proof {
            assert(rest.subrange(2, rest.len() as int) =~= data@.subrange(i + 2, n as int));
            lemma_fold(t as nat);
            lemma_ones_add(
                (t % 65536 + t / 65536) as nat,
                t as nat,
                word_sum(data@.subrange(i + 2, n as int)),
            );
        }
        acc = t % 65536 + t / 65536;
        i = i + 2;
    }
    let ghost rest = data@.subrange(i as int, n as int);
    if i < n {
        assert(rest.len() == 1);
        acc = acc + data[i] as u32 * 256;
    }
    acc
}

/// Folds the carries of a sum of words and complements it.
pub fn finish(sum: u32) -> (r: u16)
    ensures
        r == 65535 - ones(sum as nat),
{
    let mut acc: u32 = sum;
    while acc >= 65536
        invariant
            ones(acc as nat) == ones(sum as nat),
        decreases acc,
    {
        proof {
            lemma_fold(acc as nat);
        }
        acc = acc % 65536 + acc / 65536;
    }
    (65535 - acc) as u16
}

/// The standard internet checksum of `data`.
pub fn checksum(data: &[u8]) -> (r: u16)
    ensures
        r == inet_checksum(data@),
{
    finish(sum16(data, 0))
}

/// The length of the IPv4 header that `inner` announces.
pub open spec fn ihl(inner: Seq<u8>) -> int {
    (inner[0] % 16) * 4
}

/// Whether `inner` holds a whole IPv4 packet with an ICMP echo request in it.
pub open spec fn is_echo_request(inner: Seq<u8>) -> bool {
    &&& inner.len() >= 20
    &&& inner[0] / 16 == 4
    &&& ihl(inner) >= 20
    &&& ihl(inner) + 8 <= get_be16(inner, 2) <= inner.len()
    &&& inner[9] == PROTO_ICMP
    &&& inner[ihl(inner)] == ICMP_ECHO_REQUEST
}

/// The ICMP message of the reply, with `csum` in its checksum field: the
/// request's message with the type changed.
pub open spec fn reply_body(body: Seq<u8>, csum: u16) -> Seq<u8> {
    seq![ICMP_ECHO_REPLY, body[1]] + be16(csum as int) + body.subrange(4, body.len() as int)
}

/// The IPv4 header of the reply, with `csum` in its checksum field: the
/// request's header with source and destination swapped.
pub open spec fn reply_header(header: Seq<u8>, csum: u16) -> Seq<u8> {
    header.subrange(0, 10) + be16(csum as int) + (header.subrange(16, 20) + header.subrange(12, 16)
        + header.subrange(20, header.len() as int))
}

/// The reply to the echo request `inner`.
pub open spec fn echo_reply_of(inner: Seq<u8>) -> Seq<u8> {
    let header = inner.subrange(0, ihl(inner));
    let body = inner.subrange(ihl(inner), get_be16(inner, 2));
    reply_header(header, inet_checksum(reply_header(header, 0))) + reply_body(
        body,
        inet_checksum(reply_body(body, 0)),
    )
}

/// Writes `csum` into the two bytes at `at`.
fn set_be16(v: &mut Vec<u8>, at: usize, csum: u16)
    requires
        at + 2 <= old(v)@.len(),
    ensures
        final(v)@ == old(v)@.subrange(0, at as int) + be16(csum as int) + old(v)@.subrange(
            at + 2,
            old(v)@.len() as int,
        ),
{
    let _n: usize = v.len();
    v.set(at, (csum / 256) as u8);
    v.set(at + 1, (csum % 256) as u8);
    proof {
        reveal(be16);
    }
    assert(v@ =~= old(v)@.subrange(0, at as int) + be16(csum as int) + old(v)@.subrange(
        at + 2,
        old(v)@.len() as int,
    ));
}

/// If `inner` is an IPv4 ICMP echo request, the echo reply: source and
/// destination swapped, type set to reply, both checksums taken anew. `None` for
/// anything else.
pub fn echo_reply(inner: &[u8]) -> (r: Option<Vec<u8>>)
    ensures
        r is Some <==> is_echo_request(inner@),
        r matches Some(p) ==> p@ == echo_reply_of(inner@),
{
    if inner.len() < 20 || inner[0] / 16 != 4 {
        return None;
    }
    let hl: usize = (inner[0] % 16) as usize * 4;
    let total: usize = read_be16(inner, 2) as usize;
    if hl < 20 || total < hl || total > inner.len() {
        return None;
    }
    if inner[9] != PROTO_ICMP {
        return None;
    }
    if total - hl < 8 || inner[hl] != ICMP_ECHO_REQUEST {
        return None;
    }
    let ghost header = inner@.subrange(0, hl as int);
    let ghost body = inner@.subrange(hl as int, total as int);
    let mut msg = copy_range(inner, hl, total);
    msg.set(0, ICMP_ECHO_REPLY);
    msg.set(2, 0);
    msg.set(3, 0);
    proof {
        reveal(be16);
    }
    assert(msg@ =~= reply_body(body, 0));
    let csum: u16 = checksum(msg.as_slice());
    set_be16(&mut msg, 2, csum);
    assert(msg@ =~= reply_body(body, csum));
    let mut pkt = copy_range(inner, 0, hl);
    let mut i: usize = 0;
    while i < 4
        invariant
            i <= 4,
            hl <= inner@.len(),
            pkt@.len() == hl,
            hl >= 20,
            header == inner@.subrange(0, hl as int),
            forall|k: int|
                0 <= k < hl ==> pkt@[k] == if 12 <= k < 12 + i {
                    header[k + 4]
                } else if 16 <= k < 16 + i {
                    header[k - 4]
                } else {
                    header[k]
                },
        decreases 4 - i,
    {
        pkt.set(12 + i, inner[16 + i]);
        pkt.set(16 + i, inner[12 + i]);
        i = i + 1;
    }
    pkt.set(10, 0);
    pkt.set(11, 0);
    assert(pkt@ =~= reply_header(header, 0));
    let ipsum: u16 = checksum(pkt.as_slice());
    set_be16(&mut pkt, 10, ipsum);
    assert(pkt@ =~= reply_header(header, ipsum));
    pkt.append(&mut msg);
    Some(pkt)
}

/// The reply verifies: its IPv4 header and its ICMP message both have checksum
/// zero.
pub proof fn law_echo_reply_verifies(inner: Seq<u8>)
    requires
        is_echo_request(inner),
    ensures
        ({
            let p = echo_reply_of(inner);
            &&& p.len() == get_be16(inner, 2)
            &&& inet_checksum(p.subrange(0, ihl(inner))) == 0
            &&& inet_checksum(p.subrange(ihl(inner), p.len() as int)) == 0
        }),
{
    let header = inner.subrange(0, ihl(inner));
    let body = inner.subrange(ihl(inner), get_be16(inner, 2));
    let hc = inet_checksum(reply_header(header, 0));
    let ic = inet_checksum(reply_body(body, 0));
    let p = echo_reply_of(inner);
    assert(p.subrange(0, ihl(inner)) =~= reply_header(header, hc));
    assert(p.subrange(ihl(inner), p.len() as int) =~= reply_body(body, ic));
    law_checksum_verifies(
        header.subrange(0, 10),
        header.subrange(16, 20) + header.subrange(12, 16) + header.subrange(
            20,
            header.len() as int,
        ),
    );
    law_checksum_verifies(seq![ICMP_ECHO_REPLY, body[1]], body.subrange(4, body.len() as int));
}

/// The reply goes back where the request came from and carries the request's
/// identifier, sequence number and data unchanged.
pub proof fn law_echo_reply_returns(inner: Seq<u8>)
    requires
        is_echo_request(inner),
    ensures
        ({
            let p = echo_reply_of(inner);
            let total = get_be16(inner, 2);
            &&& p.subrange(12, 16) == inner.subrange(16, 20)
            &&& p.subrange(16, 20) == inner.subrange(12, 16)
            &&& p[ihl(inner)] == ICMP_ECHO_REPLY
            &&& p.subrange(ihl(inner) + 4, total) == inner.subrange(ihl(inner) + 4, total)
        }),
{
    let p = echo_reply_of(inner);
    let total = get_be16(inner, 2);
    assert(p.subrange(12, 16) =~= inner.subrange(16, 20));
    assert(p.subrange(16, 20) =~= inner.subrange(12, 16));
    assert(p.subrange(ihl(inner) + 4, total) =~= inner.subrange(ihl(inner) + 4, total));
}

} // verus!
