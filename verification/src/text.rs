//! Decimal and hexadecimal text, and IPv4 addresses in dotted-decimal notation.
use vstd::prelude::*;
use vstd::utf8::{
    encode_utf8, encode_utf8_valid_utf8, is_char_boundary,
    is_char_boundary_iff_not_is_continuation_byte, is_char_boundary_start_end_of_seq,
    is_continuation_byte, length_of_first_scalar, partial_valid_utf8,
    partial_valid_utf8_extend_ascii_block, pop_first_scalar, valid_utf8,
};
use vstd::slice::slice_subrange;
use crate::bytes::{append, bytes_eq};
use crate::net::Ipv4Addr;

verus! {

/// `n` in decimal, without leading zeros.
pub open spec fn dec(n: nat) -> Seq<u8>
    decreases n,
{
    if n < 10 {
        seq![(48 + n) as u8]
    } else {
        dec(n / 10).push((48 + n % 10) as u8)
    }
}

/// Appends `n` in decimal.
pub fn push_dec(v: &mut Vec<u8>, n: usize)
    ensures
        final(v)@ == old(v)@ + dec(n as nat),
    decreases n,
{
    if n >= 10 {
        push_dec(v, n / 10);
    }
    v.push((48 + n % 10) as u8);
    assert(v@ =~= old(v)@ + dec(n as nat));
}

/// Appends the bytes of `s`.
pub fn push_text(v: &mut Vec<u8>, s: &str)
    ensures
        final(v)@ == old(v)@ + encode_utf8(s@),
{
    append(v, s.as_bytes());
}

/// Where `c` first stands in `s`, or the length of `s`.
pub open spec fn find_byte(s: Seq<u8>, c: u8) -> int
    decreases s.len(),
{
    if s.len() == 0 || s[0] == c {
        0
    } else {
        1 + find_byte(s.subrange(1, s.len() as int), c)
    }
}

/// A byte stands nowhere before its first place, and stands there.
pub proof fn lemma_find_byte(s: Seq<u8>, c: u8)
    ensures
        0 <= find_byte(s, c) <= s.len(),
        find_byte(s, c) < s.len() ==> s[find_byte(s, c)] == c,
        forall|k: int| 0 <= k < find_byte(s, c) ==> s[k] != c,
    decreases s.len(),
{
    if s.len() > 0 && s[0] != c {
        let t = s.subrange(1, s.len() as int);
        lemma_find_byte(t, c);
        assert forall|k: int| 0 <= k < find_byte(s, c) implies s[k] != c by {
            if k > 0 {
                assert(s[k] == t[k - 1]);
            }
        }
        if find_byte(t, c) < t.len() {
            assert(s[find_byte(s, c)] == t[find_byte(t, c)]);
        }
    }
}

/// The place with that property is the first one.
pub proof fn lemma_find_byte_is(s: Seq<u8>, c: u8, i: int)
    requires
        0 <= i <= s.len(),
        i < s.len() ==> s[i] == c,
        forall|k: int| 0 <= k < i ==> s[k] != c,
    ensures
        find_byte(s, c) == i,
{
    lemma_find_byte(s, c);
    let j = find_byte(s, c);
    if j < i {
        assert(s[j] != c);
    }
    if i < j {
        assert(s[i] != c);
    }
}

/// Finds the first place of `c` in `s`; the length of `s` if there is none.
pub fn index_of(s: &[u8], c: u8) -> (r: usize)
    ensures
        r == find_byte(s@, c),
        r <= s@.len(),
        r < s@.len() ==> s@[r as int] == c,
{
    let mut i: usize = 0;
    while i < s.len() && s[i] != c
        invariant
            i <= s@.len(),
            forall|k: int| 0 <= k < i ==> s@[k] != c,
        decreases s@.len() - i,
    {
        i = i + 1;
    }
    proof {
        lemma_find_byte_is(s@, c, i as int);
    }
    i
}

/// Where `c` last stands in `s`, or -1.
pub open spec fn find_last_byte(s: Seq<u8>, c: u8) -> int
    decreases s.len(),
{
    if s.len() == 0 {
        -1
    } else if s.last() == c {
        s.len() - 1
    } else {
        find_last_byte(s.drop_last(), c)
    }
}

/// Where what follows the last `c` in `s` begins; all of `s` if there is no `c`.
pub fn after_last(s: &[u8], c: u8) -> (r: usize)
    ensures
        r == find_last_byte(s@, c) + 1,
        r <= s@.len(),
{
    let mut i: usize = s.len();
    assert(s@.subrange(0, i as int) =~= s@);
    while i > 0
        invariant
            i <= s@.len(),
            find_last_byte(s@.subrange(0, i as int), c) == find_last_byte(s@, c),
        decreases i,
    {
        assert(s@.subrange(0, i as int).drop_last() =~= s@.subrange(0, i - 1));
        if s[i - 1] == c {
            return i;
        }
        i = i - 1;
    }
    0
}

/// The number that a string of decimal digits stands for; the empty string stands
/// for zero.
pub open spec fn digits_value(s: Seq<u8>) -> Option<nat>
    decreases s.len(),
{
    if s.len() == 0 {
        Some(0)
    } else {
        match digits_value(s.drop_last()) {
            Some(v) => if 48 <= s.last() <= 57 {
                Some((v * 10 + (s.last() - 48)) as nat)
            } else {
                None
            },
            None => None,
        }
    }
}

/// The number up to `max` that `s` denotes: at least one digit, which a plus sign
/// may precede.
pub open spec fn number_of(s: Seq<u8>, max: nat) -> Option<nat> {
    let t = if s.len() > 0 && s[0] == 43 {
        s.subrange(1, s.len() as int)
    } else {
        s
    };
    if t.len() == 0 {
        None
    } else {
        match digits_value(t) {
            Some(v) => if v <= max {
                Some(v)
            } else {
                None
            },
            None => None,
        }
    }
}

/// More digits do not make a number smaller, nor a non-number a number.
proof fn lemma_digits_grow(s: Seq<u8>, n: int)
    requires
        0 <= n <= s.len(),
    ensures
        digits_value(s.subrange(0, n)) is None ==> digits_value(s) is None,
        digits_value(s.subrange(0, n)) is Some && digits_value(s) is Some ==> digits_value(
            s.subrange(0, n),
        )->0 <= digits_value(s)->0,
    decreases s.len() - n,
{
    if n == s.len() {
        assert(s.subrange(0, n) =~= s);
    } else {
        lemma_digits_grow(s, n + 1);
        assert(s.subrange(0, n + 1).drop_last() =~= s.subrange(0, n));
    }
}

/// Parses a number up to `max`.
pub fn parse_number(s: &[u8], max: u32) -> (r: Option<u32>)
    ensures
        match r {
            Some(v) => number_of(s@, max as nat) == Some(v as nat),
            None => number_of(s@, max as nat) is None,
        },
{
    let n: usize = s.len();
    let from: usize = if n > 0 && s[0] == 43 {
        1
    } else {
        0
    };
    if from == n {
        return None;
    }
    let ghost t = s@.subrange(from as int, n as int);
    proof {
        assert(from == 0 ==> t =~= s@);
        assert(t.subrange(0, 0) =~= Seq::empty());
    }
    let mut v: u64 = 0;
    let mut i: usize = from;
    while i < n
        invariant
            from <= i <= n,
            n == s@.len(),
            t == s@.subrange(from as int, n as int),
            v <= max,
            digits_value(t.subrange(0, i - from)) == Some(v as nat),
            t.len() > 0,
            number_of(s@, max as nat) == (match digits_value(t) {
                Some(w) => if w <= max {
                    Some(w)
                } else {
                    None
                },
                None => None,
            }),
        decreases n - i,
    {
        let c: u8 = s[i];
        proof {
            let next = t.subrange(0, i + 1 - from);
            assert(next.drop_last() =~= t.subrange(0, i - from));
            assert(next.last() == c);
            lemma_digits_grow(t, i + 1 - from);
        }
        if c < 48 || c > 57 {
            return None;
        }
        v = v * 10 + (c - 48) as u64;
        if v > max as u64 {
            return None;
        }
        i = i + 1;
    }
    assert(t.subrange(0, n - from) =~= t);
    Some(v as u32)
}

/// The octet that `s` denotes: one to three digits, no superfluous zero in front.
pub open spec fn octet_of(s: Seq<u8>) -> Option<u8> {
    if s.len() == 0 || s.len() > 3 || (s.len() > 1 && s[0] == 48) {
        None
    } else {
        match digits_value(s) {
            Some(v) => if v <= 255 {
                Some(v as u8)
            } else {
                None
            },
            None => None,
        }
    }
}

/// What stands before the first dot.
pub open spec fn before_dot(s: Seq<u8>) -> Seq<u8> {
    s.subrange(0, find_byte(s, 46))
}

/// What stands after the first dot.
pub open spec fn after_dot(s: Seq<u8>) -> Seq<u8> {
    s.subrange(find_byte(s, 46) + 1, s.len() as int)
}

/// Whether there is a dot.
pub open spec fn has_dot(s: Seq<u8>) -> bool {
    find_byte(s, 46) < s.len()
}

/// The IPv4 address that `s` denotes in dotted-decimal notation.
pub open spec fn ipv4_text(s: Seq<u8>) -> Option<Ipv4Addr> {
    let r1 = after_dot(s);
    let r2 = after_dot(r1);
    let r3 = after_dot(r2);
    if has_dot(s) && has_dot(r1) && has_dot(r2) {
        match (
            octet_of(before_dot(s)),
            octet_of(before_dot(r1)),
            octet_of(before_dot(r2)),
            octet_of(r3),
        ) {
            (Some(a), Some(b), Some(c), Some(d)) => Some(Ipv4Addr { a, b, c, d }),
            _ => None,
        }
    } else {
        None
    }
}

/// Parses an octet.
fn parse_octet(s: &[u8]) -> (r: Option<u8>)
    ensures
        r == octet_of(s@),
{
    if s.len() == 0 || s.len() > 3 || (s.len() > 1 && s[0] == 48) {
        return None;
    }
    if s[0] == 43 {
        proof {
            lemma_digits_grow(s@, 1);
            assert(s@.subrange(0, 1).last() == 43);
        }
        return None;
    }
    match parse_number(s, 255) {
        Some(v) => Some(v as u8),
        None => None,
    }
}

/// Parses an IPv4 address in dotted-decimal notation.
pub fn parse_ipv4(s: &[u8]) -> (r: Option<Ipv4Addr>)
    ensures
        r == ipv4_text(s@),
{
    let i: usize = index_of(s, 46);
    if i == s.len() {
        return None;
    }
    let s1 = slice_subrange(s, i + 1, s.len());
    let j: usize = index_of(s1, 46);
    if j == s1.len() {
        return None;
    }
    let s2 = slice_subrange(s1, j + 1, s1.len());
    let k: usize = index_of(s2, 46);
    if k == s2.len() {
        return None;
    }
    let s3 = slice_subrange(s2, k + 1, s2.len());
    let a = parse_octet(slice_subrange(s, 0, i));
    let b = parse_octet(slice_subrange(s1, 0, j));
    let c = parse_octet(slice_subrange(s2, 0, k));
    let d = parse_octet(s3);
    match (a, b, c, d) {
        (Some(a), Some(b), Some(c), Some(d)) => Some(Ipv4Addr { a, b, c, d }),
        _ => None,
    }
}

/// An IPv4 address in dotted-decimal notation.
pub open spec fn dotted(ip: Ipv4Addr) -> Seq<u8> {
    dec(ip.a as nat) + seq![46u8] + dec(ip.b as nat) + seq![46u8] + dec(ip.c as nat) + seq![46u8]
        + dec(ip.d as nat)
}

/// Appends an IPv4 address in dotted-decimal notation.
pub fn push_dotted(v: &mut Vec<u8>, ip: Ipv4Addr)
    ensures
        final(v)@ == old(v)@ + dotted(ip),
{
    push_dec(v, ip.a as usize);
    v.push(46);
    push_dec(v, ip.b as usize);
    v.push(46);
    push_dec(v, ip.c as usize);
    v.push(46);
    push_dec(v, ip.d as usize);
    assert(v@ =~= old(v)@ + dotted(ip));
}

/// The value of a hexadecimal digit.
pub open spec fn hex_digit(c: u8) -> Option<u8> {
    if 48 <= c <= 57 {
        Some((c - 48) as u8)
    } else if 97 <= c <= 102 {
        Some((c - 87) as u8)
    } else if 65 <= c <= 70 {
        Some((c - 55) as u8)
    } else {
        None
    }
}

/// The bytes that a string of hexadecimal digits of either case stands for.
pub open spec fn hex_bytes(s: Seq<u8>) -> Option<Seq<u8>> {
    if s.len() % 2 == 0 && (forall|k: int| 0 <= k < s.len() ==> hex_digit(#[trigger] s[k]) is Some) {
        Some(
            Seq::new(
                s.len() / 2,
                |i: int| (hex_digit(s[2 * i])->0 * 16 + hex_digit(s[2 * i + 1])->0) as u8,
            ),
        )
    } else {
        None
    }
}

/// The hexadecimal digit of a value below 16, in lower case.
pub open spec fn hex_char(n: int) -> u8 {
    if n < 10 {
        (48 + n) as u8
    } else {
        (87 + n) as u8
    }
}

/// The lower-case hexadecimal digits of `s`.
pub open spec fn hex_of(s: Seq<u8>) -> Seq<u8> {
    Seq::new(
        s.len() * 2,
        |i: int|
            if i % 2 == 0 {
                hex_char(s[i / 2] as int / 16)
            } else {
                hex_char(s[i / 2] as int % 16)
            },
    )
}

/// The value of a hexadecimal digit.
pub fn hex_val(c: u8) -> (r: Option<u8>)
    ensures
        r == hex_digit(c),
        r matches Some(v) ==> v < 16,
{
    if 48 <= c && c <= 57 {
        Some(c - 48)
    } else if 97 <= c && c <= 102 {
        Some(c - 87)
    } else if 65 <= c && c <= 70 {
        Some(c - 55)
    } else {
        None
    }
}

/// Decodes 64 hexadecimal digits.
pub fn hex_decode_64(s: &[u8]) -> (r: Option<[u8; 32]>)
    requires
        s@.len() == 64,
    ensures
        match r {
            Some(k) => hex_bytes(s@) == Some(k@),
            None => hex_bytes(s@) is None,
        },
{
    let mut out: [u8; 32] = [0u8; 32];
    let mut i: usize = 0;
    while i < 32
        invariant
            i <= 32,
            s@.len() == 64,
            forall|k: int| 0 <= k < 2 * i ==> hex_digit(#[trigger] s@[k]) is Some,
            forall|k: int|
                0 <= k < i ==> #[trigger] out@[k] == (hex_digit(s@[2 * k])->0 * 16 + hex_digit(
                    s@[2 * k + 1],
                )->0) as u8,
        decreases 32 - i,
    {
        let hi = hex_val(s[2 * i]);
        let lo = hex_val(s[2 * i + 1]);
        match (hi, lo) {
            (Some(h), Some(l)) => {
                out[i] = h * 16 + l;
            },
            (None, _) => {
                assert(hex_digit(s@[2 * i]) is None);
                return None;
            },
            _ => {
                assert(hex_digit(s@[2 * i + 1]) is None);
                return None;
            },
        }
        i = i + 1;
    }
    assert(out@ =~= hex_bytes(s@)->0);
    Some(out)
}

/// Appends the lower-case hexadecimal digits of `s`.
pub fn push_hex(v: &mut Vec<u8>, s: &[u8])
    ensures
        final(v)@ == old(v)@ + hex_of(s@),
{
    let mut i: usize = 0;
    assert(v@ =~= old(v)@ + hex_of(s@.subrange(0, 0)));
    while i < s.len()
        invariant
            i <= s@.len(),
            v@ == old(v)@ + hex_of(s@.subrange(0, i as int)),
        decreases s@.len() - i,
    {
        let hi: u8 = s[i] / 16;
        let lo: u8 = s[i] % 16;
        v.push(if hi < 10 { 48 + hi } else { 87 + hi });
        v.push(if lo < 10 { 48 + lo } else { 87 + lo });
        assert(v@ =~= old(v)@ + hex_of(s@.subrange(0, i + 1)));
        i = i + 1;
    }
    assert(s@.subrange(0, i as int) =~= s@);
}

/// Hexadecimal digits lead back to the bytes.
pub proof fn law_hex_roundtrip(s: Seq<u8>)
    ensures
        hex_bytes(hex_of(s)) == Some(s),
{
    let h = hex_of(s);
    assert forall|k: int| 0 <= k < h.len() implies hex_digit(#[trigger] h[k]) is Some by {
        assert(0 <= s[k / 2] as int / 16 < 16);
        assert(0 <= s[k / 2] as int % 16 < 16);
    }
    assert(hex_bytes(h)->0 =~= s);
}

/// A number written in decimal reads back as itself.
pub proof fn law_dec_roundtrip(n: nat)
    ensures
        digits_value(dec(n)) == Some(n),
        dec(n).len() > 0,
        forall|k: int| 0 <= k < dec(n).len() ==> 48 <= #[trigger] dec(n)[k] <= 57,
    decreases n,
{
    if n < 10 {
        assert(dec(n).drop_last() =~= Seq::empty());
        assert(digits_value(Seq::<u8>::empty()) == Some(0nat));
    } else {
        law_dec_roundtrip(n / 10);
        assert(dec(n).drop_last() =~= dec(n / 10));
    }
}

/// A power of ten.
pub open spec fn ten_to(k: nat) -> nat
    decreases k,
{
    if k == 0 {
        1
    } else {
        10 * ten_to((k - 1) as nat)
    }
}

/// A number below a power of ten has no more digits than that.
pub proof fn lemma_dec_len(n: nat, k: nat)
    requires
        k > 0,
        n < ten_to(k),
    ensures
        dec(n).len() <= k,
    decreases k,
{
    if n >= 10 {
        assert(ten_to(1) == 10) by {
            assert(ten_to(0) == 1);
        }
        lemma_dec_len(n / 10, (k - 1) as nat);
    }
}

/// A number up to `max` written in decimal reads back as itself.
pub proof fn law_number_roundtrip(n: nat, max: nat)
    requires
        n <= max,
    ensures
        number_of(dec(n), max) == Some(n),
{
    law_dec_roundtrip(n);
    assert(dec(n)[0] >= 48);
}

/// `String::from_utf8`: a byte string becomes a `String` if and only if it is valid
/// UTF-8, and the `String` then holds those bytes.
#[verifier::external_body]
fn string_from_utf8(v: Vec<u8>) -> (r: Option<String>)
    ensures
        r is Some <==> valid_utf8(v@),
        r matches Some(s) ==> encode_utf8(s@) == v@,
{
    String::from_utf8(v).ok()
}

/// Whether all bytes are ASCII.
pub open spec fn all_ascii(s: Seq<u8>) -> bool {
    forall|k: int| 0 <= k < s.len() ==> #[trigger] s[k] < 128
}

/// ASCII bytes as a `String`.
pub fn ascii_string(v: Vec<u8>) -> (r: String)
    requires
        all_ascii(v@),
    ensures
        encode_utf8(r@) == v@,
{
    proof {
        lemma_ascii_valid(v@);
    }
    string_from_utf8(v).unwrap()
}

/// ASCII bytes are valid UTF-8.
proof fn lemma_ascii_valid(s: Seq<u8>)
    requires
        all_ascii(s),
    ensures
        valid_utf8(s),
{
    let n = s.len() as int;
    assert(s.subrange(0, 0) =~= Seq::empty());
    assert(valid_utf8(Seq::<u8>::empty()));
    assert(partial_valid_utf8(s, 0));
    partial_valid_utf8_extend_ascii_block(s, 0, n);
    assert(s.subrange(0, n) =~= s);
}

/// The part of `s` before the byte position `at`, where an ASCII character stands.
pub fn prefix_string(s: &str, at: usize) -> (r: String)
    requires
        at <= encode_utf8(s@).len(),
        at < encode_utf8(s@).len() ==> encode_utf8(s@)[at as int] < 128,
    ensures
        encode_utf8(r@) == encode_utf8(s@).subrange(0, at as int),
{
    proof {
        let b = encode_utf8(s@);
        encode_utf8_valid_utf8(s@);
        is_char_boundary_start_end_of_seq(b);
        if at < b.len() {
            is_char_boundary_iff_not_is_continuation_byte(b, at as int);
        }
    }
    let (head, _) = s.split_at(at);
    head.to_owned()
}

/// The part of `s` from the byte position `at` on, where the characters before it are
/// ASCII.
pub fn suffix_string(s: &str, at: usize) -> (r: String)
    requires
        0 < at <= encode_utf8(s@).len(),
        encode_utf8(s@)[at - 1] < 128,
    ensures
        encode_utf8(r@) == encode_utf8(s@).subrange(at as int, encode_utf8(s@).len() as int),
{
    proof {
        encode_utf8_valid_utf8(s@);
        lemma_after_ascii(encode_utf8(s@), at as int);
    }
    let (_, tail) = s.split_at(at);
    tail.to_owned()
}

/// A character begins after an ASCII character.
proof fn lemma_after_ascii(b: Seq<u8>, at: int)
    requires
        valid_utf8(b),
        0 < at <= b.len(),
        b[at - 1] < 128,
    ensures
        is_char_boundary(b, at),
    decreases b.len(),
{
    let n = length_of_first_scalar(b);
    is_char_boundary_start_end_of_seq(b);
    if at < b.len() {
        if at - 1 < n {
            assert(at - 1 == 0 && n == 1) by {
                if at - 1 > 0 {
                    assert(is_continuation_byte(b[at - 1]));
                }
            }
            reveal_with_fuel(is_char_boundary, 2);
        } else {
            lemma_after_ascii(pop_first_scalar(b), at - n);
            reveal_with_fuel(is_char_boundary, 2);
        }
    }
}

/// Whether `needle` stands in `s` at `k`.
pub open spec fn occurs_at(s: Seq<u8>, needle: Seq<u8>, k: int) -> bool {
    0 <= k && k + needle.len() <= s.len() && s.subrange(k, k + needle.len()) == needle
}

/// Whether `needle` stands in `s` at `k` for the first time.
pub open spec fn first_at(s: Seq<u8>, needle: Seq<u8>, k: int) -> bool {
    occurs_at(s, needle, k) && forall|j: int| 0 <= j < k ==> !#[trigger] occurs_at(s, needle, j)
}

/// Whether `needle` stands somewhere in `s`.
pub open spec fn contains_text(s: Seq<u8>, needle: Seq<u8>) -> bool {
    exists|k: int| #[trigger] occurs_at(s, needle, k)
}

/// What stands in `s` before its first line feed.
pub open spec fn first_line(s: Seq<u8>) -> Seq<u8> {
    s.subrange(0, find_byte(s, 10))
}

/// Finds the first place of `needle` in `s`.
pub fn find(s: &[u8], needle: &[u8]) -> (r: Option<usize>)
    requires
        needle@.len() > 0,
    ensures
        match r {
            Some(k) => first_at(s@, needle@, k as int),
            None => !contains_text(s@, needle@),
        },
{
    let n: usize = s.len();
    let m: usize = needle.len();
    let mut k: usize = 0;
    while k < n && m <= n - k
        invariant
            n == s@.len(),
            m == needle@.len(),
            m > 0,
            k <= n,
            forall|j: int| 0 <= j < k ==> !#[trigger] occurs_at(s@, needle@, j),
        decreases n - k,
    {
        if bytes_eq(slice_subrange(s, k, k + m), needle) {
            return Some(k);
        }
        assert(!occurs_at(s@, needle@, k as int));
        k = k + 1;
    }
    assert forall|j: int| !#[trigger] occurs_at(s@, needle@, j) by {
        if j >= k {
            assert(j + m > n);
        }
    }
    None
}

/// The five bytes " 101 ", which an accepted upgrade has in its status line.
pub open spec fn code_101() -> Seq<u8> {
    seq![32u8, 49, 48, 49, 32]
}

/// The four bytes that end an HTTP header.
pub open spec fn crlf2() -> Seq<u8> {
    seq![13u8, 10, 13, 10]
}

/// Whether the line says that the server switches protocols.
pub fn says_101(line: &[u8]) -> (r: bool)
    ensures
        r == contains_text(line@, code_101()),
{
    let code: [u8; 5] = [32u8, 49, 48, 49, 32];
    assert(code@ =~= code_101());
    match find(line, code.as_slice()) {
        Some(k) => {
            assert(occurs_at(line@, code_101(), k as int));
            true
        },
        None => false,
    }
}

} // verus!
