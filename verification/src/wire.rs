//! Numbers in byte strings, place by place. The laws on wire formats are stated with these.
use vstd::prelude::*;
use crate::bytes::{be16, be32, be64, get_le32, get_le64, le32, le64};

verus! {

/// The number whose two bytes, most significant first, stand in `s` at `i`.
pub open spec fn net16(s: Seq<u8>, i: int) -> int {
    256 * s[i] + s[i + 1]
}

/// The number whose four bytes, most significant first, stand in `s` at `i`.
pub open spec fn net32(s: Seq<u8>, i: int) -> int {
    65536 * net16(s, i) + net16(s, i + 2)
}

/// The two bytes of `n`, most significant first.
pub open spec fn in_two(n: int) -> Seq<u8> {
    seq![(n / 256 % 256) as u8, (n % 256) as u8]
}

/// The four bytes of `n`, most significant first.
pub open spec fn in_four(n: int) -> Seq<u8> {
    seq![
        (n / 16777216 % 256) as u8,
        (n / 65536 % 256) as u8,
        (n / 256 % 256) as u8,
        (n % 256) as u8,
    ]
}

/// The four bytes of `n`, least significant first.
pub open spec fn low_four(n: int) -> Seq<u8> {
    seq![
        (n % 256) as u8,
        (n / 256 % 256) as u8,
        (n / 65536 % 256) as u8,
        (n / 16777216 % 256) as u8,
    ]
}

/// The eight bytes of `n`, least significant first.
pub open spec fn low_eight(n: int) -> Seq<u8> {
    low_four(n % 4294967296) + low_four(n / 4294967296)
}

/// `n` zero bytes.
pub open spec fn blank(n: nat) -> Seq<u8> {
    Seq::new(n, |i: int| 0u8)
}

/// Numbers go onto the wire most significant byte first, but in WireGuard's headers least
/// significant byte first.
pub proof fn law_byte_order(n: int)
    requires
        n >= 0,
    ensures
        be16(n) == in_two(n),
        be32(n) == in_four(n),
        be64(n) == in_four(n / 4294967296) + in_four(n % 4294967296),
        le32(n) == low_four(n),
        le64(n) == low_eight(n),
{
    reveal(be16);
    reveal(be32);
    reveal(le32);
    assert(be16(n) =~= in_two(n));
    assert(be32(n) =~= in_four(n));
    assert(be32(n / 4294967296) =~= in_four(n / 4294967296));
    assert(be32(n % 4294967296) =~= in_four(n % 4294967296));
    assert(le32(n) =~= low_four(n));
    assert(le32(n % 4294967296) =~= low_four(n % 4294967296));
    assert(le32(n / 4294967296) =~= low_four(n / 4294967296));
    assert(le64(n) =~= low_eight(n));
}

/// The four bytes that make up a number, least significant first, are its bytes.
pub proof fn lemma_low_four(s: Seq<u8>, at: int)
    requires
        0 <= at,
        at + 4 <= s.len(),
    ensures
        0 <= get_le32(s, at) < 4294967296,
        s.subrange(at, at + 4) == low_four(get_le32(s, at)),
{
    let n = get_le32(s, at);
    let (a, b, c, d) = (s[at] as int, s[at + 1] as int, s[at + 2] as int, s[at + 3] as int);
    assert(n == a + 256 * (b + 256 * (c + 256 * d)));
    assert(n % 256 == a && n / 256 == b + 256 * (c + 256 * d));
    assert(n / 65536 == c + 256 * d && n / 16777216 == d);
    assert(s.subrange(at, at + 4) =~= low_four(n));
}

/// A number of two halves comes apart into them.
proof fn lemma_halves(a: int, b: int)
    requires
        0 <= a < 4294967296,
    ensures
        (a + b * 4294967296) % 4294967296 == a,
        (a + b * 4294967296) / 4294967296 == b,
{
}

/// The eight bytes that make up a number, least significant first, are its bytes.
pub proof fn lemma_low_eight(s: Seq<u8>, at: int)
    requires
        0 <= at,
        at + 8 <= s.len(),
    ensures
        0 <= get_le64(s, at) < 18446744073709551616,
        s.subrange(at, at + 8) == low_eight(get_le64(s, at)),
{
    let (a, b) = (get_le32(s, at), get_le32(s, at + 4));
    assert(0 <= a < 4294967296 && s.subrange(at, at + 4) == low_four(a)) by {
        lemma_low_four(s, at);
    }
    assert(0 <= b < 4294967296 && s.subrange(at + 4, at + 8) == low_four(b)) by {
        lemma_low_four(s, at + 4);
    }
    lemma_halves(a, b);
    assert(s.subrange(at, at + 8) =~= s.subrange(at, at + 4) + s.subrange(at + 4, at + 8));
    assert(low_eight(a + b * 4294967296) == low_four(a) + low_four(b));
}

} // verus!
