//! Byte-sequence building blocks: big- and little-endian integers, copies of
//! fixed-size fields, and comparisons.
use vstd::prelude::*;

verus! {

/// The two bytes of `n`, most significant first. Only the low 16 bits count.
#[verifier::opaque]
pub open spec fn be16(n: int) -> Seq<u8> {
    seq![((n / 256) % 256) as u8, (n % 256) as u8]
}

/// The four bytes of `n`, most significant first. Only the low 32 bits count.
#[verifier::opaque]
pub open spec fn be32(n: int) -> Seq<u8> {
    seq![
        ((n / 16777216) % 256) as u8,
        ((n / 65536) % 256) as u8,
        ((n / 256) % 256) as u8,
        (n % 256) as u8,
    ]
}

/// The eight bytes of `n`, most significant first. Only the low 64 bits count.
pub open spec fn be64(n: int) -> Seq<u8> {
    be32(n / 4294967296) + be32(n % 4294967296)
}

/// The four bytes of `n`, least significant first. Only the low 32 bits count.
#[verifier::opaque]
pub open spec fn le32(n: int) -> Seq<u8> {
    seq![
        (n % 256) as u8,
        ((n / 256) % 256) as u8,
        ((n / 65536) % 256) as u8,
        ((n / 16777216) % 256) as u8,
    ]
}

/// The eight bytes of `n`, least significant first. Only the low 64 bits count.
pub open spec fn le64(n: int) -> Seq<u8> {
    le32(n % 4294967296) + le32(n / 4294967296)
}

/// The encodings have fixed lengths.
pub broadcast proof fn lemma_be16_len(n: int)
    ensures
        #[trigger] be16(n).len() == 2,
{
    reveal(be16);
}

/// The encodings have fixed lengths.
pub broadcast proof fn lemma_be32_len(n: int)
    ensures
        #[trigger] be32(n).len() == 4,
{
    reveal(be32);
}

/// The encodings have fixed lengths.
pub broadcast proof fn lemma_le32_len(n: int)
    ensures
        #[trigger] le32(n).len() == 4,
{
    reveal(le32);
}

pub broadcast group group_lengths {
    lemma_be16_len,
    lemma_be32_len,
    lemma_le32_len,
}

/// The big-endian 16-bit number at `at`.
pub open spec fn get_be16(s: Seq<u8>, at: int) -> int {
    s[at] * 256 + s[at + 1]
}

/// The big-endian 32-bit number at `at`.
pub open spec fn get_be32(s: Seq<u8>, at: int) -> int {
    s[at] * 16777216 + s[at + 1] * 65536 + s[at + 2] * 256 + s[at + 3]
}

/// The little-endian 32-bit number at `at`.
pub open spec fn get_le32(s: Seq<u8>, at: int) -> int {
    s[at] + s[at + 1] * 256 + s[at + 2] * 65536 + s[at + 3] * 16777216
}

/// The little-endian 64-bit number at `at`.
pub open spec fn get_le64(s: Seq<u8>, at: int) -> int {
    get_le32(s, at) + get_le32(s, at + 4) * 4294967296
}

/// `n` zero bytes.
pub open spec fn zeros(n: nat) -> Seq<u8> {
    Seq::new(n, |i: int| 0u8)
}

/// Reading back a big-endian 16-bit field gives the number that was written.
pub proof fn law_be16_roundtrip(n: int)
    requires
        0 <= n < 65536,
    ensures
        get_be16(be16(n), 0) == n,
{
    reveal(be16);
}

/// Reading back a big-endian 32-bit field gives the number that was written.
pub proof fn law_be32_roundtrip(n: int)
    requires
        0 <= n < 4294967296,
    ensures
        get_be32(be32(n), 0) == n,
{
    reveal(be32);
}

/// Reading back a little-endian 32-bit field gives the number that was written.
pub proof fn law_le32_roundtrip(n: int)
    requires
        0 <= n < 4294967296,
    ensures
        get_le32(le32(n), 0) == n,
{
    reveal(le32);
}

/// Reading back a little-endian 64-bit field gives the number that was written.
pub proof fn law_le64_roundtrip(n: int)
    requires
        0 <= n < 18446744073709551616,
    ensures
        get_le64(le64(n), 0) == n,
{
    broadcast use group_lengths;

    let hi = n / 4294967296;
    let lo = n % 4294967296;
    law_le32_roundtrip(hi);
    law_le32_roundtrip(lo);
    let s = le32(lo) + le32(hi);
    assert(get_le32(s, 0) == get_le32(le32(lo), 0));
    assert(get_le32(s, 4) == get_le32(le32(hi), 0));
}

/// Only the low 16 bits of a number are encoded.
pub proof fn lemma_be16_low(n: int)
    requires
        0 <= n,
    ensures
        be16(n % 65536) == be16(n),
{
    reveal(be16);
    assert(be16(n % 65536) =~= be16(n));
}

/// The 16-bit number at `at` is the one that was encoded there.
pub proof fn lemma_get_be16(s: Seq<u8>, at: int, n: int)
    requires
        0 <= n < 65536,
        0 <= at,
        at + 2 <= s.len(),
        s.subrange(at, at + 2) == be16(n),
    ensures
        get_be16(s, at) == n,
{
    law_be16_roundtrip(n);
    assert(s[at] == s.subrange(at, at + 2)[0]);
    assert(s[at + 1] == s.subrange(at, at + 2)[1]);
}

/// The 32-bit number at `at` is the one that was encoded there.
pub proof fn lemma_get_be32(s: Seq<u8>, at: int, n: int)
    requires
        0 <= n < 4294967296,
        0 <= at,
        at + 4 <= s.len(),
        s.subrange(at, at + 4) == be32(n),
    ensures
        get_be32(s, at) == n,
{
    law_be32_roundtrip(n);
    let b = s.subrange(at, at + 4);
    assert(s[at] == b[0] && s[at + 1] == b[1] && s[at + 2] == b[2] && s[at + 3] == b[3]);
}

/// The little-endian 32-bit number at `at` is the one that was encoded there.
pub proof fn lemma_get_le32(s: Seq<u8>, at: int, n: int)
    requires
        0 <= n < 4294967296,
        0 <= at,
        at + 4 <= s.len(),
        s.subrange(at, at + 4) == le32(n),
    ensures
        get_le32(s, at) == n,
{
    law_le32_roundtrip(n);
    let b = s.subrange(at, at + 4);
    assert(s[at] == b[0] && s[at + 1] == b[1] && s[at + 2] == b[2] && s[at + 3] == b[3]);
}

/// Appends the bytes of `s`.
pub fn append(v: &mut Vec<u8>, s: &[u8])
    ensures
        final(v)@ == old(v)@ + s@,
{
    let mut i: usize = 0;
    while i < s.len()
        invariant
            i <= s@.len(),
            v@ == old(v)@ + s@.subrange(0, i as int),
        decreases s@.len() - i,
    {
        v.push(s[i]);
        proof {
            assert(s@.subrange(0, i + 1) =~= s@.subrange(0, i as int).push(s@[i as int]));
            assert(v@ =~= old(v)@ + s@.subrange(0, i + 1));
        }
        i = i + 1;
    }
    assert(s@.subrange(0, i as int) =~= s@);
}

/// Appends `n` zero bytes.
pub fn append_zeros(v: &mut Vec<u8>, n: usize)
    ensures
        final(v)@ == old(v)@ + zeros(n as nat),
{
    let mut i: usize = 0;
    assert(v@ =~= old(v)@ + zeros(0));
    while i < n
        invariant
            i <= n,
            v@ == old(v)@ + zeros(i as nat),
        decreases n - i,
    {
        v.push(0);
        assert(v@ =~= old(v)@ + zeros((i + 1) as nat));
        i = i + 1;
    }
}

/// A vector that holds the bytes of `s` from `from` up to `to`.
pub fn copy_range(s: &[u8], from: usize, to: usize) -> (r: Vec<u8>)
    requires
        from <= to <= s@.len(),
    ensures
        r@ == s@.subrange(from as int, to as int),
{
    let mut v: Vec<u8> = Vec::new();
    let mut i: usize = from;
    while i < to
        invariant
            from <= i <= to <= s@.len(),
            v@ == s@.subrange(from as int, i as int),
        decreases to - i,
    {
        v.push(s[i]);
        assert(v@ =~= s@.subrange(from as int, i + 1));
        i = i + 1;
    }
    v
}

/// A vector that holds the bytes of `s`.
pub fn copy(s: &[u8]) -> (r: Vec<u8>)
    ensures
        r@ == s@,
{
    let r = copy_range(s, 0, s.len());
    assert(r@ =~= s@);
    r
}

/// Appends a 16-bit number, most significant byte first.
pub fn push_be16(v: &mut Vec<u8>, n: u16)
    ensures
        final(v)@ == old(v)@ + be16(n as int),
{
    v.push((n / 256) as u8);
    v.push((n % 256) as u8);
    proof {
        reveal(be16);
        assert(v@ =~= old(v)@ + be16(n as int));
    }
}

/// Appends a 32-bit number, most significant byte first.
pub fn push_be32(v: &mut Vec<u8>, n: u32)
    ensures
        final(v)@ == old(v)@ + be32(n as int),
{
    v.push((n / 16777216) as u8);
    v.push(((n / 65536) % 256) as u8);
    v.push(((n / 256) % 256) as u8);
    v.push((n % 256) as u8);
    proof {
        reveal(be32);
        assert(v@ =~= old(v)@ + be32(n as int));
    }
}

/// Appends a 64-bit number, most significant byte first.
pub fn push_be64(v: &mut Vec<u8>, n: u64)
    ensures
        final(v)@ == old(v)@ + be64(n as int),
{
    push_be32(v, (n / 4294967296) as u32);
    push_be32(v, (n % 4294967296) as u32);
    proof {
        broadcast use group_lengths;

        assert(v@ =~= old(v)@ + be64(n as int));
    }
}

/// Appends a 32-bit number, least significant byte first.
pub fn push_le32(v: &mut Vec<u8>, n: u32)
    ensures
        final(v)@ == old(v)@ + le32(n as int),
{
    v.push((n % 256) as u8);
    v.push(((n / 256) % 256) as u8);
    v.push(((n / 65536) % 256) as u8);
    v.push((n / 16777216) as u8);
    proof {
        reveal(le32);
        assert(v@ =~= old(v)@ + le32(n as int));
    }
}

/// Appends a 64-bit number, least significant byte first.
pub fn push_le64(v: &mut Vec<u8>, n: u64)
    ensures
        final(v)@ == old(v)@ + le64(n as int),
{
    push_le32(v, (n % 4294967296) as u32);
    push_le32(v, (n / 4294967296) as u32);
    proof {
        broadcast use group_lengths;

        assert(v@ =~= old(v)@ + le64(n as int));
    }
}

/// Reads the big-endian 16-bit number at `at`.
pub fn read_be16(s: &[u8], at: usize) -> (r: u16)
    requires
        at + 2 <= s@.len(),
    ensures
        r == get_be16(s@, at as int),
{
    s[at] as u16 * 256 + s[at + 1] as u16
}

/// Reads the big-endian 32-bit number at `at`.
pub fn read_be32(s: &[u8], at: usize) -> (r: u32)
    requires
        at + 4 <= s@.len(),
    ensures
        r == get_be32(s@, at as int),
{
    s[at] as u32 * 16777216 + s[at + 1] as u32 * 65536 + s[at + 2] as u32 * 256 + s[at + 3] as u32
}

/// Reads the little-endian 32-bit number at `at`.
pub fn read_le32(s: &[u8], at: usize) -> (r: u32)
    requires
        at + 4 <= s@.len(),
    ensures
        r == get_le32(s@, at as int),
{
    s[at] as u32 + s[at + 1] as u32 * 256 + s[at + 2] as u32 * 65536 + s[at + 3] as u32 * 16777216
}

/// Reads the little-endian 64-bit number at `at`.
pub fn read_le64(s: &[u8], at: usize) -> (r: u64)
    requires
        at + 8 <= s@.len(),
    ensures
        r == get_le64(s@, at as int),
{
    let _n: usize = s.len();
    let lo: u32 = read_le32(s, at);
    let hi: u32 = read_le32(s, at + 4);
    lo as u64 + hi as u64 * 4294967296
}

/// The `N` bytes of `s` at `at`.
pub fn array_at<const N: usize>(s: &[u8], at: usize, zero: [u8; N]) -> (r: [u8; N])
    requires
        at + N <= s@.len(),
    ensures
        r@ == s@.subrange(at as int, at + N),
{
    let mut r: [u8; N] = zero;
    let n: usize = s.len();
    let mut i: usize = 0;
    while i < N
        invariant
            i <= N,
            at + N <= n,
            n == s@.len(),
            forall|k: int| 0 <= k < i ==> r@[k] == s@[at + k],
        decreases N - i,
    {
        r[i] = s[at + i];
        i = i + 1;
    }
    assert(r@ =~= s@.subrange(at as int, at + N));
    r
}

/// The 32 bytes of `s` at `at`.
pub fn array32(s: &[u8], at: usize) -> (r: [u8; 32])
    requires
        at + 32 <= s@.len(),
    ensures
        r@ == s@.subrange(at as int, at + 32),
{
    array_at(s, at, [0u8; 32])
}

/// A TCP sequence number `n` further on, modulo 2^32.
pub open spec fn seq_add(a: u32, n: int) -> u32 {
    ((a + n) % 4294967296) as u32
}

/// Advancing twice is advancing by the sum.
pub proof fn lemma_seq_add_twice(a: u32, m: int, n: int)
    requires
        0 <= m,
        0 <= n,
    ensures
        seq_add(seq_add(a, m), n) == seq_add(a, m + n),
{
}

/// Advances a TCP sequence number by `n`, modulo 2^32.
pub fn seq_advance(a: u32, n: usize) -> (r: u32)
    ensures
        r == seq_add(a, n as int),
{
    ((a as u64 + n as u64 % 4294967296) % 4294967296) as u32
}

/// The contents of a list of packets.
pub open spec fn packets(v: Seq<Vec<u8>>) -> Seq<Seq<u8>> {
    v.map_values(|p: Vec<u8>| p@)
}

/// Whether `s` begins with `prefix`.
pub open spec fn starts(s: Seq<u8>, prefix: Seq<u8>) -> bool {
    prefix.len() <= s.len() && s.subrange(0, prefix.len() as int) == prefix
}

/// Whether two byte strings are the same.
pub fn bytes_eq(a: &[u8], b: &[u8]) -> (r: bool)
    ensures
        r == (a@ == b@),
{
    if a.len() != b.len() {
        return false;
    }
    let mut i: usize = 0;
    while i < a.len()
        invariant
            i <= a@.len(),
            a@.len() == b@.len(),
            forall|k: int| 0 <= k < i ==> a@[k] == b@[k],
        decreases a@.len() - i,
    {
        if a[i] != b[i] {
            return false;
        }
        i = i + 1;
    }
    assert(a@ =~= b@);
    true
}

/// Whether `s` begins with `prefix`.
pub fn starts_with(s: &[u8], prefix: &[u8]) -> (r: bool)
    ensures
        r == starts(s@, prefix@),
{
    if prefix.len() > s.len() {
        return false;
    }
    let mut i: usize = 0;
    while i < prefix.len()
        invariant
            i <= prefix@.len() <= s@.len(),
            forall|k: int| 0 <= k < i ==> s@[k] == prefix@[k],
        decreases prefix@.len() - i,
    {
        if s[i] != prefix[i] {
            assert(s@.subrange(0, prefix@.len() as int)[i as int] != prefix@[i as int]);
            return false;
        }
        i = i + 1;
    }
    assert(s@.subrange(0, prefix@.len() as int) =~= prefix@);
    true
}

/// Whether two 32-byte keys are the same.
pub fn key_eq(a: &[u8; 32], b: &[u8; 32]) -> (r: bool)
    ensures
        r == (a@ == b@),
{
    bytes_eq(a.as_slice(), b.as_slice())
}

} // verus!
