//! The mDNS reflector's decisions. Two reflectors, one per LAN, bridge the multicast
//! domain: each captures local mDNS, sends it to its partner over the tunnel, and
//! multicasts again what the partner sends.
//!
//! What was injected is never forwarded again: its hash is remembered first. A
//! payload whose hash was seen within the window is an echo and is dropped.
use vstd::prelude::*;
use crate::net::{Ipv4Addr, SocketAddr};

verus! {

pub const MDNS_PORT: u16 = 5353;

/// The inner UDP port that carries forwarded mDNS between reflectors.
pub const FWD_PORT: u16 = 5354;

/// How many hashes are remembered.
pub const DEDUP_MAX: usize = 64;

pub const FNV_OFFSET: u64 = 0xcbf29ce484222325;

pub const FNV_PRIME: u64 = 0x100000001b3;

/// The mDNS multicast group.
pub fn group() -> (r: Ipv4Addr)
    ensures
        r == (Ipv4Addr { a: 224, b: 0, c: 0, d: 251 }),
{
    Ipv4Addr::new(224, 0, 0, 251)
}

/// The 64-bit FNV-1a hash.
pub open spec fn fnv(data: Seq<u8>) -> u64
    decreases data.len(),
{
    if data.len() == 0 {
        FNV_OFFSET
    } else {
        (((fnv(data.drop_last()) ^ (data.last() as u64)) * FNV_PRIME) % 18446744073709551616) as u64
    }
}

/// The 64-bit FNV-1a hash, by which payloads are told apart.
pub fn hash(data: &[u8]) -> (r: u64)
    ensures
        r == fnv(data@),
{
    let mut h: u64 = FNV_OFFSET;
    let mut i: usize = 0;
    assert(data@.subrange(0, 0) =~= Seq::empty());
    while i < data.len()
        invariant
            i <= data@.len(),
            h == fnv(data@.subrange(0, i as int)),
        decreases data@.len() - i,
    {
        assert(data@.subrange(0, i + 1).drop_last() =~= data@.subrange(0, i as int));
        let x: u64 = h ^ (data[i] as u64);
        h = x.wrapping_mul(FNV_PRIME);
        i = i + 1;
    }
    assert(data@.subrange(0, i as int) =~= data@);
    h
}

/// The window after one more hash: the oldest one leaves when it is full.
pub open spec fn remembered(seen: Seq<u64>, h: u64) -> Seq<u64> {
    if seen.len() >= DEDUP_MAX {
        seen.subrange(1, seen.len() as int).push(h)
    } else {
        seen.push(h)
    }
}

/// Remembers a hash.
pub fn remember(seen: &mut Vec<u64>, h: u64)
    ensures
        final(seen)@ == remembered(old(seen)@, h),
{
    if seen.len() >= DEDUP_MAX {
        let _ = seen.remove(0);
        assert(seen@ =~= old(seen)@.subrange(1, old(seen)@.len() as int));
    }
    seen.push(h);
}

/// Whether a hash is remembered.
pub fn contains(seen: &Vec<u64>, h: u64) -> (r: bool)
    ensures
        r == seen@.contains(h),
{
    let mut i: usize = 0;
    while i < seen.len()
        invariant
            i <= seen@.len(),
            forall|k: int| 0 <= k < i ==> seen@[k] != h,
        decreases seen@.len() - i,
    {
        if seen[i] == h {
            assert(seen@[i as int] == h);
            return true;
        }
        i = i + 1;
    }
    false
}

/// The reflector's window of recent hashes.
pub struct Reflector {
    pub seen: Vec<u64>,
}

/// Whether a captured payload goes to the partner: it did not come from this node
/// itself, and its hash is not in the window.
pub open spec fn forwards(seen: Seq<u64>, lan_ip: Ipv4Addr, from: SocketAddr, payload: Seq<u8>) -> bool {
    !(from matches SocketAddr::V4(a) && a.ip == lan_ip) && !seen.contains(fnv(payload))
}

impl Reflector {
    /// The window never holds more than its size.
    pub open spec fn wf(self) -> bool {
        self.seen@.len() <= DEDUP_MAX
    }

    /// A reflector that has seen nothing.
    pub fn new() -> (r: Self)
        ensures
            r.seen@ == Seq::<u64>::empty(),
            r.wf(),
    {
        Reflector { seen: Vec::new() }
    }

    /// Notes a payload from the partner that is about to be multicast here.
    pub fn injected(&mut self, payload: &[u8])
        ensures
            final(self).seen@ == remembered(old(self).seen@, fnv(payload@)),
            old(self).wf() ==> final(self).wf(),
    {
        let h: u64 = hash(payload);
        remember(&mut self.seen, h);
    }

    /// Decides on a payload captured on the LAN: whether it goes to the partner. If it
    /// does it is remembered.
    pub fn captured(&mut self, lan_ip: Ipv4Addr, from: SocketAddr, payload: &[u8]) -> (r: bool)
        ensures
            r == forwards(old(self).seen@, lan_ip, from, payload@),
            final(self).seen@ == if r {
                remembered(old(self).seen@, fnv(payload@))
            } else {
                old(self).seen@
            },
            old(self).wf() ==> final(self).wf(),
    {
        if let SocketAddr::V4(a) = from {
            if a.ip == lan_ip {
                return false;
            }
        }
        let h: u64 = hash(payload);
        if contains(&self.seen, h) {
            return false;
        }
        remember(&mut self.seen, h);
        true
    }
}

/// The window after a run of hashes.
pub open spec fn remembered_all(seen: Seq<u64>, hs: Seq<u64>) -> Seq<u64>
    decreases hs.len(),
{
    if hs.len() == 0 {
        seen
    } else {
        remembered(remembered_all(seen, hs.drop_last()), hs.last())
    }
}

/// No loop: a payload that was injected, or forwarded, is not forwarded while fewer
/// than `DEDUP_MAX` others were remembered since.
pub proof fn law_no_echo(
    seen: Seq<u64>,
    payload: Seq<u8>,
    since: Seq<u64>,
    lan_ip: Ipv4Addr,
    from: SocketAddr,
)
    requires
        seen.len() <= DEDUP_MAX,
        since.len() < DEDUP_MAX,
    ensures
        !forwards(
            remembered_all(remembered(seen, fnv(payload)), since),
            lan_ip,
            from,
            payload,
        ),
{
    lemma_window(remembered(seen, fnv(payload)), since, fnv(payload));
}

/// A hash that was remembered last stays in the window while fewer than `DEDUP_MAX`
/// others follow, at least that many places from its end.
proof fn lemma_window(seen: Seq<u64>, since: Seq<u64>, h: u64)
    requires
        0 < seen.len() <= DEDUP_MAX,
        seen.last() == h,
        since.len() < DEDUP_MAX,
    ensures
        ({
            let w = remembered_all(seen, since);
            &&& since.len() < w.len() <= DEDUP_MAX
            &&& w[w.len() - 1 - since.len()] == h
            &&& w.contains(h)
        }),
    decreases since.len(),
{
    if since.len() > 0 {
        lemma_window(seen, since.drop_last(), h);
    }
    let w = remembered_all(seen, since);
    assert(w[w.len() - 1 - since.len()] == h);
}

} // verus!
