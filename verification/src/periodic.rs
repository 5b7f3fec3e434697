//! The data plane's housekeeping: targets that come in at run time, handshake
//! retries, disco probes and port spraying, keepalives, the node's own traffic, and
//! the refresh of the public NAT mapping.
use vstd::prelude::*;
use vstd::utf8::encode_utf8;
use crate::bytes::{append, be16, copy, get_le32, key_eq, lemma_be16_low, push_be16, read_le32};
use crate::dataplane::{
    actions, first_where, has_tunnel, lemma_first_where_is, nothing, send_inner, send_inner_of,
    tunnel_at, tunnel_exists, tunnel_to, find_index, find_node, addr_in, Action, ActionState,
    Arrival, EntryState, NodeState, OutboundRun, OutboundState, PendingState, State, Bench,
    MAX_HS_RETRIES, MAX_STRIKES, PENDING_TIMEOUT_MS,
};
use crate::disco::{has_magic, magic, ping_of, ping_plaintext, seal_with, wire_of};
use crate::icmp::{checksum, inet_checksum};
use crate::mdns::FWD_PORT;
use crate::net::{push_ipv4, v4, Ipv4Addr, SocketAddr};
use crate::node::{
    target_states, Identity, IdentityState, MdnsLink, OutboundCfg, Target, TargetState,
};
use crate::outbound::{
    icmp_echo_request, ping_packet_of, udp_datagram, udp_packet_of, ClientState, TcpClient,
};
use crate::rng::{random12, random24, random_bytes, NoEntropy};
use crate::stun::{binding_request_with, looks_like_stun, request_bytes};
use crate::text::{dotted, push_dotted, push_text};
use crate::wg::{transport_open, MSG_TRANSPORT};

verus! {

broadcast use crate::bytes::group_lengths;

/// Milliseconds between probe rounds.
pub const PROBE_MS: u64 = 2000;

/// Milliseconds between refreshes of the NAT mapping.
pub const STUN_MS: u64 = 15000;

/// Contiguous ports that one round of a spray covers.
pub const SWEEP_WIN: i64 = 1024;

/// Random ports that one round of a spray adds.
pub const RANDOM_TAIL: usize = 256;

/// The UDP port that throughput reports go to.
pub const REPORT_PORT: u16 = 5202;

// --- targets ---

/// The endpoints of `a`, and those of `b` that are not among them yet.
pub open spec fn union(a: Seq<SocketAddr>, b: Seq<SocketAddr>) -> Seq<SocketAddr>
    decreases b.len(),
{
    if b.len() == 0 {
        a
    } else {
        let u = union(a, b.drop_last());
        if u.contains(b.last()) {
            u
        } else {
            u.push(b.last())
        }
    }
}

/// The place of the target with this node key.
pub open spec fn target_at(ts: Seq<TargetState>, node_pub: Seq<u8>) -> int {
    first_where(ts, |e: TargetState| e.node_pub == node_pub)
}

/// The targets after `t` came in: new endpoints of a known peer are added to it, an
/// unknown peer is added.
pub open spec fn merged(ts: Seq<TargetState>, t: TargetState) -> Seq<TargetState> {
    let k = target_at(ts, t.node_pub);
    if k < ts.len() {
        ts.update(
            k,
            TargetState {
                endpoints: union(ts[k].endpoints, t.endpoints),
                spray: ts[k].spray || t.spray,
                ..ts[k]
            },
        )
    } else {
        ts.push(t)
    }
}

/// Takes in a target that came at run time. The result is how many endpoints are new
/// for a known peer; `None` for a new peer.
pub fn merge_target(targets: &mut Vec<Target>, t: Target) -> (r: Option<usize>)
    ensures
        target_states(final(targets)@) == merged(target_states(old(targets)@), t@),
        ({
            let ts = target_states(old(targets)@);
            let k = target_at(ts, t.node_pub@);
            match r {
                Some(added) => k < ts.len() && ts[k].endpoints.len() + added == union(
                    ts[k].endpoints,
                    t.endpoints@,
                ).len(),
                None => k >= ts.len(),
            }
        }),
{
    let ghost ts = target_states(targets@);
    let mut k: usize = 0;
    while k < targets.len() && !key_eq(&targets[k].node_pub, &t.node_pub)
        invariant
            k <= targets@.len(),
            ts == target_states(targets@),
            targets@ == old(targets)@,
            forall|j: int| 0 <= j < k ==> ts[j].node_pub != t.node_pub@,
        decreases targets@.len() - k,
    {
        assert(ts[k as int].node_pub == targets@[k as int].node_pub@);
        k = k + 1;
    }
    proof {
        if k < targets@.len() {
            assert(ts[k as int].node_pub == targets@[k as int].node_pub@);
        }
        lemma_first_where_is(ts, |e: TargetState| e.node_pub == t.node_pub@, k as int);
    }
    if k == targets.len() {
        targets.push(t);
        assert(target_states(targets@) =~= merged(ts, t@));
        return None;
    }
    let ghost eps0 = targets@[k as int].endpoints@;
    let mut added: usize = 0;
    let mut i: usize = 0;
    assert(t.endpoints@.subrange(0, 0) =~= Seq::empty());
    while i < t.endpoints.len()
        invariant
            i <= t.endpoints@.len(),
            added <= i,
            k < targets@.len(),
            targets@.len() == old(targets)@.len(),
            eps0 == old(targets)@[k as int].endpoints@,
            targets@[k as int].endpoints@ == union(eps0, t.endpoints@.subrange(0, i as int)),
            targets@[k as int].endpoints@.len() == eps0.len() + added,
            targets@[k as int].name == old(targets)@[k as int].name,
            targets@[k as int].disco_pub == old(targets)@[k as int].disco_pub,
            targets@[k as int].node_pub == old(targets)@[k as int].node_pub,
            targets@[k as int].spray == old(targets)@[k as int].spray,
            forall|j: int|
                0 <= j < targets@.len() && j != k ==> targets@[j] == old(targets)@[j],
        decreases t.endpoints@.len() - i,
    {
        let ep: SocketAddr = t.endpoints[i];
        assert(t.endpoints@.subrange(0, i + 1).drop_last() =~= t.endpoints@.subrange(0, i as int));
        assert(t.endpoints@.subrange(0, i + 1).last() == ep);
        if !addr_in(&targets[k].endpoints, ep) {
            targets[k].endpoints.push(ep);
            added = added + 1;
        }
        i = i + 1;
    }
    assert(t.endpoints@.subrange(0, i as int) =~= t.endpoints@);
    if t.spray {
        targets[k].spray = true;
    }
    proof {
        assert(ts[k as int] == old(targets)@[k as int]@);
        assert(target_states(targets@) =~= merged(ts, t@));
    }
    Some(added)
}

/// No endpoint is lost or added twice when a target comes in again.
pub proof fn law_union(a: Seq<SocketAddr>, b: Seq<SocketAddr>)
    ensures
        forall|x: SocketAddr|
            #[trigger] union(a, b).contains(x) <==> a.contains(x) || b.contains(x),
        a.no_duplicates() ==> union(a, b).no_duplicates(),
    decreases b.len(),
{
    if b.len() > 0 {
        let c = b.drop_last();
        let u = union(a, c);
        law_union(a, c);
        assert forall|x: SocketAddr| #[trigger] union(a, b).contains(x) <==> a.contains(x)
            || b.contains(x) by {
            if union(a, b).contains(x) {
                if u.contains(x) {
                    if c.contains(x) {
                        let k = choose|k: int| 0 <= k < c.len() && c[k] == x;
                        assert(b[k] == x);
                    }
                } else {
                    assert(x == b.last());
                    assert(b[b.len() - 1] == x);
                }
            }
            if a.contains(x) || b.contains(x) {
                if u.contains(x) {
                    let k = choose|k: int| 0 <= k < u.len() && u[k] == x;
                    assert(union(a, b)[k] == x);
                } else {
                    let k = choose|k: int| 0 <= k < b.len() && b[k] == x;
                    if k < c.len() {
                        assert(c[k] == x);
                    }
                    assert(x == b.last());
                    assert(union(a, b).last() == x);
                }
            }
        }
    }
}

// --- handshake retries ---

/// Whether a handshake that was sent at `sent_ms` is overdue at `now_ms`. It is not where
/// the clock stands before the time of sending.
pub open spec fn overdue(sent_ms: u64, now_ms: u64) -> bool {
    now_ms - sent_ms > PENDING_TIMEOUT_MS
}

/// What becomes of one pending handshake: it is dropped once a tunnel to its address
/// exists or its retries are used up; overdue, it is sent again.
pub open spec fn retry_of(p: PendingState, tunnels: Seq<EntryState>, now_ms: u64) -> (
    Option<PendingState>,
    Seq<ActionState>,
) {
    if has_tunnel(tunnels, p.addr) {
        (None, nothing())
    } else if overdue(p.sent_ms, now_ms) {
        if p.retries >= MAX_HS_RETRIES {
            (None, nothing())
        } else {
            (
                Some(PendingState { sent_ms: now_ms, retries: (p.retries + 1) as u32, ..p }),
                seq![ActionState::Send { pkt: p.init, dst: p.addr }],
            )
        }
    } else {
        (Some(p), nothing())
    }
}

/// What becomes of the pending handshakes.
pub open spec fn retried(ps: Seq<PendingState>, tunnels: Seq<EntryState>, now_ms: u64) -> (
    Seq<PendingState>,
    Seq<ActionState>,
)
    decreases ps.len(),
{
    if ps.len() == 0 {
        (Seq::empty(), nothing())
    } else {
        let (rest, a) = retried(ps.drop_last(), tunnels, now_ms);
        let (q, b) = retry_of(ps.last(), tunnels, now_ms);
        (
            match q {
                Some(p) => rest.push(p),
                None => rest,
            },
            a + b,
        )
    }
}

impl State {
    /// Retries overdue handshakes and drops those that are done or given up.
    pub fn retry_handshakes(&mut self, now_ms: u64) -> (r: Vec<Action>)
        ensures
            final(self)@ == (NodeState {
                pending: retried(old(self)@.pending, old(self)@.tunnels, now_ms).0,
                ..old(self)@
            }),
            actions(r@) == retried(old(self)@.pending, old(self)@.tunnels, now_ms).1,
    {
        let ghost orig = self@.pending;
        let ghost tunnels = self@.tunnels;
        let ghost n = orig.len() as int;
        let ghost mut j: int = 0;
        let mut i: usize = 0;
        let mut out: Vec<Action> = Vec::new();
        assert(actions(out@) =~= nothing());
        assert(orig.subrange(0, 0) =~= Seq::empty());
        assert(self@.pending =~= Seq::<PendingState>::empty() + orig.subrange(0, n));
        while i < self.pending.len()
            invariant
                0 <= j <= n,
                n == orig.len(),
                i <= self.pending@.len(),
                orig == old(self)@.pending,
                tunnels == old(self)@.tunnels,
                i == retried(orig.subrange(0, j), tunnels, now_ms).0.len(),
                self@.pending == retried(orig.subrange(0, j), tunnels, now_ms).0 + orig.subrange(
                    j,
                    n,
                ),
                self@ == (NodeState { pending: self@.pending, ..old(self)@ }),
                actions(out@) == retried(orig.subrange(0, j), tunnels, now_ms).1,
            decreases self.pending@.len() - i,
        {
            let ghost was = self@.pending;
            let ghost acts = actions(out@);
            let ghost left = retried(orig.subrange(0, j), tunnels, now_ms).0;
            let ghost p = orig[j];
            proof {
                assert(was.len() == self.pending@.len());
                assert(was[i as int] == p);
                assert(self.pending@[i as int]@ == p);
                assert(orig.subrange(0, j + 1).drop_last() =~= orig.subrange(0, j));
                assert(orig.subrange(0, j + 1).last() == p);
                assert(retried(orig.subrange(0, j + 1), tunnels, now_ms).1 =~= acts + retry_of(
                    p,
                    tunnels,
                    now_ms,
                ).1);
            }
            let addr: SocketAddr = self.pending[i].addr;
            let then: u64 = self.pending[i].sent_ms;
            let late: bool = now_ms >= then && now_ms - then > PENDING_TIMEOUT_MS;
            let have: bool = tunnel_exists(&self.tunnels, addr);
            if have || (late && self.pending[i].retries
                >= MAX_HS_RETRIES) {
                let _ = self.pending.remove(i);
                assert(self@.pending =~= was.remove(i as int));
                assert(self@.pending =~= left + orig.subrange(j + 1, n));
                assert(acts + nothing() =~= acts);
            } else if late {
                let pkt = copy(self.pending[i].init.as_slice());
                out.push(Action::Send { pkt, dst: addr });
                let again: u32 = self.pending[i].retries + 1;
                self.pending[i].sent_ms = now_ms;
                self.pending[i].retries = again;
                proof {
                    let q = retry_of(p, tunnels, now_ms).0->0;
                    assert(self@.pending =~= was.update(i as int, q));
                    assert(self@.pending =~= left.push(q) + orig.subrange(j + 1, n));
                    assert(actions(out@) =~= acts + retry_of(p, tunnels, now_ms).1);
                }
                i = i + 1;
            } else {
                assert(was =~= left.push(p) + orig.subrange(j + 1, n));
                assert(acts + nothing() =~= acts);
                i = i + 1;
            }
            proof {
                j = j + 1;
            }
        }
        proof {
            assert(j == n) by {
                assert(self@.pending.len() == self.pending@.len());
            }
            assert(orig.subrange(0, n) =~= orig);
            assert(self@.pending =~= retried(orig, tunnels, now_ms).0);
        }
        out
    }
}

/// A handshake is sent again at most `MAX_HS_RETRIES` times: no retry raises the
/// count beyond that.
pub proof fn law_retries_bounded(p: PendingState, tunnels: Seq<EntryState>, now_ms: u64)
    requires
        p.retries <= MAX_HS_RETRIES,
    ensures
        retry_of(p, tunnels, now_ms).0 matches Some(q) ==> q.retries <= MAX_HS_RETRIES && q.node
            == p.node && q.init == p.init,
        retry_of(p, tunnels, now_ms).1.len() > 0 ==> retry_of(p, tunnels, now_ms).0 is Some && retry_of(
            p,
            tunnels,
            now_ms,
        ).0->0.retries == p.retries + 1,
{
}

/// While no handshake in flight is overdue by the clock or has its tunnel, none is sent
/// again, dropped or counted as retried, however often that is looked at.
pub proof fn law_retries_wait(ps: Seq<PendingState>, tunnels: Seq<EntryState>, now_ms: u64)
    requires
        forall|i: int|
            0 <= i < ps.len() ==> now_ms <= (#[trigger] ps[i]).sent_ms + PENDING_TIMEOUT_MS
                && !has_tunnel(tunnels, ps[i].addr),
    ensures
        retried(ps, tunnels, now_ms) == (ps, nothing()),
    decreases ps.len(),
{
    if ps.len() > 0 {
        let r = ps.drop_last();
        assert forall|i: int| 0 <= i < r.len() implies now_ms <= (#[trigger] r[i]).sent_ms
            + PENDING_TIMEOUT_MS && !has_tunnel(tunnels, r[i].addr) by {
            assert(r[i] == ps[i]);
        }
        law_retries_wait(r, tunnels, now_ms);
        assert(ps.last() == ps[ps.len() - 1]);
        assert(r.push(ps.last()) =~= ps);
        assert(nothing() + nothing() =~= nothing());
    } else {
        assert(ps =~= Seq::empty());
    }
}

// --- probes ---

/// Send errors in a row, per endpoint.
pub struct Strikes {
    pub list: Vec<(SocketAddr, u8)>,
}

/// Whether an entry is that of `ep`.
pub open spec fn at_ep(ep: SocketAddr) -> spec_fn((SocketAddr, u8)) -> bool {
    |e: (SocketAddr, u8)| e.0 == ep
}

/// The send errors in a row at `ep`.
pub open spec fn strikes_at(s: Seq<(SocketAddr, u8)>, ep: SocketAddr) -> u8 {
    let k = first_where(s, at_ep(ep));
    if k < s.len() {
        s[k].1
    } else {
        0
    }
}

impl Strikes {
    /// No errors anywhere.
    pub fn new() -> (r: Self)
        ensures
            forall|ep: SocketAddr| #[trigger] strikes_at(r.list@, ep) == 0,
    {
        Strikes { list: Vec::new() }
    }

    /// Finds the endpoint's entry.
    fn find(&self, ep: SocketAddr) -> (r: usize)
        ensures
            r == first_where(self.list@, at_ep(ep)),
            r <= self.list@.len(),
            r < self.list@.len() ==> self.list@[r as int].0 == ep,
            forall|k: int| 0 <= k < r ==> self.list@[k].0 != ep,
    {
        let mut k: usize = 0;
        while k < self.list.len() && self.list[k].0 != ep
            invariant
                k <= self.list@.len(),
                forall|j: int| 0 <= j < k ==> self.list@[j].0 != ep,
            decreases self.list@.len() - k,
        {
            k = k + 1;
        }
        proof {
            lemma_first_where_is(self.list@, at_ep(ep), k as int);
        }
        k
    }

    /// Whether the endpoint is still probed.
    pub fn admits(&self, ep: SocketAddr) -> (r: bool)
        ensures
            r == (strikes_at(self.list@, ep) < MAX_STRIKES),
    {
        let k: usize = self.find(ep);
        if k < self.list.len() {
            self.list[k].1 < MAX_STRIKES
        } else {
            true
        }
    }

    /// Records whether a send to an endpoint that is still probed succeeded. The result
    /// says whether the endpoint is given up with this.
    pub fn record(&mut self, ep: SocketAddr, ok: bool) -> (r: bool)
        requires
            strikes_at(old(self).list@, ep) < MAX_STRIKES,
        ensures
            strikes_at(final(self).list@, ep) == if ok {
                0
            } else {
                (strikes_at(old(self).list@, ep) + 1) as u8
            },
            forall|o: SocketAddr|
                o != ep ==> #[trigger] strikes_at(final(self).list@, o) == strikes_at(
                    old(self).list@,
                    o,
                ),
            r == (strikes_at(final(self).list@, ep) == MAX_STRIKES),
    {
        let k: usize = self.find(ep);
        let n: u8 = if k < self.list.len() {
            self.list[k].1
        } else {
            0
        };
        let m: u8 = if ok {
            0
        } else {
            n + 1
        };
        let ghost was = self.list@;
        if k < self.list.len() {
            self.list[k] = (ep, m);
        } else {
            self.list.push((ep, m));
        }
        proof {
            let now = self.list@;
            lemma_first_where_is(now, at_ep(ep), k as int);
            assert forall|o: SocketAddr| o != ep implies #[trigger] strikes_at(now, o)
                == strikes_at(was, o) by {
                let p = at_ep(o);
                let j = first_where(was, p);
                crate::dataplane::lemma_first_where(was, p);
                if j < was.len() {
                    lemma_first_where_is(now, p, j);
                } else {
                    lemma_first_where_is(now, p, now.len() as int);
                }
            }
        }
        m == MAX_STRIKES
    }
}

/// An address that can be reached from anywhere: not private, not carrier-grade NAT,
/// not link-local, not loopback, not "this network".
pub open spec fn is_public(ip: Ipv4Addr) -> bool {
    !(ip.a == 10 || (ip.a == 172 && 16 <= ip.b <= 31) || (ip.a == 192 && ip.b == 168) || (ip.a
        == 169 && ip.b == 254) || ip.a == 127 || (ip.a == 100 && 64 <= ip.b <= 127) || ip.a == 0)
}

/// Whether the address can be reached from anywhere.
pub fn is_public_v4(ip: &Ipv4Addr) -> (r: bool)
    ensures
        r == is_public(*ip),
{
    !(ip.a == 10 || (ip.a == 172 && ip.b >= 16 && ip.b <= 31) || (ip.a == 192 && ip.b == 168) || (
    ip.a == 169 && ip.b == 254) || ip.a == 127 || (ip.a == 100 && ip.b >= 64 && ip.b <= 127) || ip.a
        == 0)
}

/// The middle of the sweep in this round: the base port, then one window up, one down,
/// two up, two down, and so on, two ticks to a round.
pub open spec fn sweep_center(base: u16, tick: u32) -> int {
    let round = tick as int / 2;
    let step = (round + 1) / 2;
    if round % 2 == 0 {
        base + step * 1024
    } else {
        base - step * 1024
    }
}

/// The first port of the sweep.
pub open spec fn sweep_low(base: u16, tick: u32) -> int {
    let lo = sweep_center(base, tick) - 512;
    if lo < 1024 {
        1024
    } else {
        lo
    }
}

/// The port after the last one of the sweep.
pub open spec fn sweep_high(base: u16, tick: u32) -> int {
    let hi = sweep_center(base, tick) + 512;
    if hi > 65536 {
        65536
    } else {
        hi
    }
}

/// The unprivileged ports in the window around the middle.
pub open spec fn sweep(base: u16, tick: u32) -> Seq<u16> {
    let lo = sweep_low(base, tick);
    let hi = sweep_high(base, tick);
    if lo < hi {
        Seq::new((hi - lo) as nat, |i: int| (lo + i) as u16)
    } else {
        Seq::empty()
    }
}

/// The unprivileged ports among the first `n` little-endian 16-bit numbers of `tail`.
pub open spec fn tail_ports(tail: Seq<u8>, n: nat) -> Seq<u16>
    decreases n,
{
    if n == 0 {
        Seq::empty()
    } else {
        let rest = tail_ports(tail, (n - 1) as nat);
        let p = tail[2 * (n - 1)] + tail[2 * (n - 1) + 1] * 256;
        if p >= 1024 {
            rest.push(p as u16)
        } else {
            rest
        }
    }
}

/// Candidate ports for a spray: a window that walks outward from the base port from
/// round to round, since most symmetric NATs allocate ports in sequence, and a tail
/// made of random bytes for those that do not.
pub fn birthday_ports(base: u16, tick: u32, tail: &[u8]) -> (r: Vec<u16>)
    requires
        tail@.len() == 2 * RANDOM_TAIL,
    ensures
        r@ == sweep(base, tick) + tail_ports(tail@, RANDOM_TAIL as nat),
{
    let round: i64 = (tick / 2) as i64;
    let step: i64 = (round + 1) / 2;
    let center: i64 = if round % 2 == 0 {
        base as i64 + step * SWEEP_WIN
    } else {
        base as i64 - step * SWEEP_WIN
    };
    assert(center == sweep_center(base, tick));
    let lo: i64 = if center - 512 < 1024 {
        1024
    } else {
        center - 512
    };
    let hi: i64 = if center + 512 > 65536 {
        65536
    } else {
        center + 512
    };
    let mut ports: Vec<u16> = Vec::new();
    let mut p: i64 = lo;
    while p < hi
        invariant
            1024 <= lo <= p,
            hi <= 65536,
            p <= hi || p == lo,
            lo == sweep_low(base, tick),
            hi == sweep_high(base, tick),
            ports@ == Seq::new((p - lo) as nat, |i: int| (lo + i) as u16),
        decreases hi - p,
    {
        ports.push(p as u16);
        assert(ports@ =~= Seq::new((p + 1 - lo) as nat, |i: int| (lo + i) as u16));
        p = p + 1;
    }
    assert(ports@ =~= sweep(base, tick));
    let mut i: usize = 0;
    assert(ports@ =~= sweep(base, tick) + tail_ports(tail@, 0));
    while i < RANDOM_TAIL
        invariant
            i <= RANDOM_TAIL,
            tail@.len() == 2 * RANDOM_TAIL,
            ports@ == sweep(base, tick) + tail_ports(tail@, i as nat),
        decreases RANDOM_TAIL - i,
    {
        let q: u16 = tail[2 * i] as u16 + tail[2 * i + 1] as u16 * 256;
        if q >= 1024 {
            ports.push(q);
        }
        assert(ports@ =~= sweep(base, tick) + tail_ports(tail@, (i + 1) as nat));
        i = i + 1;
    }
    ports
}

/// A spray never names a privileged port.
pub proof fn law_spray_ports_unprivileged(base: u16, tick: u32, tail: Seq<u8>, n: nat)
    ensures
        forall|i: int| 0 <= i < sweep(base, tick).len() ==> #[trigger] sweep(base, tick)[i] >= 1024,
        forall|i: int| 0 <= i < tail_ports(tail, n).len() ==> #[trigger] tail_ports(tail, n)[i] >= 1024,
    decreases n,
{
    if n > 0 {
        law_spray_ports_unprivileged(base, tick, tail, (n - 1) as nat);
        let rest = tail_ports(tail, (n - 1) as nat);
        assert forall|i: int| 0 <= i < tail_ports(tail, n).len() implies #[trigger] tail_ports(
            tail,
            n,
        )[i] >= 1024 by {
            if i < rest.len() {
                assert(rest[i] >= 1024);
            }
        }
    }
}

/// The windows of the first rounds lie side by side: round 0 is around the base, and
/// each later pair of rounds extends the covered range by one window on each side, so
/// that after round `2k` every unprivileged port within `k` windows was swept.
pub proof fn law_sweep_covers(base: u16, k: nat, port: u16)
    requires
        port >= 1024,
        base - 512 - 1024 * k <= port < base + 512 + 1024 * k,
        4 * k <= u32::MAX,
    ensures
        exists|round: nat|
            round <= 2 * k && #[trigger] sweep(base, (2 * round) as u32).contains(port),
    decreases k,
{
    if base - 512 <= port < base + 512 {
        let s = sweep(base, 0);
        assert(sweep_center(base, 0) == base);
        assert(s[port - sweep_low(base, 0)] == port);
        assert(sweep(base, (2 * 0nat) as u32).contains(port));
    } else if base - 512 - 1024 * (k - 1) <= port < base + 512 + 1024 * (k - 1) {
        law_sweep_covers(base, (k - 1) as nat, port);
    } else if port >= base {
        let round = (2 * k) as nat;
        let tick = (2 * round) as u32;
        assert(sweep_center(base, tick) == base + 1024 * k);
        assert(sweep(base, tick)[port - sweep_low(base, tick)] == port);
        assert(sweep(base, (2 * round) as u32).contains(port));
    } else {
        let round = (2 * k - 1) as nat;
        let tick = (2 * round) as u32;
        assert(sweep_center(base, tick) == base - 1024 * k);
        assert(sweep(base, tick)[port - sweep_low(base, tick)] == port);
        assert(sweep(base, (2 * round) as u32).contains(port));
    }
}

/// Whether two endpoints have the same address.
pub open spec fn same_ip(a: SocketAddr, b: SocketAddr) -> bool {
    match (a, b) {
        (SocketAddr::V4(x), SocketAddr::V4(y)) => x.ip == y.ip,
        (SocketAddr::V6(x), SocketAddr::V6(y)) => x.ip == y.ip,
        _ => false,
    }
}

/// Whether two endpoints have the same address.
pub fn ip_eq(a: SocketAddr, b: SocketAddr) -> (r: bool)
    ensures
        r == same_ip(a, b),
{
    match (a, b) {
        (SocketAddr::V4(x), SocketAddr::V4(y)) => x.ip == y.ip,
        (SocketAddr::V6(x), SocketAddr::V6(y)) => x.ip == y.ip,
        _ => false,
    }
}

/// Whether there is a tunnel to one of the endpoints.
pub open spec fn reached(tunnels: Seq<EntryState>, eps: Seq<SocketAddr>) -> bool {
    exists|i: int| 0 <= i < eps.len() && has_tunnel(tunnels, #[trigger] eps[i])
}

/// Whether there is a tunnel to the address of one of the endpoints, at any port.
pub open spec fn reached_ip(tunnels: Seq<EntryState>, eps: Seq<SocketAddr>) -> bool {
    exists|i: int, j: int|
        0 <= i < tunnels.len() && 0 <= j < eps.len() && same_ip(
            #[trigger] tunnels[i].addr,
            #[trigger] eps[j],
        )
}

/// The random values for the probe of one target.
pub struct ProbeDraw {
    pub txid: [u8; 12],
    pub nonce: [u8; 24],
    /// One random tail for each endpoint.
    pub tails: Vec<Vec<u8>>,
}

impl ProbeDraw {
    /// Whether there is a tail of the right length for each of `n` endpoints.
    pub open spec fn fits(self, n: nat) -> bool {
        &&& self.tails@.len() == n
        &&& forall|i: int| 0 <= i < n ==> (#[trigger] self.tails@[i])@.len() == 2 * RANDOM_TAIL
    }
}

/// A probe of one target: the packet, the endpoints that get it as long as sending to
/// them works, and where else it is sprayed.
pub struct ProbeJob {
    pub pkt: Vec<u8>,
    pub endpoints: Vec<SocketAddr>,
    pub spray: Vec<SocketAddr>,
}

/// What a `ProbeJob` holds.
pub struct JobState {
    pub pkt: Seq<u8>,
    pub endpoints: Seq<SocketAddr>,
    pub spray: Seq<SocketAddr>,
}

impl View for ProbeJob {
    type V = JobState;

    open spec fn view(&self) -> JobState {
        JobState { pkt: self.pkt@, endpoints: self.endpoints@, spray: self.spray@ }
    }
}

/// What a list of jobs holds.
pub open spec fn jobs(v: Seq<ProbeJob>) -> Seq<JobState> {
    v.map_values(|j: ProbeJob| j@)
}

/// The ping that probes a target.
pub open spec fn probe_packet(id: IdentityState, disco_pub: Seq<u8>, txid: Seq<u8>, nonce: Seq<u8>) -> Seq<
    u8,
> {
    wire_of(id.disco_priv, id.disco_pub, disco_pub, nonce, ping_of(txid, id.node_pub))
}

/// Where one endpoint's spray goes: candidate ports at its address, where that is
/// public.
pub open spec fn spray_at(ep: SocketAddr, round: u32, tail: Seq<u8>) -> Seq<SocketAddr> {
    match ep {
        SocketAddr::V4(a) => if is_public(a.ip) {
            (sweep(a.port, round) + tail_ports(tail, RANDOM_TAIL as nat)).map_values(
                |p: u16| v4(a.ip, p),
            )
        } else {
            Seq::empty()
        },
        SocketAddr::V6(_) => Seq::empty(),
    }
}

/// Where the spray at a list of endpoints goes.
pub open spec fn spray_all(eps: Seq<SocketAddr>, round: u32, tails: Seq<Vec<u8>>) -> Seq<SocketAddr>
    decreases eps.len(),
{
    if eps.len() == 0 {
        Seq::empty()
    } else {
        spray_all(eps.drop_last(), round, tails) + spray_at(
            eps.last(),
            round,
            tails[eps.len() - 1]@,
        )
    }
}

/// The probe of one target: none where a tunnel to one of its endpoints exists. The
/// spray is for targets that ask for it and whose addresses no tunnel goes to.
pub open spec fn job_of(
    tunnels: Seq<EntryState>,
    id: IdentityState,
    t: TargetState,
    round: u32,
    d: ProbeDraw,
) -> Option<JobState> {
    if reached(tunnels, t.endpoints) {
        None
    } else {
        Some(
            JobState {
                pkt: probe_packet(id, t.disco_pub, d.txid@, d.nonce@),
                endpoints: t.endpoints,
                spray: if t.spray && !reached_ip(tunnels, t.endpoints) {
                    spray_all(t.endpoints, round, d.tails@)
                } else {
                    Seq::empty()
                },
            },
        )
    }
}

/// The probes of a list of targets.
pub open spec fn jobs_of(
    tunnels: Seq<EntryState>,
    id: IdentityState,
    ts: Seq<TargetState>,
    round: u32,
    ds: Seq<ProbeDraw>,
) -> Seq<JobState>
    decreases ts.len(),
{
    if ts.len() == 0 {
        Seq::empty()
    } else {
        let rest = jobs_of(tunnels, id, ts.drop_last(), round, ds);
        match job_of(tunnels, id, ts.last(), round, ds[ts.len() - 1]) {
            Some(j) => rest.push(j),
            None => rest,
        }
    }
}

/// Appends where one endpoint's spray goes.
fn push_spray(out: &mut Vec<SocketAddr>, ep: SocketAddr, round: u32, tail: &[u8])
    requires
        tail@.len() == 2 * RANDOM_TAIL,
    ensures
        final(out)@ == old(out)@ + spray_at(ep, round, tail@),
{
    if let SocketAddr::V4(a) = ep {
        if is_public_v4(&a.ip) {
            let ports = birthday_ports(a.port, round, tail);
            let ghost want = ports@.map_values(|p: u16| v4(a.ip, p));
            let mut i: usize = 0;
            assert(out@ =~= old(out)@ + want.subrange(0, 0));
            while i < ports.len()
                invariant
                    i <= ports@.len(),
                    want == ports@.map_values(|p: u16| v4(a.ip, p)),
                    out@ == old(out)@ + want.subrange(0, i as int),
                decreases ports@.len() - i,
            {
                out.push(SocketAddr::new_v4(a.ip, ports[i]));
                assert(out@ =~= old(out)@ + want.subrange(0, i + 1));
                i = i + 1;
            }
            assert(want.subrange(0, i as int) =~= want);
            return;
        }
    }
    assert(out@ =~= old(out)@ + spray_at(ep, round, tail@));
}

/// A copy of a list of endpoints.
pub fn copy_addrs(v: &Vec<SocketAddr>) -> (r: Vec<SocketAddr>)
    ensures
        r@ == v@,
{
    let mut out: Vec<SocketAddr> = Vec::new();
    let mut i: usize = 0;
    while i < v.len()
        invariant
            i <= v@.len(),
            out@ == v@.subrange(0, i as int),
        decreases v@.len() - i,
    {
        out.push(v[i]);
        assert(out@ =~= v@.subrange(0, i + 1));
        i = i + 1;
    }
    assert(out@ =~= v@);
    out
}

impl State {
    /// Whether there is a tunnel to one of the endpoints.
    fn reaches(&self, eps: &Vec<SocketAddr>) -> (r: bool)
        ensures
            r == reached(self@.tunnels, eps@),
    {
        let mut i: usize = 0;
        while i < eps.len()
            invariant
                i <= eps@.len(),
                forall|k: int| 0 <= k < i ==> !has_tunnel(self@.tunnels, #[trigger] eps@[k]),
            decreases eps@.len() - i,
        {
            if tunnel_exists(&self.tunnels, eps[i]) {
                assert(has_tunnel(self@.tunnels, eps@[i as int]));
                return true;
            }
            i = i + 1;
        }
        false
    }

    /// Whether there is a tunnel to the address of one of the endpoints.
    fn reaches_ip(&self, eps: &Vec<SocketAddr>) -> (r: bool)
        ensures
            r == reached_ip(self@.tunnels, eps@),
    {
        let mut i: usize = 0;
        while i < self.tunnels.len()
            invariant
                i <= self.tunnels@.len(),
                forall|x: int, y: int|
                    0 <= x < i && 0 <= y < eps@.len() ==> !same_ip(
                        #[trigger] self@.tunnels[x].addr,
                        #[trigger] eps@[y],
                    ),
            decreases self.tunnels@.len() - i,
        {
            let mut j: usize = 0;
            assert(self@.tunnels[i as int].addr == self.tunnels@[i as int].addr);
            while j < eps.len()
                invariant
                    i < self.tunnels@.len(),
                    j <= eps@.len(),
                    self@.tunnels[i as int].addr == self.tunnels@[i as int].addr,
                    forall|y: int|
                        0 <= y < j ==> !same_ip(
                            self@.tunnels[i as int].addr,
                            #[trigger] eps@[y],
                        ),
                decreases eps@.len() - j,
            {
                if ip_eq(self.tunnels[i].addr, eps[j]) {
                    assert(same_ip(self@.tunnels[i as int].addr, eps@[j as int]));
                    return true;
                }
                j = j + 1;
            }
            i = i + 1;
        }
        false
    }

    /// The probe of one target, if it needs one.
    pub fn probe_job(&self, id: &Identity, t: &Target, round: u32, d: &ProbeDraw) -> (r: Option<
        ProbeJob,
    >)
        requires
            d.fits(t.endpoints@.len()),
        ensures
            match r {
                Some(j) => job_of(self@.tunnels, id@, t@, round, *d) == Some(j@),
                None => job_of(self@.tunnels, id@, t@, round, *d) is None,
            },
    {
        if self.reaches(&t.endpoints) {
            return None;
        }
        let pt = ping_plaintext(&d.txid, &id.node_pub);
        let pkt = seal_with(&id.disco_priv, &id.disco_pub, &t.disco_pub, &d.nonce, pt.as_slice());
        let mut spray: Vec<SocketAddr> = Vec::new();
        if t.spray && !self.reaches_ip(&t.endpoints) {
            let mut i: usize = 0;
            assert(t.endpoints@.subrange(0, 0) =~= Seq::empty());
            while i < t.endpoints.len()
                invariant
                    i <= t.endpoints@.len(),
                    d.fits(t.endpoints@.len()),
                    spray@ == spray_all(t.endpoints@.subrange(0, i as int), round, d.tails@),
                decreases t.endpoints@.len() - i,
            {
                assert(t.endpoints@.subrange(0, i + 1).drop_last() =~= t.endpoints@.subrange(
                    0,
                    i as int,
                ));
                assert(d.tails@[i as int]@.len() == 2 * RANDOM_TAIL);
                push_spray(&mut spray, t.endpoints[i], round, d.tails[i].as_slice());
                i = i + 1;
            }
            assert(t.endpoints@.subrange(0, i as int) =~= t.endpoints@);
        }
        assert(!(t.spray && !reached_ip(self@.tunnels, t.endpoints@)) ==> spray@ =~= Seq::empty());
        Some(ProbeJob { pkt, endpoints: copy_addrs(&t.endpoints), spray })
    }

    /// The probes of all targets that need one.
    pub fn probe_jobs(&self, id: &Identity, targets: &Vec<Target>, round: u32, ds: &Vec<ProbeDraw>) -> (r:
        Vec<ProbeJob>)
        requires
            draws_fit(targets@, ds@),
        ensures
            jobs(r@) == jobs_of(self@.tunnels, id@, target_states(targets@), round, ds@),
    {
        let ghost ts = target_states(targets@);
        let mut out: Vec<ProbeJob> = Vec::new();
        assert(jobs(out@) =~= Seq::empty());
        assert(ts.subrange(0, 0) =~= Seq::empty());
        let mut i: usize = 0;
        while i < targets.len()
            invariant
                i <= targets@.len(),
                ts == target_states(targets@),
                draws_fit(targets@, ds@),
                jobs(out@) == jobs_of(
                    self@.tunnels,
                    id@,
                    ts.subrange(0, i as int),
                    round,
                    ds@,
                ),
            decreases targets@.len() - i,
        {
            let ghost was = out@;
            assert(ts.subrange(0, i + 1).drop_last() =~= ts.subrange(0, i as int));
            assert(ts.subrange(0, i + 1).last() == targets@[i as int]@);
            assert(ds@[i as int].fits(targets@[i as int].endpoints@.len()));
            if let Some(j) = self.probe_job(id, &targets[i], round, &ds[i]) {
                out.push(j);
                assert(jobs(out@) =~= jobs(was).push(j@));
            }
            i = i + 1;
        }
        assert(ts.subrange(0, i as int) =~= ts);
        out
    }
}

/// Whether there is a draw for each target, with a tail for each of its endpoints.
pub open spec fn draws_fit(targets: Seq<Target>, ds: Seq<ProbeDraw>) -> bool {
    &&& ds.len() == targets.len()
    &&& forall|i: int|
        0 <= i < ds.len() ==> #[trigger] ds[i].fits(targets[i].endpoints@.len())
}

/// Draws the random values for a round of probes. It fails where the system has no
/// entropy to give; a round without targets draws nothing and cannot fail.
pub fn draw_probes(targets: &Vec<Target>) -> (r: Result<Vec<ProbeDraw>, NoEntropy>)
    ensures
        r matches Ok(ds) ==> draws_fit(targets@, ds@),
        targets@.len() == 0 ==> r is Ok,
{
    let mut out: Vec<ProbeDraw> = Vec::new();
    let mut i: usize = 0;
    while i < targets.len()
        invariant
            i <= targets@.len(),
            out@.len() == i,
            forall|k: int|
                0 <= k < i ==> #[trigger] out@[k].fits(targets@[k].endpoints@.len()),
        decreases targets@.len() - i,
    {
        let txid = match random12() {
            Ok(x) => x,
            Err(e) => {
                return Err(e);
            },
        };
        let nonce = match random24() {
            Ok(x) => x,
            Err(e) => {
                return Err(e);
            },
        };
        let n: usize = targets[i].endpoints.len();
        let mut tails: Vec<Vec<u8>> = Vec::new();
        while tails.len() < n
            invariant
                i < targets@.len(),
                tails@.len() <= n,
                forall|k: int|
                    0 <= k < tails@.len() ==> (#[trigger] tails@[k])@.len() == 2 * RANDOM_TAIL,
            decreases n - tails@.len(),
        {
            match random_bytes(2 * RANDOM_TAIL) {
                Ok(tail) => {
                    tails.push(tail);
                },
                Err(e) => {
                    return Err(e);
                },
            }
        }
        out.push(ProbeDraw { txid, nonce, tails });
        i = i + 1;
    }
    Ok(out)
}

// --- keepalives and the node's own traffic ---

/// The tunnels after a keepalive to each, and the datagrams.
pub open spec fn kept_alive(s: Seq<EntryState>) -> (Seq<EntryState>, Seq<ActionState>)
    decreases s.len(),
{
    if s.len() == 0 {
        (Seq::empty(), nothing())
    } else {
        let (rest, a) = kept_alive(s.drop_last());
        let e = s.last();
        let (t, b) = send_inner_of(e.tun, Seq::empty(), e.addr);
        (rest.push(EntryState { tun: t, ..e }), a + b)
    }
}

/// The HTTP request that the node sends of its own accord.
pub open spec fn http_get(path: Seq<char>, host: Ipv4Addr) -> Seq<u8> {
    encode_utf8("GET "@) + encode_utf8(path) + encode_utf8(" HTTP/1.1\r\nHost: "@) + dotted(host)
        + encode_utf8("\r\nUser-Agent: tdongle\r\nConnection: close\r\n\r\n"@)
}

/// Builds the HTTP request that the node sends of its own accord.
fn build_get(path: &String, host: Ipv4Addr) -> (r: Vec<u8>)
    ensures
        r@ == http_get(path@, host),
{
    let mut v: Vec<u8> = Vec::new();
    push_text(&mut v, "GET ");
    push_text(&mut v, path.as_str());
    push_text(&mut v, " HTTP/1.1\r\nHost: ");
    push_dotted(&mut v, host);
    push_text(&mut v, "\r\nUser-Agent: tdongle\r\nConnection: close\r\n\r\n");
    assert(v@ =~= http_get(path@, host));
    v
}

/// The HTTP client as it starts, with its initial sequence number made from `r`.
pub open spec fn new_client(o: OutboundState, r: u32) -> ClientState {
    ClientState::fresh(
        o.our_ip,
        o.target_ip,
        o.sport,
        o.http_port,
        http_get(o.http_path, o.target_ip),
        if r % 0x8000_0000 == 0 {
            1
        } else {
            r % 0x8000_0000
        },
    )
}

/// The next ping's sequence number.
pub open spec fn next_seq(o: OutboundState) -> u16 {
    ((o.seq + 1) % 65536) as u16
}

impl NodeState {
    /// Once a tunnel to the target exists: one ping per round, and on the first round the
    /// HTTP client's SYN.
    pub open spec fn outbound_tick_of(self, r: u32) -> (NodeState, Seq<ActionState>) {
        if self.outbound is None {
            (self, nothing())
        } else {
            let o = self.outbound->0;
            let k = tunnel_to(self.tunnels, o.target_node);
            if k >= self.tunnels.len() {
                (self, nothing())
            } else {
                let e = self.tunnels[k];
                let ping = ping_packet_of(
                    o.our_ip,
                    o.target_ip,
                    o.ident,
                    next_seq(o),
                    encode_utf8("tdongle-s3"@),
                );
                let (t1, a1) = send_inner_of(e.tun, ping, e.addr);
                let o1 = OutboundState { seq: next_seq(o), ..o };
                if o.started {
                    (
                        NodeState {
                            outbound: Some(o1),
                            ..self.with_entry(k, EntryState { tun: t1, ..e })
                        },
                        a1,
                    )
                } else {
                    let c = new_client(o, r);
                    let (t2, a2) = send_inner_of(
                        t1,
                        c.packet(crate::ipv4::SYN, Seq::empty()),
                        e.addr,
                    );
                    (
                        NodeState {
                            outbound: Some(
                                OutboundState {
                                    started: true,
                                    tcp: Some(
                                        ClientState {
                                            snd_nxt: crate::bytes::seq_add(c.snd_nxt, 1),
                                            ..c
                                        },
                                    ),
                                    ..o1
                                },
                            ),
                            ..self.with_entry(k, EntryState { tun: t2, ..e })
                        },
                        a1 + a2,
                    )
                }
            }
        }
    }
}

impl OutboundRun {
    /// The ping with the current sequence number.
    fn ping(&self) -> (r: Vec<u8>)
        ensures
            r@ == ping_packet_of(
                self@.our_ip,
                self@.target_ip,
                self@.ident,
                self@.seq,
                encode_utf8("tdongle-s3"@),
            ),
    {
        icmp_echo_request(
            self.cfg.our_ip,
            self.cfg.target_ip,
            self.ident,
            self.seq,
            "tdongle-s3".as_bytes(),
        )
    }
}

impl State {
    /// Sends a keepalive through every tunnel.
    pub fn keepalives(&mut self, out: &mut Vec<Action>)
        ensures
            final(self)@ == (NodeState {
                tunnels: kept_alive(old(self)@.tunnels).0,
                ..old(self)@
            }),
            actions(final(out)@) == actions(old(out)@) + kept_alive(old(self)@.tunnels).1,
    {
        let ghost orig = self@.tunnels;
        let ghost was = actions(out@);
        let ghost n = orig.len() as int;
        let none: [u8; 0] = [];
        assert(none@ =~= Seq::empty());
        let mut i: usize = 0;
        assert(orig.subrange(0, 0) =~= Seq::empty());
        assert(self@.tunnels =~= Seq::<EntryState>::empty() + orig.subrange(0, n));
        assert(actions(out@) =~= was + nothing());
        while i < self.tunnels.len()
            invariant
                i <= n,
                n == orig.len(),
                n == self.tunnels@.len(),
                orig == old(self)@.tunnels,
                none@ == Seq::<u8>::empty(),
                self@ == (NodeState { tunnels: self@.tunnels, ..old(self)@ }),
                kept_alive(orig.subrange(0, i as int)).0.len() == i,
                self@.tunnels == kept_alive(orig.subrange(0, i as int)).0 + orig.subrange(
                    i as int,
                    n,
                ),
                actions(out@) == was + kept_alive(orig.subrange(0, i as int)).1,
            decreases n - i,
        {
            let ghost left = kept_alive(orig.subrange(0, i as int)).0;
            let ghost now = self@.tunnels;
            proof {
                assert(now[i as int] == orig[i as int]);
                assert(self.tunnels@[i as int]@ == orig[i as int]);
                assert(orig.subrange(0, i + 1).drop_last() =~= orig.subrange(0, i as int));
                assert(orig.subrange(0, i + 1).last() == orig[i as int]);
            }
            let addr: SocketAddr = self.tunnels[i].addr;
            send_inner(&mut self.tunnels[i].tun, none.as_slice(), addr, out);
            proof {
                let e = kept_alive(orig.subrange(0, i + 1)).0.last();
                assert(self@.tunnels =~= now.update(i as int, e));
                assert(self@.tunnels =~= left.push(e) + orig.subrange(i + 1, n));
                assert(actions(out@) =~= was + kept_alive(orig.subrange(0, i + 1)).1);
            }
            i = i + 1;
        }
        assert(orig.subrange(0, n) =~= orig);
        assert(self@.tunnels =~= kept_alive(orig).0);
    }

    /// One round of the node's own traffic, with `r` for the client's initial sequence
    /// number.
    pub fn outbound_tick(&mut self, r: u32, out: &mut Vec<Action>)
        ensures
            final(self)@ == old(self)@.outbound_tick_of(r).0,
            actions(final(out)@) == actions(old(out)@) + old(self)@.outbound_tick_of(r).1,
    {
        let ghost s0 = self@;
        let ghost was = actions(out@);
        let k: usize = match &self.outbound {
            Some(o) => find_node(&self.tunnels, &o.cfg.target_node),
            None => {
                assert(was + nothing() =~= was);
                return;
            },
        };
        if k == self.tunnels.len() {
            assert(was + nothing() =~= was);
            return;
        }
        let addr: SocketAddr = self.tunnels[k].addr;
        if let Some(o) = &mut self.outbound {
            o.seq = if o.seq == 65535 {
                0
            } else {
                o.seq + 1
            };
            let ping = o.ping();
            send_inner(&mut self.tunnels[k].tun, ping.as_slice(), addr, out);
            if !o.started {
                o.started = true;
                let http = build_get(&o.cfg.http_path, o.cfg.target_ip);
                let mut c = TcpClient::with_random(
                    o.cfg.our_ip,
                    o.cfg.target_ip,
                    o.sport,
                    o.cfg.http_port,
                    http,
                    r,
                );
                let syn = c.open();
                send_inner(&mut self.tunnels[k].tun, syn.as_slice(), addr, out);
                o.tcp = Some(c);
                assert(actions(out@) =~= was + s0.outbound_tick_of(r).1);
            }
        }
        assert(self@.tunnels =~= s0.outbound_tick_of(r).0.tunnels);
    }
}

// --- one pass of the housekeeping ---

/// What one pass of the housekeeping asks the caller to do, in this order.
pub struct Periodic {
    /// Handshakes to send again.
    pub retries: Vec<Action>,
    /// Whether this was a probe round; the caller then restarts its probe timer.
    pub probed: bool,
    pub jobs: Vec<ProbeJob>,
    /// Keepalives and the node's own traffic.
    pub sends: Vec<Action>,
    /// Whether the refresh was due; the caller then restarts its refresh timer.
    pub refreshed: bool,
    pub stun: Vec<Action>,
}

/// What the caller knows when a pass begins.
pub struct Pass {
    /// The current time in milliseconds on the caller's clock.
    pub now_ms: u64,
    /// Milliseconds since the last probe round and since the last refresh.
    pub probe_ms: u64,
    pub stun_ms: u64,
    pub stun_addr: Option<SocketAddr>,
    /// Random, for the HTTP client and for the refresh.
    pub iss: u32,
    pub txid: [u8; 12],
}

impl NodeState {
    /// After the retries.
    pub open spec fn after_retries(self, now_ms: u64) -> NodeState {
        NodeState { pending: retried(self.pending, self.tunnels, now_ms).0, ..self }
    }

    /// After the keepalives.
    pub open spec fn after_keepalives(self) -> NodeState {
        NodeState { tunnels: kept_alive(self.tunnels).0, ..self }
    }
}

/// The round after `round`.
pub open spec fn next_round(round: u32) -> u32 {
    ((round + 1) % 4294967296) as u32
}

/// The refresh of the NAT mapping: a STUN request to the server, where there is one.
pub open spec fn refresh_of(due: bool, server: Option<SocketAddr>, txid: Seq<u8>) -> Seq<ActionState> {
    match server {
        Some(dst) => if due {
            seq![ActionState::Send { pkt: request_bytes(txid), dst }]
        } else {
            nothing()
        },
        None => nothing(),
    }
}

impl State {
    /// One pass of the housekeeping. Overdue handshakes are retried; every `PROBE_MS` a
    /// probe round is due, with keepalives and the node's own traffic; every `STUN_MS` the
    /// NAT mapping is refreshed.
    pub fn run_periodic(
        &mut self,
        id: &Identity,
        targets: &Vec<Target>,
        probe_round: &mut u32,
        ds: &Vec<ProbeDraw>,
        p: &Pass,
    ) -> (r: Periodic)
        requires
            p.probe_ms >= PROBE_MS ==> draws_fit(targets@, ds@),
        ensures
            r.probed == (p.probe_ms >= PROBE_MS),
            r.refreshed == (p.stun_ms >= STUN_MS),
            *final(probe_round) == if r.probed {
                next_round(*old(probe_round))
            } else {
                *old(probe_round)
            },
            actions(r.retries@) == retried(old(self)@.pending, old(self)@.tunnels, p.now_ms).1,
            actions(r.stun@) == refresh_of(r.refreshed, p.stun_addr, p.txid@),
            !r.probed ==> final(self)@ == old(self)@.after_retries(p.now_ms) && jobs(r.jobs@)
                == Seq::<JobState>::empty() && actions(r.sends@) == nothing(),
            r.probed ==> {
                let s1 = old(self)@.after_retries(p.now_ms);
                let s2 = s1.after_keepalives();
                &&& jobs(r.jobs@) == jobs_of(
                    s1.tunnels,
                    id@,
                    target_states(targets@),
                    *final(probe_round),
                    ds@,
                )
                &&& final(self)@ == s2.outbound_tick_of(p.iss).0
                &&& actions(r.sends@) == kept_alive(s1.tunnels).1 + s2.outbound_tick_of(p.iss).1
            },
    {
        let ghost s0 = self@;
        let retries = self.retry_handshakes(p.now_ms);
        let probed: bool = p.probe_ms >= PROBE_MS;
        let mut jobs_out: Vec<ProbeJob> = Vec::new();
        let mut sends: Vec<Action> = Vec::new();
        assert(jobs(jobs_out@) =~= Seq::empty());
        assert(actions(sends@) =~= nothing());
        if probed {
            *probe_round = if *probe_round == u32::MAX {
                0
            } else {
                *probe_round + 1
            };
            jobs_out = self.probe_jobs(id, targets, *probe_round, ds);
            self.keepalives(&mut sends);
            self.outbound_tick(p.iss, &mut sends);
            proof {
                let s1 = s0.after_retries(p.now_ms);
                let s2 = s1.after_keepalives();
                assert(actions(sends@) =~= kept_alive(s1.tunnels).1 + s2.outbound_tick_of(
                    p.iss,
                ).1);
            }
        }
        let refreshed: bool = p.stun_ms >= STUN_MS;
        let mut stun: Vec<Action> = Vec::new();
        assert(actions(stun@) =~= nothing());
        if refreshed {
            if let Some(dst) = p.stun_addr {
                let req = binding_request_with(&p.txid);
                let pkt = copy(req.as_slice());
                stun.push(Action::Send { pkt, dst });
                assert(actions(stun@) =~= refresh_of(refreshed, p.stun_addr, p.txid@));
            }
        }
        Periodic { retries, probed, jobs: jobs_out, sends, refreshed, stun }
    }
}

// --- mDNS, the throughput sink, two cores ---

impl NodeState {
    /// The node after an mDNS payload from the LAN went to the partner, where a tunnel to
    /// it exists.
    pub open spec fn mdns_forward_of(self, link: MdnsLink, payload: Seq<u8>) -> (
        NodeState,
        Seq<ActionState>,
    ) {
        let k = tunnel_to(self.tunnels, link.partner_node@);
        if k >= self.tunnels.len() {
            (self, nothing())
        } else {
            let e = self.tunnels[k];
            let (t, a) = send_inner_of(
                e.tun,
                udp_packet_of(link.our_ip, link.partner_ip, FWD_PORT, FWD_PORT, payload),
                e.addr,
            );
            (self.with_entry(k, EntryState { tun: t, ..e }), a)
        }
    }

    /// The node after a throughput report went back through the tunnel `index` to `dst`;
    /// the counters start again.
    pub open spec fn bench_report_of(self, index: u32, dst: SocketAddr, text: Seq<u8>) -> (
        NodeState,
        Seq<ActionState>,
    ) {
        let fresh = Some(Bench { bytes: 0, pkts: 0 });
        let k = tunnel_at(self.tunnels, index);
        if k >= self.tunnels.len() {
            (NodeState { bench: fresh, ..self }, nothing())
        } else {
            let e = self.tunnels[k];
            let (t, a) = send_inner_of(e.tun, report_of(text), dst);
            (NodeState { bench: fresh, ..self.with_entry(k, EntryState { tun: t, ..e }) }, a)
        }
    }
}

/// The IPv4 header of a throughput report, with `csum` in its checksum field.
pub open spec fn report_header(len: nat, csum: u16) -> Seq<u8> {
    seq![0x45u8, 0] + be16(28 + len as int) + seq![0u8, 0, 0, 0, 64, 17] + be16(csum as int)
        + seq![100u8, 64, 0, 1, 100, 64, 0, 99]
}

/// The inner packet with a throughput report in it. Its UDP checksum is left out.
pub open spec fn report_of(text: Seq<u8>) -> Seq<u8> {
    report_header(text.len(), inet_checksum(report_header(text.len(), 0))) + (be16(
        REPORT_PORT as int,
    ) + be16(REPORT_PORT as int) + be16(8 + text.len() as int) + be16(0) + text)
}

/// The IPv4 header of a throughput report, with `csum` in its checksum field.
fn build_report_header(len: usize, csum: u16) -> (r: Vec<u8>)
    ensures
        r@ == report_header(len as nat, csum),
{
    let mut v: Vec<u8> = Vec::new();
    v.push(0x45);
    v.push(0);
    push_be16(&mut v, ((28 + len % 65536) % 65536) as u16);
    proof {
        lemma_be16_low(28 + len as int);
    }
    v.push(0);
    v.push(0);
    v.push(0);
    v.push(0);
    v.push(64);
    v.push(17);
    push_be16(&mut v, csum);
    push_ipv4(&mut v, Ipv4Addr::new(100, 64, 0, 1));
    push_ipv4(&mut v, Ipv4Addr::new(100, 64, 0, 99));
    assert(v@ =~= report_header(len as nat, csum));
    v
}

/// Builds the inner packet that carries a throughput report back to the load
/// generator.
pub fn bench_stats_inner(text: &[u8]) -> (r: Vec<u8>)
    ensures
        r@ == report_of(text@),
{
    let blank = build_report_header(text.len(), 0);
    let c: u16 = checksum(blank.as_slice());
    let mut v = build_report_header(text.len(), c);
    push_be16(&mut v, REPORT_PORT);
    push_be16(&mut v, REPORT_PORT);
    push_be16(&mut v, ((8 + text.len() % 65536) % 65536) as u16);
    proof {
        lemma_be16_low(8 + text@.len() as int);
    }
    push_be16(&mut v, 0);
    append(&mut v, text);
    assert(v@ =~= report_of(text@));
    v
}

/// Where a datagram goes when two cores share the work.
pub enum Route {
    /// Decrypt with this key, then hand the plaintext to `handle_decrypted`.
    Decrypt { index: u32, key: [u8; 32] },
    /// A transport packet of no known tunnel.
    Drop,
    /// Anything else goes to `handle_packet`.
    Handle,
}

impl State {
    /// A data plane without tunnels.
    pub fn new(outbound: Option<OutboundRun>, mdns: &Option<MdnsLink>, bench: bool) -> (r: State)
        ensures
            r@ == (NodeState {
                pending: Seq::empty(),
                tunnels: Seq::empty(),
                confirmed: Seq::empty(),
                outbound: match outbound {
                    Some(o) => Some(o@),
                    None => None,
                },
                mdns_reinject: mdns is Some,
                mdns_partner: match *mdns {
                    Some(m) => m.partner_node@,
                    None => crate::bytes::zeros(32),
                },
                bench: if bench {
                    Some(Bench { bytes: 0, pkts: 0 })
                } else {
                    None
                },
            }),
            r@.wf(),
    {
        let partner: [u8; 32] = match mdns {
            Some(m) => m.partner_node,
            None => {
                let none: [u8; 32] = [0u8; 32];
                assert(none@ =~= crate::bytes::zeros(32));
                none
            },
        };
        let r = State {
            pending: Vec::new(),
            tunnels: Vec::new(),
            confirmed: Vec::new(),
            outbound,
            mdns_reinject: mdns.is_some(),
            mdns_partner: partner,
            bench: if bench {
                Some(Bench { bytes: 0, pkts: 0 })
            } else {
                None
            },
        };
        assert(r@.pending =~= Seq::empty());
        assert(r@.tunnels =~= Seq::empty());
        r
    }

    /// Sends an mDNS payload captured on the LAN to the partner.
    pub fn mdns_forward(&mut self, link: &MdnsLink, payload: &[u8]) -> (r: Vec<Action>)
        ensures
            (final(self)@, actions(r@)) == old(self)@.mdns_forward_of(*link, payload@),
    {
        let ghost s0 = self@;
        let mut out: Vec<Action> = Vec::new();
        assert(actions(out@) =~= nothing());
        let k: usize = find_node(&self.tunnels, &link.partner_node);
        if k == self.tunnels.len() {
            return out;
        }
        let inner = udp_datagram(link.our_ip, link.partner_ip, FWD_PORT, FWD_PORT, payload);
        let addr: SocketAddr = self.tunnels[k].addr;
        send_inner(&mut self.tunnels[k].tun, inner.as_slice(), addr, &mut out);
        assert(self@.tunnels =~= s0.mdns_forward_of(*link, payload@).0.tunnels);
        assert(actions(out@) =~= s0.mdns_forward_of(*link, payload@).1);
        out
    }

    /// Sends a throughput report back and starts counting again.
    pub fn bench_report(&mut self, index: u32, dst: SocketAddr, text: &[u8]) -> (r: Vec<Action>)
        ensures
            (final(self)@, actions(r@)) == old(self)@.bench_report_of(index, dst, text@),
    {
        let ghost s0 = self@;
        let mut out: Vec<Action> = Vec::new();
        assert(actions(out@) =~= nothing());
        let k: usize = find_index(&self.tunnels, index);
        if k < self.tunnels.len() {
            let inner = bench_stats_inner(text);
            send_inner(&mut self.tunnels[k].tun, inner.as_slice(), dst, &mut out);
        }
        self.bench = Some(Bench { bytes: 0, pkts: 0 });
        assert(self@.tunnels =~= s0.bench_report_of(index, dst, text@).0.tunnels);
        assert(actions(out@) =~= s0.bench_report_of(index, dst, text@).1);
        out
    }

    /// Decides where a datagram goes when two cores share the work: transport packets
    /// are decrypted without the state at hand.
    pub fn route(&self, pkt: &[u8]) -> (r: Route)
        ensures
            match r {
                Route::Handle => !(pkt@.len() >= 16 && pkt@[0] == MSG_TRANSPORT),
                Route::Drop => pkt@.len() >= 16 && pkt@[0] == MSG_TRANSPORT && tunnel_at(
                    self@.tunnels,
                    get_le32(pkt@, 4) as u32,
                ) >= self@.tunnels.len(),
                Route::Decrypt { index, key } => {
                    let k = tunnel_at(self@.tunnels, get_le32(pkt@, 4) as u32);
                    &&& pkt@.len() >= 16
                    &&& pkt@[0] == MSG_TRANSPORT
                    &&& index == get_le32(pkt@, 4)
                    &&& k < self@.tunnels.len()
                    &&& key@ == self@.tunnels[k].tun.recv_key
                },
            },
    {
        if pkt.len() >= 16 && pkt[0] == MSG_TRANSPORT {
            let index: u32 = read_le32(pkt, 4);
            let k: usize = find_index(&self.tunnels, index);
            if k == self.tunnels.len() {
                return Route::Drop;
            }
            assert(self@.tunnels[k as int] == self.tunnels@[k as int]@);
            return Route::Decrypt { index, key: self.tunnels[k].tun.recv_key() };
        }
        Route::Handle
    }
}

/// Decrypting away from the state comes to the same as handling the packet in one
/// go. (A packet that also looks like STUN is left out: in one go it is ignored.)
pub proof fn law_two_cores_agree(st: NodeState, a: Arrival, pkt: Seq<u8>)
    requires
        pkt.len() >= 16,
        pkt[0] == MSG_TRANSPORT,
        !looks_like_stun(pkt),
    ensures
        ({
            let index = get_le32(pkt, 4) as u32;
            let k = tunnel_at(st.tunnels, index);
            st.on_packet(a, pkt) == if k >= st.tunnels.len() {
                (st, nothing())
            } else {
                match transport_open(st.tunnels[k].tun.recv_key, pkt) {
                    None => (st, nothing()),
                    Some(inner) => st.decrypted(a.id, index, inner, a.src, a.iss),
                }
            }
        }),
{
    assert(!has_magic(pkt)) by {
        if pkt.subrange(0, 6) == magic() {
            assert(pkt.subrange(0, 6)[0] == 0x54);
        }
    }
}

/// The client's source port, made from random bytes. It is unprivileged.
pub open spec fn sport_of(s: Seq<u8>) -> u16 {
    (1024 + (s[2] + s[3] * 256) % 60000) as u16
}

impl OutboundRun {
    /// The node's own traffic before it begins, with its identifier and source port made
    /// from four random bytes.
    pub fn new(cfg: OutboundCfg, s: [u8; 4]) -> (r: Self)
        ensures
            r.cfg == cfg,
            r.ident == s@[0] + s@[1] * 256,
            r.sport == sport_of(s@),
            r.sport >= 1024,
            r.seq == 0,
            r.tcp is None,
            !r.started,
            !r.http_done,
    {
        OutboundRun {
            cfg,
            ident: s[0] as u16 + s[1] as u16 * 256,
            seq: 0,
            sport: 1024 + (s[2] as u16 + s[3] as u16 * 256) % 60000,
            tcp: None,
            started: false,
            http_done: false,
        }
    }
}

} // verus!
