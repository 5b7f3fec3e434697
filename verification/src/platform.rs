//! Platform capabilities that the node needs and an adapter provides: entropy, a
//! clock, a small key/value store, byte streams, UDP sockets. The library names no
//! concrete socket or store; the adapter runs the loops and threads.
use vstd::prelude::*;
use crate::bytes::{append, append_zeros, copy_range, starts};
use crate::net::{Ipv4Addr, SocketAddr};

verus! {

/// Cryptographically strong randomness.
pub trait Rng {
    /// Fills `out`.
    fn fill(&self, out: &mut [u8])
        ensures
            final(out)@.len() == old(out)@.len(),
    ;
}

/// A wall clock. It stamps handshakes, so it should not go back across restarts.
pub trait Clock {
    /// Seconds since 1970.
    fn unix_secs(&self) -> u64;

    /// Nanoseconds into the current second; zero from a clock that does not have them.
    fn unix_nanos(&self) -> (r: u32)
        default_ensures
            r == 0,
    {
        0
    }
}

/// A small persistent key/value store for the node's private keys.
pub trait Storage {
    /// The value under `key`, where there is one.
    fn get(&self, key: &str) -> Option<Vec<u8>>;

    /// Stores `val` under `key`.
    fn set(&self, key: &str, val: &[u8]);
}

/// One call on a stream: a write of these bytes, which worked or failed, or a read that
/// delivered these bytes or failed.
pub enum StreamOp {
    Write { data: Seq<u8>, ok: bool },
    Read { got: Option<Seq<u8>> },
}

/// Whether the calls `old` are the first of the calls `new`.
pub open spec fn follows(old: Seq<StreamOp>, new: Seq<StreamOp>) -> bool {
    old.len() <= new.len() && forall|i: int| 0 <= i < old.len() ==> #[trigger] new[i] == old[i]
}

/// Whether nothing but reads came after the calls `old`.
pub open spec fn read_on(old: Seq<StreamOp>, new: Seq<StreamOp>) -> bool {
    &&& follows(old, new)
    &&& forall|i: int| old.len() <= i < new.len() ==> #[trigger] new[i] is Read
}

/// Whether nothing but writes came after the calls `old`.
pub open spec fn write_on(old: Seq<StreamOp>, new: Seq<StreamOp>) -> bool {
    &&& follows(old, new)
    &&& forall|i: int| old.len() <= i < new.len() ==> #[trigger] new[i] is Write
}

/// Everything that the calls have written.
pub open spec fn written(calls: Seq<StreamOp>) -> Seq<u8>
    decreases calls.len(),
{
    if calls.len() == 0 {
        Seq::empty()
    } else {
        match calls.last() {
            StreamOp::Write { data, ok: true } => written(calls.drop_last()) + data,
            _ => written(calls.drop_last()),
        }
    }
}

/// Whether after the calls `old` came nothing but writes, and they wrote `data`.
pub open spec fn wrote_on(old: Seq<StreamOp>, new: Seq<StreamOp>, data: Seq<u8>) -> bool {
    write_on(old, new) && written(new) == written(old) + data
}

/// Whether after the calls `old` first of all `data` was written, before any read.
pub open spec fn wrote_first(old: Seq<StreamOp>, new: Seq<StreamOp>, data: Seq<u8>) -> bool {
    exists|mid: Seq<StreamOp>| #[trigger] wrote_on(old, mid, data) && follows(mid, new)
}

/// The calls after one more write that worked.
pub open spec fn with_write(old: Seq<StreamOp>, data: Seq<u8>) -> Seq<StreamOp> {
    old.push(StreamOp::Write { data, ok: true })
}

/// One write that worked writes its bytes.
pub proof fn lemma_with_write(old: Seq<StreamOp>, data: Seq<u8>)
    ensures
        wrote_on(old, with_write(old, data), data),
{
    assert(with_write(old, data).drop_last() =~= old);
}

/// What was written in two parts was written.
pub proof fn lemma_wrote_on(
    a: Seq<StreamOp>,
    b: Seq<StreamOp>,
    c: Seq<StreamOp>,
    x: Seq<u8>,
    y: Seq<u8>,
)
    requires
        wrote_on(a, b, x),
        wrote_on(b, c, y),
    ensures
        wrote_on(a, c, x + y),
{
    assert forall|i: int| 0 <= i < a.len() implies #[trigger] c[i] == a[i] by {
        assert(c[i] == b[i]);
    }
    assert forall|i: int| a.len() <= i < c.len() implies #[trigger] c[i] is Write by {
        if i < b.len() {
            assert(c[i] == b[i]);
        }
    }
    assert(written(a) + x + y =~= written(a) + (x + y));
}

/// Calls that come after others come after what those come after.
pub proof fn lemma_follows(a: Seq<StreamOp>, b: Seq<StreamOp>, c: Seq<StreamOp>)
    requires
        follows(a, b),
        follows(b, c),
    ensures
        follows(a, c),
{
    assert forall|i: int| 0 <= i < a.len() implies #[trigger] c[i] == a[i] by {
        assert(c[i] == b[i]);
    }
}

/// Reads after reads are reads.
pub proof fn lemma_read_on(a: Seq<StreamOp>, b: Seq<StreamOp>, c: Seq<StreamOp>)
    requires
        read_on(a, b),
        read_on(b, c),
    ensures
        read_on(a, c),
{
    lemma_follows(a, b, c);
    assert forall|i: int| a.len() <= i < c.len() implies #[trigger] c[i] is Read by {
        if i < b.len() {
            assert(c[i] == b[i]);
        }
    }
}

/// A connected, ordered byte stream. An adapter that is not itself verified leaves the four
/// functions that describe the stream as they are.
pub trait ByteStream {
    /// The calls that were made on the stream, in their order.
    closed spec fn history(&self) -> Seq<StreamOp> {
        arbitrary()
    }

    /// Everything that was written so far.
    closed spec fn sent(&self) -> Seq<u8> {
        arbitrary()
    }

    /// Everything that reads will still deliver before the stream ends.
    closed spec fn unread(&self) -> Seq<u8> {
        arbitrary()
    }

    /// Whether the stream is known never to fail before its end.
    closed spec fn reliable(&self) -> bool {
        arbitrary()
    }

    /// Reads into `buf`: the next bytes of the stream, as many as are at hand. A
    /// result of zero on a non-empty buffer means that the stream has ended.
    fn read(&mut self, buf: &mut [u8]) -> (r: Result<usize, ()>)
        ensures
            final(buf)@.len() == old(buf)@.len(),
            final(self).sent() == old(self).sent(),
            final(self).history() == old(self).history().push(
                StreamOp::Read {
                    got: match r {
                        Ok(n) => Some(final(buf)@.subrange(0, n as int)),
                        Err(_) => None,
                    },
                },
            ),
            r matches Ok(n) ==> {
                &&& n <= old(buf)@.len()
                &&& n <= old(self).unread().len()
                &&& final(buf)@.subrange(0, n as int) == old(self).unread().subrange(0, n as int)
                &&& final(self).unread() == old(self).unread().subrange(
                    n as int,
                    old(self).unread().len() as int,
                )
                &&& n == 0 ==> old(buf)@.len() == 0 || old(self).unread().len() == 0
            },
            r is Err ==> final(self).unread() == old(self).unread(),
            old(self).reliable() ==> r is Ok && final(self).reliable(),
    ;

    /// Writes all of `buf`, or fails after a part of it.
    fn write_all(&mut self, buf: &[u8]) -> (r: Result<(), ()>)
        ensures
            final(self).unread() == old(self).unread(),
            final(self).history() == old(self).history().push(
                StreamOp::Write { data: buf@, ok: r is Ok },
            ),
            r is Ok ==> final(self).sent() == old(self).sent() + buf@,
            r is Err ==> starts(final(self).sent(), old(self).sent()),
            old(self).reliable() ==> r is Ok && final(self).reliable(),
    ;
}

/// What a receive that ended with `r` and left `buf` delivered: a datagram and its sender,
/// or nothing.
pub open spec fn received(buf: Seq<u8>, r: Result<(usize, SocketAddr), ()>) -> Option<
    (Seq<u8>, SocketAddr),
> {
    match r {
        Ok(p) => Some((buf.subrange(0, p.0 as int), p.1)),
        Err(_) => None,
    }
}

/// A UDP socket. An adapter that is not itself verified leaves the three functions that
/// describe the socket as they are.
pub trait UdpSock {
    /// The port that the socket is bound to.
    closed spec fn bound_port(&self) -> u16 {
        arbitrary()
    }

    /// Whether sending `datagram` to `dst` may work, or, where `ok` is false, may fail.
    closed spec fn may_send(&self, datagram: Seq<u8>, dst: SocketAddr, ok: bool) -> bool {
        arbitrary()
    }

    /// Whether a receive with room for `room` bytes may end with `got`: a datagram and its
    /// sender, or nothing where it fails.
    closed spec fn may_receive(&self, room: nat, got: Option<(Seq<u8>, SocketAddr)>) -> bool {
        arbitrary()
    }

    /// The port that the socket is bound to.
    fn local_port(&self) -> (r: u16)
        ensures
            r == self.bound_port(),
    ;

    /// Sends one datagram.
    fn send_to(&self, buf: &[u8], dst: SocketAddr) -> (r: Result<(), ()>)
        ensures
            self.may_send(buf@, dst, r is Ok),
    ;

    /// Receives one datagram into `buf`.
    fn recv_from(&self, buf: &mut [u8]) -> (r: Result<(usize, SocketAddr), ()>)
        ensures
            final(buf)@.len() == old(buf)@.len(),
            r matches Ok(p) ==> p.0 <= final(buf)@.len(),
            self.may_receive(old(buf)@.len(), received(final(buf)@, r)),
    ;

    /// Whether the last receive came back because of its timeout; a socket that cannot tell
    /// says no.
    fn would_block(&self) -> (r: bool)
        default_ensures
            !r,
    {
        false
    }
}

/// Whether nothing was done yet on the stream.
pub open spec fn untouched<S: ByteStream>(s: S) -> bool {
    s.sent() == Seq::<u8>::empty() && s.history() == Seq::<StreamOp>::empty()
}

/// Opens TCP and TLS connections. An adapter that is not itself verified leaves the
/// function that describes the connector as it is.
pub trait Connector {
    type Stream: ByteStream;

    /// Whether opening a connection to `port` at `host`, with TLS or without, may end
    /// with the stream `got`, or with nothing where it fails.
    closed spec fn may_open(
        &self,
        host: Seq<char>,
        port: u16,
        tls: bool,
        got: Option<Self::Stream>,
    ) -> bool {
        arbitrary()
    }

    /// Opens a TCP connection. Nothing was written to it or read from it yet.
    fn connect_tcp(&self, host: &str, port: u16) -> (r: Result<Self::Stream, ()>)
        ensures
            match r {
                Ok(s) => self.may_open(host@, port, false, Some(s)) && untouched(s),
                Err(_) => self.may_open(host@, port, false, None),
            },
    ;

    /// Opens a TLS connection. Nothing was written to it or read from it yet.
    fn connect_tls(&self, host: &str, port: u16) -> (r: Result<Self::Stream, ()>)
        ensures
            match r {
                Ok(s) => self.may_open(host@, port, true, Some(s)) && untouched(s),
                Err(_) => self.may_open(host@, port, true, None),
            },
    ;
}

/// A socket that joins an IPv4 multicast group.
pub trait MulticastSock {
    /// Receives one datagram into `buf`.
    fn recv_from(&self, buf: &mut [u8]) -> (r: Result<(usize, SocketAddr), ()>)
        ensures
            final(buf)@.len() == old(buf)@.len(),
            r matches Ok(p) ==> p.0 <= final(buf)@.len(),
    ;

    /// Sends one datagram.
    fn send_to(&self, buf: &[u8], dst: SocketAddr) -> Result<(), ()>;

    /// The address on the local network.
    fn lan_ip(&self) -> Ipv4Addr;
}

/// Reads once, up to `N` bytes, and appends what came to `out`. The result is how
/// much that was.
pub fn read_chunk<S: ByteStream, const N: usize>(s: &mut S, room: [u8; N], out: &mut Vec<u8>) -> (r:
    Result<usize, ()>)
    ensures
        final(s).sent() == old(s).sent(),
        read_on(old(s).history(), final(s).history()),
        r matches Ok(n) ==> {
            &&& n <= N
            &&& n <= old(s).unread().len()
            &&& final(out)@ == old(out)@ + old(s).unread().subrange(0, n as int)
            &&& final(s).unread() == old(s).unread().subrange(
                n as int,
                old(s).unread().len() as int,
            )
            &&& n == 0 ==> N == 0 || old(s).unread().len() == 0
        },
        r is Err ==> final(out)@ == old(out)@ && final(s).unread() == old(s).unread(),
        old(s).reliable() ==> r is Ok && final(s).reliable(),
{
    let mut tmp: [u8; N] = room;
    match s.read(&mut tmp) {
        Ok(n) => {
            let got = copy_range(&tmp, 0, n);
            append(out, got.as_slice());
            Ok(n)
        },
        Err(()) => Err(()),
    }
}

/// Why a read fell short.
#[derive(Clone, Copy, Debug, PartialEq, Eq, Structural)]
pub enum ReadError {
    /// The stream ended.
    Closed,
    /// The stream failed.
    Failed,
}

/// What is left of `all` after its first `n` bytes.
pub open spec fn rest(all: Seq<u8>, n: int) -> Seq<u8> {
    all.subrange(n, all.len() as int)
}

/// Reads exactly `n` bytes.
pub fn read_exact<S: ByteStream>(s: &mut S, n: usize) -> (r: Result<Vec<u8>, ReadError>)
    ensures
        final(s).sent() == old(s).sent(),
        read_on(old(s).history(), final(s).history()),
        r matches Ok(v) ==> {
            &&& n <= old(s).unread().len()
            &&& v@ == old(s).unread().subrange(0, n as int)
            &&& final(s).unread() == rest(old(s).unread(), n as int)
        },
        r matches Err(e) ==> {
            &&& final(s).unread().len() <= old(s).unread().len()
            &&& e == ReadError::Closed ==> old(s).unread().len() < n
            &&& e == ReadError::Failed ==> !old(s).reliable()
        },
        old(s).reliable() ==> final(s).reliable() && (r is Ok <==> n <= old(s).unread().len()),
{
    let ghost all = s.unread();
    let mut out: Vec<u8> = Vec::new();
    assert(all.subrange(0, 0) =~= out@);
    assert(rest(all, 0) =~= all);
    while out.len() < n
        invariant
            all == old(s).unread(),
            s.sent() == old(s).sent(),
            read_on(old(s).history(), s.history()),
            out@.len() <= n,
            out@.len() <= all.len(),
            out@ == all.subrange(0, out@.len() as int),
            s.unread() == rest(all, out@.len() as int),
            old(s).reliable() ==> s.reliable(),
        decreases n - out@.len(),
    {
        let want: usize = n - out.len();
        let mut tmp: Vec<u8> = Vec::new();
        append_zeros(&mut tmp, want);
        let ghost had = out@.len() as int;
        match s.read(tmp.as_mut_slice()) {
            Ok(k) => {
                if k == 0 {
                    return Err(ReadError::Closed);
                }
                let got = copy_range(tmp.as_slice(), 0, k);
                append(&mut out, got.as_slice());
                assert(out@ =~= all.subrange(0, had + k));
                assert(s.unread() =~= rest(all, had + k));
            },
            Err(()) => {
                return Err(ReadError::Failed);
            },
        }
    }
    Ok(out)
}

} // verus!
