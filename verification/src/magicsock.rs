//! Learning the node's public address over the socket that all data-plane traffic uses,
//! so that the mapping that STUN reports is the one that peers will reach.
use vstd::prelude::*;
use vstd::slice::slice_subrange;
use crate::net::{SocketAddr, SocketAddrV4};
use crate::platform::{received, UdpSock};
use crate::stun::{
    binding_request, is_stun, looks_like_stun, parse_response, request_bytes, response_of, StunError,
};

verus! {

/// How often a request is sent before the query fails.
pub const ATTEMPTS: usize = 3;

/// How many bytes of an answer are read.
pub const ANSWER_ROOM: usize = 512;

/// Why a query failed.
#[derive(Clone, Copy, Debug, PartialEq, Eq, Structural)]
pub enum QueryError {
    /// The system has no entropy to give.
    NoEntropy,
    /// The request could not be sent.
    Send,
    /// No STUN message came back.
    NoReply,
    /// What came back is no usable answer.
    Bad(StunError),
}

/// Judges a datagram that came back for the request `txid`: anything but STUN is passed
/// over.
pub fn judge_reply(buf: &[u8], txid: &[u8; 12]) -> (r: Option<Result<SocketAddrV4, StunError>>)
    ensures
        r == if looks_like_stun(buf@) {
            Some(response_of(buf@, txid@))
        } else {
            None
        },
{
    if is_stun(buf) {
        Some(parse_response(buf, txid))
    } else {
        None
    }
}

/// How a query goes on after `made` attempts: the last request went out or did not, and this
/// datagram came back or none. `None` means that the request is sent again.
pub open spec fn query_next(made: int, sent: bool, got: Option<Seq<u8>>, txid: Seq<u8>) -> Option<
    Result<SocketAddrV4, QueryError>,
> {
    if !sent {
        Some(Err(QueryError::Send))
    } else if got is Some && looks_like_stun(got->0) {
        Some(
            match response_of(got->0, txid) {
                Ok(a) => Ok(a),
                Err(e) => Err(QueryError::Bad(e)),
            },
        )
    } else if made >= ATTEMPTS {
        Some(Err(QueryError::NoReply))
    } else {
        None
    }
}

/// Decides how a query goes on after `made` attempts: the request is sent again, or the
/// result is there.
pub fn query_step(made: usize, sent: bool, got: Option<&[u8]>, txid: &[u8; 12]) -> (r: Option<
    Result<SocketAddrV4, QueryError>,
>)
    ensures
        r == query_next(
            made as int,
            sent,
            match got {
                Some(b) => Some(b@),
                None => None,
            },
            txid@,
        ),
{
    if !sent {
        return Some(Err(QueryError::Send));
    }
    if let Some(buf) = got {
        match judge_reply(buf, txid) {
            Some(Ok(a)) => {
                return Some(Ok(a));
            },
            Some(Err(e)) => {
                return Some(Err(QueryError::Bad(e)));
            },
            None => {},
        }
    }
    if made >= ATTEMPTS {
        Some(Err(QueryError::NoReply))
    } else {
        None
    }
}

/// The socket that all data-plane traffic goes through.
pub struct MagicSock<U: UdpSock> {
    pub sock: U,
    pub local_port: u16,
}

impl<U: UdpSock> MagicSock<U> {
    /// The node's socket, and the port that it is bound to.
    pub fn new(sock: U) -> (r: Self)
        ensures
            r.sock == sock,
            r.local_port == sock.bound_port(),
    {
        let local_port: u16 = sock.local_port();
        MagicSock { sock, local_port }
    }

    /// Whether the Binding Request with the id `txid` to `server` may go out, or, where `ok`
    /// is false, may fail to.
    pub open spec fn may_ask(&self, server: SocketAddr, txid: Seq<u8>, ok: bool) -> bool {
        txid.len() == 12 && self.sock.may_send(request_bytes(txid), server, ok)
    }

    /// Whether the receive after a request may end with the datagram `buf`, a STUN message.
    pub open spec fn may_hear(&self, buf: Seq<u8>) -> bool {
        &&& looks_like_stun(buf)
        &&& exists|from: SocketAddr|
            #[trigger] self.sock.may_receive(ANSWER_ROOM as nat, Some((buf, from)))
    }

    /// Whether the receive after a request may end with no STUN message.
    pub open spec fn may_miss(&self) -> bool {
        exists|got: Option<(Seq<u8>, SocketAddr)>|
            #[trigger] self.sock.may_receive(ANSWER_ROOM as nat, got) && (got matches Some(d)
                ==> !looks_like_stun(d.0))
    }

    /// Asks the STUN server at `server` for the node's public address. The first STUN message
    /// that comes back decides; nothing but such a message makes an answer. Socket and
    /// entropy decide how the query ends.
    pub fn stun_public_addr(&self, server: SocketAddr) -> (r: Result<SocketAddrV4, QueryError>)
        ensures
            match r {
                Ok(a) => exists|buf: Seq<u8>, txid: Seq<u8>|
                    self.may_ask(server, txid, true) && self.may_hear(buf)
                        && #[trigger] response_of(buf, txid) == Ok::<SocketAddrV4, StunError>(a),
                Err(QueryError::Bad(e)) => exists|buf: Seq<u8>, txid: Seq<u8>|
                    self.may_ask(server, txid, true) && self.may_hear(buf)
                        && #[trigger] response_of(buf, txid) == Err::<SocketAddrV4, StunError>(e),
                Err(QueryError::Send) => exists|txid: Seq<u8>|
                    #[trigger] self.may_ask(server, txid, false),
                Err(QueryError::NoReply) => self.may_miss() && exists|txid: Seq<u8>|
                    #[trigger] self.may_ask(server, txid, true),
                Err(QueryError::NoEntropy) => true,
            },
    {
        let (req, txid) = match binding_request() {
            Ok(p) => p,
            Err(_) => {
                return Err(QueryError::NoEntropy);
            },
        };
        let mut attempt: usize = 0;
        loop
            invariant
                attempt < ATTEMPTS,
                req@ == request_bytes(txid@),
            decreases ATTEMPTS - attempt,
        {
            assert(txid@.len() == 12);
            let sent: bool = self.sock.send_to(req.as_slice(), server).is_ok();
            assert(self.may_ask(server, txid@, sent));
            let mut buf: [u8; ANSWER_ROOM] = [0u8; ANSWER_ROOM];
            let mut len: Option<usize> = None;
            if sent {
                let end = self.sock.recv_from(&mut buf);
                assert(self.sock.may_receive(ANSWER_ROOM as nat, received(buf@, end)));
                if let Ok((n, _)) = end {
                    len = Some(n);
                }
            }
            let got: Option<&[u8]> = match len {
                Some(n) => Some(slice_subrange(buf.as_slice(), 0, n)),
                None => None,
            };
            if let Some(r) = query_step(attempt + 1, sent, got, &txid) {
                proof {
                    if got is Some && looks_like_stun(got->0@) {
                        assert(self.may_hear(got->0@));
                        assert(response_of(got->0@, txid@) == response_of(got->0@, txid@));
                    }
                }
                return r;
            }
            attempt = attempt + 1;
        }
    }

    /// Receives one datagram into `buf`: what the socket gives for it.
    pub fn recv_from(&self, buf: &mut [u8]) -> (r: Result<(usize, SocketAddr), ()>)
        ensures
            final(buf)@.len() == old(buf)@.len(),
            r matches Ok(p) ==> p.0 <= final(buf)@.len(),
            self.sock.may_receive(old(buf)@.len(), received(final(buf)@, r)),
    {
        self.sock.recv_from(buf)
    }

    /// Sends one datagram: how the socket ends sending it.
    pub fn send_to(&self, buf: &[u8], addr: SocketAddr) -> (r: Result<(), ()>)
        ensures
            self.sock.may_send(buf@, addr, r is Ok),
    {
        self.sock.send_to(buf, addr)
    }
}

} // verus!
