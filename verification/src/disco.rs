//! "Disco" path discovery. A packet is
//! magic(6), sender's disco public key(32), nonce(24), NaCl box of the message.
//! The message is PING (probe a path), PONG (confirm it) or CALL-ME-MAYBE (the
//! endpoints at which a peer should try to reach the sender).
use vstd::prelude::*;
use vstd::slice::slice_subrange;
use crate::bytes::{
    append, append_zeros, array32, array_at, be16, be32, bytes_eq, get_be16, lemma_get_be16,
    lemma_get_be32, push_be16, read_be16, zeros,
};
use crate::crypto::{box_open, box_seal, salsa_decrypt, salsa_encrypt, x25519_base};
use crate::net::{be128, push_be128, push_ipv4, v4, Ipv4Addr, SocketAddr};
use crate::rng::{random24, NoEntropy};

verus! {

broadcast use crate::bytes::group_lengths;

pub const PING: u8 = 0x01;

pub const PONG: u8 = 0x02;

pub const CALL_ME_MAYBE: u8 = 0x03;

pub const VERSION: u8 = 0x00;

/// The length of magic, sender key and nonce.
pub const HDR: usize = 62;

/// The six bytes that every disco packet starts with.
pub open spec fn magic() -> Seq<u8> {
    seq![0x54u8, 0x53, 0xf0, 0x9f, 0x92, 0xac]
}

/// The six bytes that every disco packet starts with.
fn magic_bytes() -> (r: [u8; 6])
    ensures
        r@ == magic(),
{
    let r: [u8; 6] = [0x54, 0x53, 0xf0, 0x9f, 0x92, 0xac];
    assert(r@ =~= magic());
    r
}

/// Whether the datagram starts with the magic.
pub open spec fn has_magic(buf: Seq<u8>) -> bool {
    buf.len() >= 6 && buf.subrange(0, 6) == magic()
}

/// Whether the datagram is a disco packet.
pub fn is_disco(buf: &[u8]) -> (r: bool)
    ensures
        r == has_magic(buf@),
{
    buf.len() >= 6 && bytes_eq(slice_subrange(buf, 0, 6), magic_bytes().as_slice())
}

/// A decoded incoming disco packet.
pub struct Incoming {
    pub sender_disco_pub: [u8; 32],
    pub msg_type: u8,
    pub txid: [u8; 12],
    /// For CALL-ME-MAYBE: the peer's IPv4 endpoints.
    pub endpoints: Vec<SocketAddr>,
}

/// What an `Incoming` holds.
pub struct IncomingState {
    pub sender_disco_pub: Seq<u8>,
    pub msg_type: u8,
    pub txid: Seq<u8>,
    pub endpoints: Seq<SocketAddr>,
}

impl View for Incoming {
    type V = IncomingState;

    open spec fn view(&self) -> IncomingState {
        IncomingState {
            sender_disco_pub: self.sender_disco_pub@,
            msg_type: self.msg_type,
            txid: self.txid@,
            endpoints: self.endpoints@,
        }
    }
}

/// Why a packet was refused.
#[derive(Clone, Copy, Debug, PartialEq, Eq, Structural)]
pub enum DiscoError {
    /// Too short, or without the magic.
    NotDisco,
    /// The box does not open.
    BadMac,
    /// The message is shorter than type, version and transaction id.
    TooShort,
}

/// An endpoint in 18 bytes: the 16-byte address, an IPv4 address as ::ffff:a.b.c.d,
/// and the port.
pub open spec fn addr_bytes(addr: SocketAddr) -> Seq<u8> {
    match addr {
        SocketAddr::V4(a) => zeros(10) + seq![0xffu8, 0xff] + a.ip.bytes() + be16(a.port as int),
        SocketAddr::V6(a) => be128(a.ip as int) + be16(a.port as int),
    }
}

/// The IPv4 endpoint in the 18 bytes `b`, if they hold one.
pub open spec fn addr_of(b: Seq<u8>) -> Option<SocketAddr> {
    if b.subrange(0, 12) == zeros(10) + seq![0xffu8, 0xff] {
        Some(
            v4(Ipv4Addr { a: b[12], b: b[13], c: b[14], d: b[15] }, get_be16(b, 16) as u16),
        )
    } else {
        None
    }
}

/// The IPv4 endpoints in a list of 18-byte entries; a short rest is left out.
pub open spec fn addrs_of(b: Seq<u8>) -> Seq<SocketAddr>
    decreases b.len(),
{
    if b.len() < 18 {
        Seq::empty()
    } else {
        let rest = addrs_of(b.subrange(18, b.len() as int));
        match addr_of(b.subrange(0, 18)) {
            Some(a) => seq![a] + rest,
            None => rest,
        }
    }
}

/// The entries for a list of endpoints.
pub open spec fn addr_list(eps: Seq<SocketAddr>) -> Seq<u8>
    decreases eps.len(),
{
    if eps.len() == 0 {
        Seq::empty()
    } else {
        addr_list(eps.drop_last()) + addr_bytes(eps.last())
    }
}

/// The PING message.
pub open spec fn ping_of(txid: Seq<u8>, node_pub: Seq<u8>) -> Seq<u8> {
    seq![PING, VERSION] + txid + node_pub
}

/// The PONG message.
pub open spec fn pong_of(txid: Seq<u8>, src: SocketAddr) -> Seq<u8> {
    seq![PONG, VERSION] + txid + addr_bytes(src)
}

/// The CALL-ME-MAYBE message.
pub open spec fn call_me_maybe_of(eps: Seq<SocketAddr>) -> Seq<u8> {
    seq![CALL_ME_MAYBE, VERSION] + addr_list(eps)
}

/// The packet that carries `msg` to the owner of `peer_pub`.
pub open spec fn wire_of(
    my_priv: Seq<u8>,
    my_pub: Seq<u8>,
    peer_pub: Seq<u8>,
    nonce: Seq<u8>,
    msg: Seq<u8>,
) -> Seq<u8> {
    magic() + my_pub + nonce + box_seal(my_priv, peer_pub, nonce, msg)
}

/// What the message `msg` of `sender` says.
pub open spec fn message_of(sender: Seq<u8>, msg: Seq<u8>) -> Result<IncomingState, DiscoError> {
    if msg.len() < 14 {
        Err(DiscoError::TooShort)
    } else {
        Ok(
            IncomingState {
                sender_disco_pub: sender,
                msg_type: msg[0],
                txid: msg.subrange(2, 14),
                endpoints: if msg[0] == CALL_ME_MAYBE {
                    addrs_of(msg.subrange(2, msg.len() as int))
                } else {
                    Seq::empty()
                },
            },
        )
    }
}

/// What the packet `wire` says to the owner of `my_priv`.
pub open spec fn packet_of(my_priv: Seq<u8>, wire: Seq<u8>) -> Result<IncomingState, DiscoError> {
    if wire.len() < HDR + 16 || !has_magic(wire) {
        Err(DiscoError::NotDisco)
    } else {
        match box_open(
            my_priv,
            wire.subrange(6, 38),
            wire.subrange(38, 62),
            wire.subrange(62, wire.len() as int),
        ) {
            None => Err(DiscoError::BadMac),
            Some(msg) => message_of(wire.subrange(6, 38), msg),
        }
    }
}

/// What the result of decoding holds.
pub open spec fn result_view(r: Result<Incoming, DiscoError>) -> Result<IncomingState, DiscoError> {
    match r {
        Ok(m) => Ok(m@),
        Err(e) => Err(e),
    }
}

/// The PING message: type, version, transaction id, the node's public key.
pub fn ping_plaintext(txid: &[u8; 12], node_pub: &[u8; 32]) -> (r: Vec<u8>)
    ensures
        r@ == ping_of(txid@, node_pub@),
{
    let mut p: Vec<u8> = Vec::new();
    p.push(PING);
    p.push(VERSION);
    append(&mut p, txid.as_slice());
    append(&mut p, node_pub.as_slice());
    assert(p@ =~= ping_of(txid@, node_pub@));
    p
}

/// The PONG message: type, version, transaction id, where the ping came from.
pub fn pong_plaintext(txid: &[u8; 12], src: SocketAddr) -> (r: Vec<u8>)
    ensures
        r@ == pong_of(txid@, src),
{
    let mut p: Vec<u8> = Vec::new();
    p.push(PONG);
    p.push(VERSION);
    append(&mut p, txid.as_slice());
    push_addr(&mut p, src);
    assert(p@ =~= pong_of(txid@, src));
    p
}

/// The CALL-ME-MAYBE message: type, version, the endpoints.
pub fn call_me_maybe_plaintext(eps: &[SocketAddr]) -> (r: Vec<u8>)
    ensures
        r@ == call_me_maybe_of(eps@),
{
    let mut p: Vec<u8> = Vec::new();
    p.push(CALL_ME_MAYBE);
    p.push(VERSION);
    assert(p@ =~= seq![CALL_ME_MAYBE, VERSION] + addr_list(eps@.subrange(0, 0)));
    let mut i: usize = 0;
    while i < eps.len()
        invariant
            i <= eps@.len(),
            p@ == seq![CALL_ME_MAYBE, VERSION] + addr_list(eps@.subrange(0, i as int)),
        decreases eps@.len() - i,
    {
        push_addr(&mut p, eps[i]);
        proof {
            let next = eps@.subrange(0, i + 1);
            assert(next.drop_last() =~= eps@.subrange(0, i as int));
            assert(next.last() == eps@[i as int]);
            assert(p@ =~= seq![CALL_ME_MAYBE, VERSION] + addr_list(next));
        }
        i = i + 1;
    }
    assert(eps@.subrange(0, i as int) =~= eps@);
    p
}

/// Seals a message with this nonce into a packet for the owner of
/// `peer_disco_pub`.
pub fn seal_with(
    my_disco_priv: &[u8; 32],
    my_disco_pub: &[u8; 32],
    peer_disco_pub: &[u8; 32],
    nonce: &[u8; 24],
    plaintext: &[u8],
) -> (r: Vec<u8>)
    ensures
        r@ == wire_of(my_disco_priv@, my_disco_pub@, peer_disco_pub@, nonce@, plaintext@),
        r@.len() == HDR + 16 + plaintext@.len(),
        has_magic(r@),
{
    let ct = salsa_encrypt(my_disco_priv, peer_disco_pub, nonce, plaintext).unwrap();
    let mut out: Vec<u8> = Vec::new();
    append(&mut out, magic_bytes().as_slice());
    append(&mut out, my_disco_pub.as_slice());
    append(&mut out, nonce.as_slice());
    append(&mut out, ct.as_slice());
    assert(out@ =~= wire_of(
        my_disco_priv@,
        my_disco_pub@,
        peer_disco_pub@,
        nonce@,
        plaintext@,
    ));
    assert(out@.subrange(0, 6) =~= magic());
    out
}

/// Seals a message with a random nonce into a packet for the owner of
/// `peer_disco_pub`. It fails where the system has no entropy to give, which
/// nothing here decides.
pub fn seal(
    my_disco_priv: &[u8; 32],
    my_disco_pub: &[u8; 32],
    peer_disco_pub: &[u8; 32],
    plaintext: &[u8],
) -> (r: Result<Vec<u8>, NoEntropy>)
    ensures
        r matches Ok(w) ==> exists|nonce: Seq<u8>|
            nonce.len() == 24 && w@ == #[trigger] wire_of(
                my_disco_priv@,
                my_disco_pub@,
                peer_disco_pub@,
                nonce,
                plaintext@,
            ),
        r matches Ok(w) ==> w@.len() == HDR + 16 + plaintext@.len() && has_magic(w@),
{
    match random24() {
        Ok(nonce) => {
            assert(nonce@.len() == 24);
            Ok(seal_with(my_disco_priv, my_disco_pub, peer_disco_pub, &nonce, plaintext))
        },
        Err(e) => Err(e),
    }
}

/// Decodes a message that came out of its box.
pub fn decode(sender: &[u8; 32], pt: &[u8]) -> (r: Result<Incoming, DiscoError>)
    ensures
        result_view(r) == message_of(sender@, pt@),
{
    if pt.len() < 14 {
        return Err(DiscoError::TooShort);
    }
    let txid = array_at(pt, 2, [0u8; 12]);
    let mut endpoints: Vec<SocketAddr> = Vec::new();
    let ghost list = pt@.subrange(2, pt@.len() as int);
    if pt[0] == CALL_ME_MAYBE {
        let n: usize = pt.len();
        let mut i: usize = 2;
        assert(addrs_of(list) =~= endpoints@ + addrs_of(pt@.subrange(2, n as int)));
        while n - i >= 18
            invariant
                2 <= i <= n,
                n == pt@.len(),
                addrs_of(list) == endpoints@ + addrs_of(pt@.subrange(i as int, n as int)),
            decreases n - i,
        {
            let ghost rest = pt@.subrange(i as int, n as int);
            let ghost was = endpoints@;
            assert(rest.subrange(18, rest.len() as int) =~= pt@.subrange(i + 18, n as int));
            assert(rest.subrange(0, 18) =~= pt@.subrange(i as int, i + 18));
            if let Some(a) = bytes_to_addr(slice_subrange(pt, i, i + 18)) {
                endpoints.push(a);
                assert(was + (seq![a] + addrs_of(pt@.subrange(i + 18, n as int)))
                    =~= endpoints@ + addrs_of(pt@.subrange(i + 18, n as int)));
            }
            i = i + 18;
        }
        assert(endpoints@ + Seq::<SocketAddr>::empty() =~= endpoints@);
    }
    assert(pt@[0] != CALL_ME_MAYBE ==> endpoints@ =~= Seq::empty());
    Ok(Incoming { sender_disco_pub: *sender, msg_type: pt[0], txid, endpoints })
}

/// Opens an incoming disco packet. What a peer sealed for this node comes out as
/// it went in.
pub fn open(my_disco_priv: &[u8; 32], wire: &[u8]) -> (r: Result<Incoming, DiscoError>)
    ensures
        result_view(r) == packet_of(my_disco_priv@, wire@),
        forall|a: Seq<u8>, nonce: Seq<u8>, msg: Seq<u8>|
            a.len() == 32 && x25519_base(a).len() == 32 && nonce.len() == 24 && wire@.len() == HDR
                + 16 + msg.len() && wire@ == #[trigger] wire_of(
                a,
                x25519_base(a),
                x25519_base(my_disco_priv@),
                nonce,
                msg,
            ) ==> result_view(r) == message_of(x25519_base(a), msg),
{
    if wire.len() < HDR + 16 || !is_disco(wire) {
        proof {
            assert forall|a: Seq<u8>, nonce: Seq<u8>, msg: Seq<u8>|
                a.len() == 32 && x25519_base(a).len() == 32 && nonce.len() == 24 && wire@.len()
                    == HDR + 16 + msg.len() && wire@ == #[trigger] wire_of(
                    a,
                    x25519_base(a),
                    x25519_base(my_disco_priv@),
                    nonce,
                    msg,
                ) implies false by {
                assert(wire@.subrange(0, 6) =~= magic());
            }
        }
        return Err(DiscoError::NotDisco);
    }
    let sender = array32(wire, 6);
    let nonce = array_at(wire, 38, [0u8; 24]);
    let got = salsa_decrypt(
        my_disco_priv,
        &sender,
        &nonce,
        slice_subrange(wire, HDR, wire.len()),
    );
    proof {
        assert forall|a: Seq<u8>, n: Seq<u8>, msg: Seq<u8>|
            a.len() == 32 && x25519_base(a).len() == 32 && n.len() == 24 && wire@.len() == HDR + 16
                + msg.len() && wire@ == #[trigger] wire_of(
                a,
                x25519_base(a),
                x25519_base(my_disco_priv@),
                n,
                msg,
            ) implies got is Some && got->0@ == msg && sender@ == x25519_base(a) by {
            let b = box_seal(a, x25519_base(my_disco_priv@), n, msg);
            assert(wire@.subrange(6, 38) =~= x25519_base(a));
            assert(wire@.subrange(38, 62) =~= n);
            assert(wire@.subrange(62, wire@.len() as int) =~= b);
        }
    }
    match got {
        None => Err(DiscoError::BadMac),
        Some(pt) => decode(&sender, pt.as_slice()),
    }
}

/// The IPv4 endpoint in 18 bytes, if they hold one.
fn bytes_to_addr(b: &[u8]) -> (r: Option<SocketAddr>)
    requires
        b@.len() == 18,
    ensures
        r == addr_of(b@),
{
    let mut i: usize = 0;
    while i < 10
        invariant
            i <= 10,
            b@.len() == 18,
            forall|k: int| 0 <= k < i ==> b@[k] == 0,
        decreases 10 - i,
    {
        if b[i] != 0 {
            assert(b@.subrange(0, 12)[i as int] != 0);
            assert((zeros(10) + seq![0xffu8, 0xff])[i as int] == 0);
            return None;
        }
        i = i + 1;
    }
    if b[10] == 0xff && b[11] == 0xff {
        assert(b@.subrange(0, 12) =~= zeros(10) + seq![0xffu8, 0xff]);
        return Some(
            SocketAddr::new_v4(Ipv4Addr::new(b[12], b[13], b[14], b[15]), read_be16(b, 16)),
        );
    }
    proof {
        let s = zeros(10) + seq![0xffu8, 0xff];
        assert(s[10] == 0xff && s[11] == 0xff);
        assert(b@.subrange(0, 12)[10] == b@[10] && b@.subrange(0, 12)[11] == b@[11]);
    }
    None
}

/// Appends an endpoint in 18 bytes.
fn push_addr(v: &mut Vec<u8>, addr: SocketAddr)
    ensures
        final(v)@ == old(v)@ + addr_bytes(addr),
{
    match addr {
        SocketAddr::V4(a) => {
            append_zeros(v, 10);
            v.push(0xff);
            v.push(0xff);
            push_ipv4(v, a.ip);
            push_be16(v, a.port);
        },
        SocketAddr::V6(a) => {
            push_be128(v, a.ip);
            push_be16(v, a.port);
        },
    }
    assert(v@ =~= old(v)@ + addr_bytes(addr));
}

/// A ping says what was put in it.
pub proof fn law_ping_roundtrip(sender: Seq<u8>, txid: Seq<u8>, node_pub: Seq<u8>)
    requires
        txid.len() == 12,
    ensures
        message_of(sender, ping_of(txid, node_pub)) == Ok::<IncomingState, DiscoError>(
            IncomingState {
                sender_disco_pub: sender,
                msg_type: PING,
                txid,
                endpoints: Seq::empty(),
            },
        ),
{
    assert(ping_of(txid, node_pub).subrange(2, 14) =~= txid);
}

/// A pong carries the transaction id of the ping that it answers.
pub proof fn law_pong_roundtrip(sender: Seq<u8>, txid: Seq<u8>, src: SocketAddr)
    requires
        txid.len() == 12,
    ensures
        message_of(sender, pong_of(txid, src)) == Ok::<IncomingState, DiscoError>(
            IncomingState {
                sender_disco_pub: sender,
                msg_type: PONG,
                txid,
                endpoints: Seq::empty(),
            },
        ),
{
    assert(pong_of(txid, src).subrange(2, 14) =~= txid);
}

/// An IPv4 endpoint comes back from its 18 bytes.
proof fn lemma_addr_roundtrip(addr: SocketAddr)
    requires
        addr is V4,
    ensures
        addr_bytes(addr).len() == 18,
        addr_of(addr_bytes(addr)) == Some(addr),
{
    let b = addr_bytes(addr);
    assert(b.subrange(0, 12) =~= zeros(10) + seq![0xffu8, 0xff]);
    let port = addr->V4_0.port;
    assert(b.subrange(16, 18) =~= be16(port as int));
    lemma_get_be16(b, 16, port as int);
}

/// Whether an IPv6 address stands for an IPv4 address: ::ffff:a.b.c.d.
pub open spec fn is_mapped(addr: SocketAddr) -> bool {
    addr matches SocketAddr::V6(a) && a.ip as int / 4294967296 == 0xffff
}

/// The IPv4 endpoints of a list, in their order.
pub open spec fn only_v4(eps: Seq<SocketAddr>) -> Seq<SocketAddr>
    decreases eps.len(),
{
    if eps.len() == 0 {
        Seq::empty()
    } else if eps.last() is V4 {
        only_v4(eps.drop_last()).push(eps.last())
    } else {
        only_v4(eps.drop_last())
    }
}

/// An IPv6 endpoint, other than one that stands for an IPv4 endpoint, does not read as one.
proof fn lemma_v6_left_out(addr: SocketAddr)
    requires
        addr is V6,
        !is_mapped(addr),
    ensures
        addr_bytes(addr).len() == 18,
        addr_of(addr_bytes(addr)) is None,
{
    let b = addr_bytes(addr);
    let n = addr->V6_0.ip as int;
    let hi = n / 18446744073709551616;
    let lo = n % 18446744073709551616;
    if addr_of(b) is Some {
        let w = b.subrange(0, 12);
        assert(w == zeros(10) + seq![0xffu8, 0xff]);
        assert forall|k: int| 0 <= k < 12 implies #[trigger] b[k] == if k < 10 {
            0u8
        } else {
            0xffu8
        } by {
            assert(b[k] == w[k]);
        }
        assert(b.subrange(0, 4) =~= be32(hi / 4294967296));
        assert(b.subrange(4, 8) =~= be32(hi % 4294967296));
        assert(b.subrange(8, 12) =~= be32(lo / 4294967296));
        lemma_get_be32(b, 0, hi / 4294967296);
        lemma_get_be32(b, 4, hi % 4294967296);
        lemma_get_be32(b, 8, lo / 4294967296);
        assert(hi == 0);
        assert(n / 4294967296 == 0xffff);
    }
}

/// The IPv4 endpoints come back from a list.
proof fn lemma_addrs_roundtrip(eps: Seq<SocketAddr>, tail: Seq<u8>)
    requires
        forall|i: int| 0 <= i < eps.len() ==> !is_mapped(#[trigger] eps[i]),
    ensures
        addrs_of(addr_list(eps) + tail) == only_v4(eps) + addrs_of(tail),
    decreases eps.len(),
{
    if eps.len() == 0 {
        assert(addr_list(eps) + tail =~= tail);
        assert(only_v4(eps) + addrs_of(tail) =~= addrs_of(tail));
    } else {
        let last = eps.last();
        let b = addr_bytes(last);
        assert(!is_mapped(eps[eps.len() - 1]));
        if last is V4 {
            lemma_addr_roundtrip(last);
        } else {
            lemma_v6_left_out(last);
        }
        lemma_addrs_roundtrip(eps.drop_last(), b + tail);
        assert(addr_list(eps) + tail =~= addr_list(eps.drop_last()) + (b + tail));
        assert((b + tail).subrange(0, 18) =~= b);
        assert((b + tail).subrange(18, (b + tail).len() as int) =~= tail);
        if last is V4 {
            assert(only_v4(eps.drop_last()) + (seq![last] + addrs_of(tail)) =~= only_v4(eps)
                + addrs_of(tail));
        }
    }
}

/// A call-me-maybe lists the IPv4 endpoints that were put in it, in their order, and leaves
/// the IPv6 endpoints out. (One with no endpoint at all is too short to be taken, and an IPv6
/// endpoint that stands for an IPv4 endpoint comes back as that.)
pub proof fn law_call_me_maybe_roundtrip(sender: Seq<u8>, eps: Seq<SocketAddr>)
    requires
        eps.len() > 0,
        forall|i: int| 0 <= i < eps.len() ==> !is_mapped(#[trigger] eps[i]),
    ensures
        message_of(sender, call_me_maybe_of(eps)) matches Ok(m) && {
            &&& m.sender_disco_pub == sender
            &&& m.msg_type == CALL_ME_MAYBE
            &&& m.endpoints == only_v4(eps)
        },
{
    let msg = call_me_maybe_of(eps);
    assert(!is_mapped(eps[eps.len() - 1]));
    if eps.last() is V4 {
        lemma_addr_roundtrip(eps.last());
    } else {
        lemma_v6_left_out(eps.last());
    }
    lemma_addrs_roundtrip(eps, Seq::empty());
    assert(msg.subrange(2, msg.len() as int) =~= addr_list(eps));
    assert(addr_list(eps) + Seq::<u8>::empty() =~= addr_list(eps));
    assert(only_v4(eps) + Seq::<SocketAddr>::empty() =~= only_v4(eps));
}

} // verus!
