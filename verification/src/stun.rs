//! A minimal STUN Binding client (RFC 5389), just enough to learn the node's
//! public address: it builds a Binding Request and finds XOR-MAPPED-ADDRESS in the
//! response, or, where it holds none, the legacy MAPPED-ADDRESS.
use vstd::prelude::*;
use vstd::slice::slice_subrange;
use crate::bytes::{
    append, array_at, be16, be32, bytes_eq, get_be16, get_be32, law_be16_roundtrip,
    law_be32_roundtrip, lemma_get_be16, push_be16, push_be32, read_be16, read_be32,
};
use crate::net::{ipv4_from, ipv4_from_number, law_ipv4_number_roundtrip, SocketAddrV4};
use crate::rng::{random12, NoEntropy};

verus! {

broadcast use crate::bytes::group_lengths;

pub const MAGIC_COOKIE: u32 = 0x2112_A442;

/// The upper half of the magic cookie, which masks a port.
pub const COOKIE_HIGH: u16 = 0x2112;

pub const BINDING_REQUEST: u16 = 0x0001;

pub const BINDING_RESPONSE: u16 = 0x0101;

pub const ATTR_MAPPED_ADDRESS: u16 = 0x0001;

pub const ATTR_XOR_MAPPED_ADDRESS: u16 = 0x0020;

/// Why a Binding Response was refused.
#[derive(Clone, Copy, Debug, PartialEq, Eq, Structural)]
pub enum StunError {
    /// Shorter than a STUN header.
    TooShort(usize),
    /// Another message type.
    NotResponse(u16),
    /// Another magic cookie.
    BadCookie(u32),
    /// The answer to another request.
    TxidMismatch,
    /// No usable address attribute.
    NoAddress,
}

/// The Binding Request with this transaction id.
pub open spec fn request_bytes(txid: Seq<u8>) -> Seq<u8> {
    be16(BINDING_REQUEST as int) + be16(0) + be32(MAGIC_COOKIE as int) + txid
}

/// Builds the Binding Request with this transaction id.
pub fn binding_request_with(txid: &[u8; 12]) -> (r: [u8; 20])
    ensures
        r@ == request_bytes(txid@),
{
    let mut v: Vec<u8> = Vec::new();
    push_be16(&mut v, BINDING_REQUEST);
    push_be16(&mut v, 0);
    push_be32(&mut v, MAGIC_COOKIE);
    append(&mut v, txid.as_slice());
    let r = array_at(v.as_slice(), 0, [0u8; 20]);
    assert(r@ =~= request_bytes(txid@));
    r
}

/// A Binding Request with a random transaction id, and that id, by which the
/// response is recognised. It fails where the system has no entropy to give, which
/// nothing here decides.
pub fn binding_request() -> (r: Result<([u8; 20], [u8; 12]), NoEntropy>)
    ensures
        r matches Ok(p) ==> p.0@ == request_bytes(p.1@),
{
    match random12() {
        Ok(txid) => Ok((binding_request_with(&txid), txid)),
        Err(e) => Err(e),
    }
}

/// The IPv4 address in a MAPPED-ADDRESS value, or in an XOR-MAPPED-ADDRESS value
/// with the mask taken off.
pub open spec fn attr_addr(atype: u16, val: Seq<u8>) -> Option<SocketAddrV4> {
    if val.len() < 8 || val[1] != 0x01 {
        None
    } else {
        let port = get_be16(val, 2) as u16;
        let addr = get_be32(val, 4) as u32;
        if atype == ATTR_XOR_MAPPED_ADDRESS {
            Some(
                SocketAddrV4 {
                    ip: ipv4_from((addr ^ MAGIC_COOKIE) as int),
                    port: port ^ COOKIE_HIGH,
                },
            )
        } else if atype == ATTR_MAPPED_ADDRESS {
            Some(SocketAddrV4 { ip: ipv4_from(addr as int), port })
        } else {
            None
        }
    }
}

/// How far an attribute value of this length is padded.
pub open spec fn padding(alen: int) -> int {
    (4 - alen % 4) % 4
}

/// The first usable address in an attribute of type `atype` among the attributes from `i`
/// up to `end`. An attribute that runs over the end stops the search.
pub open spec fn first_addr(buf: Seq<u8>, atype: u16, i: int, end: int) -> Option<SocketAddrV4>
    decreases end + 3 - i,
{
    if i < 0 || i + 4 > end || end > buf.len() {
        None
    } else {
        let alen = get_be16(buf, i + 2);
        if i + 4 + alen > end {
            None
        } else if get_be16(buf, i) == atype && attr_addr(
            atype,
            buf.subrange(i + 4, i + 4 + alen),
        ) is Some {
            attr_addr(atype, buf.subrange(i + 4, i + 4 + alen))
        } else {
            first_addr(buf, atype, i + 4 + alen + padding(alen), end)
        }
    }
}

/// The address that the attributes report: the first usable XOR-MAPPED-ADDRESS, and only
/// where there is none the first usable MAPPED-ADDRESS.
pub open spec fn mapped_addr(buf: Seq<u8>, end: int) -> Option<SocketAddrV4> {
    match first_addr(buf, ATTR_XOR_MAPPED_ADDRESS, 20, end) {
        Some(a) => Some(a),
        None => first_addr(buf, ATTR_MAPPED_ADDRESS, 20, end),
    }
}

/// Where the attributes of the message end: where its length field says, or where
/// the datagram does.
pub open spec fn attrs_end(buf: Seq<u8>) -> int {
    if 20 + get_be16(buf, 2) <= buf.len() {
        20 + get_be16(buf, 2)
    } else {
        buf.len() as int
    }
}

/// What a Binding Response to the request `txid` says.
pub open spec fn response_of(buf: Seq<u8>, txid: Seq<u8>) -> Result<SocketAddrV4, StunError> {
    if buf.len() < 20 {
        Err(StunError::TooShort(buf.len() as usize))
    } else if get_be16(buf, 0) != BINDING_RESPONSE {
        Err(StunError::NotResponse(get_be16(buf, 0) as u16))
    } else if get_be32(buf, 4) != MAGIC_COOKIE {
        Err(StunError::BadCookie(get_be32(buf, 4) as u32))
    } else if buf.subrange(8, 20) != txid {
        Err(StunError::TxidMismatch)
    } else {
        match mapped_addr(buf, attrs_end(buf)) {
            Some(a) => Ok(a),
            None => Err(StunError::NoAddress),
        }
    }
}

/// Parses a Binding Response: the public IPv4 address that it reports. The legacy
/// MAPPED-ADDRESS counts only where no XOR-MAPPED-ADDRESS is usable.
pub fn parse_response(buf: &[u8], txid: &[u8; 12]) -> (r: Result<SocketAddrV4, StunError>)
    ensures
        r == response_of(buf@, txid@),
{
    if buf.len() < 20 {
        return Err(StunError::TooShort(buf.len()));
    }
    let msg_type: u16 = read_be16(buf, 0);
    if msg_type != BINDING_RESPONSE {
        return Err(StunError::NotResponse(msg_type));
    }
    let cookie: u32 = read_be32(buf, 4);
    if cookie != MAGIC_COOKIE {
        return Err(StunError::BadCookie(cookie));
    }
    if !bytes_eq(slice_subrange(buf, 8, 20), txid.as_slice()) {
        return Err(StunError::TxidMismatch);
    }
    let stated: usize = 20 + read_be16(buf, 2) as usize;
    let end: usize = if stated <= buf.len() {
        stated
    } else {
        buf.len()
    };
    let mut fallback: Option<SocketAddrV4> = None;
    let mut i: usize = 20;
    while i + 4 <= end
        invariant
            20 <= i <= end + 3,
            end <= buf@.len(),
            end <= 65555,
            first_addr(buf@, ATTR_XOR_MAPPED_ADDRESS, 20, end as int) == first_addr(
                buf@,
                ATTR_XOR_MAPPED_ADDRESS,
                i as int,
                end as int,
            ),
            first_addr(buf@, ATTR_MAPPED_ADDRESS, 20, end as int) == match fallback {
                Some(a) => Some(a),
                None => first_addr(buf@, ATTR_MAPPED_ADDRESS, i as int, end as int),
            },
            end == attrs_end(buf@),
            response_of(buf@, txid@) == (match mapped_addr(buf@, end as int) {
                Some(a) => Ok::<SocketAddrV4, StunError>(a),
                None => Err(StunError::NoAddress),
            }),
        decreases end + 4 - i,
    {
        let atype: u16 = read_be16(buf, i);
        let alen: usize = read_be16(buf, i + 2) as usize;
        let val_start: usize = i + 4;
        let val_end: usize = val_start + alen;
        if val_end > end {
            return match fallback {
                Some(addr) => Ok(addr),
                None => Err(StunError::NoAddress),
            };
        }
        let found = parse_attr(atype, slice_subrange(buf, val_start, val_end));
        if let Some(addr) = found {
            if atype == ATTR_XOR_MAPPED_ADDRESS {
                return Ok(addr);
            }
            if fallback.is_none() {
                fallback = Some(addr);
            }
        }
        i = val_end + (4 - alen % 4) % 4;
    }
    match fallback {
        Some(addr) => Ok(addr),
        None => Err(StunError::NoAddress),
    }
}

/// The address in one attribute: XOR-MAPPED-ADDRESS (masked with the magic cookie)
/// or the legacy MAPPED-ADDRESS, IPv4 only.
pub fn parse_attr(atype: u16, val: &[u8]) -> (r: Option<SocketAddrV4>)
    ensures
        r == attr_addr(atype, val@),
{
    if atype == ATTR_XOR_MAPPED_ADDRESS {
        parse_xor_mapped(val)
    } else if atype == ATTR_MAPPED_ADDRESS {
        parse_mapped(val)
    } else {
        None
    }
}

/// XOR-MAPPED-ADDRESS: port and address are masked with the magic cookie.
pub fn parse_xor_mapped(val: &[u8]) -> (r: Option<SocketAddrV4>)
    ensures
        r == attr_addr(ATTR_XOR_MAPPED_ADDRESS, val@),
{
    if val.len() < 8 || val[1] != 0x01 {
        return None;
    }
    let port: u16 = read_be16(val, 2) ^ COOKIE_HIGH;
    let addr: u32 = read_be32(val, 4) ^ MAGIC_COOKIE;
    Some(SocketAddrV4 { ip: ipv4_from_number(addr), port })
}

/// Legacy MAPPED-ADDRESS: port and address in the clear.
pub fn parse_mapped(val: &[u8]) -> (r: Option<SocketAddrV4>)
    ensures
        r == attr_addr(ATTR_MAPPED_ADDRESS, val@),
{
    if val.len() < 8 || val[1] != 0x01 {
        return None;
    }
    let port: u16 = read_be16(val, 2);
    let addr: u32 = read_be32(val, 4);
    Some(SocketAddrV4 { ip: ipv4_from_number(addr), port })
}

/// Whether the magic cookie stands where a STUN message has it.
pub open spec fn looks_like_stun(buf: Seq<u8>) -> bool {
    buf.len() >= 8 && get_be32(buf, 4) == MAGIC_COOKIE
}

/// Whether `buf` looks like a STUN message.
pub fn is_stun(buf: &[u8]) -> (r: bool)
    ensures
        r == looks_like_stun(buf@),
{
    buf.len() >= 8 && read_be32(buf, 4) == MAGIC_COOKIE
}

/// The Binding Response that a server sends to the request `txid` which came from
/// `addr`.
pub open spec fn response_bytes(txid: Seq<u8>, addr: SocketAddrV4) -> Seq<u8> {
    be16(BINDING_RESPONSE as int) + be16(12) + be32(MAGIC_COOKIE as int) + txid + be16(
        ATTR_XOR_MAPPED_ADDRESS as int,
    ) + be16(8) + seq![0u8, 1] + be16((addr.port ^ COOKIE_HIGH) as int) + be32(
        (addr.ip.number() as u32 ^ MAGIC_COOKIE) as int,
    )
}

/// What a response made of these fields says.
proof fn lemma_response_fields(cookie: Seq<u8>, txid: Seq<u8>, port: Seq<u8>, addr: Seq<u8>)
    requires
        cookie.len() == 4,
        get_be32(cookie, 0) == MAGIC_COOKIE,
        txid.len() == 12,
        port.len() == 2,
        addr.len() == 4,
    ensures
        ({
            let buf = be16(BINDING_RESPONSE as int) + be16(12) + cookie + txid + be16(
                ATTR_XOR_MAPPED_ADDRESS as int,
            ) + be16(8) + seq![0u8, 1] + port + addr;
            &&& looks_like_stun(buf)
            &&& response_of(buf, txid) == Ok::<SocketAddrV4, StunError>(
                SocketAddrV4 {
                    ip: ipv4_from((get_be32(addr, 0) as u32 ^ MAGIC_COOKIE) as int),
                    port: get_be16(port, 0) as u16 ^ COOKIE_HIGH,
                },
            )
        }),
{
    let buf = be16(BINDING_RESPONSE as int) + be16(12) + cookie + txid + be16(
        ATTR_XOR_MAPPED_ADDRESS as int,
    ) + be16(8) + seq![0u8, 1] + port + addr;
    assert(get_be32(buf, 4) == get_be32(cookie, 0));
    assert(buf.subrange(0, 2) =~= be16(BINDING_RESPONSE as int));
    lemma_get_be16(buf, 0, BINDING_RESPONSE as int);
    assert(buf.subrange(2, 4) =~= be16(12));
    lemma_get_be16(buf, 2, 12);
    assert(buf.subrange(8, 20) =~= txid);
    assert(buf.subrange(20, 22) =~= be16(ATTR_XOR_MAPPED_ADDRESS as int));
    lemma_get_be16(buf, 20, ATTR_XOR_MAPPED_ADDRESS as int);
    assert(buf.subrange(22, 24) =~= be16(8));
    lemma_get_be16(buf, 22, 8);
    let val = buf.subrange(24, 32);
    assert(val.len() == 8 && val[1] == 1);
    assert(get_be16(val, 2) == get_be16(port, 0));
    assert(get_be32(val, 4) == get_be32(addr, 0));
    assert(attr_addr(ATTR_XOR_MAPPED_ADDRESS, val) is Some);
    assert(first_addr(buf, ATTR_XOR_MAPPED_ADDRESS, 20, 32) == attr_addr(ATTR_XOR_MAPPED_ADDRESS, val));
}

/// The address that a server reports in its answer to a request is the address
/// that comes out.
pub proof fn law_response_roundtrip(txid: Seq<u8>, addr: SocketAddrV4)
    requires
        txid.len() == 12,
    ensures
        response_of(response_bytes(txid, addr), txid) == Ok::<SocketAddrV4, StunError>(addr),
        looks_like_stun(response_bytes(txid, addr)),
{
    let n = addr.ip.number() as u32;
    let port = addr.port;
    law_ipv4_number_roundtrip(addr.ip);
    assert((n ^ MAGIC_COOKIE) ^ MAGIC_COOKIE == n) by (bit_vector);
    assert((port ^ COOKIE_HIGH) ^ COOKIE_HIGH == port) by (bit_vector);
    law_be16_roundtrip((port ^ COOKIE_HIGH) as int);
    law_be32_roundtrip((n ^ MAGIC_COOKIE) as int);
    law_be32_roundtrip(MAGIC_COOKIE as int);
    lemma_response_fields(
        be32(MAGIC_COOKIE as int),
        txid,
        be16((port ^ COOKIE_HIGH) as int),
        be32((n ^ MAGIC_COOKIE) as int),
    );
}

} // verus!
