//! A minimal HTTP/2 client inside the ts2021 Noise tunnel: one SETTINGS exchange, then
//! one-shot POSTs and one long-poll stream. Header fields are literal, without indexing
//! and without Huffman coding.
//!
//! What is still to come on a session is described by the plaintext of the records that
//! the connection will still deliver; what goes out, by the records that carry it.
use vstd::prelude::*;
use vstd::slice::slice_subrange;
use vstd::string::{is_ascii, is_ascii_spec_bytes, StringSliceAdditionalSpecFns};
use vstd::utf8::encode_utf8;
use crate::bytes::{append, be32, bytes_eq, copy_range, get_be32, push_be32, read_be32, starts_with};
use crate::noise::{record_of, sealed, unsealed, NoiseError, Transport, MSG_ERROR, MSG_RECORD};
use crate::platform::{
    follows, lemma_with_write, rest, with_write, write_on, written, wrote_first, wrote_on, ByteStream,
    StreamOp,
};
use crate::text::{
    dec, law_number_roundtrip, lemma_dec_len, number_of, parse_number, push_dec, ten_to,
};
use crate::transport::{frame_len, frame_payload, has_frame, Conn, ConnError};

verus! {

broadcast use crate::bytes::group_lengths;

pub const FT_DATA: u8 = 0x0;

pub const FT_HEADERS: u8 = 0x1;

pub const FT_SETTINGS: u8 = 0x4;

pub const FT_GOAWAY: u8 = 0x7;

pub const FT_WINDOW_UPDATE: u8 = 0x8;

pub const FL_END_STREAM: u8 = 0x1;

pub const FL_ACK: u8 = 0x1;

pub const FL_END_HEADERS: u8 = 0x4;

/// The longest plaintext of one record.
pub const CHUNK: usize = 2048;

/// Why a session failed.
#[derive(Debug)]
pub enum H2Error {
    /// The connection failed.
    Conn(ConnError),
    /// A record failed.
    Noise(NoiseError),
    /// The server reported an error.
    Control(Vec<u8>),
    /// The server sent a frame of another type.
    Unexpected(u8),
    /// The server goes away; this is the status so far.
    Goaway(u16),
    /// The server closed the stream.
    StreamClosed,
    /// The server closed the stream with its headers.
    HeadersClosed,
}

// --- what goes out ---

/// What a session has sent: the bytes on the stream, and the number of records.
pub struct Out {
    pub sent: Seq<u8>,
    pub count: int,
}

/// How many records carry `len` bytes.
pub open spec fn chunks(len: int) -> int {
    (len + CHUNK - 1) / (CHUNK as int)
}

/// The records that carry `data`, from the nonce `count` on.
pub open spec fn records(data: Seq<u8>, key: Seq<u8>, count: int) -> Seq<u8>
    decreases data.len(),
{
    if data.len() == 0 {
        Seq::empty()
    } else if data.len() <= CHUNK {
        record_of(sealed(key, count as u64, data))
    } else {
        record_of(sealed(key, count as u64, data.subrange(0, CHUNK as int))) + records(
            rest(data, CHUNK as int),
            key,
            count + 1,
        )
    }
}

impl Out {
    /// After `data` was sent.
    pub open spec fn push(self, key: Seq<u8>, data: Seq<u8>) -> Out {
        Out {
            sent: self.sent + records(data, key, self.count),
            count: self.count + chunks(data.len() as int),
        }
    }
}

/// A frame: 24-bit length, type, flags, stream, payload.
pub open spec fn frame_of(typ: u8, flags: u8, stream_id: u32, payload: Seq<u8>) -> Seq<u8> {
    seq![
        ((payload.len() / 65536) % 256) as u8,
        ((payload.len() / 256) % 256) as u8,
        (payload.len() % 256) as u8,
        typ,
        flags,
    ] + be32(stream_id as int % 0x8000_0000) + payload
}

/// A length in the 7-bit prefix coding: below 127 in one byte, else 127 and the rest in
/// groups of seven bits, least significant first.
pub open spec fn varint(n: nat) -> Seq<u8>
    decreases n,
{
    if n < 128 {
        seq![n as u8]
    } else {
        seq![(n % 128 + 128) as u8] + varint(n / 128)
    }
}

/// A string with its length in front.
pub open spec fn str_of(s: Seq<u8>) -> Seq<u8> {
    (if s.len() < 127 {
        seq![s.len() as u8]
    } else {
        seq![127u8] + varint((s.len() - 127) as nat)
    }) + s
}

/// A literal header field without indexing.
pub open spec fn header_of(name: Seq<u8>, value: Seq<u8>) -> Seq<u8> {
    seq![0u8] + str_of(name) + str_of(value)
}

/// The header block of a POST.
pub open spec fn headers_of(authority: Seq<char>, path: Seq<char>, len: nat) -> Seq<u8> {
    header_of(encode_utf8(":method"@), encode_utf8("POST"@)) + header_of(
        encode_utf8(":scheme"@),
        encode_utf8("http"@),
    ) + header_of(encode_utf8(":authority"@), encode_utf8(authority)) + header_of(
        encode_utf8(":path"@),
        encode_utf8(path),
    ) + header_of(encode_utf8("content-type"@), encode_utf8("application/json"@)) + header_of(
        encode_utf8("content-length"@),
        dec(len),
    ) + header_of(encode_utf8("accept"@), encode_utf8("application/json"@))
}

/// A POST: its headers and its body.
pub open spec fn post_of(authority: Seq<char>, path: Seq<char>, stream_id: u32, body: Seq<u8>) -> Seq<
    u8,
> {
    frame_of(FT_HEADERS, FL_END_HEADERS, stream_id, headers_of(authority, path, body.len()))
        + frame_of(FT_DATA, FL_END_STREAM, stream_id, body)
}

/// The client preface and the client's settings: no push, frames of at most 16384 bytes.
pub open spec fn hello_of() -> Seq<u8> {
    encode_utf8("PRI * HTTP/2.0\r\n\r\nSM\r\n\r\n"@) + frame_of(
        FT_SETTINGS,
        0,
        0,
        seq![0u8, 2, 0, 0, 0, 0, 0, 5, 0, 0, 0x40, 0],
    )
}

/// The acknowledgement of the server's settings.
pub open spec fn settings_ack() -> Seq<u8> {
    frame_of(FT_SETTINGS, FL_ACK, 0, Seq::empty())
}

/// A window update.
pub open spec fn window_of(stream_id: u32, inc: int) -> Seq<u8> {
    frame_of(FT_WINDOW_UPDATE, 0, stream_id, be32(inc))
}

// --- what comes in ---

/// The plaintext of the records at the beginning of `s`, from the nonce `count` on, up to
/// the first thing that is no record that opens.
pub open spec fn plain(s: Seq<u8>, key: Seq<u8>, count: u64) -> Seq<u8>
    decreases s.len(),
{
    if !has_frame(s) || s[0] != MSG_RECORD || count == u64::MAX || frame_len(s) < 0 {
        Seq::empty()
    } else {
        match unsealed(key, count, frame_payload(s)) {
            None => Seq::empty(),
            Some(pt) => pt + plain(rest(s, 3 + frame_len(s)), key, (count + 1) as u64),
        }
    }
}

/// One frame.
pub struct Frame {
    pub typ: u8,
    pub flags: u8,
    pub stream_id: u32,
    pub payload: Vec<u8>,
}

/// What a `Frame` holds.
pub struct FrameState {
    pub typ: u8,
    pub flags: u8,
    pub stream_id: u32,
    pub payload: Seq<u8>,
}

impl View for Frame {
    type V = FrameState;

    open spec fn view(&self) -> FrameState {
        FrameState {
            typ: self.typ,
            flags: self.flags,
            stream_id: self.stream_id,
            payload: self.payload@,
        }
    }
}

/// The payload length that the frame at the beginning of `s` announces.
pub open spec fn body_len(s: Seq<u8>) -> int {
    s[0] * 65536 + s[1] * 256 + s[2]
}

/// Whether a whole frame stands at the beginning of `s`.
pub open spec fn whole(s: Seq<u8>) -> bool {
    s.len() >= 9 && s.len() >= 9 + body_len(s)
}

/// The frame at the beginning of `s`.
pub open spec fn frame_at(s: Seq<u8>) -> FrameState {
    FrameState {
        typ: s[3],
        flags: s[4],
        stream_id: (get_be32(s, 5) % 0x8000_0000) as u32,
        payload: s.subrange(9, 9 + body_len(s)),
    }
}

/// What follows the frame at the beginning of `s`.
pub open spec fn after_frame(s: Seq<u8>) -> Seq<u8> {
    rest(s, 9 + body_len(s))
}

/// A frame that was built reads back as it is.
pub proof fn law_frame_roundtrip(typ: u8, flags: u8, stream_id: u32, payload: Seq<u8>, after: Seq<u8>)
    requires
        payload.len() < 16777216,
        stream_id < 0x8000_0000,
    ensures
        ({
            let s = frame_of(typ, flags, stream_id, payload) + after;
            &&& whole(s)
            &&& frame_at(s) == (FrameState { typ, flags, stream_id, payload })
            &&& after_frame(s) == after
        }),
{
    let s = frame_of(typ, flags, stream_id, payload) + after;
    let n = payload.len() as int;
    assert(body_len(s) == n) by {
        assert(s[0] == ((n / 65536) % 256) as u8 && s[1] == ((n / 256) % 256) as u8 && s[2] == (n
            % 256) as u8);
        assert(n / 256 == (n / 65536) * 256 + (n / 256) % 256);
    }
    assert(s.subrange(5, 9) =~= be32(stream_id as int));
    crate::bytes::lemma_get_be32(s, 5, stream_id as int);
    assert(frame_at(s).payload =~= payload);
    assert(after_frame(s) =~= after);
}

/// The five bytes before an early payload.
pub open spec fn early_magic() -> Seq<u8> {
    seq![0xffu8, 0xff, 0xff, 0x54, 0x53]
}

/// What begins a session on the server's side: an optional early payload. `None` where
/// not enough came.
pub open spec fn early_of(s: Seq<u8>) -> Option<(Option<Seq<u8>>, Seq<u8>)> {
    if s.len() < 9 {
        None
    } else if s.subrange(0, 5) == early_magic() {
        let n = get_be32(s, 5);
        if s.len() < 9 + n {
            None
        } else {
            Some((Some(s.subrange(9, 9 + n)), rest(s, 9 + n)))
        }
    } else {
        Some((None, s))
    }
}

/// How the wait for the server's settings ends.
pub enum Settled {
    /// Not enough came.
    Short,
    /// The server goes away.
    Goaway,
    /// The settings came, with these flags, and this follows.
    Done { flags: u8, after: Seq<u8> },
}

/// How the wait for the server's settings ends.
pub open spec fn settled(s: Seq<u8>) -> Settled
    decreases s.len(),
{
    if !whole(s) || body_len(s) < 0 {
        Settled::Short
    } else {
        let f = frame_at(s);
        if f.typ == FT_SETTINGS {
            Settled::Done { flags: f.flags, after: after_frame(s) }
        } else if f.typ == FT_GOAWAY {
            Settled::Goaway
        } else {
            settled(after_frame(s))
        }
    }
}

/// How a read of streamed data ends.
pub enum Streamed {
    Short,
    Goaway,
    StreamClosed,
    HeadersClosed,
    /// This payload came, and this follows.
    Data { payload: Seq<u8>, after: Seq<u8> },
}

/// How a read of data on the stream ends, and what went out by then: settings are
/// acknowledged, and the window is given back for a payload.
pub open spec fn streamed(s: Seq<u8>, stream_id: u32, key: Seq<u8>, out: Out) -> (Streamed, Out)
    decreases s.len(),
{
    if !whole(s) || body_len(s) < 0 {
        (Streamed::Short, out)
    } else {
        let f = frame_at(s);
        let next = after_frame(s);
        if f.typ == FT_DATA && f.stream_id == stream_id {
            if f.payload.len() > 0 {
                (
                    Streamed::Data { payload: f.payload, after: next },
                    out.push(key, window_of(stream_id, f.payload.len() as int)).push(
                        key,
                        window_of(0, f.payload.len() as int),
                    ),
                )
            } else if f.flags & FL_END_STREAM != 0 {
                (Streamed::StreamClosed, out)
            } else {
                streamed(next, stream_id, key, out)
            }
        } else if f.typ == FT_HEADERS {
            if f.flags & FL_END_STREAM != 0 {
                (Streamed::HeadersClosed, out)
            } else {
                streamed(next, stream_id, key, out)
            }
        } else if f.typ == FT_SETTINGS {
            if f.flags & FL_ACK == 0 {
                streamed(next, stream_id, key, out.push(key, settings_ack()))
            } else {
                streamed(next, stream_id, key, out)
            }
        } else if f.typ == FT_GOAWAY {
            (Streamed::Goaway, out)
        } else {
            streamed(next, stream_id, key, out)
        }
    }
}

/// How a response ends.
pub enum Answered {
    Short,
    /// The server goes away; this is the status so far.
    Goaway(u16),
    /// Status and body are complete, and this follows.
    Done { status: u16, body: Seq<u8>, after: Seq<u8> },
}

/// How the response on the stream ends, and what went out by then. Frames of other
/// streams are passed over.
pub open spec fn answered(
    s: Seq<u8>,
    stream_id: u32,
    status: u16,
    body: Seq<u8>,
    key: Seq<u8>,
    out: Out,
) -> (Answered, Out)
    decreases s.len(),
{
    if !whole(s) || body_len(s) < 0 {
        (Answered::Short, out)
    } else {
        let f = frame_at(s);
        let next = after_frame(s);
        let ends = f.flags & FL_END_STREAM != 0;
        if f.stream_id != stream_id && f.stream_id != 0 {
            answered(next, stream_id, status, body, key, out)
        } else if f.typ == FT_HEADERS {
            let st = match status_of(f.payload) {
                Some(x) => x,
                None => status,
            };
            if ends {
                (Answered::Done { status: st, body, after: next }, out)
            } else {
                answered(next, stream_id, st, body, key, out)
            }
        } else if f.typ == FT_DATA {
            let b = body + f.payload;
            let o = if f.payload.len() > 0 {
                out.push(key, window_of(stream_id, f.payload.len() as int)).push(
                    key,
                    window_of(0, f.payload.len() as int),
                )
            } else {
                out
            };
            if ends {
                (Answered::Done { status, body: b, after: next }, o)
            } else {
                answered(next, stream_id, status, b, key, o)
            }
        } else if f.typ == FT_SETTINGS {
            answered(
                next,
                stream_id,
                status,
                body,
                key,
                if f.flags & FL_ACK == 0 {
                    out.push(key, settings_ack())
                } else {
                    out
                },
            )
        } else if f.typ == FT_GOAWAY {
            (Answered::Goaway(status), out)
        } else {
            answered(next, stream_id, status, body, key, out)
        }
    }
}

// --- header blocks ---

/// The status in a header block: the indexed status 200, or a literal field.
pub open spec fn status_of(b: Seq<u8>) -> Option<u16>
    decreases b.len(),
{
    if b.len() == 0 {
        None
    } else if b[0] >= 128 {
        if b[0] == 136 {
            Some(200)
        } else {
            status_of(rest(b, 1))
        }
    } else if b[0] >= 16 || b.len() < 2 {
        None
    } else {
        let n = b[1] as int % 128;
        if b.len() < n + 3 {
            None
        } else {
            let v = b[2 + n] as int % 128;
            if b.len() < n + v + 3 {
                None
            } else if b.subrange(2, 2 + n) == encode_utf8(":status"@) {
                match number_of(b.subrange(3 + n, 3 + n + v), 65535) {
                    Some(x) => Some(x as u16),
                    None => None,
                }
            } else {
                status_of(rest(b, 3 + n + v))
            }
        }
    }
}

/// Decodes the status in a header block.
pub fn decode_status(block: &[u8]) -> (r: Option<u16>)
    ensures
        r == status_of(block@),
{
    let len: usize = block.len();
    let mut i: usize = 0;
    assert(rest(block@, 0) =~= block@);
    while i < len
        invariant
            i <= len,
            len == block@.len(),
            status_of(rest(block@, i as int)) == status_of(block@),
        decreases len - i,
    {
        let ghost b = rest(block@, i as int);
        let first: u8 = block[i];
        assert(b[0] == first);
        if first >= 128 {
            if first == 136 {
                return Some(200);
            }
            assert(rest(b, 1) =~= rest(block@, i + 1));
            i = i + 1;
        } else {
            if first >= 16 || len - i < 2 {
                return None;
            }
            let n: usize = (block[i + 1] % 128) as usize;
            assert(b[1] == block@[i + 1]);
            if len - i < n + 3 {
                return None;
            }
            let v: usize = (block[i + 2 + n] % 128) as usize;
            assert(b[2 + n] == block@[i + 2 + n]);
            if len - i < n + v + 3 {
                return None;
            }
            let name = slice_subrange(block, i + 2, i + 2 + n);
            let val = slice_subrange(block, i + 3 + n, i + 3 + n + v);
            assert(name@ =~= b.subrange(2, 2 + n));
            assert(val@ =~= b.subrange(3 + n, 3 + n + v));
            if bytes_eq(name, ":status".as_bytes()) {
                return match parse_number(val, 65535) {
                    Some(x) => Some(x as u16),
                    None => None,
                };
            }
            assert(rest(b, 3 + n + v) =~= rest(block@, i + 3 + n + v));
            i = i + 3 + n + v;
        }
    }
    None
}

/// A status that is encoded as a literal field is the one that is decoded.
pub proof fn law_status_roundtrip(status: u16, after: Seq<u8>)
    ensures
        status_of(header_of(encode_utf8(":status"@), dec(status as nat)) + after) == Some(status),
{
    let name = encode_utf8(":status"@);
    let value = dec(status as nat);
    assert(name.len() == 7) by {
        reveal_strlit(":status");
        assert(is_ascii(":status"));
        is_ascii_spec_bytes(":status");
        assert(":status".spec_bytes().len() == 7);
    }
    assert(value.len() <= 5) by {
        reveal_with_fuel(ten_to, 6);
        lemma_dec_len(status as nat, 5);
    }
    law_number_roundtrip(status as nat, 65535);
    let b = header_of(name, value) + after;
    let v = value.len() as int;
    assert(str_of(name) =~= seq![7u8] + name);
    assert(str_of(value) =~= seq![v as u8] + value);
    assert(b[0] == 0 && b[1] == 7 && b[9] == v);
    assert(b.subrange(2, 9) =~= name);
    assert(b.subrange(10, 10 + v) =~= value);
}

/// A body without a 4-byte length in front, where there is one: the first byte is no
/// opening brace but the fifth is.
pub open spec fn stripped(body: Seq<u8>) -> Seq<u8> {
    if body.len() >= 5 && body[0] != 123 && body[4] == 123 {
        rest(body, 4)
    } else {
        body
    }
}

/// Drops a 4-byte length in front of a body.
pub fn strip_wire_prefix(body: Vec<u8>) -> (r: Vec<u8>)
    ensures
        r@ == stripped(body@),
{
    if body.len() >= 5 && body[0] != 123 && body[4] == 123 {
        copy_range(body.as_slice(), 4, body.len())
    } else {
        body
    }
}

/// Builds a frame.
pub fn frame(typ: u8, flags: u8, stream_id: u32, payload: &[u8]) -> (r: Vec<u8>)
    ensures
        r@ == frame_of(typ, flags, stream_id, payload@),
{
    let len: usize = payload.len();
    let mut out: Vec<u8> = Vec::new();
    out.push(((len / 65536) % 256) as u8);
    out.push(((len / 256) % 256) as u8);
    out.push((len % 256) as u8);
    out.push(typ);
    out.push(flags);
    push_be32(&mut out, stream_id % 0x8000_0000);
    append(&mut out, payload);
    assert(out@ =~= frame_of(typ, flags, stream_id, payload@));
    out
}

/// Appends a string with its length in front.
pub fn enc_str(block: &mut Vec<u8>, s: &[u8])
    ensures
        final(block)@ == old(block)@ + str_of(s@),
{
    let len: usize = s.len();
    if len < 127 {
        block.push(len as u8);
    } else {
        block.push(127);
        let ghost base = block@;
        let mut rem: usize = len - 127;
        assert(base + varint(rem as nat) =~= block@ + varint(rem as nat));
        while rem >= 128
            invariant
                base + varint((len - 127) as nat) == block@ + varint(rem as nat),
            decreases rem,
        {
            let ghost was = block@;
            block.push((rem % 128 + 128) as u8);
            assert(was + varint(rem as nat) =~= block@ + varint((rem / 128) as nat));
            rem = rem / 128;
        }
        let ghost was = block@;
        block.push(rem as u8);
        assert(block@ =~= was + varint(rem as nat));
    }
    append(block, s);
    assert(block@ =~= old(block)@ + str_of(s@));
}

/// Appends a literal header field without indexing.
pub fn enc_header(block: &mut Vec<u8>, name: &str, value: &[u8])
    ensures
        final(block)@ == old(block)@ + header_of(encode_utf8(name@), value@),
{
    block.push(0);
    enc_str(block, name.as_bytes());
    enc_str(block, value);
    assert(block@ =~= old(block)@ + header_of(encode_utf8(name@), value@));
}

/// Builds a POST: its headers and its body.
fn build_post(authority: &String, path: &str, stream_id: u32, body: &[u8]) -> (r: Vec<u8>)
    ensures
        r@ == post_of(authority@, path@, stream_id, body@),
{
    let mut len: Vec<u8> = Vec::new();
    push_dec(&mut len, body.len());
    assert(len@ =~= dec(body@.len()));
    let mut hdr: Vec<u8> = Vec::new();
    enc_header(&mut hdr, ":method", "POST".as_bytes());
    enc_header(&mut hdr, ":scheme", "http".as_bytes());
    enc_header(&mut hdr, ":authority", authority.as_str().as_bytes());
    enc_header(&mut hdr, ":path", path.as_bytes());
    enc_header(&mut hdr, "content-type", "application/json".as_bytes());
    enc_header(&mut hdr, "content-length", len.as_slice());
    enc_header(&mut hdr, "accept", "application/json".as_bytes());
    assert(hdr@ =~= headers_of(authority@, path@, body@.len()));
    let mut out = frame(FT_HEADERS, FL_END_HEADERS, stream_id, hdr.as_slice());
    let mut data = frame(FT_DATA, FL_END_STREAM, stream_id, body);
    out.append(&mut data);
    out
}

/// The acknowledgement of the server's settings.
fn build_ack() -> (r: Vec<u8>)
    ensures
        r@ == settings_ack(),
{
    let none: [u8; 0] = [];
    assert(none@ =~= Seq::empty());
    frame(FT_SETTINGS, FL_ACK, 0, none.as_slice())
}

/// A window update.
fn build_window(stream_id: u32, inc: u32) -> (r: Vec<u8>)
    ensures
        r@ == window_of(stream_id, inc as int),
{
    let mut p: Vec<u8> = Vec::new();
    push_be32(&mut p, inc);
    assert(p@ =~= be32(inc as int));
    frame(FT_WINDOW_UPDATE, 0, stream_id, p.as_slice())
}

/// Whether the cipher opens what it sealed under this key.
pub open spec fn opens_what_it_seals(key: Seq<u8>) -> bool {
    forall|count: u64, pt: Seq<u8>|
        pt.len() <= CHUNK ==> (#[trigger] sealed(key, count, pt)).len() == pt.len() + 16
            && unsealed(key, count, sealed(key, count, pt)) == Some(pt)
}

/// What one end sends is what the other end will read: the records that carry `data` open
/// to `data`, in order, and what follows them is read on from the next nonce. This rests on
/// the cipher opening what it sealed, which `Transport::open_record` states of every
/// record.
pub proof fn law_records_carry(data: Seq<u8>, after: Seq<u8>, key: Seq<u8>, count: u64)
    requires
        opens_what_it_seals(key),
        count + chunks(data.len() as int) < u64::MAX,
    ensures
        plain(records(data, key, count as int) + after, key, count) == data + plain(
            after,
            key,
            (count + chunks(data.len() as int)) as u64,
        ),
    decreases data.len(),
{
    if data.len() == 0 {
        assert(records(data, key, count as int) + after =~= after);
        assert(data + plain(after, key, count) =~= plain(after, key, count));
    } else {
        let first = if data.len() <= CHUNK {
            data
        } else {
            data.subrange(0, CHUNK as int)
        };
        let next = rest(data, first.len() as int);
        let ct = sealed(key, count, first);
        let tail = records(next, key, count + 1) + after;
        let s = record_of(ct) + tail;
        assert(records(data, key, count as int) + after =~= s) by {
            if data.len() <= CHUNK {
                assert(next =~= Seq::empty());
            }
        }
        assert(ct.len() == first.len() + 16);
        assert(s[0] == MSG_RECORD);
        assert(s.subrange(1, 3) =~= crate::bytes::be16(ct.len() as int));
        crate::bytes::lemma_get_be16(s, 1, ct.len() as int);
        assert(frame_payload(s) =~= ct);
        assert(rest(s, 3 + frame_len(s)) =~= tail);
        assert(chunks(data.len() as int) == 1 + chunks(next.len() as int));
        law_records_carry(next, after, key, (count + 1) as u64);
        assert(data =~= first + next);
        assert(first + (next + plain(
            after,
            key,
            (count + chunks(data.len() as int)) as u64,
        )) =~= data + plain(after, key, (count + chunks(data.len() as int)) as u64));
    }
}

// --- the session ---

/// An HTTP/2 session over the encrypted record stream.
pub struct H2<S: ByteStream> {
    pub conn: Conn<S>,
    pub tr: Transport,
    /// Plaintext that was not consumed yet.
    pub rx: Vec<u8>,
    pub next_stream: u32,
    /// The control host.
    pub authority: String,
}

impl<S: ByteStream> H2<S> {
    /// Everything that is still to come.
    pub open spec fn incoming(&self) -> Seq<u8> {
        self.rx@ + plain(self.conn.pending(), self.tr.recv_key@, self.tr.rx_nonce)
    }

    /// What went out.
    pub open spec fn out(&self) -> Out {
        Out { sent: self.conn.stream.sent(), count: self.tr.tx_nonce as int }
    }

    /// The calls that were made on the stream below.
    pub open spec fn calls(&self) -> Seq<StreamOp> {
        self.conn.stream.history()
    }

    /// Whether the stream below is known never to fail before its end.
    pub open spec fn reliable(&self) -> bool {
        self.conn.stream.reliable()
    }

    /// How a POST of `body` on a fresh stream ends, and what went out by then.
    pub open spec fn reply(&self, path: Seq<char>, body: Seq<u8>) -> (Answered, Out) {
        answered(
            self.incoming(),
            self.next_stream,
            0,
            Seq::empty(),
            self.tr.send_key@,
            self.out().push(
                self.tr.send_key@,
                post_of(self.authority@, path, self.next_stream, body),
            ),
        )
    }

    /// The records that carry a POST of `body` on a fresh stream.
    pub open spec fn request(&self, path: Seq<char>, body: Seq<u8>) -> Seq<u8> {
        records(
            post_of(self.authority@, path, self.next_stream, body),
            self.tr.send_key@,
            self.out().count,
        )
    }

    /// Whether nothing but what came in and went out since differs from `o`.
    pub open spec fn same_session(&self, o: &Self) -> bool {
        &&& self.tr.send_key@ == o.tr.send_key@
        &&& self.tr.recv_key@ == o.tr.recv_key@
        &&& self.next_stream == o.next_stream
        &&& self.authority@ == o.authority@
        &&& o.reliable() ==> self.reliable()
        &&& follows(o.calls(), self.calls())
    }

    /// Sends `data` in records.
    fn send(&mut self, data: &[u8]) -> (r: Result<(), H2Error>)
        ensures
            final(self).same_session(old(self)),
            final(self).incoming() == old(self).incoming(),
            final(self).rx@ == old(self).rx@,
            final(self).conn.pending() == old(self).conn.pending(),
            final(self).tr.rx_nonce == old(self).tr.rx_nonce,
            write_on(old(self).calls(), final(self).calls()),
            r is Ok ==> final(self).out() == old(self).out().push(old(self).tr.send_key@, data@),
            r is Ok ==> wrote_on(
                old(self).calls(),
                final(self).calls(),
                records(data@, old(self).tr.send_key@, old(self).out().count),
            ),
            r matches Err(e) ==> sending_failed(e, old(self).reliable()),
    {
        let ghost key = self.tr.send_key@;
        let ghost out0 = self.out();
        let n: usize = data.len();
        let mut i: usize = 0;
        assert(rest(data@, 0) =~= data@);
        while i < n
            invariant
                i <= n,
                n == data@.len(),
                key == old(self).tr.send_key@,
                out0 == old(self).out(),
                self.same_session(old(self)),
                self.rx@ == old(self).rx@,
                self.conn.pending() == old(self).conn.pending(),
                self.tr.rx_nonce == old(self).tr.rx_nonce,
                write_on(old(self).calls(), self.calls()),
                written(self.calls()) + records(
                    rest(data@, i as int),
                    key,
                    self.out().count,
                ) == written(old(self).calls()) + records(data@, key, out0.count),
                self.out().sent + records(
                    rest(data@, i as int),
                    key,
                    self.out().count,
                ) == out0.sent + records(data@, key, out0.count),
                self.out().count + chunks(n - i) == out0.count + chunks(n as int),
            decreases n - i,
        {
            let end: usize = if n - i > CHUNK {
                i + CHUNK
            } else {
                n
            };
            let ghost left = rest(data@, i as int);
            let ghost o1 = self.out();
            let ghost c1 = self.calls();
            let part = copy_range(data, i, end);
            let rec = match self.tr.seal_record(part.as_slice()) {
                Ok(v) => v,
                Err(e) => {
                    return Err(H2Error::Noise(e));
                },
            };
            match self.conn.write_all(rec.as_slice()) {
                Ok(()) => {},
                Err(e) => {
                    return Err(H2Error::Conn(e));
                },
            }
            proof {
                let next = rest(data@, end as int);
                let o2 = self.out();
                assert(o2.sent == o1.sent + rec@);
                assert(self.calls() == with_write(c1, rec@));
                lemma_with_write(c1, rec@);
                assert(rec@ + records(next, key, o2.count) =~= records(left, key, o1.count)) by {
                    if left.len() <= CHUNK {
                        assert(part@ =~= left);
                        assert(next =~= Seq::empty());
                    } else {
                        assert(part@ =~= left.subrange(0, CHUNK as int));
                        assert(rest(left, CHUNK as int) =~= next);
                    }
                }
                assert(written(self.calls()) + records(next, key, o2.count) =~= written(c1)
                    + records(left, key, o1.count));
                if left.len() <= CHUNK {
                    assert(part@ =~= left);
                    assert(next =~= Seq::empty());
                    assert(o2.sent + records(next, key, o2.count) =~= o1.sent + records(
                        left,
                        key,
                        o1.count,
                    ));
                } else {
                    assert(part@ =~= left.subrange(0, CHUNK as int));
                    assert(rest(left, CHUNK as int) =~= next);
                    assert(o2.sent + records(next, key, o2.count) =~= o1.sent + records(
                        left,
                        key,
                        o1.count,
                    ));
                }
            }
            i = end;
        }
        proof {
            assert(rest(data@, n as int) =~= Seq::empty());
            assert(self.out().sent =~= out0.sent + records(data@, key, out0.count));
            assert(written(self.calls()) =~= written(old(self).calls()) + records(
                data@,
                key,
                out0.count,
            ));
        }
        Ok(())
    }

    /// Takes in one more record.
    fn pull(&mut self) -> (r: Result<(), H2Error>)
        ensures
            final(self).same_session(old(self)),
            final(self).out() == old(self).out(),
            r is Ok ==> {
                &&& final(self).incoming() == old(self).incoming()
                &&& final(self).conn.pending().len() < old(self).conn.pending().len()
            },
            r matches Err(e) ==> receiving_failed(e) && (old(self).reliable()
                ==> old(self).incoming() == old(self).rx@),
    {
        let ghost p = self.conn.pending();
        let ghost key = self.tr.recv_key@;
        let ghost at = self.tr.rx_nonce;
        let ghost rx0 = self.rx@;
        let (typ, ct) = match self.conn.read_frame() {
            Ok(f) => f,
            Err(e) => {
                assert(old(self).reliable() ==> plain(p, key, at) =~= Seq::empty());
                assert(old(self).reliable() ==> old(self).incoming() =~= rx0);
                return Err(H2Error::Conn(e));
            },
        };
        if typ == MSG_RECORD {
            match self.tr.open_record(ct.as_slice()) {
                Ok(pt) => {
                    append(&mut self.rx, pt.as_slice());
                    assert(self.incoming() =~= rx0 + plain(p, key, at));
                    Ok(())
                },
                Err(e) => {
                    assert(plain(p, key, at) =~= Seq::empty());
                    assert(old(self).incoming() =~= rx0);
                    Err(H2Error::Noise(e))
                },
            }
        } else {
            assert(plain(p, key, at) =~= Seq::empty());
            assert(old(self).incoming() =~= rx0);
            if typ == MSG_ERROR {
                Err(H2Error::Control(ct))
            } else {
                Err(H2Error::Unexpected(typ))
            }
        }
    }

    /// Takes the next `n` bytes.
    fn read_exact(&mut self, n: usize) -> (r: Result<Vec<u8>, H2Error>)
        ensures
            final(self).same_session(old(self)),
            final(self).out() == old(self).out(),
            match r {
                Ok(v) => {
                    &&& n <= old(self).incoming().len()
                    &&& v@ == old(self).incoming().subrange(0, n as int)
                    &&& final(self).incoming() == rest(old(self).incoming(), n as int)
                },
                Err(e) => receiving_failed(e) && (old(self).reliable()
                    ==> old(self).incoming().len() < n),
            },
    {
        while self.rx.len() < n
            invariant
                self.same_session(old(self)),
                self.out() == old(self).out(),
                self.incoming() == old(self).incoming(),
            decreases self.conn.pending().len(),
        {
            match self.pull() {
                Ok(()) => {},
                Err(e) => {
                    return Err(e);
                },
            }
        }
        let ghost all = self.incoming();
        let out = copy_range(self.rx.as_slice(), 0, n);
        let tail = copy_range(self.rx.as_slice(), n, self.rx.len());
        self.rx = tail;
        proof {
            assert(out@ =~= all.subrange(0, n as int));
            assert(self.incoming() =~= rest(all, n as int));
        }
        Ok(out)
    }

    /// Takes the early payload that the server may begin with.
    fn consume_early_payload(&mut self) -> (r: Result<Option<Vec<u8>>, H2Error>)
        ensures
            final(self).same_session(old(self)),
            final(self).out() == old(self).out(),
            match r {
                Ok(e) => early_of(old(self).incoming()) == Some(
                    (
                        match e {
                            Some(v) => Some(v@),
                            None => None,
                        },
                        final(self).incoming(),
                    ),
                ),
                Err(e) => receiving_failed(e) && (old(self).reliable() ==> early_of(
                    old(self).incoming(),
                ) is None),
            },
    {
        let ghost all = self.incoming();
        let mut hdr = match self.read_exact(9) {
            Ok(v) => v,
            Err(e) => {
                return Err(e);
            },
        };
        let want: [u8; 5] = [0xff, 0xff, 0xff, 0x54, 0x53];
        assert(want@ =~= early_magic());
        assert(hdr@.subrange(0, 5) =~= all.subrange(0, 5));
        if starts_with(hdr.as_slice(), want.as_slice()) {
            let len: u32 = read_be32(hdr.as_slice(), 5);
            assert(len == get_be32(all, 5)) by {
                assert(hdr@[5] == all[5] && hdr@[6] == all[6] && hdr@[7] == all[7] && hdr@[8]
                    == all[8]);
            }
            match self.read_exact(len as usize) {
                Ok(json) => {
                    proof {
                        assert(json@ =~= all.subrange(9, 9 + len));
                        assert(self.incoming() =~= rest(all, 9 + len));
                    }
                    Ok(Some(json))
                },
                Err(e) => Err(e),
            }
        } else {
            let ghost head = hdr@;
            let ghost rx1 = self.rx@;
            let ghost more = plain(self.conn.pending(), self.tr.recv_key@, self.tr.rx_nonce);
            assert(rx1 + more == rest(all, 9));
            hdr.append(&mut self.rx);
            self.rx = hdr;
            proof {
                assert(self.rx@ =~= head + rx1);
                assert(self.incoming() =~= head + (rx1 + more));
                assert(all =~= head + rest(all, 9));
            }
            Ok(None)
        }
    }

    /// Takes the next frame.
    fn read_frame(&mut self) -> (r: Result<Frame, H2Error>)
        ensures
            final(self).same_session(old(self)),
            final(self).out() == old(self).out(),
            match r {
                Ok(f) => {
                    &&& whole(old(self).incoming())
                    &&& f@ == frame_at(old(self).incoming())
                    &&& final(self).incoming() == after_frame(old(self).incoming())
                    &&& f.payload@.len() < 16777216
                    &&& final(self).incoming().len() < old(self).incoming().len()
                },
                Err(e) => receiving_failed(e) && (old(self).reliable() ==> !whole(
                    old(self).incoming(),
                )),
            },
    {
        let ghost all = self.incoming();
        let hdr = match self.read_exact(9) {
            Ok(v) => v,
            Err(e) => {
                return Err(e);
            },
        };
        proof {
            assert forall|k: int| 0 <= k < 9 implies #[trigger] hdr@[k] == all[k] by {}
        }
        let len: usize = hdr[0] as usize * 65536 + hdr[1] as usize * 256 + hdr[2] as usize;
        assert(len == body_len(all));
        let stream_id: u32 = read_be32(hdr.as_slice(), 5) % 0x8000_0000;
        assert(get_be32(hdr@, 5) == get_be32(all, 5));
        let payload = match self.read_exact(len) {
            Ok(v) => v,
            Err(e) => {
                return Err(e);
            },
        };
        proof {
            assert(payload@ =~= frame_at(all).payload);
            assert(self.incoming() =~= after_frame(all));
        }
        Ok(Frame { typ: hdr[3], flags: hdr[4], stream_id, payload })
    }

    /// Gives the window back for `inc` bytes, on the stream and on the connection.
    fn window_update(&mut self, stream_id: u32, inc: u32) -> (r: Result<(), H2Error>)
        ensures
            final(self).same_session(old(self)),
            final(self).incoming() == old(self).incoming(),
            r is Ok ==> final(self).out() == old(self).out().push(
                old(self).tr.send_key@,
                window_of(stream_id, inc as int),
            ).push(old(self).tr.send_key@, window_of(0, inc as int)),
            r matches Err(e) ==> sending_failed(e, old(self).reliable()),
    {
        let a = build_window(stream_id, inc);
        match self.send(a.as_slice()) {
            Ok(()) => {},
            Err(e) => {
                return Err(e);
            },
        }
        let b = build_window(0, inc);
        self.send(b.as_slice())
    }

    /// Takes over a connection after the handshake and starts the session: preface and
    /// settings go out, the early payload is taken, and the server's settings are waited
    /// for and acknowledged.
    pub fn start(conn: Conn<S>, tr: Transport, authority: String) -> (r: Result<
        (Self, Option<Vec<u8>>),
        H2Error,
    >)
        ensures
            match r {
                Ok(p) => started(
                    conn,
                    tr,
                    authority@,
                    p.0,
                    match p.1 {
                        Some(v) => Some(v@),
                        None => None,
                    },
                ),
                Err(e) => start_failed(conn, tr, e),
            },
    {
        let mut h = H2 { conn, tr, rx: Vec::new(), next_stream: 1, authority };
        let ghost key = tr.send_key@;
        let ghost s = plain(conn.pending(), tr.recv_key@, tr.rx_nonce);
        let ghost h0 = h;
        assert(h.incoming() =~= s);
        let settings: [u8; 12] = [0u8, 2, 0, 0, 0, 0, 0, 5, 0, 0, 0x40, 0];
        assert(settings@ =~= seq![0u8, 2, 0, 0, 0, 0, 0, 5, 0, 0, 0x40, 0]);
        let mut hello: Vec<u8> = Vec::new();
        append(&mut hello, "PRI * HTTP/2.0\r\n\r\nSM\r\n\r\n".as_bytes());
        let mut fr = frame(FT_SETTINGS, 0, 0, settings.as_slice());
        hello.append(&mut fr);
        assert(hello@ =~= hello_of());
        match h.send(hello.as_slice()) {
            Ok(()) => {},
            Err(e) => {
                return Err(e);
            },
        }
        let ghost out = h.out();
        let ghost said = h.calls();
        assert(wrote_on(
            conn.stream.history(),
            said,
            records(hello_of(), tr.send_key@, tr.tx_nonce as int),
        ));
        let early = match h.consume_early_payload() {
            Ok(e) => e,
            Err(e) => {
                return Err(e);
            },
        };
        let ghost s1 = h.incoming();
        loop
            invariant
                h.same_session(&h0),
                follows(said, h.calls()),
                wrote_on(
                    conn.stream.history(),
                    said,
                    records(hello_of(), tr.send_key@, tr.tx_nonce as int),
                ),
                h0.tr.send_key@ == key,
                h.out() == out,
                out == (Out { sent: conn.stream.sent(), count: tr.tx_nonce as int }).push(
                    tr.send_key@,
                    hello_of(),
                ),
                key == tr.send_key@,
                h0.tr.recv_key@ == tr.recv_key@,
                h0.next_stream == 1,
                h0.authority@ == authority@,
                h0.reliable() == conn.stream.reliable(),
                settled(h.incoming()) == settled(s1),
                s == plain(conn.pending(), tr.recv_key@, tr.rx_nonce),
                early_of(s) == Some(
                    (
                        match early {
                            Some(v) => Some(v@),
                            None => None,
                        },
                        s1,
                    ),
                ),
            decreases h.incoming().len(),
        {
            let fr = match h.read_frame() {
                Ok(f) => f,
                Err(e) => {
                    return Err(e);
                },
            };
            if fr.typ == FT_SETTINGS {
                if fr.flags & FL_ACK == 0 {
                    let ack = build_ack();
                    match h.send(ack.as_slice()) {
                        Ok(()) => {},
                        Err(e) => {
                            return Err(e);
                        },
                    }
                }
                return Ok((h, early));
            }
            if fr.typ == FT_GOAWAY {
                return Err(H2Error::Goaway(0));
            }
        }
    }

    /// Posts JSON on a fresh stream and reads the whole response: status and body. Nothing is
    /// read before the whole request went out.
    pub fn post_json(&mut self, path: &str, body: &[u8]) -> (r: Result<(u16, Vec<u8>), H2Error>)
        requires
            old(self).next_stream <= u32::MAX - 2,
        ensures
            final(self).next_stream == old(self).next_stream + 2,
            final(self).authority@ == old(self).authority@,
            old(self).reliable() ==> final(self).reliable(),
            wrote_first(old(self).calls(), final(self).calls(), old(self).request(path@, body@))
                || (r is Err && write_on(old(self).calls(), final(self).calls())),
            ({
                let end = old(self).reply(path@, body@);
                match r {
                    Ok(p) => {
                        &&& end.0 matches Answered::Done { status, body: b, after }
                        &&& p.0 == status
                        &&& p.1@ == stripped(b)
                        &&& final(self).incoming() == after
                        &&& final(self).out() == end.1
                    },
                    Err(H2Error::Goaway(status)) => end.0 == Answered::Goaway(status),
                    Err(e) => io_failed(e) && (old(self).reliable() && !tx_exhausted(e)
                        ==> end.0 is Short),
                }
            }),
    {
        let stream_id: u32 = self.next_stream;
        self.next_stream = stream_id + 2;
        let out = build_post(&self.authority, path, stream_id, body);
        match self.send(out.as_slice()) {
            Ok(()) => {},
            Err(e) => {
                return Err(e);
            },
        }
        assert(wrote_on(old(self).calls(), self.calls(), old(self).request(path@, body@)));
        self.read_response(stream_id)
    }

    /// Posts JSON and leaves the response stream open for long polling. The result is the
    /// stream; `read_data` reads what comes.
    pub fn post_stream(&mut self, path: &str, body: &[u8]) -> (r: Result<u32, H2Error>)
        requires
            old(self).next_stream <= u32::MAX - 2,
        ensures
            final(self).next_stream == old(self).next_stream + 2,
            final(self).authority@ == old(self).authority@,
            old(self).reliable() ==> final(self).reliable(),
            final(self).incoming() == old(self).incoming(),
            final(self).tr.send_key@ == old(self).tr.send_key@,
            write_on(old(self).calls(), final(self).calls()),
            r is Ok ==> wrote_on(
                old(self).calls(),
                final(self).calls(),
                old(self).request(path@, body@),
            ),
            match r {
                Ok(id) => id == old(self).next_stream && final(self).out() == old(self).out().push(
                    old(self).tr.send_key@,
                    post_of(old(self).authority@, path@, old(self).next_stream, body@),
                ),
                Err(e) => sending_failed(e, old(self).reliable()),
            },
    {
        let stream_id: u32 = self.next_stream;
        self.next_stream = stream_id + 2;
        let out = build_post(&self.authority, path, stream_id, body);
        match self.send(out.as_slice()) {
            Ok(()) => Ok(stream_id),
            Err(e) => Err(e),
        }
    }

    /// Reads the next payload of a streaming response and gives its window back.
    pub fn read_data(&mut self, stream_id: u32) -> (r: Result<Vec<u8>, H2Error>)
        ensures
            final(self).same_session(old(self)),
            ({
                let end = streamed(
                    old(self).incoming(),
                    stream_id,
                    old(self).tr.send_key@,
                    old(self).out(),
                );
                match r {
                    Ok(p) => {
                        &&& end.0 matches Streamed::Data { payload, after }
                        &&& p@ == payload
                        &&& final(self).incoming() == after
                        &&& final(self).out() == end.1
                    },
                    Err(H2Error::Goaway(_)) => end.0 is Goaway,
                    Err(H2Error::StreamClosed) => end.0 is StreamClosed,
                    Err(H2Error::HeadersClosed) => end.0 is HeadersClosed,
                    Err(e) => io_failed(e) && (old(self).reliable() && !tx_exhausted(e)
                        ==> end.0 is Short),
                }
            }),
    {
        let ghost key = self.tr.send_key@;
        let ghost end = streamed(self.incoming(), stream_id, key, self.out());
        loop
            invariant
                self.same_session(old(self)),
                key == old(self).tr.send_key@,
                end == streamed(old(self).incoming(), stream_id, key, old(self).out()),
                end == streamed(self.incoming(), stream_id, key, self.out()),
            decreases self.incoming().len(),
        {
            let fr = match self.read_frame() {
                Ok(f) => f,
                Err(e) => {
                    return Err(e);
                },
            };
            if fr.typ == FT_DATA && fr.stream_id == stream_id {
                if fr.payload.len() > 0 {
                    match self.window_update(stream_id, fr.payload.len() as u32) {
                        Ok(()) => {},
                        Err(e) => {
                            return Err(e);
                        },
                    }
                    return Ok(fr.payload);
                }
                if fr.flags & FL_END_STREAM != 0 {
                    return Err(H2Error::StreamClosed);
                }
            } else if fr.typ == FT_HEADERS {
                if fr.flags & FL_END_STREAM != 0 {
                    return Err(H2Error::HeadersClosed);
                }
            } else if fr.typ == FT_SETTINGS {
                if fr.flags & FL_ACK == 0 {
                    let ack = build_ack();
                    match self.send(ack.as_slice()) {
                        Ok(()) => {},
                        Err(e) => {
                            return Err(e);
                        },
                    }
                }
            } else if fr.typ == FT_GOAWAY {
                return Err(H2Error::Goaway(0));
            }
        }
    }

    /// Reads the response on the stream: status and body.
    fn read_response(&mut self, stream_id: u32) -> (r: Result<(u16, Vec<u8>), H2Error>)
        ensures
            final(self).same_session(old(self)),
            ({
                let end = answered(
                    old(self).incoming(),
                    stream_id,
                    0,
                    Seq::empty(),
                    old(self).tr.send_key@,
                    old(self).out(),
                );
                match r {
                    Ok(p) => {
                        &&& end.0 matches Answered::Done { status, body, after }
                        &&& p.0 == status
                        &&& p.1@ == stripped(body)
                        &&& final(self).incoming() == after
                        &&& final(self).out() == end.1
                    },
                    Err(H2Error::Goaway(status)) => end.0 == Answered::Goaway(status),
                    Err(e) => io_failed(e) && (old(self).reliable() && !tx_exhausted(e)
                        ==> end.0 is Short),
                }
            }),
    {
        let ghost key = self.tr.send_key@;
        let ghost end = answered(self.incoming(), stream_id, 0, Seq::empty(), key, self.out());
        let mut status: u16 = 0;
        let mut body: Vec<u8> = Vec::new();
        assert(body@ =~= Seq::empty());
        loop
            invariant
                self.same_session(old(self)),
                key == old(self).tr.send_key@,
                end == answered(
                    old(self).incoming(),
                    stream_id,
                    0,
                    Seq::empty(),
                    key,
                    old(self).out(),
                ),
                end == answered(self.incoming(), stream_id, status, body@, key, self.out()),
            decreases self.incoming().len(),
        {
            let fr = match self.read_frame() {
                Ok(f) => f,
                Err(e) => {
                    return Err(e);
                },
            };
            if fr.stream_id == stream_id || fr.stream_id == 0 {
                if fr.typ == FT_HEADERS {
                    if let Some(s) = decode_status(fr.payload.as_slice()) {
                        status = s;
                    }
                    if fr.flags & FL_END_STREAM != 0 {
                        return Ok((status, strip_wire_prefix(body)));
                    }
                } else if fr.typ == FT_DATA {
                    append(&mut body, fr.payload.as_slice());
                    if fr.payload.len() > 0 {
                        match self.window_update(stream_id, fr.payload.len() as u32) {
                            Ok(()) => {},
                            Err(e) => {
                                return Err(e);
                            },
                        }
                    }
                    if fr.flags & FL_END_STREAM != 0 {
                        return Ok((status, strip_wire_prefix(body)));
                    }
                } else if fr.typ == FT_SETTINGS {
                    if fr.flags & FL_ACK == 0 {
                        let ack = build_ack();
                        match self.send(ack.as_slice()) {
                            Ok(()) => {},
                            Err(e) => {
                                return Err(e);
                            },
                        }
                    }
                } else if fr.typ == FT_GOAWAY {
                    return Err(H2Error::Goaway(status));
                }
            }
        }
    }
}

/// Whether `h` is the session that starts on `conn` with `tr`, and `early` the early
/// payload: the preface and the settings went out before anything was read, the server's
/// settings came in and were acknowledged, and no stream was used yet.
pub open spec fn started<S: ByteStream>(
    conn: Conn<S>,
    tr: Transport,
    authority: Seq<char>,
    h: H2<S>,
    early: Option<Seq<u8>>,
) -> bool {
    let s = plain(conn.pending(), tr.recv_key@, tr.rx_nonce);
    let out = Out { sent: conn.stream.sent(), count: tr.tx_nonce as int }.push(
        tr.send_key@,
        hello_of(),
    );
    &&& early_of(s) matches Some(e)
    &&& e.0 == early
    &&& settled(e.1) matches Settled::Done { flags, after }
    &&& h.incoming() == after
    &&& h.out() == if flags & FL_ACK == 0 {
        out.push(tr.send_key@, settings_ack())
    } else {
        out
    }
    &&& h.next_stream == 1
    &&& h.authority@ == authority
    &&& h.tr.send_key@ == tr.send_key@
    &&& h.tr.recv_key@ == tr.recv_key@
    &&& wrote_first(
        conn.stream.history(),
        h.calls(),
        records(hello_of(), tr.send_key@, tr.tx_nonce as int),
    )
    &&& conn.stream.reliable() ==> h.reliable()
}

/// Whether starting the session on `conn` with `tr` may fail with `e`.
pub open spec fn start_failed<S: ByteStream>(conn: Conn<S>, tr: Transport, e: H2Error) -> bool {
    let s = plain(conn.pending(), tr.recv_key@, tr.rx_nonce);
    match e {
        H2Error::Goaway(_) => early_of(s) matches Some(early) && settled(early.1) is Goaway,
        e => io_failed(e) && (conn.stream.reliable() && !tx_exhausted(e) ==> early_of(s) is None
            || settled((early_of(s)->0).1) is Short),
    }
}

/// Whether `e` says that sending used up the nonces.
pub open spec fn tx_exhausted(e: H2Error) -> bool {
    e matches H2Error::Noise(NoiseError::Exhausted)
}

/// Whether `e` is a failure to send: the stream's, or the nonces are used up.
pub open spec fn sending_failed(e: H2Error, reliable: bool) -> bool {
    match e {
        H2Error::Conn(ConnError::Write) => !reliable,
        H2Error::Noise(NoiseError::Exhausted) => true,
        _ => false,
    }
}

/// Whether `e` is a failure to receive.
pub open spec fn receiving_failed(e: H2Error) -> bool {
    match e {
        H2Error::Conn(ConnError::Read(_)) => true,
        H2Error::Noise(n) => n is OpenFailed || n is Exhausted,
        H2Error::Control(_) => true,
        H2Error::Unexpected(_) => true,
        _ => false,
    }
}

/// Whether `e` is a failure to send or to receive.
pub open spec fn io_failed(e: H2Error) -> bool {
    receiving_failed(e) || e matches H2Error::Conn(ConnError::Write)
}

} // verus!
