//! The control channel, byte by byte: records, frames and header fields, and how a response is
//! put together from them.
use vstd::prelude::*;
use vstd::utf8::encode_utf8;
use crate::bytes::{get_be32, lemma_get_be32};
use crate::crypto::{aead_open, aead_seal};
use crate::control::handshake_end;
use crate::h2::{
    answered, body_len, early_of, frame_at, frame_of, header_of, headers_of, hello_of,
    law_frame_roundtrip, post_of, settings_ack, settled, status_of, str_of, streamed, stripped,
    varint, whole, window_of, Answered, FrameState, Out, Settled, Streamed,
};
use crate::noise::{
    initiation_frame, noise_read, noise_split, nonce_of, record_of, sealed, unsealed,
    NoiseError, TransportState,
};
use crate::platform::{rest, ByteStream};
use crate::text::{dec, first_at, occurs_at};
use crate::transport::{
    frame_len, frame_payload, has_frame, request_of, switches, upgrade_done, Conn,
};
use crate::wire::{blank, in_four, in_two, law_byte_order, net16, net32};

verus! {

broadcast use crate::bytes::group_lengths;

/// A record, field by field: type 4, the length of the ciphertext, and the ciphertext, under
/// the counter most significant byte first.
pub proof fn law_record_wire(key: Seq<u8>, counter: u64, pt: Seq<u8>)
    ensures
        ({
            let n = counter as int;
            let nonce = blank(4) + in_four(n / 4294967296) + in_four(n % 4294967296);
            let ct = aead_seal(key, nonce, pt, Seq::empty());
            &&& sealed(key, counter, pt) == ct
            &&& record_of(ct) == seq![4u8] + in_two(ct.len() as int) + ct
        }),
{
    lemma_nonce(counter);
    law_byte_order(sealed(key, counter, pt).len() as int);
}

proof fn lemma_nonce(counter: u64)
    ensures
        ({
            let n = counter as int;
            nonce_of(counter) == blank(4) + in_four(n / 4294967296) + in_four(n % 4294967296)
        }),
{
    let n = counter as int;
    law_byte_order(n);
    assert(nonce_of(counter) =~= blank(4) + in_four(n / 4294967296) + in_four(n % 4294967296));
}

/// A ciphertext opens under the counter most significant byte first, and with nothing beside
/// it.
pub proof fn law_record_read(key: Seq<u8>, counter: u64, ct: Seq<u8>)
    ensures
        ct.len() <= 65535 ==> ({
            let n = counter as int;
            unsealed(key, counter, ct) == aead_open(
                key,
                blank(4) + in_four(n / 4294967296) + in_four(n % 4294967296),
                ct,
                Seq::empty(),
            )
        }),
{
    lemma_nonce(counter);
}

/// The initiation, field by field: version 1, type 1, its length, the Noise message.
pub proof fn law_initiation_frame(noise: Seq<u8>)
    ensures
        initiation_frame(noise) == seq![0u8, 1, 1] + in_two(noise.len() as int) + noise,
{
    law_byte_order(1);
    law_byte_order(noise.len() as int);
    assert(initiation_frame(noise) =~= seq![0u8, 1, 1] + in_two(noise.len() as int) + noise);
}

/// The handshake gives a transport that sends with the first key of the split and receives with
/// the second, both from counter zero, if and only if the server's message is accepted.
pub proof fn law_channel_keys(hs: snow::HandshakeState, s: Seq<u8>)
    requires
        has_frame(s),
    ensures
        match noise_read(hs, s.subrange(3, 3 + net16(s, 1))) {
            None => handshake_end(hs, s) == Err::<TransportState, NoiseError>(NoiseError::Response),
            Some(h) => {
                &&& handshake_end(hs, s) matches Ok(t)
                &&& t.send_key == noise_split(h).0
                &&& t.recv_key == noise_split(h).1
                &&& t.tx_nonce == 0
                &&& t.rx_nonce == 0
            },
        },
{
    assert(net16(s, 1) == frame_len(s));
}

/// A frame of the channel is read as it stands: its type, its length in two bytes, its payload.
pub proof fn law_channel_frame_read(s: Seq<u8>)
    ensures
        has_frame(s) <==> s.len() >= 3 && s.len() >= 3 + net16(s, 1),
        has_frame(s) ==> frame_payload(s) == s.subrange(3, 3 + net16(s, 1)),
{
    if s.len() >= 3 {
        assert(net16(s, 1) == frame_len(s));
    }
}

/// The upgrade request of the control channel, as text.
pub proof fn law_upgrade_request(host: Seq<char>, handshake: Seq<char>)
    ensures
        request_of(host, handshake) == encode_utf8("POST /ts2021 HTTP/1.1\r\nHost: "@)
            + encode_utf8(host) + encode_utf8(
            "\r\nUpgrade: tailscale-control-protocol\r\nConnection: upgrade\r\nX-Tailscale-Handshake: "@,
        ) + encode_utf8(handshake) + encode_utf8("\r\nContent-Length: 0\r\n\r\n"@),
{
}

/// The upgrade is done with the first empty line of the answer, whose status line agreed to it:
/// what came behind that line stays to be read, and the request is all that went out.
pub proof fn law_upgrade_agreed<S: ByteStream>(
    stream: S,
    host: Seq<char>,
    handshake: Seq<char>,
    c: Conn<S>,
)
    requires
        upgrade_done(stream, host, handshake, c),
    ensures
        exists|n: int|
            4 <= n <= stream.unread().len() && #[trigger] stream.unread().subrange(n - 4, n)
                == seq![13u8, 10, 13, 10] && c.pending() == stream.unread().skip(n) && (forall|
                m: int,
            |
                4 <= m < n ==> #[trigger] stream.unread().subrange(m - 4, m) != seq![
                    13u8,
                    10,
                    13,
                    10,
                ]),
        c.stream.sent() == stream.sent() + request_of(host, handshake),
{
    let s = stream.unread();
    let end = seq![13u8, 10, 13, 10];
    let n = choose|n: int|
        #[trigger] first_at(s, end, n - 4) && switches(
            crate::transport::status_of(s.subrange(0, n)),
        )
            && c.pending() == rest(s, n) && c.stream.sent() == stream.sent() + request_of(
            host,
            handshake,
        );
    assert(s.subrange(n - 4, n) == end);
    assert(rest(s, n) =~= s.skip(n));
    assert forall|m: int| 4 <= m < n implies #[trigger] s.subrange(m - 4, m) != end by {
        assert(!occurs_at(s, end, m - 4));
    }
}

/// The number that groups of seven bits stand for, the least significant first; each but the
/// last has the top bit set.
pub open spec fn groups(s: Seq<u8>) -> int
    decreases s.len(),
{
    if s.len() == 0 {
        0
    } else if s[0] < 128 {
        s[0] as int
    } else {
        s[0] - 128 + 128 * groups(s.skip(1))
    }
}

/// A long length is written so that it reads as itself.
pub proof fn law_length_groups(n: nat)
    ensures
        groups(varint(n)) == n,
    decreases n,
{
    if n >= 128 {
        law_length_groups(n / 128);
        assert(varint(n).skip(1) =~= varint(n / 128));
    }
}

/// A string has its length in front: in one byte, or from 127 on in 127 and groups of seven bits
/// for what is above.
pub proof fn law_string_wire(s: Seq<u8>)
    ensures
        s.len() < 127 ==> str_of(s) == seq![s.len() as u8] + s,
        s.len() >= 127 ==> exists|v: Seq<u8>|
            #[trigger] groups(v) == s.len() - 127 && str_of(s) == seq![127u8] + v + s,
{
    if s.len() >= 127 {
        law_length_groups((s.len() - 127) as nat);
    }
}

/// An HTTP/2 frame, field by field: 24 bits of length, type, flags, 31 bits of stream, payload.
pub open spec fn framed(typ: u8, flags: u8, stream: int, payload: Seq<u8>) -> Seq<u8> {
    let n = payload.len() as int;
    seq![(n / 65536 % 256) as u8, (n / 256 % 256) as u8, (n % 256) as u8, typ, flags] + in_four(
        stream % 2147483648,
    ) + payload
}

/// What is built is such a frame.
pub proof fn law_h2_frame_wire(typ: u8, flags: u8, stream_id: u32, payload: Seq<u8>)
    ensures
        frame_of(typ, flags, stream_id, payload) == framed(typ, flags, stream_id as int, payload),
{
    law_byte_order(stream_id as int % 2147483648);
}

/// What is read is such a frame.
pub proof fn law_h2_frame_read(s: Seq<u8>)
    requires
        s.len() >= 9,
    ensures
        body_len(s) == 65536 * s[0] + 256 * s[1] + s[2],
        whole(s) ==> frame_at(s) == (FrameState {
            typ: s[3],
            flags: s[4],
            stream_id: (net32(s, 5) % 2147483648) as u32,
            payload: s.subrange(9, 9 + 65536 * s[0] + 256 * s[1] + s[2]),
        }),
{
    assert(net32(s, 5) == get_be32(s, 5));
}

/// A header field, literal and not indexed: name and value, each with its length in front.
pub open spec fn field(name: Seq<u8>, value: Seq<u8>) -> Seq<u8> {
    seq![0u8, name.len() as u8] + name + seq![value.len() as u8] + value
}

/// A POST, field by field: a HEADERS frame with method, scheme, authority, path, types and
/// length, and a DATA frame with the body that ends the stream.
pub proof fn law_post_wire(authority: Seq<char>, path: Seq<char>, stream_id: u32, body: Seq<u8>)
    requires
        encode_utf8(authority).len() < 127,
        encode_utf8(path).len() < 127,
        dec(body.len()).len() < 127,
    ensures
        post_of(authority, path, stream_id, body) == framed(
            1,
            4,
            stream_id as int,
            field(encode_utf8(":method"@), encode_utf8("POST"@)) + field(
                encode_utf8(":scheme"@),
                encode_utf8("http"@),
            ) + field(encode_utf8(":authority"@), encode_utf8(authority)) + field(
                encode_utf8(":path"@),
                encode_utf8(path),
            ) + field(encode_utf8("content-type"@), encode_utf8("application/json"@)) + field(
                encode_utf8("content-length"@),
                dec(body.len()),
            ) + field(encode_utf8("accept"@), encode_utf8("application/json"@)),
        ) + framed(0, 1, stream_id as int, body),
{
    lemma_names();
    lemma_field(encode_utf8(":method"@), encode_utf8("POST"@));
    lemma_field(encode_utf8(":scheme"@), encode_utf8("http"@));
    lemma_field(encode_utf8(":authority"@), encode_utf8(authority));
    lemma_field(encode_utf8(":path"@), encode_utf8(path));
    lemma_field(encode_utf8("content-type"@), encode_utf8("application/json"@));
    lemma_field(encode_utf8("content-length"@), dec(body.len()));
    lemma_field(encode_utf8("accept"@), encode_utf8("application/json"@));
    law_h2_frame_wire(1, 4, stream_id, headers_of(authority, path, body.len()));
    law_h2_frame_wire(0, 1, stream_id, body);
}

proof fn lemma_field(name: Seq<u8>, value: Seq<u8>)
    requires
        name.len() < 127,
        value.len() < 127,
    ensures
        header_of(name, value) == field(name, value),
{
    assert(header_of(name, value) =~= field(name, value));
}

proof fn lemma_short(t: &str)
    requires
        vstd::string::is_ascii(t),
    ensures
        encode_utf8(t@).len() == t@.len(),
{
    vstd::string::is_ascii_spec_bytes(t);
}

proof fn lemma_names()
    ensures
        encode_utf8(":method"@).len() < 127,
        encode_utf8("POST"@).len() < 127,
        encode_utf8(":scheme"@).len() < 127,
        encode_utf8("http"@).len() < 127,
        encode_utf8(":authority"@).len() < 127,
        encode_utf8(":path"@).len() < 127,
        encode_utf8("content-type"@).len() < 127,
        encode_utf8("application/json"@).len() < 127,
        encode_utf8("content-length"@).len() < 127,
        encode_utf8("accept"@).len() < 127,
{
    reveal_strlit(":method");
    reveal_strlit("POST");
    reveal_strlit(":scheme");
    reveal_strlit("http");
    reveal_strlit(":authority");
    reveal_strlit(":path");
    reveal_strlit("content-type");
    reveal_strlit("application/json");
    reveal_strlit("content-length");
    reveal_strlit("accept");
    lemma_short(":method");
    lemma_short("POST");
    lemma_short(":scheme");
    lemma_short("http");
    lemma_short(":authority");
    lemma_short(":path");
    lemma_short("content-type");
    lemma_short("application/json");
    lemma_short("content-length");
    lemma_short("accept");
}

/// The client begins with the preface and its settings: no push, frames of at most 16384 bytes.
/// It acknowledges the server's settings, and gives a window back by the number of bytes.
pub proof fn law_h2_fixed_frames(stream_id: u32, n: int)
    requires
        n >= 0,
    ensures
        hello_of() == encode_utf8("PRI * HTTP/2.0\r\n\r\nSM\r\n\r\n"@) + framed(
            4,
            0,
            0,
            seq![0u8, 2, 0, 0, 0, 0, 0, 5, 0, 0, 0x40, 0],
        ),
        settings_ack() == framed(4, 1, 0, Seq::empty()),
        window_of(stream_id, n) == framed(8, 0, stream_id as int, in_four(n)),
{
    law_h2_frame_wire(4, 0, 0, seq![0u8, 2, 0, 0, 0, 0, 0, 5, 0, 0, 0x40, 0]);
    law_h2_frame_wire(4, 1, 0, Seq::empty());
    law_byte_order(n);
    law_h2_frame_wire(8, 0, stream_id, in_four(n));
}

/// A frame at the beginning of what comes in.
proof fn lemma_next(typ: u8, flags: u8, stream_id: u32, payload: Seq<u8>, after: Seq<u8>)
    requires
        payload.len() < 16777216,
        stream_id < 0x8000_0000,
    ensures
        ({
            let s = framed(typ, flags, stream_id as int, payload) + after;
            &&& whole(s)
            &&& body_len(s) >= 0
            &&& frame_at(s) == (FrameState { typ, flags, stream_id, payload })
            &&& crate::h2::after_frame(s) == after
        }),
{
    law_h2_frame_wire(typ, flags, stream_id, payload);
    law_frame_roundtrip(typ, flags, stream_id, payload, after);
}

/// A response whose headers say 200 and whose body comes in one frame is that status and that
/// body; the body's window is given back, on the stream and on the connection.
pub proof fn law_answer(stream_id: u32, body: Seq<u8>, after: Seq<u8>, key: Seq<u8>, out: Out)
    requires
        0 < stream_id < 0x8000_0000,
        0 < body.len() < 16777216,
    ensures
        answered(
            framed(1, 4, stream_id as int, seq![0x88u8]) + (framed(0, 1, stream_id as int, body)
                + after),
            stream_id,
            0,
            Seq::empty(),
            key,
            out,
        ) == (
            Answered::Done { status: 200, body, after },
            out.push(key, framed(8, 0, stream_id as int, in_four(body.len() as int))).push(
                key,
                framed(8, 0, 0, in_four(body.len() as int)),
            ),
        ),
{
    let s2 = framed(0, 1, stream_id as int, body) + after;
    let s1 = framed(1, 4, stream_id as int, seq![0x88u8]) + s2;
    lemma_next(1, 4, stream_id, seq![0x88u8], s2);
    lemma_next(0, 1, stream_id, body, after);
    law_h2_fixed_frames(stream_id, body.len() as int);
    law_h2_fixed_frames(0, body.len() as int);
    assert(4u8 & 1u8 == 0 && 1u8 & 1u8 == 1) by (bit_vector);
    assert(status_of(seq![0x88u8]) == Some(200u16));
    assert(Seq::<u8>::empty() + body =~= body);
    assert(answered(s2, stream_id, 200, Seq::empty(), key, out).0 == (Answered::Done {
        status: 200,
        body,
        after,
    }));
    assert(answered(s1, stream_id, 0, Seq::empty(), key, out) == answered(
        s2,
        stream_id,
        200,
        Seq::empty(),
        key,
        out,
    ));
}

/// A body may come in parts: one more part that does not end the stream is put behind what
/// came before, and its window is given back.
pub proof fn law_answer_part(
    stream_id: u32,
    status: u16,
    had: Seq<u8>,
    part: Seq<u8>,
    after: Seq<u8>,
    key: Seq<u8>,
    out: Out,
)
    requires
        0 < stream_id < 0x8000_0000,
        0 < part.len() < 16777216,
    ensures
        answered(
            framed(0, 0, stream_id as int, part) + after,
            stream_id,
            status,
            had,
            key,
            out,
        ) == answered(
            after,
            stream_id,
            status,
            had + part,
            key,
            out.push(key, framed(8, 0, stream_id as int, in_four(part.len() as int))).push(
                key,
                framed(8, 0, 0, in_four(part.len() as int)),
            ),
        ),
{
    lemma_next(0, 0, stream_id, part, after);
    law_h2_fixed_frames(stream_id, part.len() as int);
    law_h2_fixed_frames(0, part.len() as int);
    assert(0u8 & 1u8 == 0) by (bit_vector);
}

/// A frame of another stream has no part in the response; the server's settings are
/// acknowledged on the way; where the server goes away the response ends with the status so
/// far.
pub proof fn law_answer_between(
    typ: u8,
    flags: u8,
    other: u32,
    payload: Seq<u8>,
    stream_id: u32,
    status: u16,
    had: Seq<u8>,
    after: Seq<u8>,
    key: Seq<u8>,
    out: Out,
)
    requires
        0 < stream_id < 0x8000_0000,
        0 < other < 0x8000_0000,
        other != stream_id,
        payload.len() < 16777216,
    ensures
        answered(
            framed(typ, flags, other as int, payload) + after,
            stream_id,
            status,
            had,
            key,
            out,
        ) == answered(after, stream_id, status, had, key, out),
        answered(framed(4, 0, 0, payload) + after, stream_id, status, had, key, out) == answered(
            after,
            stream_id,
            status,
            had,
            key,
            out.push(key, framed(4, 1, 0, Seq::empty())),
        ),
        answered(framed(7, 0, 0, payload) + after, stream_id, status, had, key, out) == (
            Answered::Goaway(status),
            out,
        ),
{
    lemma_next(typ, flags, other, payload, after);
    lemma_next(4, 0, 0, payload, after);
    lemma_next(7, 0, 0, payload, after);
    law_h2_fixed_frames(0, 0);
    assert(0u8 & 1u8 == 0) by (bit_vector);
}

/// A payload on the stream is what a read of it gives, and its window is given back; a frame of
/// data on another stream is passed over.
pub proof fn law_stream_payload(
    stream_id: u32,
    other: u32,
    payload: Seq<u8>,
    after: Seq<u8>,
    key: Seq<u8>,
    out: Out,
)
    requires
        0 < stream_id < 0x8000_0000,
        0 < other < 0x8000_0000,
        other != stream_id,
        0 < payload.len() < 16777216,
    ensures
        streamed(framed(0, 0, stream_id as int, payload) + after, stream_id, key, out) == (
            Streamed::Data { payload, after },
            out.push(key, framed(8, 0, stream_id as int, in_four(payload.len() as int))).push(
                key,
                framed(8, 0, 0, in_four(payload.len() as int)),
            ),
        ),
        streamed(framed(0, 0, other as int, payload) + after, stream_id, key, out) == streamed(
            after,
            stream_id,
            key,
            out,
        ),
{
    lemma_next(0, 0, stream_id, payload, after);
    lemma_next(0, 0, other, payload, after);
    law_h2_fixed_frames(stream_id, payload.len() as int);
    law_h2_fixed_frames(0, payload.len() as int);
}

/// The end of the stream, by an empty data frame or by headers, ends the reading, each in its
/// own way; so does the server's going away.
pub proof fn law_stream_end(stream_id: u32, block: Seq<u8>, after: Seq<u8>, key: Seq<u8>, out: Out)
    requires
        0 < stream_id < 0x8000_0000,
        block.len() < 16777216,
    ensures
        streamed(framed(0, 1, stream_id as int, Seq::empty()) + after, stream_id, key, out).0
            is StreamClosed,
        streamed(framed(1, 5, stream_id as int, block) + after, stream_id, key, out).0
            is HeadersClosed,
        streamed(framed(1, 4, stream_id as int, block) + after, stream_id, key, out) == streamed(
            after,
            stream_id,
            key,
            out,
        ),
        streamed(framed(7, 0, 0, block) + after, stream_id, key, out).0 is Goaway,
{
    lemma_next(0, 1, stream_id, Seq::empty(), after);
    lemma_next(1, 5, stream_id, block, after);
    lemma_next(1, 4, stream_id, block, after);
    lemma_next(7, 0, 0, block, after);
    assert(1u8 & 1u8 == 1 && 5u8 & 1u8 == 1 && 4u8 & 1u8 == 0) by (bit_vector);
}

/// An early payload stands behind five bytes of magic and four of length; without the magic
/// there is none.
pub proof fn law_early_payload(json: Seq<u8>, after: Seq<u8>)
    requires
        json.len() < 4294967296,
    ensures
        early_of(
            seq![0xffu8, 0xff, 0xff, 0x54, 0x53] + in_four(json.len() as int) + json + after,
        ) == Some((Some(json), after)),
        after.len() >= 9 && after.take(5) != seq![0xffu8, 0xff, 0xff, 0x54, 0x53] ==> early_of(
            after,
        ) == Some((None::<Seq<u8>>, after)),
{
    let n = json.len() as int;
    let s = seq![0xffu8, 0xff, 0xff, 0x54, 0x53] + in_four(n) + json + after;
    law_byte_order(n);
    assert(s.subrange(0, 5) =~= seq![0xffu8, 0xff, 0xff, 0x54, 0x53]);
    assert(s.subrange(5, 9) =~= in_four(n));
    lemma_get_be32(s, 5, n);
    assert(s.subrange(9, 9 + n) =~= json);
    assert(rest(s, 9 + n) =~= after);
    if after.len() >= 9 {
        assert(after.take(5) =~= after.subrange(0, 5));
    }
}

/// The server's settings are waited for; other frames before them are passed over.
pub proof fn law_settled(typ: u8, flags: u8, payload: Seq<u8>, after: Seq<u8>)
    requires
        payload.len() < 16777216,
    ensures
        settled(framed(typ, flags, 0, payload) + after) == if typ == 4 {
            Settled::Done { flags, after }
        } else if typ == 7 {
            Settled::Goaway
        } else {
            settled(after)
        },
{
    lemma_next(typ, flags, 0, payload, after);
}

/// A length in front of a body, four bytes before the opening brace, is not part of it.
pub proof fn law_stripped(a: u8, b: u8, c: u8, d: u8, body: Seq<u8>)
    requires
        a != 123,
        body.len() > 0,
        body[0] == 123,
    ensures
        stripped(seq![a, b, c, d] + body) == body,
        stripped(body) == body,
{
    let s = seq![a, b, c, d] + body;
    assert(s[4] == body[0]);
    assert(rest(s, 4) =~= body);
}

} // verus!
