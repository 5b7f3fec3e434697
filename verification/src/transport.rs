//! The cleartext transport of the ts2021 control channel: an HTTP/1.1 upgrade that
//! carries the first Noise message in a header; from then on the stream carries raw
//! frames.
use vstd::prelude::*;
use vstd::arithmetic::div_mod::lemma_fundamental_div_mod_converse;
use vstd::slice::slice_subrange;
use vstd::utf8::encode_utf8;
use crate::bytes::{be16, copy_range, get_be16, lemma_be16_len, lemma_get_be16, read_be16};
use crate::platform::{read_chunk, read_on, rest, with_write, ByteStream, ReadError, StreamOp};
use crate::text::{
    all_ascii, ascii_string, code_101, contains_text, crlf2, find, find_byte, first_at,
    first_line, index_of, lemma_find_byte, lemma_find_byte_is, occurs_at, push_text, says_101,
};

verus! {

/// An upgrade response whose header is longer than this is refused.
pub const MAX_HEAD: usize = 8192;

/// `String::from_utf8_lossy` as a `String`: what the bytes read as, where invalid
/// sequences are replaced.
pub uninterp spec fn lossy_text(bytes: Seq<u8>) -> Seq<char>;

/// Whether `c` is white space, as Unicode's White_Space property has it.
pub open spec fn is_white(c: char) -> bool {
    let n = c as u32;
    ||| 0x9 <= n <= 0xd
    ||| n == 0x20 || n == 0x85 || n == 0xa0 || n == 0x1680
    ||| 0x2000 <= n <= 0x200a
    ||| n == 0x2028 || n == 0x2029 || n == 0x202f || n == 0x205f || n == 0x3000
}

/// The text without white space at its ends.
pub open spec fn trimmed(s: Seq<char>) -> Seq<char>
    decreases s.len(),
{
    if s.len() > 0 && is_white(s[0]) {
        trimmed(s.drop_first())
    } else if s.len() > 0 && is_white(s.last()) {
        trimmed(s.drop_last())
    } else {
        s
    }
}

/// `String::from_utf8_lossy`, which depends on the bytes alone.
#[verifier::external_body]
pub(crate) fn from_utf8_lossy(bytes: &[u8]) -> (r: String)
    ensures
        r@ == lossy_text(bytes@),
{
    String::from_utf8_lossy(bytes).into_owned()
}

/// `str::trim`: it takes the white space off both ends, by Unicode's White_Space property.
#[verifier::external_body]
pub(crate) fn trim(s: &str) -> (r: String)
    ensures
        r@ == trimmed(s@),
{
    s.trim().to_owned()
}

/// Why the upgrade or a read failed.
#[derive(Debug)]
pub enum ConnError {
    /// A write failed.
    Write,
    /// A read fell short.
    Read(ReadError),
    /// The upgrade response has too long a header.
    HeadTooLarge,
    /// The upgrade was refused, with this status line and this beginning of a body.
    Refused { status: String, body: String },
}

/// A live connection: the stream, and bytes that were read from it ahead.
pub struct Conn<S: ByteStream> {
    pub stream: S,
    pub rx: Vec<u8>,
}

/// The upgrade request.
pub open spec fn request_of(host: Seq<char>, handshake: Seq<char>) -> Seq<u8> {
    encode_utf8("POST /ts2021 HTTP/1.1\r\nHost: "@) + encode_utf8(host) + encode_utf8(
        "\r\nUpgrade: tailscale-control-protocol\r\nConnection: upgrade\r\nX-Tailscale-Handshake: "@,
    ) + encode_utf8(handshake) + encode_utf8("\r\nContent-Length: 0\r\n\r\n"@)
}

/// The status line of an HTTP header.
pub open spec fn status_of(head: Seq<u8>) -> Seq<char> {
    trimmed(lossy_text(first_line(head)))
}

/// Whether a status line says that the server switches protocols.
pub open spec fn switches(status: Seq<char>) -> bool {
    contains_text(encode_utf8(status), code_101())
}

/// Whether a status line says that the server switches protocols.
pub fn is_switching(status: &str) -> (r: bool)
    ensures
        r == switches(status@),
{
    says_101(status.as_bytes())
}

/// The first line of a header does not depend on what follows the header.
proof fn lemma_first_line(s: Seq<u8>, n: int, m: int)
    requires
        first_at(s, crlf2(), n - 4),
        n <= m <= s.len(),
    ensures
        first_line(s.subrange(0, m)) == first_line(s.subrange(0, n)),
{
    let a = s.subrange(0, n);
    let b = s.subrange(0, m);
    let k = find_byte(a, 10);
    lemma_find_byte(a, 10);
    assert(s.subrange(n - 4, n)[1] == 10);
    assert(a[n - 3] == 10);
    assert(k <= n - 3);
    lemma_find_byte_is(b, 10, k);
    assert(a.subrange(0, k) =~= b.subrange(0, k));
}

/// The first place of the end of the header does not depend on what follows.
proof fn lemma_first_at_longer(s: Seq<u8>, m: int, k: int)
    requires
        0 <= m <= s.len(),
        first_at(s.subrange(0, m), crlf2(), k),
    ensures
        first_at(s, crlf2(), k),
{
    let a = s.subrange(0, m);
    assert(s.subrange(k, k + 4) =~= a.subrange(k, k + 4));
    assert forall|j: int| 0 <= j < k implies !#[trigger] occurs_at(s, crlf2(), j) by {
        if occurs_at(s, crlf2(), j) {
            assert(a.subrange(j, j + 4) =~= s.subrange(j, j + 4));
            assert(occurs_at(a, crlf2(), j));
        }
    }
}

/// Whether `c` is the connection that the upgrade of `stream` gives: the request went out,
/// in the first call and the only write, and the server agreed to switch.
pub open spec fn upgrade_done<S: ByteStream>(
    stream: S,
    host: Seq<char>,
    handshake: Seq<char>,
    c: Conn<S>,
) -> bool {
    &&& exists|n: int|
        #[trigger] first_at(stream.unread(), crlf2(), n - 4) && switches(
            status_of(stream.unread().subrange(0, n)),
        ) && c.pending() == rest(stream.unread(), n) && c.stream.sent() == stream.sent()
            + request_of(host, handshake)
    &&& read_on(with_write(stream.history(), request_of(host, handshake)), c.stream.history())
    &&& stream.reliable() ==> c.stream.reliable()
}

/// Whether the upgrade of `stream` may fail with `e`.
pub open spec fn upgrade_failed<S: ByteStream>(stream: S, e: ConnError) -> bool {
    match e {
        ConnError::Refused { status, body } => exists|n: int, m: int|
            #[trigger] first_at(stream.unread(), crlf2(), n - 4) && n <= m
                <= stream.unread().len() && status@ == status_of(stream.unread().subrange(0, n))
                && !switches(status@) && body@ == trimmed(
                lossy_text(#[trigger] stream.unread().subrange(n, m)),
            ),
        ConnError::HeadTooLarge => exists|m: int|
            MAX_HEAD < m <= stream.unread().len() && !contains_text(
                #[trigger] stream.unread().subrange(0, m),
                crlf2(),
            ),
        ConnError::Read(ReadError::Closed) => !contains_text(stream.unread(), crlf2()),
        ConnError::Read(ReadError::Failed) => !stream.reliable(),
        ConnError::Write => !stream.reliable(),
    }
}

/// Builds the upgrade request.
pub fn build_request(host: &str, handshake_b64: &str) -> (r: Vec<u8>)
    ensures
        r@ == request_of(host@, handshake_b64@),
{
    let mut req: Vec<u8> = Vec::new();
    push_text(&mut req, "POST /ts2021 HTTP/1.1\r\nHost: ");
    push_text(&mut req, host);
    push_text(
        &mut req,
        "\r\nUpgrade: tailscale-control-protocol\r\nConnection: upgrade\r\nX-Tailscale-Handshake: ",
    );
    push_text(&mut req, handshake_b64);
    push_text(&mut req, "\r\nContent-Length: 0\r\n\r\n");
    assert(req@ =~= request_of(host@, handshake_b64@));
    req
}

/// Performs the upgrade over a connected stream. The connection stands right after the
/// response header; bytes that came after it are kept.
pub fn connect_and_upgrade<S: ByteStream>(stream: S, host: &str, handshake_b64: &str) -> (r: Result<
    Conn<S>,
    ConnError,
>)
    ensures
        match r {
            Ok(c) => upgrade_done(stream, host@, handshake_b64@, c),
            Err(e) => upgrade_failed(stream, e),
        },
{
    let mut s = stream;
    match upgrade_stream(&mut s, host, handshake_b64) {
        Ok(rx) => Ok(Conn { stream: s, rx }),
        Err(e) => Err(e),
    }
}

/// Performs the upgrade on `stream`: the bytes that came after the response header. However
/// it ends, the first call on the stream and the only write is that of the request, and
/// where that fails nothing is read.
pub fn upgrade_stream<S: ByteStream>(stream: &mut S, host: &str, handshake_b64: &str) -> (r: Result<
    Vec<u8>,
    ConnError,
>)
    ensures
        match r {
            Ok(rx) => upgrade_done(
                *old(stream),
                host@,
                handshake_b64@,
                (Conn { stream: *final(stream), rx }),
            ),
            Err(e) => upgrade_failed(*old(stream), e),
        },
        ({
            let request = request_of(host@, handshake_b64@);
            match r {
                Err(ConnError::Write) => final(stream).history() == old(stream).history().push(
                    StreamOp::Write { data: request, ok: false },
                ),
                _ => read_on(with_write(old(stream).history(), request), final(stream).history()),
            }
        }),
{
    let ghost all = stream.unread();
    let req = build_request(host, handshake_b64);
    let ghost asked = with_write(stream.history(), req@);
    match stream.write_all(req.as_slice()) {
        Ok(()) => {},
        Err(()) => {
            return Err(ConnError::Write);
        },
    }
    let end: [u8; 4] = [13u8, 10, 13, 10];
    assert(end@ =~= crlf2());
    let mut head: Vec<u8> = Vec::new();
    assert(all.subrange(0, 0) =~= head@);
    assert(rest(all, 0) =~= all);
    assert(!contains_text(head@, crlf2()));
    let mut body_start: usize = 0;
    loop
        invariant_except_break
            !contains_text(head@, crlf2()),
        invariant
            all == old(stream).unread(),
            asked == with_write(old(stream).history(), request_of(host@, handshake_b64@)),
            read_on(asked, stream.history()),
            end@ == crlf2(),
            stream.sent() == old(stream).sent() + request_of(host@, handshake_b64@),
            old(stream).reliable() ==> stream.reliable(),
            head@.len() <= all.len(),
            head@ == all.subrange(0, head@.len() as int),
            stream.unread() == rest(all, head@.len() as int),
        ensures
            4 <= body_start <= head@.len(),
            first_at(head@, crlf2(), body_start - 4),
        decreases stream.unread().len(),
    {
        let ghost had = head@.len() as int;
        let got: usize = match read_chunk(stream, [0u8; 512], &mut head) {
            Ok(n) => n,
            Err(()) => {
                return Err(ConnError::Read(ReadError::Failed));
            },
        };
        proof {
            assert(head@ =~= all.subrange(0, had + got));
            assert(stream.unread() =~= rest(all, had + got));
        }
        if got == 0 {
            assert(all.subrange(0, had) =~= all);
            return Err(ConnError::Read(ReadError::Closed));
        }
        match find(head.as_slice(), end.as_slice()) {
            Some(pos) => {
                let _n: usize = head.len();
                body_start = pos + 4;
                break;
            },
            None => {},
        }
        if head.len() > MAX_HEAD {
            return Err(ConnError::HeadTooLarge);
        }
    }
    let ghost n = body_start as int;
    let ghost m = head@.len() as int;
    proof {
        lemma_first_at_longer(all, m, n - 4);
        lemma_first_line(all, n, m);
        assert(first_at(all, crlf2(), n - 4));
    }
    let cut: usize = index_of(head.as_slice(), 10);
    let line = copy_range(head.as_slice(), 0, cut);
    let status = trim(from_utf8_lossy(line.as_slice()).as_str());
    assert(status@ == status_of(all.subrange(0, n)));
    let after = copy_range(head.as_slice(), body_start, head.len());
    assert(after@ =~= all.subrange(n, m));
    if !is_switching(status.as_str()) {
        let body = trim(from_utf8_lossy(after.as_slice()).as_str());
        return Err(ConnError::Refused { status, body });
    }
    assert(after@ + stream.unread() =~= rest(all, n));
    Ok(after)
}

/// Whether a stream error decided: a write failed, or a read.
pub open spec fn stream_decided(e: ConnError) -> bool {
    e is Write || e matches ConnError::Read(ReadError::Failed)
}

/// Unless a write or a read failed, what the stream delivers decides the upgrade, in whatever
/// pieces it comes: with a header of `n` bytes it succeeds if and only if the status line says
/// that the server switches, and the connection then stands right after the header.
pub proof fn law_upgrade_decided<S: ByteStream>(
    stream: S,
    host: Seq<char>,
    handshake: Seq<char>,
    r: Result<Conn<S>, ConnError>,
    n: int,
)
    requires
        match r {
            Ok(c) => upgrade_done(stream, host, handshake, c),
            Err(e) => upgrade_failed(stream, e) && !stream_decided(e),
        },
        first_at(stream.unread(), crlf2(), n - 4),
        n <= MAX_HEAD,
    ensures
        r is Ok <==> switches(status_of(stream.unread().subrange(0, n))),
        r matches Ok(c) ==> c.pending() == rest(stream.unread(), n) && c.stream.sent()
            == stream.sent() + request_of(host, handshake),
        r matches Err(e) ==> e is Refused,
{
    let all = stream.unread();
    match r {
        Ok(c) => {
            let m = choose|m: int|
                #[trigger] first_at(all, crlf2(), m - 4) && switches(
                    status_of(all.subrange(0, m)),
                ) && c.pending() == rest(all, m) && c.stream.sent() == stream.sent() + request_of(
                    host,
                    handshake,
                );
            lemma_first_at_unique(all, m - 4, n - 4);
        },
        Err(ConnError::Refused { status, body }) => {
            let (k, m) = choose|k: int, m: int|
                #[trigger] first_at(all, crlf2(), k - 4) && k <= m <= all.len() && status@
                    == status_of(all.subrange(0, k)) && !switches(status@) && body@ == trimmed(
                    lossy_text(#[trigger] all.subrange(k, m)),
                );
            lemma_first_at_unique(all, k - 4, n - 4);
        },
        Err(ConnError::HeadTooLarge) => {
            let m = choose|m: int|
                MAX_HEAD < m <= all.len() && !contains_text(
                    #[trigger] all.subrange(0, m),
                    crlf2(),
                );
            let a = all.subrange(0, m);
            assert(a.subrange(n - 4, n) =~= all.subrange(n - 4, n));
            assert(occurs_at(a, crlf2(), n - 4));
        },
        Err(_) => {
            assert(occurs_at(all, crlf2(), n - 4));
        },
    }
}

/// Where the stream ends without the end of a header, the upgrade does not succeed.
pub proof fn law_upgrade_needs_header<S: ByteStream>(
    stream: S,
    host: Seq<char>,
    handshake: Seq<char>,
    c: Conn<S>,
)
    requires
        !contains_text(stream.unread(), crlf2()),
    ensures
        !upgrade_done(stream, host, handshake, c),
{
    if upgrade_done(stream, host, handshake, c) {
        let n = choose|n: int| #[trigger] first_at(stream.unread(), crlf2(), n - 4);
        assert(occurs_at(stream.unread(), crlf2(), n - 4));
    }
}

/// The end of the header comes first in one place.
proof fn lemma_first_at_unique(s: Seq<u8>, a: int, b: int)
    requires
        first_at(s, crlf2(), a),
        first_at(s, crlf2(), b),
    ensures
        a == b,
{
    if a < b {
        assert(occurs_at(s, crlf2(), a));
    }
    if b < a {
        assert(occurs_at(s, crlf2(), b));
    }
}

/// The length that the frame at the beginning of `s` announces.
pub open spec fn frame_len(s: Seq<u8>) -> int {
    get_be16(s, 1)
}

/// Whether a whole frame stands at the beginning of `s`: type, 16-bit length, payload.
pub open spec fn has_frame(s: Seq<u8>) -> bool {
    s.len() >= 3 && s.len() >= 3 + frame_len(s)
}

/// The payload of the frame at the beginning of `s`.
pub open spec fn frame_payload(s: Seq<u8>) -> Seq<u8> {
    s.subrange(3, 3 + frame_len(s))
}

/// A frame that was written reads back as it is, and what follows it follows.
pub proof fn law_frame_roundtrip(typ: u8, payload: Seq<u8>, after: Seq<u8>)
    requires
        payload.len() <= 65535,
    ensures
        ({
            let s = seq![typ] + be16(payload.len() as int) + payload + after;
            &&& has_frame(s)
            &&& s[0] == typ
            &&& frame_payload(s) == payload
            &&& rest(s, 3 + frame_len(s)) == after
        }),
{
    let n = payload.len() as int;
    let s = seq![typ] + be16(n) + payload + after;
    lemma_be16_len(n);
    assert(s.subrange(1, 3) =~= be16(n));
    lemma_get_be16(s, 1, n);
    assert(frame_payload(s) =~= payload);
    assert(rest(s, 3 + frame_len(s)) =~= after);
}

impl<S: ByteStream> Conn<S> {
    /// Everything that is still to come: what was read ahead, and what the stream will
    /// deliver.
    pub open spec fn pending(&self) -> Seq<u8> {
        self.rx@ + self.stream.unread()
    }

    /// Reads ahead until `n` bytes are at hand.
    fn fill_to(&mut self, n: usize) -> (r: Result<(), ReadError>)
        ensures
            final(self).pending() == old(self).pending(),
            final(self).stream.sent() == old(self).stream.sent(),
            read_on(old(self).stream.history(), final(self).stream.history()),
            old(self).stream.reliable() ==> final(self).stream.reliable(),
            r is Ok ==> final(self).rx@.len() >= n,
            r matches Err(e) ==> old(self).rx@.len() < n && match e {
                ReadError::Closed => old(self).pending().len() < n,
                ReadError::Failed => !old(self).stream.reliable(),
            },
    {
        while self.rx.len() < n
            invariant
                self.pending() == old(self).pending(),
                self.stream.sent() == old(self).stream.sent(),
                read_on(old(self).stream.history(), self.stream.history()),
                old(self).stream.reliable() ==> self.stream.reliable(),
                self.rx@.len() >= old(self).rx@.len(),
            decreases self.stream.unread().len(),
        {
            let ghost was = self.pending();
            match read_chunk(&mut self.stream, [0u8; 2048], &mut self.rx) {
                Ok(got) => {
                    assert(self.pending() =~= was);
                    if got == 0 {
                        return Err(ReadError::Closed);
                    }
                },
                Err(()) => {
                    return Err(ReadError::Failed);
                },
            }
        }
        Ok(())
    }

    /// Takes the next `n` bytes.
    fn take(&mut self, n: usize) -> (r: Result<Vec<u8>, ReadError>)
        ensures
            final(self).stream.sent() == old(self).stream.sent(),
            read_on(old(self).stream.history(), final(self).stream.history()),
            old(self).stream.reliable() ==> final(self).stream.reliable(),
            match r {
                Ok(v) => {
                    &&& n <= old(self).pending().len()
                    &&& v@ == old(self).pending().subrange(0, n as int)
                    &&& final(self).pending() == rest(old(self).pending(), n as int)
                },
                Err(e) => {
                    &&& final(self).pending() == old(self).pending()
                    &&& old(self).rx@.len() < n
                    &&& match e {
                        ReadError::Closed => old(self).pending().len() < n,
                        ReadError::Failed => !old(self).stream.reliable(),
                    }
                },
            },
            r is Ok && old(self).rx@.len() >= n ==> final(self).rx@ == rest(
                old(self).rx@,
                n as int,
            ),
    {
        if self.rx.len() < n {
            match self.fill_to(n) {
                Ok(()) => {},
                Err(e) => {
                    return Err(e);
                },
            }
        }
        let ghost all = self.pending();
        let ghost rx0 = self.rx@;
        let out = copy_range(self.rx.as_slice(), 0, n);
        let tail = copy_range(self.rx.as_slice(), n, self.rx.len());
        self.rx = tail;
        proof {
            assert(out@ =~= all.subrange(0, n as int));
            assert(self.pending() =~= rest(all, n as int));
            assert(self.rx@ =~= rest(rx0, n as int));
        }
        Ok(out)
    }

    /// Reads one frame: type and payload. What was read ahead is enough if it holds a
    /// whole frame; otherwise the stream decides. Unless a read failed, a frame comes if and
    /// only if a whole one is still to come, in whatever pieces.
    pub fn read_frame(&mut self) -> (r: Result<(u8, Vec<u8>), ConnError>)
        ensures
            final(self).stream.sent() == old(self).stream.sent(),
            read_on(old(self).stream.history(), final(self).stream.history()),
            old(self).stream.reliable() ==> final(self).stream.reliable(),
            match r {
                Ok(f) => {
                    let s = old(self).pending();
                    &&& has_frame(s)
                    &&& f.0 == s[0]
                    &&& f.1@ == frame_payload(s)
                    &&& final(self).pending() == rest(s, 3 + frame_len(s))
                },
                Err(ConnError::Read(ReadError::Closed)) => !has_frame(old(self).pending()),
                Err(ConnError::Read(ReadError::Failed)) => !old(self).stream.reliable(),
                Err(_) => false,
            },
            !(r matches Err(e) && stream_decided(e)) ==> (r is Ok <==> has_frame(
                old(self).pending(),
            )),
            has_frame(old(self).rx@) ==> r is Ok,
            final(self).pending().len() <= old(self).pending().len(),
    {
        let ghost all = self.pending();
        let ghost rx0 = self.rx@;
        let hdr = match self.take(3) {
            Ok(v) => v,
            Err(e) => {
                return Err(ConnError::Read(e));
            },
        };
        let len: u16 = read_be16(hdr.as_slice(), 1);
        proof {
            assert(hdr@[0] == all[0] && hdr@[1] == all[1] && hdr@[2] == all[2]);
            if rx0.len() >= 3 {
                assert(rx0[1] == all[1] && rx0[2] == all[2]);
            }
        }
        let payload = match self.take(len as usize) {
            Ok(v) => v,
            Err(e) => {
                return Err(ConnError::Read(e));
            },
        };
        proof {
            assert(payload@ =~= frame_payload(all));
            assert(self.pending() =~= rest(all, 3 + frame_len(all)));
        }
        Ok((hdr[0], payload))
    }

    /// Writes `data`.
    pub fn write_all(&mut self, data: &[u8]) -> (r: Result<(), ConnError>)
        ensures
            final(self).pending() == old(self).pending(),
            final(self).stream.history() == old(self).stream.history().push(
                StreamOp::Write { data: data@, ok: r is Ok },
            ),
            r is Ok ==> final(self).stream.sent() == old(self).stream.sent() + data@,
            r matches Err(e) ==> e == ConnError::Write && !old(self).stream.reliable(),
            old(self).stream.reliable() ==> final(self).stream.reliable(),
    {
        match self.stream.write_all(data) {
            Ok(()) => Ok(()),
            Err(()) => Err(ConnError::Write),
        }
    }
}

// --- base64 ---

/// The character of a 6-bit value.
pub open spec fn b64_char(n: int) -> u8 {
    if n < 26 {
        (65 + n) as u8
    } else if n < 52 {
        (71 + n) as u8
    } else if n < 62 {
        (n - 4) as u8
    } else if n == 62 {
        43
    } else {
        47
    }
}

/// The four characters of up to three bytes; what is missing is padded with `=`.
pub open spec fn b64_group(g: Seq<u8>) -> Seq<u8> {
    let b1 = if g.len() > 1 {
        g[1] as int
    } else {
        0
    };
    let b2 = if g.len() > 2 {
        g[2] as int
    } else {
        0
    };
    let n = g[0] * 65536 + b1 * 256 + b2;
    seq![
        b64_char(n / 262144),
        b64_char((n / 4096) % 64),
        if g.len() > 1 {
            b64_char((n / 64) % 64)
        } else {
            61u8
        },
        if g.len() > 2 {
            b64_char(n % 64)
        } else {
            61u8
        },
    ]
}

/// Standard base64 with padding.
pub open spec fn b64_of(data: Seq<u8>) -> Seq<u8>
    decreases data.len(),
{
    if data.len() == 0 {
        Seq::empty()
    } else if data.len() <= 3 {
        b64_group(data)
    } else {
        b64_group(data.subrange(0, 3)) + b64_of(data.subrange(3, data.len() as int))
    }
}

/// The character of a 6-bit value.
fn sextet(n: u32) -> (r: u8)
    requires
        n < 64,
    ensures
        r == b64_char(n as int),
        r < 128,
{
    if n < 26 {
        (65 + n) as u8
    } else if n < 52 {
        (71 + n) as u8
    } else if n < 62 {
        (n - 4) as u8
    } else if n == 62 {
        43
    } else {
        47
    }
}

/// Appends the four characters of up to three bytes.
fn push_group(out: &mut Vec<u8>, g: &[u8])
    requires
        1 <= g@.len() <= 3,
        all_ascii(old(out)@),
    ensures
        final(out)@ == old(out)@ + b64_group(g@),
        all_ascii(final(out)@),
{
    let len: usize = g.len();
    let b0: u32 = g[0] as u32;
    let b1: u32 = if len > 1 {
        g[1] as u32
    } else {
        0
    };
    let b2: u32 = if len > 2 {
        g[2] as u32
    } else {
        0
    };
    let v: u32 = b0 * 65536 + b1 * 256 + b2;
    let c0: u8 = sextet(v / 262144);
    let c1: u8 = sextet((v / 4096) % 64);
    let c2: u8 = if len > 1 {
        sextet((v / 64) % 64)
    } else {
        61
    };
    let c3: u8 = if len > 2 {
        sextet(v % 64)
    } else {
        61
    };
    out.push(c0);
    out.push(c1);
    out.push(c2);
    out.push(c3);
    assert(b64_group(g@) =~= seq![c0, c1, c2, c3]);
    assert(out@ =~= old(out)@ + b64_group(g@));
}

/// The encoding of what begins with a group is the group's and the rest's.
proof fn lemma_b64_step(s: Seq<u8>, n: int)
    requires
        0 < n <= 3,
        n == s.len() || (n == 3 && s.len() > 3),
    ensures
        b64_of(s) == b64_group(s.subrange(0, n)) + b64_of(s.subrange(n, s.len() as int)),
{
    if s.len() <= 3 {
        assert(s.subrange(0, n) =~= s);
        assert(s.subrange(n, s.len() as int) =~= Seq::empty());
        assert(b64_of(Seq::<u8>::empty()) =~= Seq::empty());
        assert(b64_group(s) + Seq::<u8>::empty() =~= b64_group(s));
    }
}

/// Standard base64 with padding.
pub fn base64_std(data: &[u8]) -> (r: String)
    ensures
        encode_utf8(r@) == b64_of(data@),
{
    let n: usize = data.len();
    let mut out: Vec<u8> = Vec::new();
    let mut i: usize = 0;
    assert(data@.subrange(0, n as int) =~= data@);
    assert(out@ + b64_of(data@) =~= b64_of(data@));
    while i < n
        invariant
            i <= n,
            n == data@.len(),
            all_ascii(out@),
            out@ + b64_of(data@.subrange(i as int, n as int)) == b64_of(data@),
        decreases n - i,
    {
        let len: usize = if n - i < 3 {
            n - i
        } else {
            3
        };
        let ghost left = data@.subrange(i as int, n as int);
        let ghost was = out@;
        push_group(&mut out, slice_subrange(data, i, i + len));
        proof {
            let g = data@.subrange(i as int, i + len);
            let next = data@.subrange(i + len, n as int);
            lemma_b64_step(left, len as int);
            assert(left.subrange(0, len as int) =~= g);
            assert(left.subrange(len as int, left.len() as int) =~= next);
            assert(was + (b64_group(g) + b64_of(next)) =~= was + b64_group(g) + b64_of(next));
        }
        i = i + len;
    }
    assert(data@.subrange(n as int, n as int) =~= Seq::empty());
    assert(out@ =~= b64_of(data@));
    ascii_string(out)
}

/// The 6-bit value of a character.
pub open spec fn b64_value(c: u8) -> int {
    if 65 <= c <= 90 {
        c - 65
    } else if 97 <= c <= 122 {
        c - 71
    } else if 48 <= c <= 57 {
        c + 4
    } else if c == 43 {
        62
    } else {
        63
    }
}

/// The bytes that four characters stand for.
pub open spec fn b64_ungroup(s: Seq<u8>) -> Seq<u8> {
    let n = b64_value(s[0]) * 262144 + b64_value(s[1]) * 4096 + (if s[2] == 61 {
        0
    } else {
        b64_value(s[2])
    }) * 64 + (if s[3] == 61 {
        0
    } else {
        b64_value(s[3])
    });
    if s[2] == 61 {
        seq![(n / 65536) as u8]
    } else if s[3] == 61 {
        seq![(n / 65536) as u8, ((n / 256) % 256) as u8]
    } else {
        seq![(n / 65536) as u8, ((n / 256) % 256) as u8, (n % 256) as u8]
    }
}

/// The bytes that a base64 text stands for.
pub open spec fn b64_decode(s: Seq<u8>) -> Seq<u8>
    decreases s.len(),
{
    if s.len() < 4 {
        Seq::empty()
    } else {
        b64_ungroup(s.subrange(0, 4)) + b64_decode(s.subrange(4, s.len() as int))
    }
}

/// A character leads back to its value and is no padding.
proof fn lemma_b64_char(n: int)
    requires
        0 <= n < 64,
    ensures
        b64_value(b64_char(n)) == n,
        b64_char(n) != 61,
{
}

/// Three bytes and their four 6-bit values.
proof fn lemma_b64_arith(b0: int, b1: int, b2: int)
    requires
        0 <= b0 < 256,
        0 <= b1 < 256,
        0 <= b2 < 256,
    ensures
        ({
            let n = b0 * 65536 + b1 * 256 + b2;
            &&& 0 <= n / 262144 < 64
            &&& (n / 262144) * 262144 + ((n / 4096) % 64) * 4096 + ((n / 64) % 64) * 64 + n % 64
                == n
            &&& n / 65536 == b0
            &&& (n / 256) % 256 == b1
            &&& n % 256 == b2
            &&& b1 == 0 && b2 == 0 ==> (n / 64) % 64 == 0
            &&& b2 == 0 ==> n % 64 == 0
        }),
{
    let n = b0 * 65536 + b1 * 256 + b2;
    let (a, p) = (b0 / 4, b0 % 4);
    let (q, r) = (b1 / 16, b1 % 16);
    let (s, u) = (b2 / 64, b2 % 64);
    let y = a * 64 + (p * 16 + q);
    let z = y * 64 + (r * 4 + s);
    let w = b0 * 256 + b1;
    lemma_fundamental_div_mod_converse(n, 64, z, u);
    lemma_fundamental_div_mod_converse(n, 4096, y, (r * 4 + s) * 64 + u);
    lemma_fundamental_div_mod_converse(n, 262144, a, (p * 16 + q) * 4096 + (r * 4 + s) * 64 + u);
    lemma_fundamental_div_mod_converse(z, 64, y, r * 4 + s);
    lemma_fundamental_div_mod_converse(y, 64, a, p * 16 + q);
    lemma_fundamental_div_mod_converse(n, 256, w, b2);
    lemma_fundamental_div_mod_converse(w, 256, b0, b1);
    lemma_fundamental_div_mod_converse(n, 65536, b0, b1 * 256 + b2);
}

/// A group of characters leads back to its bytes.
proof fn lemma_b64_group(g: Seq<u8>)
    requires
        1 <= g.len() <= 3,
    ensures
        b64_ungroup(b64_group(g)) == g,
{
    let b1 = if g.len() > 1 {
        g[1] as int
    } else {
        0
    };
    let b2 = if g.len() > 2 {
        g[2] as int
    } else {
        0
    };
    let n = g[0] * 65536 + b1 * 256 + b2;
    lemma_b64_arith(g[0] as int, b1, b2);
    let x0 = n / 262144;
    let x1 = (n / 4096) % 64;
    let x2 = (n / 64) % 64;
    let x3 = n % 64;
    lemma_b64_char(x0);
    lemma_b64_char(x1);
    lemma_b64_char(x2);
    lemma_b64_char(x3);
    let s = b64_group(g);
    assert(s[0] == b64_char(x0) && s[1] == b64_char(x1));
    assert(g.len() > 1 ==> s[2] == b64_char(x2));
    assert(g.len() > 2 ==> s[3] == b64_char(x3));
    assert(b64_ungroup(s) =~= g);
}

/// Decoding gives back what was encoded.
pub proof fn law_base64_roundtrip(data: Seq<u8>)
    ensures
        b64_decode(b64_of(data)) == data,
    decreases data.len(),
{
    if data.len() == 0 {
    } else if data.len() <= 3 {
        lemma_b64_group(data);
        let s = b64_of(data);
        assert(s.subrange(0, 4) =~= s);
        assert(s.subrange(4, 4) =~= Seq::empty());
        assert(b64_decode(Seq::<u8>::empty()) =~= Seq::empty());
        assert(b64_decode(s) =~= data);
    } else {
        let g = data.subrange(0, 3);
        let tail = data.subrange(3, data.len() as int);
        lemma_b64_group(g);
        law_base64_roundtrip(tail);
        let s = b64_of(data);
        assert(s.subrange(0, 4) =~= b64_group(g));
        assert(s.subrange(4, s.len() as int) =~= b64_of(tail));
        assert(data =~= g + tail);
    }
}

} // verus!
