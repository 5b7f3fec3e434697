//! What holds of the steps around a session: keys in text, the channel's first exchange, the
//! netmap as a stream, queries for the public address, and what is kept between starts.
use vstd::prelude::*;
use vstd::utf8::encode_utf8;
use crate::bytes::{be16, get_be32};
use crate::chore_laws::through;
use crate::control::{
    bad_char, connected, dialled, exchanged, finish_failed, finished, fresh_session, key_of,
    law_scan_own_address, map_body, scan_of, shaken, sought, stream_end, upgraded, whole_scan_of, without_mkey, Config, ControlError, KeyError,
};
use crate::dataplane::{lemma_first_where_is, Bench, EntryState, NodeState};
use crate::h2::{post_of, started, stripped, streamed, Answered, Out, Streamed, H2};
use crate::icmp::{inet_checksum, law_checksum_verifies};
use crate::keys::{FreshKeys, KeyName, NodeKeys, StoreState};
use crate::magicsock::{query_next, QueryError};
use crate::mdns::remembered;
use crate::net::{Ipv4Addr, SocketAddr, SocketAddrV4};
use crate::netmap_laws::{digits_at, in_dots, lemma_dots, nibble};
use crate::noise::{
    initiation_frame, noise_messages, noise_read, noise_setup, noise_split, noise_written,
    Transport,
};
use crate::packet_laws::{law_checksum, words};
use crate::periodic::{next_round, report_header, report_of, sport_of};
use crate::platform::{rest, ByteStream, Connector};
use crate::scan::{in_message, opening, own_at, place_at};
use crate::stun::response_of;
use crate::text::{hex_bytes, hex_digit, occurs_at};
use crate::transport::{b64_of, frame_len, is_white, switches, trimmed, upgrade_done, Conn};
use crate::wire::{in_two, law_byte_order, net16, net32};

verus! {

broadcast use crate::bytes::group_lengths;

/// A key's digits: there are 64 of them, each pair gives a byte; the first character that is no
/// digit is named.
pub proof fn law_key_digits(s: Seq<u8>, k: Seq<u8>)
    ensures
        key_of(s) == Ok::<Seq<u8>, KeyError>(k) <==> s.len() == 64 && k.len() == 32 && forall|
            i: int,
        |
            0 <= i < 32 ==> digits_at(s, 2 * i, #[trigger] k[i]),
        s.len() != 64 ==> key_of(s) == Err::<Seq<u8>, KeyError>(KeyError::Length(s.len() as usize)),
        s.len() == 64 && key_of(s) is Err ==> exists|i: int|
            0 <= i < 64 && nibble(#[trigger] s[i]) < 0 && key_of(s) == Err::<Seq<u8>, KeyError>(
                KeyError::BadChar(s[i]),
            ) && forall|j: int| 0 <= j < i ==> nibble(#[trigger] s[j]) >= 0,
{
    if key_of(s) == Ok::<Seq<u8>, KeyError>(k) {
        assert forall|i: int| 0 <= i < 32 implies digits_at(s, 2 * i, #[trigger] k[i]) by {
            assert(hex_digit(s[2 * i]) is Some && hex_digit(s[2 * i + 1]) is Some);
        }
    }
    if s.len() == 64 && k.len() == 32 && forall|i: int|
        0 <= i < 32 ==> digits_at(s, 2 * i, #[trigger] k[i]) {
        assert forall|j: int| 0 <= j < 64 implies hex_digit(#[trigger] s[j]) is Some by {
            let i = j / 2;
            assert(digits_at(s, 2 * i, k[i]));
            assert(j == 2 * i || j == 2 * i + 1);
        }
        let bytes = hex_bytes(s)->0;
        assert forall|i: int| 0 <= i < 32 implies #[trigger] bytes[i] == k[i] by {
            assert(digits_at(s, 2 * i, k[i]));
        }
        assert(bytes =~= k);
    }
    if s.len() == 64 && key_of(s) is Err {
        lemma_bad_char(s);
    }
}

proof fn lemma_bad_char(s: Seq<u8>)
    requires
        exists|i: int| 0 <= i < s.len() && hex_digit(#[trigger] s[i]) is None,
    ensures
        exists|i: int|
            0 <= i < s.len() && nibble(#[trigger] s[i]) < 0 && bad_char(s) == Some(s[i])
                && forall|j: int| 0 <= j < i ==> nibble(#[trigger] s[j]) >= 0,
    decreases s.len(),
{
    if hex_digit(s[0]) is None {
        assert(nibble(s[0]) < 0);
    } else {
        let r = rest(s, 1);
        let i = choose|i: int| 0 <= i < s.len() && hex_digit(#[trigger] s[i]) is None;
        assert(r[i - 1] == s[i]);
        lemma_bad_char(r);
        let m = choose|m: int|
            0 <= m < r.len() && nibble(#[trigger] r[m]) < 0 && bad_char(r) == Some(r[m])
                && forall|j: int| 0 <= j < m ==> nibble(#[trigger] r[j]) >= 0;
        assert(s[m + 1] == r[m]);
        assert forall|j: int| 0 <= j < m + 1 implies nibble(#[trigger] s[j]) >= 0 by {
            if j > 0 {
                assert(s[j] == r[j - 1]);
            }
        }
    }
}

/// A message that opens with this node's own addresses gives the first of them, where that is a
/// Tailscale address, up to the slash or the quote, whatever follows.
pub proof fn law_own_address(ip: Ipv4Addr, end: u8, tail: Seq<u8>)
    requires
        ip.a == 100,
        end == 47 || end == 34,
    ensures
        scan_of(own_list() + in_dots(ip) + seq![end] + tail) == Some(in_dots(ip)),
        whole_scan_of(own_list() + in_dots(ip) + seq![end] + tail) == Some(in_dots(ip)),
{
    let text = in_dots(ip);
    let raw = seq![123u8] + opening() + text + seq![end] + tail;
    lemma_dots(ip);
    reveal_with_fuel(place_at, 2);
    assert(raw[0] == 123);
    assert(raw[3] == 111);
    assert(in_message(place_at(raw, 1)));
    assert(!own_at(raw, 0));
    let n = (opening() + text).len() as int;
    assert(raw.subrange(1, 1 + n) =~= opening() + text);
    assert(raw[1 + n] == end);
    law_scan_own_address(raw, 1, text);
    assert(raw =~= own_list() + text + seq![end] + tail);
}

/// The bytes of `{"Node":{"Addresses":["`.
pub open spec fn own_list() -> Seq<u8> {
    seq![123u8, 34, 78, 111, 100, 101, 34, 58, 123, 34] + seq![
        65u8,
        100,
        100,
        114,
        101,
        115,
        115,
        101,
        115,
    ] + seq![34u8, 58, 91, 34]
}

/// The type "mkey:" in front of a key is taken off, and nothing else is.
pub proof fn law_key_type(s: Seq<u8>)
    ensures
        without_mkey(seq![109u8, 107, 101, 121, 58] + s) == s,
        s.len() < 5 || s.take(5) != seq![109u8, 107, 101, 121, 58] ==> without_mkey(s) == s,
{
    let t = seq![109u8, 107, 101, 121, 58] + s;
    assert(t.subrange(0, 5) =~= seq![109u8, 107, 101, 121, 58]);
    assert(rest(t, 5) =~= s);
    if s.len() >= 5 {
        assert(s.take(5) =~= s.subrange(0, 5));
    }
}

/// What is left of a text without the white space around it stands in it, and neither begins nor
/// ends with white space; what was taken off is white space.
pub proof fn law_trimmed(s: Seq<char>) -> (at: int)
    ensures
        0 <= at,
        at + trimmed(s).len() <= s.len(),
        trimmed(s) == s.subrange(at, at + trimmed(s).len()),
        trimmed(s).len() > 0 ==> !is_white(trimmed(s)[0]) && !is_white(trimmed(s).last()),
        forall|i: int| 0 <= i < at ==> is_white(#[trigger] s[i]),
        forall|i: int| at + trimmed(s).len() <= i < s.len() ==> is_white(#[trigger] s[i]),
    decreases s.len(),
{
    if s.len() > 0 && is_white(s[0]) {
        let r = s.drop_first();
        let at = law_trimmed(r);
        let n = trimmed(r).len() as int;
        assert(r.subrange(at, at + n) =~= s.subrange(at + 1, at + 1 + n));
        assert forall|i: int| 0 <= i < at + 1 implies is_white(#[trigger] s[i]) by {
            if i > 0 {
                assert(s[i] == r[i - 1]);
            }
        }
        assert forall|i: int| at + 1 + n <= i < s.len() implies is_white(#[trigger] s[i]) by {
            assert(s[i] == r[i - 1]);
        }
        at + 1
    } else if s.len() > 0 && is_white(s.last()) {
        let r = s.drop_last();
        let at = law_trimmed(r);
        let n = trimmed(r).len() as int;
        assert(r.subrange(at, at + n) =~= s.subrange(at, at + n));
        assert forall|i: int| 0 <= i < at implies is_white(#[trigger] s[i]) by {
            assert(s[i] == r[i]);
        }
        assert forall|i: int| at + n <= i < s.len() implies is_white(#[trigger] s[i]) by {
            if i < s.len() - 1 {
                assert(s[i] == r[i]);
            }
        }
        at
    } else {
        assert(s =~= s.subrange(0, s.len() as int));
        0
    }
}

/// A status line agrees to the upgrade if and only if " 101 " stands in it.
pub proof fn law_switches(status: Seq<char>)
    ensures
        switches(status) <==> exists|k: int|
            0 <= k && k + 5 <= encode_utf8(status).len() && #[trigger] encode_utf8(
                status,
            ).subrange(k, k + 5) == seq![32u8, 49, 48, 49, 32],
{
    let s = encode_utf8(status);
    let c = seq![32u8, 49, 48, 49, 32];
    if switches(status) {
        let k = choose|k: int| #[trigger] occurs_at(s, c, k);
        assert(s.subrange(k, k + 5) == c);
    }
    if exists|k: int| 0 <= k && k + 5 <= s.len() && #[trigger] s.subrange(k, k + 5) == c {
        let k = choose|k: int| 0 <= k && k + 5 <= s.len() && #[trigger] s.subrange(k, k + 5) == c;
        assert(occurs_at(s, c, k));
    }
}

/// The handshake ends with the server's answer of type 2: its payload completes the Noise
/// handshake, whose first key is for sending and whose second is for receiving, and what came
/// behind the answer stays to be read. An answer of type 3 is the server's own error.
pub proof fn law_handshake_ends<S: ByteStream>(
    hs: snow::HandshakeState,
    conn: Conn<S>,
    c: Conn<S>,
    tr: Transport,
    e: ControlError,
)
    ensures
        finished(hs, conn, c, tr) ==> {
            let s = conn.pending();
            let n = net16(s, 1);
            &&& s.len() >= 3 + n
            &&& s[0] == 2
            &&& noise_read(hs, s.subrange(3, 3 + n)) is Some
            &&& tr@.send_key == noise_split(noise_read(hs, s.subrange(3, 3 + n))->0).0
            &&& tr@.recv_key == noise_split(noise_read(hs, s.subrange(3, 3 + n))->0).1
            &&& tr@.tx_nonce == 0 && tr@.rx_nonce == 0
            &&& c.pending() == s.skip(3 + n)
            &&& c.stream.sent() == conn.stream.sent()
        },
        finish_failed(hs, conn, e) ==> match e {
            ControlError::Server(b) => conn.pending()[0] == 3 && b@ == conn.pending().subrange(
                3,
                3 + net16(conn.pending(), 1),
            ),
            ControlError::Noise(_) => conn.pending()[0] == 2 && noise_read(
                hs,
                conn.pending().subrange(3, 3 + net16(conn.pending(), 1)),
            ) is None,
            ControlError::Unexpected(t) => t == conn.pending()[0] && t != 2 && t != 3,
            _ => true,
        },
{
    let s = conn.pending();
    if s.len() >= 3 {
        assert(net16(s, 1) == frame_len(s));
        if s.len() >= 3 + net16(s, 1) {
            assert(s.skip(3 + net16(s, 1)) =~= rest(s, 3 + net16(s, 1)));
        }
    }
}

/// The channel is opened to the configured host and port, without TLS. The handshake on it is
/// between this machine's private key and the server's public key, and its first message goes
/// in the header of the upgrade request: protocol version 1, type 1, its length, the message.
pub proof fn law_channel_opened<C: Connector>(
    connector: &C,
    cfg: Config,
    machine_priv: Seq<u8>,
    control_pub: Seq<u8>,
    hs: snow::HandshakeState,
    conn: Conn<C::Stream>,
)
    requires
        upgraded(connector, cfg, machine_priv, control_pub, hs, conn),
    ensures
        noise_messages(hs) == 1,
        noise_setup(hs).private == machine_priv,
        noise_setup(hs).public == control_pub,
        exists|stream: C::Stream, header: Seq<char>|
            connector.may_open(cfg.control_host@, cfg.ts2021_port, false, Some(stream))
                && #[trigger] upgrade_done(stream, cfg.control_host@, header, conn) && encode_utf8(
                header,
            ) == b64_of(
                seq![0u8, 1, 1] + in_two(noise_written(hs).len() as int) + noise_written(hs),
            ),
{
    let (stream, header) = choose|stream: C::Stream, header: Seq<char>|
        dialled(connector, cfg, stream) && #[trigger] upgrade_done(
            stream,
            cfg.control_host@,
            header,
            conn,
        ) && encode_utf8(header) == b64_of(initiation_frame(noise_written(hs)));
    let m = noise_written(hs);
    law_byte_order(m.len() as int);
    law_byte_order(1);
    assert(initiation_frame(m) =~= seq![0u8, 1, 1] + in_two(m.len() as int) + m);
    assert(upgrade_done(stream, cfg.control_host@, header, conn));
}

/// A session runs on a channel that was opened so, with the keys that its handshake gave, for
/// the configured host.
pub proof fn law_session_opened<C: Connector>(
    connector: &C,
    cfg: Config,
    machine_priv: Seq<u8>,
    control_pub: Seq<u8>,
    sess: H2<C::Stream>,
)
    requires
        fresh_session(connector, cfg, machine_priv, control_pub, sess),
    ensures
        exists|hs: snow::HandshakeState, before: Conn<C::Stream>|
            #[trigger] upgraded(connector, cfg, machine_priv, control_pub, hs, before) && {
                let s = before.pending();
                let end = noise_read(hs, s.subrange(3, 3 + net16(s, 1)));
                &&& s[0] == 2
                &&& end is Some
                &&& sess.tr.send_key@ == noise_split(end->0).0
                &&& sess.tr.recv_key@ == noise_split(end->0).1
            },
        sess.authority@ == cfg.control_host@,
        sess.next_stream == 1,
{
    let early = choose|early: Option<Seq<u8>>|
        #[trigger] connected(connector, cfg, machine_priv, control_pub, sess, early);
    let (conn, tr) = choose|conn: Conn<C::Stream>, tr: Transport|
        #[trigger] shaken(connector, cfg, machine_priv, control_pub, conn, tr)
            && #[trigger] started(conn, tr, cfg.control_host@, sess, early);
    let (hs, before) = choose|hs: snow::HandshakeState, before: Conn<C::Stream>|
        #[trigger] upgraded(connector, cfg, machine_priv, control_pub, hs, before)
            && #[trigger] finished(hs, before, conn, tr);
    law_handshake_ends(hs, before, conn, tr, ControlError::Connect);
    assert(upgraded(connector, cfg, machine_priv, control_pub, hs, before));
}

/// An exchange gives the status and the content of the answer to this very request, and leaves
/// what came behind the answer.
pub proof fn law_exchange<S: ByteStream>(
    sess: H2<S>,
    done: H2<S>,
    path: Seq<char>,
    body: Seq<u8>,
    status: u16,
    raw: Seq<u8>,
)
    requires
        exchanged(sess, done, path, body, status, raw),
    ensures
        sess.reply(path, body).0 matches Answered::Done { status: st, body: b, after } && st
            == status && stripped(b) == raw && done.incoming() == after,
{
}

/// The netmap is asked for as a stream, with the peers left out, and the node's address is
/// searched in the first four payloads on the request's own stream.
pub proof fn law_stream_asked<S: ByteStream>(
    sess: H2<S>,
    cfg: Config,
    keys: NodeKeys,
    endpoints: Seq<String>,
)
    ensures
        stream_end(sess, cfg, keys, endpoints) == sought(
            Seq::empty(),
            sess.incoming(),
            sess.next_stream,
            sess.tr.send_key@,
            sess.out().push(
                sess.tr.send_key@,
                post_of(
                    sess.authority@,
                    "/machine/map"@,
                    sess.next_stream,
                    map_body(cfg, keys, true, true, true, endpoints),
                ),
            ),
            4,
        ),
{
}

/// A payload with the address in it, together with those before, ends the search; one without
/// is kept for the next; a stream that ends ends it too.
pub proof fn law_search(
    got: Seq<u8>,
    s: Seq<u8>,
    stream_id: u32,
    key: Seq<u8>,
    out: Out,
    tries: nat,
)
    requires
        tries > 0,
    ensures
        match streamed(s, stream_id, key, out) {
            (Streamed::Data { payload, after }, o) => match whole_scan_of(got + payload) {
                Some(ip) => sought(got, s, stream_id, key, out, tries) == Ok::<_, Streamed>(
                    (Some(ip), after, o),
                ),
                None => sought(got, s, stream_id, key, out, tries) == sought(
                    got + payload,
                    after,
                    stream_id,
                    key,
                    o,
                    (tries - 1) as nat,
                ),
            },
            (end, _) => sought(got, s, stream_id, key, out, tries) == Err::<
                (Option<Seq<u8>>, Seq<u8>, Out),
                Streamed,
            >(end),
        },
        sought(got, s, stream_id, key, out, 0) == Ok::<_, Streamed>((None::<Seq<u8>>, s, out)),
{
}

/// A query ends when the request cannot be sent, or with the first datagram that has the STUN
/// cookie in it, or after the third attempt; else the request is sent again.
pub proof fn law_query(made: int, sent: bool, got: Option<Seq<u8>>, txid: Seq<u8>)
    ensures
        query_next(made, sent, got, txid) is None <==> {
            &&& sent
            &&& made < 3
            &&& got matches Some(b) ==> b.len() < 8 || net32(b, 4) != 0x2112a442
        },
        !sent ==> query_next(made, sent, got, txid) == Some(
            Err::<SocketAddrV4, QueryError>(QueryError::Send),
        ),
        sent && got is Some && got->0.len() >= 8 && net32(got->0, 4) == 0x2112a442 ==> match (
            response_of(got->0, txid)
        ) {
            Ok(a) => query_next(made, sent, got, txid) == Some(Ok::<SocketAddrV4, QueryError>(a)),
            Err(e) => query_next(made, sent, got, txid) == Some(
                Err::<SocketAddrV4, QueryError>(QueryError::Bad(e)),
            ),
        },
        sent && got is None && made >= 3 ==> query_next(made, sent, got, txid) == Some(
            Err::<SocketAddrV4, QueryError>(QueryError::NoReply),
        ),
{
    if got is Some && got->0.len() >= 8 {
        assert(net32(got->0, 4) == get_be32(got->0, 4));
    }
}

/// The window holds the last 64 hashes in the order in which they came.
pub proof fn law_window(seen: Seq<u64>, h: u64)
    requires
        seen.len() <= 64,
    ensures
        remembered(seen, h).len() <= 64,
        remembered(seen, h).last() == h,
        seen.len() < 64 ==> remembered(seen, h) == seen.push(h),
        seen.len() == 64 ==> remembered(seen, h) == seen.skip(1).push(h),
{
    if seen.len() == 64 {
        assert(seen.skip(1) =~= seen.subrange(1, 64));
    }
}

/// A throughput report is a UDP packet from 100.64.0.1 to 100.64.0.99, on port 5202 at both
/// ends, whose header sums up to nothing.
pub proof fn law_report_wire(text: Seq<u8>)
    requires
        text.len() <= 65507,
    ensures
        ({
            let p = report_of(text);
            &&& p.len() == 28 + text.len()
            &&& p[0] == 0x45 && p[1] == 0
            &&& net16(p, 2) == p.len()
            &&& p.subrange(4, 10) == seq![0u8, 0, 0, 0, 64, 17]
            &&& p.subrange(12, 20) == seq![100u8, 64, 0, 1, 100, 64, 0, 99]
            &&& net16(p, 20) == 5202 && net16(p, 22) == 5202
            &&& net16(p, 24) == 8 + text.len()
            &&& net16(p, 26) == 0
            &&& p.skip(28) == text
            &&& words(p.take(20)) % 65535 == 0
        }),
{
    let p = report_of(text);
    let n = text.len() as int;
    law_byte_order(28 + n);
    law_byte_order(8 + n);
    law_byte_order(5202);
    law_byte_order(0);
    assert(p.subrange(2, 4) =~= in_two(28 + n));
    assert(p.subrange(20, 22) =~= in_two(5202));
    assert(p.subrange(22, 24) =~= in_two(5202));
    assert(p.subrange(24, 26) =~= in_two(8 + n));
    assert(p.subrange(26, 28) =~= in_two(0));
    lemma_number_at(p, 2, 28 + n);
    lemma_number_at(p, 20, 5202);
    lemma_number_at(p, 22, 5202);
    lemma_number_at(p, 24, 8 + n);
    lemma_number_at(p, 26, 0);
    assert(p.subrange(4, 10) =~= seq![0u8, 0, 0, 0, 64, 17]);
    assert(p.subrange(12, 20) =~= seq![100u8, 64, 0, 1, 100, 64, 0, 99]);
    assert(p.skip(28) =~= text);
    lemma_report_sum(text);
}

proof fn lemma_report_sum(text: Seq<u8>)
    ensures
        words(report_of(text).take(20)) % 65535 == 0,
{
    let n = text.len() as int;
    let before = seq![0x45u8, 0] + be16(28 + n) + seq![0u8, 0, 0, 0, 64, 17];
    let after = seq![100u8, 64, 0, 1, 100, 64, 0, 99];
    let c = inet_checksum(before + be16(0) + after);
    law_checksum_verifies(before, after);
    assert(report_header(text.len(), 0) =~= before + be16(0) + after);
    assert(report_header(text.len(), c) =~= before + be16(c as int) + after);
    assert(report_of(text).take(20) =~= report_header(text.len(), c));
    law_checksum(before + be16(c as int) + after);
}

/// Two bytes hold the number that they were made of.
proof fn lemma_number_at(p: Seq<u8>, at: int, n: int)
    requires
        0 <= at,
        at + 2 <= p.len(),
        0 <= n < 65536,
        p.subrange(at, at + 2) == in_two(n),
    ensures
        net16(p, at) == n,
{
    assert(p[at] == p.subrange(at, at + 2)[0] && p[at + 1] == p.subrange(at, at + 2)[1]);
}

/// A report goes through the tunnel of that index to the address that it is meant for, and the
/// counters start again; the other tunnels stay as they are.
pub proof fn law_report_sent(st: NodeState, index: u32, dst: SocketAddr, text: Seq<u8>, k: int)
    requires
        0 <= k < st.tunnels.len(),
        st.tunnels[k].tun.our_index == index,
        forall|j: int| 0 <= j < k ==> (#[trigger] st.tunnels[j]).tun.our_index != index,
        st.tunnels[k].tun.tx_counter < u64::MAX,
        text.len() <= 65507,
    ensures
        ({
            let (s, acts) = st.bench_report_of(index, dst, text);
            &&& acts == seq![through(EntryState { addr: dst, ..st.tunnels[k] }, 0, report_of(text))]
            &&& s.bench == Some(Bench { bytes: 0, pkts: 0 })
            &&& s.tunnels.len() == st.tunnels.len()
            &&& s.tunnels[k].tun.tx_counter == st.tunnels[k].tun.tx_counter + 1
            &&& forall|j: int|
                0 <= j < s.tunnels.len() && j != k ==> #[trigger] s.tunnels[j] == st.tunnels[j]
        }),
{
    let f = |e: EntryState| e.tun.our_index == index;
    assert forall|j: int| 0 <= j < k implies !f(#[trigger] st.tunnels[j]) by {}
    lemma_first_where_is(st.tunnels, f, k);
}

/// Each of the three keys is the one that is stored under its own name, where that has 32
/// bytes, and else the fresh one made for it, whose name is then among those to be written.
pub proof fn law_keys_loaded(s: StoreState, fresh: FreshKeys)
    ensures
        s.loaded(fresh).machine == (match s.machine {
            Some(k) if k.len() == 32 => Some(k),
            _ => Some(fresh.machine@),
        }),
        s.loaded(fresh).node == (match s.node {
            Some(k) if k.len() == 32 => Some(k),
            _ => Some(fresh.node@),
        }),
        s.loaded(fresh).disco == (match s.disco {
            Some(k) if k.len() == 32 => Some(k),
            _ => Some(fresh.disco@),
        }),
        s.missing().contains(KeyName::Machine) <==> !(s.machine is Some && s.machine->0.len() == 32),
        s.missing().contains(KeyName::Node) <==> !(s.node is Some && s.node->0.len() == 32),
        s.missing().contains(KeyName::Disco) <==> !(s.disco is Some && s.disco->0.len() == 32),
{
    let m = s.missing();
    let a: Seq<KeyName> = if s.machine is Some && s.machine->0.len() == 32 {
        Seq::empty()
    } else {
        seq![KeyName::Machine]
    };
    if !(s.machine is Some && s.machine->0.len() == 32) {
        assert(m[0] == KeyName::Machine);
    }
    if !(s.node is Some && s.node->0.len() == 32) {
        assert(m[a.len() as int] == KeyName::Node);
    }
    if !(s.disco is Some && s.disco->0.len() == 32) {
        assert(m.last() == KeyName::Disco);
    }
}

/// The rounds of probing are numbered one after the other, and start again at the top.
pub proof fn law_rounds(round: u32)
    ensures
        round < u32::MAX ==> next_round(round) == round + 1,
        next_round(u32::MAX) == 0,
{
}

/// The client's port lies from 1024 on, and two random bytes decide which of 60000 it is.
pub proof fn law_client_port(s: Seq<u8>)
    ensures
        1024 <= sport_of(s) < 61024,
        s[2] + 256 * s[3] < 60000 ==> sport_of(s) == 1024 + s[2] + 256 * s[3],
{
}

} // verus!
