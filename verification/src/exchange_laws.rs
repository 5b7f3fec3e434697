//! The TCP client and the TCP server in one exchange.
use vstd::prelude::*;
use vstd::string::{is_ascii, is_ascii_spec_bytes, StringSliceAdditionalSpecFns};
use vstd::utf8::encode_utf8;
use crate::bytes::seq_add;
use crate::ipv4::{
    law_tcp_roundtrip, tcp_packet_of, tcp_view_of, TcpFields, TcpView, ACK, FIN, PSH, RST, SYN,
};
use crate::net::Ipv4Addr;
use crate::outbound::ClientState;
use crate::tcp::{http_response_of, page_of, server_step, Conn, HTTP_PORT};
use crate::text::{dec, law_dec_roundtrip, lemma_dec_len, ten_to};

verus! {

/// The response with the page in it is short, whatever the address in it: it fits into one
/// segment, with a 16-bit length.
pub proof fn law_response_is_short(ip: Ipv4Addr)
    ensures
        http_response_of(page_of(ip)).len() < 1000,
{
    reveal_with_fuel(ten_to, 6);
    lemma_dec_len(ip.a as nat, 3);
    lemma_dec_len(ip.b as nat, 3);
    lemma_dec_len(ip.c as nat, 3);
    lemma_dec_len(ip.d as nat, 3);
    let l1 = "<!doctype html><html><head><meta charset=utf-8><title>Tailscale-Rust</title></head><body style=\"font-family:sans-serif\"><h1>Tailscale-Rust on T-Dongle S3</h1><p>Pure-Rust WireGuard tunnel, no DERP.</p><p>Tailscale IP: ";
    reveal_strlit(
        "<!doctype html><html><head><meta charset=utf-8><title>Tailscale-Rust</title></head><body style=\"font-family:sans-serif\"><h1>Tailscale-Rust on T-Dongle S3</h1><p>Pure-Rust WireGuard tunnel, no DERP.</p><p>Tailscale IP: ",
    );
    assert(is_ascii(l1));
    is_ascii_spec_bytes(l1);
    assert(l1@.len() < 300);
    assert(encode_utf8(l1@).len() < 300);
    reveal_strlit(".");
    assert(is_ascii("."));
    is_ascii_spec_bytes(".");
    assert(encode_utf8("."@).len() == 1);
    reveal_strlit("</p></body></html>");
    assert(is_ascii("</p></body></html>"));
    is_ascii_spec_bytes("</p></body></html>");
    assert(encode_utf8("</p></body></html>"@).len() < 30);
    let body = page_of(ip);
    assert(body.len() < 400);
    lemma_dec_len(body.len(), 3);
    let h1 = "HTTP/1.1 200 OK\r\nContent-Type: text/html; charset=utf-8\r\nContent-Length: ";
    reveal_strlit(
        "HTTP/1.1 200 OK\r\nContent-Type: text/html; charset=utf-8\r\nContent-Length: ",
    );
    assert(is_ascii(h1));
    is_ascii_spec_bytes(h1);
    assert(encode_utf8(h1@).len() < 100);
    let h2 = "\r\nConnection: close\r\n\r\n";
    reveal_strlit("\r\nConnection: close\r\n\r\n");
    assert(is_ascii(h2));
    is_ascii_spec_bytes(h2);
    assert(encode_utf8(h2@).len() < 40);
}

/// What the client does with a segment, told by what the segment says.
pub open spec fn client_answers(c: ClientState, v: TcpView, payload: Seq<u8>) -> (
    ClientState,
    Seq<Seq<u8>>,
) {
    if c.done || v.dport != c.sport {
        (c, Seq::empty())
    } else if v.flags & SYN != 0 && v.flags & ACK != 0 && !c.established {
        c.on_syn_ack(v.seq)
    } else {
        let (d, data) = c.on_data(v.seq, payload);
        if v.flags & FIN != 0 {
            let (e, fin) = d.on_fin();
            (e, data + fin)
        } else {
            (d, data)
        }
    }
}

/// The client reads a whole segment as everyone else does.
proof fn lemma_client_reads(c: ClientState, p: Seq<u8>)
    requires
        tcp_view_of(p) is Some,
    ensures
        ({
            let v = tcp_view_of(p)->0;
            c.step(p) == client_answers(c, v, v.payload(p))
        }),
{
}

/// A segment of the client, as the server reads it.
proof fn lemma_segment(f: TcpFields, payload: Seq<u8>)
    requires
        payload.len() + 40 <= 65535,
    ensures
        ({
            let p = tcp_packet_of(f, payload);
            let v = tcp_view_of(p);
            &&& v is Some
            &&& v->0.src == f.src
            &&& v->0.dst == f.dst
            &&& v->0.sport == f.sport
            &&& v->0.dport == f.dport
            &&& v->0.seq == f.seq
            &&& v->0.flags == f.flags
            &&& v->0.payload(p) == payload
        }),
{
    law_tcp_roundtrip(f, payload);
}

/// The flags that the exchange uses.
proof fn lemma_flags()
    ensures
        SYN & SYN != 0,
        (SYN | ACK) & SYN != 0,
        (SYN | ACK) & ACK != 0,
        ACK & SYN == 0,
        ACK & RST == 0,
        ACK & FIN == 0,
        (PSH | ACK) & SYN == 0,
        (PSH | ACK) & RST == 0,
        (PSH | ACK | FIN) & SYN == 0,
        (PSH | ACK | FIN) & FIN != 0,
{
    assert(2u8 & 2u8 != 0 && (2u8 | 16u8) & 2u8 != 0 && (2u8 | 16u8) & 16u8 != 0 && 16u8 & 2u8 == 0
        && 16u8 & 4u8 == 0 && 16u8 & 1u8 == 0 && (8u8 | 16u8) & 2u8 == 0 && (8u8 | 16u8) & 4u8 == 0
        && (8u8 | 16u8 | 1u8) & 2u8 == 0 && (8u8 | 16u8 | 1u8) & 1u8 != 0) by (bit_vector);
}

/// One exchange brings the page to the client: SYN, SYN-ACK, ACK and request, and the
/// response in one segment that also ends the connection. Whatever the two initial sequence
/// numbers are, the client then holds the whole response and is done.
pub proof fn law_page_reaches_client(
    us: Ipv4Addr,
    server: Ipv4Addr,
    sport: u16,
    request: Seq<u8>,
    iss: u32,
    server_iss: u32,
)
    requires
        0 < request.len() <= 65495,
    ensures
        ({
            let c0 = ClientState::fresh(us, server, sport, HTTP_PORT, request, iss);
            let c1 = ClientState { snd_nxt: seq_add(iss, 1), ..c0 };
            let (s1, syn_ack) = server_step(
                Conn::idle(),
                c0.packet(SYN, Seq::empty()),
                server_iss,
            );
            let (c2, out) = c1.step(syn_ack[0]);
            let (s2, none) = server_step(s1, out[0], 0);
            let (s3, resp) = server_step(s2, out[1], 0);
            let (c3, last) = c2.step(resp[0]);
            &&& syn_ack.len() == 1
            &&& out.len() == 2
            &&& none.len() == 0
            &&& resp.len() == 1
            &&& c3.done
            &&& c3.response == http_response_of(page_of(server))
        }),
{
    lemma_flags();
    law_response_is_short(server);
    let page = http_response_of(page_of(server));
    let none = Seq::<u8>::empty();
    let c0 = ClientState::fresh(us, server, sport, HTTP_PORT, request, iss);
    let c1 = ClientState { snd_nxt: seq_add(iss, 1), ..c0 };

    // SYN to the server.
    let f0 = TcpFields { src: us, dst: server, sport, dport: HTTP_PORT, seq: iss, ack: 0, flags: SYN };
    lemma_segment(f0, none);
    let syn = c0.packet(SYN, none);
    assert(syn == tcp_packet_of(f0, none));
    let (s1, a1) = server_step(Conn::idle(), syn, server_iss);
    let o = Conn::opened(tcp_view_of(syn)->0, server_iss);
    assert(a1 =~= seq![o.packet(HTTP_PORT, SYN | ACK, none)]);

    // SYN-ACK to the client.
    let f1 = TcpFields {
        src: server,
        dst: us,
        sport: HTTP_PORT,
        dport: sport,
        seq: server_iss,
        ack: seq_add(iss, 1),
        flags: SYN | ACK,
    };
    lemma_segment(f1, none);
    assert(a1[0] == tcp_packet_of(f1, none));
    lemma_client_reads(c1, a1[0]);
    let (c2, a2) = c1.step(a1[0]);
    assert((c2, a2) == c1.on_syn_ack(server_iss));
    let d = ClientState { rcv_nxt: seq_add(server_iss, 1), established: true, ..c1 };

    // The client's ACK, then its request.
    let f2 = TcpFields {
        src: us,
        dst: server,
        sport,
        dport: HTTP_PORT,
        seq: seq_add(iss, 1),
        ack: seq_add(server_iss, 1),
        flags: ACK,
    };
    lemma_segment(f2, none);
    assert(a2[0] == d.packet(ACK, none));
    assert(a2[0] == tcp_packet_of(f2, none));
    let (s2, a3) = server_step(s1, a2[0], 0);
    assert(s2 == s1 && a3.len() == 0);
    let f3 = TcpFields { flags: PSH | ACK, ..f2 };
    lemma_segment(f3, request);
    assert(a2[1] == d.packet(PSH | ACK, request));
    assert(a2[1] == tcp_packet_of(f3, request));
    let (s3, a4) = server_step(s2, a2[1], 0);
    let s = Conn { rcv_nxt: seq_add(seq_add(iss, 1), request.len() as int), ..s2 };
    assert(a4 =~= seq![s.packet(HTTP_PORT, PSH | ACK | FIN, page)]);

    // The response.
    let f4 = TcpFields {
        src: server,
        dst: us,
        sport: HTTP_PORT,
        dport: sport,
        seq: seq_add(server_iss, 1),
        ack: s.rcv_nxt,
        flags: PSH | ACK | FIN,
    };
    lemma_segment(f4, page);
    assert(a4[0] == tcp_packet_of(f4, page));
    lemma_client_reads(c2, a4[0]);
    assert(page.len() > 0) by {
        assert(page_of(server).len() <= page.len());
        assert(dec(server.a as nat).len() > 0) by {
            law_dec_roundtrip(server.a as nat);
        }
    }
    assert(c2.response + page =~= page);
}

} // verus!
