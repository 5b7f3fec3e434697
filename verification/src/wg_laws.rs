//! What goes over the wire in a WireGuard handshake and in a tunnel, and which keys the two
//! ends take from it, spelled out from the hash, the cipher and the key agreement up.
use vstd::prelude::*;
use vstd::utf8::encode_utf8;
use crate::bytes::zeros;
use crate::crypto::{aead_open, aead_seal, blake2s, blake2s_mac, x25519, x25519_base};
use crate::wg::{
    hmac_of, kdf1_of, kdf2_of, kdf3_of, nonce_of, padded, read_initiation_of, read_response_of,
    tai64n_of, transport_bytes, transport_open, HandshakeInfo, Initiation, Response, Transcript,
    TunnelState, WgError,
};
use crate::wire::{
    blank, in_four, law_byte_order, lemma_low_eight, lemma_low_four, low_eight, low_four,
};

verus! {

broadcast use crate::bytes::group_lengths;

/// A block of 64 bytes: the key, filled up with zero bytes, each byte masked with `x`.
pub open spec fn key_block(key: Seq<u8>, x: u8) -> Seq<u8> {
    Seq::new(
        64,
        |i: int|
            if i < key.len() {
                x ^ key[i]
            } else {
                x
            },
    )
}

/// HMAC over BLAKE2s: a key longer than a block is hashed first.
pub open spec fn mac(key: Seq<u8>, data: Seq<u8>) -> Seq<u8> {
    let k = if key.len() > 64 {
        blake2s(key)
    } else {
        key
    };
    blake2s(key_block(k, 0x5c) + blake2s(key_block(k, 0x36) + data))
}

/// The first key that the chaining key `c` and the input `x` give.
pub open spec fn first_key(c: Seq<u8>, x: Seq<u8>) -> Seq<u8> {
    mac(mac(c, x), seq![1u8])
}

/// The second key.
pub open spec fn second_key(c: Seq<u8>, x: Seq<u8>) -> Seq<u8> {
    mac(mac(c, x), first_key(c, x) + seq![2u8])
}

/// The third key.
pub open spec fn third_key(c: Seq<u8>, x: Seq<u8>) -> Seq<u8> {
    mac(mac(c, x), second_key(c, x) + seq![3u8])
}

/// The key derivation is HMAC over BLAKE2s, fed back with a counting byte.
pub proof fn law_key_derivation(c: Seq<u8>, x: Seq<u8>)
    ensures
        hmac_of(c, x) == mac(c, x),
        kdf1_of(c, x) == first_key(c, x),
        kdf2_of(c, x) == second_key(c, x),
        kdf3_of(c, x) == third_key(c, x),
{
    lemma_mac(c, x);
    lemma_mac(mac(c, x), seq![1u8]);
    assert(first_key(c, x).push(2) =~= first_key(c, x) + seq![2u8]);
    lemma_mac(mac(c, x), first_key(c, x) + seq![2u8]);
    assert(second_key(c, x).push(3) =~= second_key(c, x) + seq![3u8]);
    lemma_mac(mac(c, x), second_key(c, x) + seq![3u8]);
}

proof fn lemma_mac(key: Seq<u8>, data: Seq<u8>)
    ensures
        hmac_of(key, data) == mac(key, data),
{
    let k = if key.len() > 64 {
        blake2s(key)
    } else {
        key
    };
    assert(0x5cu8 ^ 0u8 == 0x5cu8 && 0x36u8 ^ 0u8 == 0x36u8) by (bit_vector);
    assert(crate::wg::masked(crate::wg::hmac_key(key), 0x5c) =~= key_block(k, 0x5c));
    assert(crate::wg::masked(crate::wg::hmac_key(key), 0x36) =~= key_block(k, 0x36));
}

/// The nonce of counter zero is all zeros; that of another counter is four zero bytes and the
/// counter, least significant byte first.
pub proof fn law_nonce(counter: u64)
    ensures
        nonce_of(0) == blank(12),
        nonce_of(counter) == blank(4) + low_eight(counter as int),
{
    law_byte_order(0);
    law_byte_order(counter as int);
    assert(nonce_of(0) =~= blank(12));
    assert(nonce_of(counter) =~= blank(4) + low_eight(counter as int));
}

/// The initiation, field by field, and the chaining key and hash after it: the initiator's
/// ephemeral key in the clear, its static key under the secret between that and the
/// responder's static key, the timestamp under the secret between the two static keys, and
/// the first MAC under the responder's static key.
pub proof fn law_initiation_wire(i: Initiation)
    ensures
        ({
            let c0 = blake2s(encode_utf8("Noise_IKpsk2_25519_ChaChaPoly_BLAKE2s"@));
            let h0 = blake2s(
                blake2s(c0 + encode_utf8("WireGuard v1 zx2c4 Jason@zx2c4.com"@)) + i.peer_pub,
            );
            let e = x25519_base(i.eph_priv);
            let c1 = first_key(c0, e);
            let h1 = blake2s(h0 + e);
            let es = x25519(i.eph_priv, i.peer_pub);
            let enc_static = aead_seal(second_key(c1, es), blank(12), i.static_pub, h1);
            let c2 = first_key(c1, es);
            let h2 = blake2s(h1 + enc_static);
            let ss = x25519(i.static_priv, i.peer_pub);
            let enc_time = aead_seal(second_key(c2, ss), blank(12), i.timestamp, h2);
            let body = seq![1u8, 0, 0, 0] + low_four(i.index as int) + e + enc_static + enc_time;
            &&& i.bytes() == body + blake2s_mac(
                blake2s(encode_utf8("mac1----"@) + i.peer_pub),
                body,
            ) + blank(16)
            &&& i.handshake().transcript.c == first_key(c2, ss)
            &&& i.handshake().transcript.h == blake2s(h2 + enc_time)
            &&& i.handshake().eph_priv == i.eph_priv
            &&& i.handshake().our_static_priv == i.static_priv
            &&& i.handshake().our_index == i.index
        }),
{
    let c0 = blake2s(encode_utf8("Noise_IKpsk2_25519_ChaChaPoly_BLAKE2s"@));
    let e = x25519_base(i.eph_priv);
    law_key_derivation(c0, e);
    let c1 = first_key(c0, e);
    let es = x25519(i.eph_priv, i.peer_pub);
    law_key_derivation(c1, es);
    let c2 = first_key(c1, es);
    let ss = x25519(i.static_priv, i.peer_pub);
    law_key_derivation(c2, ss);
    law_nonce(0);
    law_byte_order(i.index as int);
    assert(zeros(16) =~= blank(16));
    assert(i.after_ephemeral().c == c1);
}

/// The chaining key of a response: the transcript's, mixed with the responder's ephemeral key
/// `e_r`, the secret between the two ephemeral keys and the secret between the responder's
/// ephemeral and the initiator's static key; and then with the preshared key of zeros.
pub open spec fn chain_after(c: Seq<u8>, e_r: Seq<u8>, ee: Seq<u8>, se: Seq<u8>) -> Seq<u8> {
    first_key(first_key(first_key(c, e_r), ee), se)
}

proof fn lemma_chain(c: Seq<u8>, h: Seq<u8>, e_r: Seq<u8>, ee: Seq<u8>, se: Seq<u8>)
    ensures
        crate::wg::response_chain(Transcript { c, h }, e_r, ee, se) == chain_after(
            c,
            e_r,
            ee,
            se,
        ),
        ({
            let k = chain_after(c, e_r, ee, se);
            &&& crate::wg::response_hash(Transcript { c, h }, e_r, k) == blake2s(
                blake2s(h + e_r) + second_key(k, blank(32)),
            )
            &&& kdf1_of(k, crate::wg::zero_psk()) == first_key(k, blank(32))
            &&& kdf2_of(k, crate::wg::zero_psk()) == second_key(k, blank(32))
            &&& kdf3_of(k, crate::wg::zero_psk()) == third_key(k, blank(32))
            &&& kdf1_of(first_key(k, blank(32)), Seq::empty()) == first_key(
                first_key(k, blank(32)),
                Seq::empty(),
            )
            &&& kdf2_of(first_key(k, blank(32)), Seq::empty()) == second_key(
                first_key(k, blank(32)),
                Seq::empty(),
            )
        }),
{
    law_key_derivation(c, e_r);
    law_key_derivation(first_key(c, e_r), ee);
    law_key_derivation(first_key(first_key(c, e_r), ee), se);
    let k = chain_after(c, e_r, ee, se);
    assert(crate::wg::zero_psk() =~= blank(32));
    law_key_derivation(k, blank(32));
    law_key_derivation(first_key(k, blank(32)), Seq::empty());
}

/// The response, field by field, and the responder's keys. With `c` the chaining key after
/// the preshared key, the responder receives with HMAC(HMAC(c, empty), 1) and sends with
/// HMAC(HMAC(c, empty), that key and 2).
pub proof fn law_response_wire(a: Response)
    ensures
        ({
            let e_r = x25519_base(a.eph_priv);
            let k = chain_after(
                a.transcript.c,
                e_r,
                x25519(a.eph_priv, a.initiator_eph),
                x25519(a.eph_priv, a.initiator_pub),
            );
            let h = blake2s(blake2s(a.transcript.h + e_r) + second_key(k, blank(32)));
            let body = seq![2u8, 0, 0, 0] + low_four(a.our_index as int) + low_four(
                a.their_index as int,
            ) + e_r + aead_seal(third_key(k, blank(32)), blank(12), Seq::empty(), h);
            let c = first_key(k, blank(32));
            let first = mac(mac(c, Seq::empty()), seq![1u8]);
            let second = mac(mac(c, Seq::empty()), first + seq![2u8]);
            &&& a.bytes() == body + blake2s_mac(
                blake2s(encode_utf8("mac1----"@) + a.initiator_pub),
                body,
            ) + blank(16)
            &&& a.tunnel().recv_key == first
            &&& a.tunnel().send_key == second
            &&& a.tunnel().our_index == a.our_index
            &&& a.tunnel().their_index == a.their_index
            &&& a.tunnel().tx_counter == 0
        }),
{
    let e_r = x25519_base(a.eph_priv);
    lemma_chain(
        a.transcript.c,
        a.transcript.h,
        e_r,
        x25519(a.eph_priv, a.initiator_eph),
        x25519(a.eph_priv, a.initiator_pub),
    );
    assert(a.transcript == Transcript { c: a.transcript.c, h: a.transcript.h });
    law_nonce(0);
    law_byte_order(a.our_index as int);
    law_byte_order(a.their_index as int);
    assert(zeros(16) =~= blank(16));
}

/// What the initiator takes from a response that it accepts. With `c` the chaining key after
/// the preshared key, it sends with HMAC(HMAC(c, empty), 1) and receives with
/// HMAC(HMAC(c, empty), that key and 2); it addresses the other end by the index at byte 4,
/// and its own index stands at byte 8.
pub proof fn law_response_read(hs: HandshakeInfo, resp: Seq<u8>)
    ensures
        read_response_of(hs, resp) matches Ok(t) ==> {
            let e_r = resp.subrange(12, 44);
            let k = chain_after(
                hs.transcript.c,
                e_r,
                x25519(hs.eph_priv, e_r),
                x25519(hs.our_static_priv, e_r),
            );
            let h = blake2s(blake2s(hs.transcript.h + e_r) + second_key(k, blank(32)));
            let c = first_key(k, blank(32));
            let first = mac(mac(c, Seq::empty()), seq![1u8]);
            let second = mac(mac(c, Seq::empty()), first + seq![2u8]);
            &&& resp.len() >= 92
            &&& resp[0] == 2
            &&& resp.subrange(8, 12) == low_four(hs.our_index as int)
            &&& aead_open(third_key(k, blank(32)), blank(12), resp.subrange(44, 60), h) is Some
            &&& t.send_key == first
            &&& t.recv_key == second
            &&& resp.subrange(4, 8) == low_four(t.their_index as int)
            &&& t.our_index == hs.our_index
            &&& t.tx_counter == 0
        },
{
    let e_r = resp.subrange(12, 44);
    lemma_chain(
        hs.transcript.c,
        hs.transcript.h,
        e_r,
        x25519(hs.eph_priv, e_r),
        x25519(hs.our_static_priv, e_r),
    );
    assert(hs.transcript == Transcript { c: hs.transcript.c, h: hs.transcript.h });
    law_nonce(0);
    if resp.len() >= 92 {
        lemma_low_four(resp, 4);
        lemma_low_four(resp, 8);
    }
}

/// What a responder takes from an initiation that it accepts: the ephemeral key at byte 8, the
/// static key that byte 40 on decrypts to, and the chaining key and hash over them, under this
/// node's own keys.
pub proof fn law_initiation_read(our_priv: Seq<u8>, our_pub: Seq<u8>, init: Seq<u8>)
    ensures
        read_initiation_of(our_priv, our_pub, init) matches Ok(got) ==> {
            let c0 = blake2s(encode_utf8("Noise_IKpsk2_25519_ChaChaPoly_BLAKE2s"@));
            let h0 = blake2s(
                blake2s(c0 + encode_utf8("WireGuard v1 zx2c4 Jason@zx2c4.com"@)) + our_pub,
            );
            let e = init.subrange(8, 40);
            let c1 = first_key(c0, e);
            let h1 = blake2s(h0 + e);
            let es = x25519(our_priv, e);
            let c2 = first_key(c1, es);
            let h2 = blake2s(h1 + init.subrange(40, 88));
            let ss = x25519(our_priv, got.1);
            &&& init.len() >= 148
            &&& init[0] == 1
            &&& aead_open(second_key(c1, es), blank(12), init.subrange(40, 88), h1) == Some(got.1)
            &&& aead_open(second_key(c2, ss), blank(12), init.subrange(88, 116), h2) is Some
            &&& got.0.c == first_key(c2, ss)
            &&& got.0.h == blake2s(h2 + init.subrange(88, 116))
        },
{
    let c0 = blake2s(encode_utf8("Noise_IKpsk2_25519_ChaChaPoly_BLAKE2s"@));
    let e = init.subrange(8, 40);
    law_key_derivation(c0, e);
    let c1 = first_key(c0, e);
    let es = x25519(our_priv, e);
    law_key_derivation(c1, es);
    let c2 = first_key(c1, es);
    law_nonce(0);
    if let Ok(got) = read_initiation_of(our_priv, our_pub, init) {
        law_key_derivation(c2, x25519(our_priv, got.1));
    }
}

/// The answer to an initiation goes to its sender: the initiation's ephemeral key and index
/// are the ones that it is made with.
pub proof fn law_response_answers(
    init: Seq<u8>,
    t: Transcript,
    initiator_pub: Seq<u8>,
    our_index: u32,
    eph_priv: Seq<u8>,
)
    requires
        init.len() >= 148,
    ensures
        ({
            let a = crate::wg::response_to(init, t, initiator_pub, our_index, eph_priv);
            &&& a.transcript == t
            &&& a.eph_priv == eph_priv
            &&& a.initiator_eph == init.subrange(8, 40)
            &&& a.initiator_pub == initiator_pub
            &&& a.our_index == our_index
            &&& init.subrange(4, 8) == low_four(a.their_index as int)
        }),
{
    lemma_low_four(init, 4);
}

/// A response is refused for its length, its type, the index that it is meant for, and a proof
/// that does not open, in that order, and for nothing else.
#[verifier::rlimit(30)]
pub proof fn law_response_refused(hs: HandshakeInfo, resp: Seq<u8>)
    ensures
        ({
            let r = read_response_of(hs, resp);
            let e_r = resp.subrange(12, 44);
            let k = chain_after(
                hs.transcript.c,
                e_r,
                x25519(hs.eph_priv, e_r),
                x25519(hs.our_static_priv, e_r),
            );
            let h = blake2s(blake2s(hs.transcript.h + e_r) + second_key(k, blank(32)));
            if resp.len() < 92 {
                r == Err::<TunnelState, WgError>(WgError::TooShort(resp.len() as usize))
            } else if resp[0] != 2 {
                r == Err::<TunnelState, WgError>(WgError::WrongType(resp[0]))
            } else if resp.subrange(8, 12) != low_four(hs.our_index as int) {
                r matches Err(WgError::WrongIndex(i)) && resp.subrange(8, 12) == low_four(i as int)
            } else if aead_open(third_key(k, blank(32)), blank(12), resp.subrange(44, 60), h)
                is None {
                r == Err::<TunnelState, WgError>(WgError::AuthFailed)
            } else {
                r is Ok
            }
        }),
{
    let e_r = resp.subrange(12, 44);
    lemma_chain(
        hs.transcript.c,
        hs.transcript.h,
        e_r,
        x25519(hs.eph_priv, e_r),
        x25519(hs.our_static_priv, e_r),
    );
    assert(hs.transcript == Transcript { c: hs.transcript.c, h: hs.transcript.h });
    law_nonce(0);
    if resp.len() >= 92 {
        lemma_low_four(resp, 8);
    }
}

/// An initiation is refused for its length, its type, a static key and a timestamp that do not
/// open, in that order, and for nothing else.
pub proof fn law_initiation_refused(our_priv: Seq<u8>, our_pub: Seq<u8>, init: Seq<u8>)
    ensures
        ({
            let r = read_initiation_of(our_priv, our_pub, init);
            let c0 = blake2s(encode_utf8("Noise_IKpsk2_25519_ChaChaPoly_BLAKE2s"@));
            let h0 = blake2s(
                blake2s(c0 + encode_utf8("WireGuard v1 zx2c4 Jason@zx2c4.com"@)) + our_pub,
            );
            let e = init.subrange(8, 40);
            let es = x25519(our_priv, e);
            let c1 = first_key(c0, e);
            let h1 = blake2s(h0 + e);
            let h2 = blake2s(h1 + init.subrange(40, 88));
            let got = aead_open(second_key(c1, es), blank(12), init.subrange(40, 88), h1);
            let ss = x25519(our_priv, got->0);
            if init.len() < 148 {
                r == Err::<(Transcript, Seq<u8>), WgError>(WgError::TooShort(init.len() as usize))
            } else if init[0] != 1 {
                r == Err::<(Transcript, Seq<u8>), WgError>(WgError::WrongType(init[0]))
            } else if got is None {
                r == Err::<(Transcript, Seq<u8>), WgError>(WgError::StaticDecrypt)
            } else if aead_open(
                second_key(first_key(c1, es), ss),
                blank(12),
                init.subrange(88, 116),
                h2,
            ) is None {
                r == Err::<(Transcript, Seq<u8>), WgError>(WgError::TimestampDecrypt)
            } else {
                r is Ok
            }
        }),
{
    let c0 = blake2s(encode_utf8("Noise_IKpsk2_25519_ChaChaPoly_BLAKE2s"@));
    let e = init.subrange(8, 40);
    law_key_derivation(c0, e);
    let c1 = first_key(c0, e);
    let es = x25519(our_priv, e);
    law_key_derivation(c1, es);
    law_nonce(0);
    let t1 = Transcript::start(our_pub).ephemeral(e);
    if let Some(s_i) = t1.open(es, init.subrange(40, 88)) {
        law_key_derivation(first_key(c1, es), x25519(our_priv, s_i));
    }
}

/// The two ends of a tunnel match: what the one sends with the other receives with, each knows
/// the other's index, and both start counting at zero.
pub proof fn law_two_ends(a: Response)
    ensures
        a.initiator_tunnel().send_key == a.tunnel().recv_key,
        a.initiator_tunnel().recv_key == a.tunnel().send_key,
        a.initiator_tunnel().our_index == a.tunnel().their_index,
        a.initiator_tunnel().their_index == a.tunnel().our_index,
        a.tunnel().our_index == a.our_index,
        a.tunnel().their_index == a.their_index,
        a.initiator_tunnel().tx_counter == 0,
        a.tunnel().tx_counter == 0,
{
}

/// A transport packet, field by field: type 4, the receiver's index, the counter, and the
/// inner packet with zero bytes behind it to a multiple of 16, under the counter and the key.
pub proof fn law_transport_wire(key: Seq<u8>, index: u32, counter: u64, inner: Seq<u8>)
    ensures
        ({
            let fill = blank(((16 - inner.len() % 16) % 16) as nat);
            transport_bytes(key, index, counter, inner) == seq![4u8, 0, 0, 0] + low_four(
                index as int,
            ) + low_eight(counter as int) + aead_seal(
                key,
                blank(4) + low_eight(counter as int),
                inner + fill,
                Seq::empty(),
            )
        }),
{
    law_nonce(counter);
    law_byte_order(index as int);
    law_byte_order(counter as int);
    let fill = blank(((16 - inner.len() % 16) % 16) as nat);
    assert(padded(inner) =~= inner + fill);
}

/// A transport packet opens under the counter that it carries, to what the cipher opens
/// behind its 16 bytes of header.
pub proof fn law_transport_read(key: Seq<u8>, pkt: Seq<u8>)
    ensures
        transport_open(key, pkt) == if pkt.len() < 32 || pkt[0] != 4 || pkt.len() > 274877906848 {
            None
        } else {
            aead_open(
                key,
                blank(4) + pkt.subrange(8, 16),
                pkt.subrange(16, pkt.len() as int),
                Seq::empty(),
            )
        },
{
    if pkt.len() >= 32 {
        let n = crate::bytes::get_le64(pkt, 8) as u64;
        law_nonce(n);
        lemma_low_eight(pkt, 8);
    }
}

/// A timestamp is the label of 1970 plus the seconds, then the nanoseconds, most significant
/// byte first.
pub proof fn law_stamp_wire(secs: u64, nanos: u32)
    requires
        secs <= 0x3fff_ffff_ffff_ffff,
    ensures
        ({
            let n = 4611686018427387914 + secs;
            tai64n_of(secs, nanos) == in_four(n / 4294967296) + in_four(n % 4294967296) + in_four(
                nanos as int,
            )
        }),
{
    law_byte_order(4611686018427387914 + secs);
    law_byte_order(nanos as int);
}

} // verus!
