//! WireGuard, the data plane, as initiator and as responder:
//! `Noise_IKpsk2_25519_ChaChaPoly_BLAKE2s` with an all-zero preshared key. No cookies,
//! no mac2, no replay window: enough to bring up a tunnel and pass packets.
//!
//! The transport nonce is the little-endian 64-bit counter; the handshake uses
//! counter zero.
use vstd::prelude::*;
use vstd::slice::slice_subrange;
use vstd::utf8::encode_utf8;
use crate::bytes::{
    append, append_zeros, array32, array_at, be32, be64, copy, get_be32, get_le32, get_le64,
    lemma_get_be32, lemma_get_le32, le32, le64, law_le64_roundtrip, push_be32, push_be64,
    push_le32, push_le64, read_le32, read_le64, zeros,
};
use crate::crypto::{
    aead_open, aead_seal, blake2s, blake2s_mac, chacha_decrypt, chacha_encrypt, dh, hash,
    keyed_hash, opt_view, public_key, x25519, x25519_base, AEAD_MAX,
};
use crate::rng::{random32, random_u32, NoEntropy};

verus! {

broadcast use crate::bytes::group_lengths;

pub const MSG_INITIATION: u8 = 1;

pub const MSG_RESPONSE: u8 = 2;

pub const MSG_TRANSPORT: u8 = 4;

pub const INIT_LEN: usize = 148;

pub const RESP_LEN: usize = 92;

/// The TAI64 label of 1970-01-01 00:00:00.
pub const TAI64_EPOCH: u64 = 0x4000_0000_0000_000a;

/// Why a handshake message or a transport packet was refused.
#[derive(Clone, Copy, Debug, PartialEq, Eq, Structural)]
pub enum WgError {
    /// Shorter than its kind of message is.
    TooShort(usize),
    /// Another message type.
    WrongType(u8),
    /// The initiator's static key does not decrypt.
    StaticDecrypt,
    /// The initiator's timestamp does not decrypt.
    TimestampDecrypt,
    /// A response to another handshake, with this receiver index.
    WrongIndex(u32),
    /// The message does not authenticate.
    AuthFailed,
    /// The system has no entropy to give.
    NoEntropy,
}

// --- key derivation ---

/// The hash of two byte strings in a row.
pub open spec fn hash2_of(a: Seq<u8>, b: Seq<u8>) -> Seq<u8> {
    blake2s(a + b)
}

/// An HMAC key, hashed first if it is longer than a block, padded to a block.
pub open spec fn hmac_key(key: Seq<u8>) -> Seq<u8> {
    let k = if key.len() > 64 {
        blake2s(key)
    } else {
        key
    };
    Seq::new(
        64,
        |i: int|
            if i < k.len() {
                k[i]
            } else {
                0u8
            },
    )
}

/// Every byte of a block masked with `x`.
pub open spec fn masked(block: Seq<u8>, x: u8) -> Seq<u8> {
    Seq::new(block.len(), |i: int| x ^ block[i])
}

/// HMAC-BLAKE2s.
pub open spec fn hmac_of(key: Seq<u8>, data: Seq<u8>) -> Seq<u8> {
    hash2_of(masked(hmac_key(key), 0x5c), hash2_of(masked(hmac_key(key), 0x36), data))
}

/// The first output of the key derivation.
pub open spec fn kdf1_of(key: Seq<u8>, input: Seq<u8>) -> Seq<u8> {
    hmac_of(hmac_of(key, input), seq![1u8])
}

/// The second output of the key derivation.
pub open spec fn kdf2_of(key: Seq<u8>, input: Seq<u8>) -> Seq<u8> {
    hmac_of(hmac_of(key, input), kdf1_of(key, input).push(2))
}

/// The third output of the key derivation.
pub open spec fn kdf3_of(key: Seq<u8>, input: Seq<u8>) -> Seq<u8> {
    hmac_of(hmac_of(key, input), kdf2_of(key, input).push(3))
}

/// The nonce of a counter: four zero bytes, then the counter, little-endian.
pub open spec fn nonce_of(counter: u64) -> Seq<u8> {
    zeros(4) + le64(counter as int)
}

/// What `ct` opens to. A ciphertext beyond the cipher's limit does not open.
pub open spec fn opened(key: Seq<u8>, counter: u64, ct: Seq<u8>, aad: Seq<u8>) -> Option<Seq<u8>> {
    if ct.len() <= AEAD_MAX + 16 {
        aead_open(key, nonce_of(counter), ct, aad)
    } else {
        None
    }
}

/// The hash of two byte strings in a row.
fn hash2(a: &[u8], b: &[u8]) -> (r: [u8; 32])
    ensures
        r@ == hash2_of(a@, b@),
{
    let mut v = copy(a);
    append(&mut v, b);
    hash(v.as_slice())
}

/// HMAC-BLAKE2s.
fn hmac(key: &[u8], data: &[u8]) -> (r: [u8; 32])
    ensures
        r@ == hmac_of(key@, data@),
{
    let k: Vec<u8> = if key.len() > 64 {
        let short = hash(key);
        copy(short.as_slice())
    } else {
        copy(key)
    };
    let mut ipad: Vec<u8> = Vec::new();
    let mut opad: Vec<u8> = Vec::new();
    let mut i: usize = 0;
    while i < 64
        invariant
            i <= 64,
            k@ == if key@.len() > 64 {
                blake2s(key@)
            } else {
                key@
            },
            ipad@ == masked(hmac_key(key@), 0x36).subrange(0, i as int),
            opad@ == masked(hmac_key(key@), 0x5c).subrange(0, i as int),
        decreases 64 - i,
    {
        let b: u8 = if i < k.len() {
            k[i]
        } else {
            0
        };
        ipad.push(0x36 ^ b);
        opad.push(0x5c ^ b);
        assert(ipad@ =~= masked(hmac_key(key@), 0x36).subrange(0, i + 1));
        assert(opad@ =~= masked(hmac_key(key@), 0x5c).subrange(0, i + 1));
        i = i + 1;
    }
    assert(ipad@ =~= masked(hmac_key(key@), 0x36));
    assert(opad@ =~= masked(hmac_key(key@), 0x5c));
    let inner = hash2(ipad.as_slice(), data);
    hash2(opad.as_slice(), inner.as_slice())
}

/// The first output of the key derivation.
fn kdf1(key: &[u8; 32], input: &[u8]) -> (r: [u8; 32])
    ensures
        r@ == kdf1_of(key@, input@),
{
    let t0 = hmac(key.as_slice(), input);
    let one: [u8; 1] = [1u8];
    assert(one@ =~= seq![1u8]);
    hmac(t0.as_slice(), one.as_slice())
}

/// The first two outputs of the key derivation.
fn kdf2(key: &[u8; 32], input: &[u8]) -> (r: ([u8; 32], [u8; 32]))
    ensures
        r.0@ == kdf1_of(key@, input@),
        r.1@ == kdf2_of(key@, input@),
{
    let t0 = hmac(key.as_slice(), input);
    let t1 = kdf1(key, input);
    let mut buf = copy(t1.as_slice());
    buf.push(2);
    let t2 = hmac(t0.as_slice(), buf.as_slice());
    (t1, t2)
}

/// The three outputs of the key derivation.
fn kdf3(key: &[u8; 32], input: &[u8]) -> (r: ([u8; 32], [u8; 32], [u8; 32]))
    ensures
        r.0@ == kdf1_of(key@, input@),
        r.1@ == kdf2_of(key@, input@),
        r.2@ == kdf3_of(key@, input@),
{
    let t0 = hmac(key.as_slice(), input);
    let (t1, t2) = kdf2(key, input);
    let mut buf = copy(t2.as_slice());
    buf.push(3);
    let t3 = hmac(t0.as_slice(), buf.as_slice());
    (t1, t2, t3)
}

/// The nonce of a counter.
fn le_nonce(counter: u64) -> (r: [u8; 12])
    ensures
        r@ == nonce_of(counter),
{
    let mut v: Vec<u8> = Vec::new();
    append_zeros(&mut v, 4);
    push_le64(&mut v, counter);
    let r = array_at(v.as_slice(), 0, [0u8; 12]);
    assert(r@ =~= nonce_of(counter));
    r
}

/// Seals `pt` under the counter.
fn seal(key: &[u8; 32], counter: u64, pt: &[u8], aad: &[u8]) -> (r: Vec<u8>)
    requires
        pt@.len() <= AEAD_MAX,
    ensures
        r@ == aead_seal(key@, nonce_of(counter), pt@, aad@),
        r@.len() == pt@.len() + 16,
{
    let nonce = le_nonce(counter);
    chacha_encrypt(key, &nonce, pt, aad).unwrap()
}

/// Opens `ct` under the counter. What was sealed opens, and nothing else does.
fn open(key: &[u8; 32], counter: u64, ct: &[u8], aad: &[u8]) -> (r: Option<Vec<u8>>)
    ensures
        opt_view(r) == opened(key@, counter, ct@, aad@),
        r matches Some(m) ==> m@.len() + 16 == ct@.len(),
        forall|m: Seq<u8>|
            m.len() + 16 == ct@.len() && m.len() <= AEAD_MAX ==> (ct@ == #[trigger] aead_seal(
                key@,
                nonce_of(counter),
                m,
                aad@,
            ) <==> opt_view(r) == Some(m)),
{
    let n: u64 = ct.len() as u64;
    if n > AEAD_MAX + 16 {
        return None;
    }
    let nonce = le_nonce(counter);
    chacha_decrypt(key, &nonce, ct, aad)
}

// --- the handshake ---

/// The running state of a handshake: chaining key and transcript hash.
pub struct Transcript {
    pub c: Seq<u8>,
    pub h: Seq<u8>,
}

impl Transcript {
    /// The state before the first message to the owner of `responder_pub`.
    pub open spec fn start(responder_pub: Seq<u8>) -> Transcript {
        let c = blake2s(encode_utf8("Noise_IKpsk2_25519_ChaChaPoly_BLAKE2s"@));
        let h = hash2_of(c, encode_utf8("WireGuard v1 zx2c4 Jason@zx2c4.com"@));
        Transcript { c, h: hash2_of(h, responder_pub) }
    }

    /// The state after an ephemeral public key.
    pub open spec fn ephemeral(self, e: Seq<u8>) -> Transcript {
        Transcript { c: kdf1_of(self.c, e), h: hash2_of(self.h, e) }
    }

    /// The key that the shared secret `secret` gives for the next encryption.
    pub open spec fn key(self, secret: Seq<u8>) -> Seq<u8> {
        kdf2_of(self.c, secret)
    }

    /// The state after the ciphertext `ct` under the key from `secret`.
    pub open spec fn encrypted(self, secret: Seq<u8>, ct: Seq<u8>) -> Transcript {
        Transcript { c: kdf1_of(self.c, secret), h: hash2_of(self.h, ct) }
    }

    /// `msg` encrypted under the key from `secret`.
    pub open spec fn seal(self, secret: Seq<u8>, msg: Seq<u8>) -> Seq<u8> {
        aead_seal(self.key(secret), nonce_of(0), msg, self.h)
    }

    /// What `ct` decrypts to under the key from `secret`.
    pub open spec fn open(self, secret: Seq<u8>, ct: Seq<u8>) -> Option<Seq<u8>> {
        aead_open(self.key(secret), nonce_of(0), ct, self.h)
    }
}

/// The all-zero preshared key.
pub open spec fn zero_psk() -> Seq<u8> {
    zeros(32)
}

/// The parties to one initiation: what its sender puts in.
pub struct Initiation {
    pub static_priv: Seq<u8>,
    pub static_pub: Seq<u8>,
    pub peer_pub: Seq<u8>,
    pub timestamp: Seq<u8>,
    pub index: u32,
    pub eph_priv: Seq<u8>,
}

impl Initiation {
    /// After the ephemeral key.
    pub open spec fn after_ephemeral(self) -> Transcript {
        Transcript::start(self.peer_pub).ephemeral(x25519_base(self.eph_priv))
    }

    /// The sender's static key, encrypted.
    pub open spec fn enc_static(self) -> Seq<u8> {
        self.after_ephemeral().seal(x25519(self.eph_priv, self.peer_pub), self.static_pub)
    }

    /// After the static key.
    pub open spec fn after_static(self) -> Transcript {
        self.after_ephemeral().encrypted(x25519(self.eph_priv, self.peer_pub), self.enc_static())
    }

    /// The timestamp, encrypted.
    pub open spec fn enc_timestamp(self) -> Seq<u8> {
        self.after_static().seal(x25519(self.static_priv, self.peer_pub), self.timestamp)
    }

    /// After the whole initiation.
    pub open spec fn transcript(self) -> Transcript {
        self.after_static().encrypted(
            x25519(self.static_priv, self.peer_pub),
            self.enc_timestamp(),
        )
    }

    /// The message without its two MACs.
    pub open spec fn body(self) -> Seq<u8> {
        seq![MSG_INITIATION, 0u8, 0, 0] + le32(self.index as int) + x25519_base(self.eph_priv)
            + self.enc_static() + self.enc_timestamp()
    }

    /// The message. The second MAC stays zero.
    pub open spec fn bytes(self) -> Seq<u8> {
        self.body() + mac1_of(self.peer_pub, self.body()) + zeros(16)
    }

    /// Whether the message's fields have their sizes.
    pub open spec fn shaped(self) -> bool {
        &&& x25519_base(self.eph_priv).len() == 32
        &&& self.enc_static().len() == 48
        &&& self.enc_timestamp().len() == 28
    }

    /// Whether keys and timestamp have their sizes and the static keys belong
    /// together.
    pub open spec fn wf(self) -> bool {
        &&& self.static_priv.len() == 32
        &&& self.static_pub.len() == 32
        &&& self.eph_priv.len() == 32
        &&& self.timestamp.len() == 12
        &&& self.static_pub == x25519_base(self.static_priv)
    }
}

/// The first MAC of a message to the owner of `to_pub`.
pub open spec fn mac1_of(to_pub: Seq<u8>, msg: Seq<u8>) -> Seq<u8> {
    blake2s_mac(hash2_of(encode_utf8("mac1----"@), to_pub), msg)
}

/// What the responder answers an initiation with: the state it reached, its fresh
/// ephemeral key, the initiator's two public keys and the indices.
pub struct Response {
    pub transcript: Transcript,
    pub eph_priv: Seq<u8>,
    pub initiator_eph: Seq<u8>,
    pub initiator_pub: Seq<u8>,
    pub our_index: u32,
    pub their_index: u32,
}

/// The chaining key after the responder's ephemeral key `eph_pub` and the two
/// shared secrets.
pub open spec fn response_chain(
    t: Transcript,
    eph_pub: Seq<u8>,
    ee: Seq<u8>,
    se: Seq<u8>,
) -> Seq<u8> {
    kdf1_of(kdf1_of(t.ephemeral(eph_pub).c, ee), se)
}

/// The transcript hash before the empty payload of the response.
pub open spec fn response_hash(t: Transcript, eph_pub: Seq<u8>, chain: Seq<u8>) -> Seq<u8> {
    hash2_of(t.ephemeral(eph_pub).h, kdf2_of(chain, zero_psk()))
}

impl Response {
    /// The chaining key after both shared secrets.
    pub open spec fn chain(self) -> Seq<u8> {
        response_chain(
            self.transcript,
            x25519_base(self.eph_priv),
            x25519(self.eph_priv, self.initiator_eph),
            x25519(self.eph_priv, self.initiator_pub),
        )
    }

    /// The empty payload, encrypted.
    pub open spec fn enc_empty(self) -> Seq<u8> {
        aead_seal(
            kdf3_of(self.chain(), zero_psk()),
            nonce_of(0),
            Seq::empty(),
            response_hash(self.transcript, x25519_base(self.eph_priv), self.chain()),
        )
    }

    /// The message without its two MACs.
    pub open spec fn body(self) -> Seq<u8> {
        seq![MSG_RESPONSE, 0u8, 0, 0] + le32(self.our_index as int) + le32(self.their_index as int)
            + x25519_base(self.eph_priv) + self.enc_empty()
    }

    /// The message. The second MAC stays zero.
    pub open spec fn bytes(self) -> Seq<u8> {
        self.body() + mac1_of(self.initiator_pub, self.body()) + zeros(16)
    }

    /// Whether the message's fields have their sizes.
    pub open spec fn shaped(self) -> bool {
        &&& x25519_base(self.eph_priv).len() == 32
        &&& self.enc_empty().len() == 16
    }

    /// The responder's end of the tunnel: it receives with the first transport key
    /// and sends with the second.
    pub open spec fn tunnel(self) -> TunnelState {
        let c = kdf1_of(self.chain(), zero_psk());
        TunnelState {
            send_key: kdf2_of(c, Seq::empty()),
            recv_key: kdf1_of(c, Seq::empty()),
            their_index: self.their_index,
            our_index: self.our_index,
            tx_counter: 0,
        }
    }

    /// The initiator's end of the tunnel: the same keys, crossed over.
    pub open spec fn initiator_tunnel(self) -> TunnelState {
        TunnelState {
            send_key: self.tunnel().recv_key,
            recv_key: self.tunnel().send_key,
            their_index: self.our_index,
            our_index: self.their_index,
            tx_counter: 0,
        }
    }
}

/// Handshake state kept between sending the initiation and receiving the response.
pub struct Handshake {
    pub chaining: [u8; 32],
    pub hash: [u8; 32],
    pub eph_priv: [u8; 32],
    pub our_static_priv: [u8; 32],
    pub our_index: u32,
}

/// What a `Handshake` holds.
pub struct HandshakeInfo {
    pub transcript: Transcript,
    pub eph_priv: Seq<u8>,
    pub our_static_priv: Seq<u8>,
    pub our_index: u32,
}

impl View for Handshake {
    type V = HandshakeInfo;

    open spec fn view(&self) -> HandshakeInfo {
        HandshakeInfo {
            transcript: Transcript { c: self.chaining@, h: self.hash@ },
            eph_priv: self.eph_priv@,
            our_static_priv: self.our_static_priv@,
            our_index: self.our_index,
        }
    }
}

impl Initiation {
    /// The handshake in progress once the initiation was made.
    pub open spec fn handshake(self) -> HandshakeInfo {
        HandshakeInfo {
            transcript: self.transcript(),
            eph_priv: self.eph_priv,
            our_static_priv: self.static_priv,
            our_index: self.index,
        }
    }
}

/// An established tunnel: transport keys, indices and send counter.
pub struct Tunnel {
    pub send_key: [u8; 32],
    pub recv_key: [u8; 32],
    pub their_index: u32,
    pub our_index: u32,
    pub tx_counter: u64,
}

/// What a `Tunnel` holds.
pub struct TunnelState {
    pub send_key: Seq<u8>,
    pub recv_key: Seq<u8>,
    pub their_index: u32,
    pub our_index: u32,
    pub tx_counter: u64,
}

impl View for Tunnel {
    type V = TunnelState;

    open spec fn view(&self) -> TunnelState {
        TunnelState {
            send_key: self.send_key@,
            recv_key: self.recv_key@,
            their_index: self.their_index,
            our_index: self.our_index,
            tx_counter: self.tx_counter,
        }
    }
}

/// The state before the first message to the owner of `responder_pub`.
fn start(responder_pub: &[u8; 32]) -> (r: ([u8; 32], [u8; 32]))
    ensures
        r.0@ == Transcript::start(responder_pub@).c,
        r.1@ == Transcript::start(responder_pub@).h,
{
    let c = hash("Noise_IKpsk2_25519_ChaChaPoly_BLAKE2s".as_bytes());
    let h = hash2(c.as_slice(), "WireGuard v1 zx2c4 Jason@zx2c4.com".as_bytes());
    let h2 = hash2(h.as_slice(), responder_pub.as_slice());
    (c, h2)
}

/// The first MAC of a message to the owner of `to_pub`.
fn mac1(to_pub: &[u8; 32], msg: &[u8]) -> (r: [u8; 16])
    ensures
        r@ == mac1_of(to_pub@, msg@),
{
    let key = hash2("mac1----".as_bytes(), to_pub.as_slice());
    keyed_hash(key.as_slice(), msg).unwrap()
}

/// Builds a handshake initiation to `peer_static_pub` with the ephemeral private
/// key `eph_priv`: the message, and the handshake in progress.
pub fn build_initiation_with(
    our_static_priv: &[u8; 32],
    our_static_pub: &[u8; 32],
    peer_static_pub: &[u8; 32],
    timestamp: [u8; 12],
    our_index: u32,
    eph_priv: [u8; 32],
) -> (r: ([u8; 148], Handshake))
    ensures
        ({
            let i = Initiation {
                static_priv: our_static_priv@,
                static_pub: our_static_pub@,
                peer_pub: peer_static_pub@,
                timestamp: timestamp@,
                index: our_index,
                eph_priv: eph_priv@,
            };
            r.0@ == i.bytes() && r.1@ == i.handshake() && i.shaped()
        }),
{
    let ghost i = Initiation {
        static_priv: our_static_priv@,
        static_pub: our_static_pub@,
        peer_pub: peer_static_pub@,
        timestamp: timestamp@,
        index: our_index,
        eph_priv: eph_priv@,
    };
    let (c0, h0) = start(peer_static_pub);
    let eph_pub = public_key(&eph_priv);
    let c1 = kdf1(&c0, eph_pub.as_slice());
    let h1 = hash2(h0.as_slice(), eph_pub.as_slice());

    let es = dh(&eph_priv, peer_static_pub);
    let (c2, k1) = kdf2(&c1, es.as_slice());
    let enc_static = seal(&k1, 0, our_static_pub.as_slice(), h1.as_slice());
    let h2 = hash2(h1.as_slice(), enc_static.as_slice());
    assert(enc_static@ == i.enc_static());

    let ss = dh(our_static_priv, peer_static_pub);
    let (c3, k2) = kdf2(&c2, ss.as_slice());
    let enc_ts = seal(&k2, 0, timestamp.as_slice(), h2.as_slice());
    let h3 = hash2(h2.as_slice(), enc_ts.as_slice());
    assert(enc_ts@ == i.enc_timestamp());

    let mut msg: Vec<u8> = Vec::new();
    msg.push(MSG_INITIATION);
    append_zeros(&mut msg, 3);
    push_le32(&mut msg, our_index);
    append(&mut msg, eph_pub.as_slice());
    append(&mut msg, enc_static.as_slice());
    append(&mut msg, enc_ts.as_slice());
    assert(msg@ =~= i.body());
    let mac = mac1(peer_static_pub, msg.as_slice());
    append(&mut msg, mac.as_slice());
    append_zeros(&mut msg, 16);
    let out = array_at(msg.as_slice(), 0, [0u8; 148]);
    assert(out@ =~= i.bytes());
    (
        out,
        Handshake {
            chaining: c3,
            hash: h3,
            eph_priv,
            our_static_priv: *our_static_priv,
            our_index,
        },
    )
}

/// Builds a handshake initiation to `peer_static_pub` with a fresh ephemeral key.
/// It fails where the system has no entropy to give, which nothing here decides.
pub fn build_initiation(
    our_static_priv: &[u8; 32],
    our_static_pub: &[u8; 32],
    peer_static_pub: &[u8; 32],
    timestamp: [u8; 12],
    our_index: u32,
) -> (r: Result<([u8; 148], Handshake), NoEntropy>)
    ensures
        r matches Ok(p) ==> ({
            let i = Initiation {
                static_priv: our_static_priv@,
                static_pub: our_static_pub@,
                peer_pub: peer_static_pub@,
                timestamp: timestamp@,
                index: our_index,
                eph_priv: p.1.eph_priv@,
            };
            p.0@ == i.bytes() && p.1@ == i.handshake() && i.shaped()
        }),
{
    match random32() {
        Ok(eph_priv) => Ok(
            build_initiation_with(
                our_static_priv,
                our_static_pub,
                peer_static_pub,
                timestamp,
                our_index,
                eph_priv,
            ),
        ),
        Err(e) => Err(e),
    }
}

/// What a responder reads from an initiation: the state it reaches, and the
/// initiator's static key.
pub open spec fn read_initiation_of(our_priv: Seq<u8>, our_pub: Seq<u8>, init: Seq<u8>) -> Result<
    (Transcript, Seq<u8>),
    WgError,
> {
    if init.len() < INIT_LEN {
        Err(WgError::TooShort(init.len() as usize))
    } else if init[0] != MSG_INITIATION {
        Err(WgError::WrongType(init[0]))
    } else {
        let e_i = init.subrange(8, 40);
        let t1 = Transcript::start(our_pub).ephemeral(e_i);
        let es = x25519(our_priv, e_i);
        match t1.open(es, init.subrange(40, 88)) {
            None => Err(WgError::StaticDecrypt),
            Some(s_i) => {
                let t2 = t1.encrypted(es, init.subrange(40, 88));
                let ss = x25519(our_priv, s_i);
                match t2.open(ss, init.subrange(88, 116)) {
                    None => Err(WgError::TimestampDecrypt),
                    Some(ts) => Ok((t2.encrypted(ss, init.subrange(88, 116)), s_i)),
                }
            },
        }
    }
}

/// The answer to an initiation that was read, with the ephemeral private key
/// `eph_priv`.
pub open spec fn response_to(
    init: Seq<u8>,
    t: Transcript,
    initiator_pub: Seq<u8>,
    our_index: u32,
    eph_priv: Seq<u8>,
) -> Response {
    Response {
        transcript: t,
        eph_priv,
        initiator_eph: init.subrange(8, 40),
        initiator_pub,
        our_index,
        their_index: get_le32(init, 4) as u32,
    }
}

/// What a responder learned from an initiation.
pub struct Received {
    pub chaining: [u8; 32],
    pub hash: [u8; 32],
    pub initiator_eph: [u8; 32],
    pub initiator_pub: [u8; 32],
    pub their_index: u32,
}

/// Reads a handshake initiation. An initiation that was made for this node's keys
/// is read, and both sides reach the same state.
pub fn read_initiation(our_static_priv: &[u8; 32], our_static_pub: &[u8; 32], init: &[u8]) -> (r:
    Result<Received, WgError>)
    ensures
        match r {
            Ok(g) => {
                &&& init@.len() >= INIT_LEN
                &&& read_initiation_of(our_static_priv@, our_static_pub@, init@) == Ok::<
                    (Transcript, Seq<u8>),
                    WgError,
                >((Transcript { c: g.chaining@, h: g.hash@ }, g.initiator_pub@))
                &&& g.initiator_eph@ == init@.subrange(8, 40)
                &&& g.their_index == get_le32(init@, 4)
            },
            Err(e) => read_initiation_of(our_static_priv@, our_static_pub@, init@) == Err::<
                (Transcript, Seq<u8>),
                WgError,
            >(e),
        },
        forall|i: Initiation|
            i.wf() && i.peer_pub == our_static_pub@ && our_static_pub@ == x25519_base(
                our_static_priv@,
            ) && i.shaped() && init@.len() == INIT_LEN && init@ == #[trigger] i.bytes()
                ==> r is Ok && read_initiation_of(our_static_priv@, our_static_pub@, init@) == Ok::<
                (Transcript, Seq<u8>),
                WgError,
            >((i.transcript(), i.static_pub)) && get_le32(init@, 4) == i.index && init@.subrange(
                8,
                40,
            ) == x25519_base(i.eph_priv),
{
    if init.len() < INIT_LEN {
        return Err(WgError::TooShort(init.len()));
    }
    proof {
        assert forall|i: Initiation|
            i.shaped() && init@ == #[trigger] i.bytes() implies {
            &&& init@[0] == MSG_INITIATION
            &&& get_le32(init@, 4) == i.index
            &&& init@.subrange(8, 40) == x25519_base(i.eph_priv)
            &&& init@.subrange(40, 88) == i.enc_static()
            &&& init@.subrange(88, 116) == i.enc_timestamp()
        } by {
            assert(init@.subrange(4, 8) =~= le32(i.index as int));
            lemma_get_le32(init@, 4, i.index as int);
            assert(init@.subrange(8, 40) =~= x25519_base(i.eph_priv));
            assert(init@.subrange(40, 88) =~= i.enc_static());
            assert(init@.subrange(88, 116) =~= i.enc_timestamp());
        }
    }
    if init[0] != MSG_INITIATION {
        return Err(WgError::WrongType(init[0]));
    }
    let their_index: u32 = read_le32(init, 4);
    let e_i = array32(init, 8);
    let enc_static = slice_subrange(init, 40, 88);
    let enc_ts = slice_subrange(init, 88, 116);

    let (c0, h0) = start(our_static_pub);
    let c1 = kdf1(&c0, e_i.as_slice());
    let h1 = hash2(h0.as_slice(), e_i.as_slice());

    let es = dh(our_static_priv, &e_i);
    let (c2, k1) = kdf2(&c1, es.as_slice());
    let got_static = open(&k1, 0, enc_static, h1.as_slice());
    let s_i = match got_static {
        Some(v) => array32(v.as_slice(), 0),
        None => {
            return Err(WgError::StaticDecrypt);
        },
    };
    assert(s_i@ =~= got_static->0@);
    let h2 = hash2(h1.as_slice(), enc_static);

    let ss = dh(our_static_priv, &s_i);
    let (c3, k2) = kdf2(&c2, ss.as_slice());
    match open(&k2, 0, enc_ts, h2.as_slice()) {
        Some(_) => {},
        None => {
            return Err(WgError::TimestampDecrypt);
        },
    }
    let h3 = hash2(h2.as_slice(), enc_ts);
    Ok(
        Received {
            chaining: c3,
            hash: h3,
            initiator_eph: e_i,
            initiator_pub: s_i,
            their_index,
        },
    )
}

/// Answers an initiation that was read, with the ephemeral private key `eph_priv`:
/// the response, and this end of the tunnel.
pub fn build_response(got: &Received, our_index: u32, eph_priv: &[u8; 32]) -> (r: (
    [u8; 92],
    Tunnel,
))
    ensures
        ({
            let resp = Response {
                transcript: Transcript { c: got.chaining@, h: got.hash@ },
                eph_priv: eph_priv@,
                initiator_eph: got.initiator_eph@,
                initiator_pub: got.initiator_pub@,
                our_index,
                their_index: got.their_index,
            };
            &&& r.0@ == resp.bytes()
            &&& r.1@ == resp.tunnel()
            &&& resp.shaped()
        }),
{
    let ghost resp = Response {
        transcript: Transcript { c: got.chaining@, h: got.hash@ },
        eph_priv: eph_priv@,
        initiator_eph: got.initiator_eph@,
        initiator_pub: got.initiator_pub@,
        our_index,
        their_index: got.their_index,
    };
    let er_pub = public_key(eph_priv);
    let c4 = kdf1(&got.chaining, er_pub.as_slice());
    let h4 = hash2(got.hash.as_slice(), er_pub.as_slice());
    let ee = dh(eph_priv, &got.initiator_eph);
    let c5 = kdf1(&c4, ee.as_slice());
    let se = dh(eph_priv, &got.initiator_pub);
    let c6 = kdf1(&c5, se.as_slice());
    assert(c6@ == resp.chain());

    let psk: [u8; 32] = [0u8; 32];
    assert(psk@ =~= zero_psk());
    let (c7, tau, k3) = kdf3(&c6, psk.as_slice());
    let h5 = hash2(h4.as_slice(), tau.as_slice());
    let none: [u8; 0] = [];
    assert(none@ =~= Seq::empty());
    let enc_empty = seal(&k3, 0, none.as_slice(), h5.as_slice());
    assert(enc_empty@ == resp.enc_empty());

    let mut msg: Vec<u8> = Vec::new();
    msg.push(MSG_RESPONSE);
    append_zeros(&mut msg, 3);
    push_le32(&mut msg, our_index);
    push_le32(&mut msg, got.their_index);
    append(&mut msg, er_pub.as_slice());
    append(&mut msg, enc_empty.as_slice());
    assert(msg@ =~= resp.body());
    let mac = mac1(&got.initiator_pub, msg.as_slice());
    append(&mut msg, mac.as_slice());
    append_zeros(&mut msg, 16);
    let out = array_at(msg.as_slice(), 0, [0u8; 92]);
    assert(out@ =~= resp.bytes());

    let (recv_key, send_key) = kdf2(&c7, none.as_slice());
    (
        out,
        Tunnel { send_key, recv_key, their_index: got.their_index, our_index, tx_counter: 0 },
    )
}

/// The responder's side: reads an initiation from a peer and produces the response,
/// the established tunnel, and the initiator's static public key. The MACs are not
/// looked at; the encrypted static key authenticates. Besides the errors that the
/// message decides, it fails where the system has no entropy to give.
pub fn consume_initiation(
    our_static_priv: &[u8; 32],
    our_static_pub: &[u8; 32],
    init: &[u8],
    our_index: u32,
) -> (r: Result<([u8; 92], Tunnel, [u8; 32]), WgError>)
    ensures
        match (r, read_initiation_of(our_static_priv@, our_static_pub@, init@)) {
            (Ok(p), Ok(t)) => exists|eph: Seq<u8>|
                eph.len() == 32 && {
                    let resp = #[trigger] response_to(init@, t.0, t.1, our_index, eph);
                    &&& p.0@ == resp.bytes()
                    &&& resp.shaped()
                    &&& p.1@ == resp.tunnel()
                    &&& p.2@ == t.1
                },
            (Ok(p), Err(_)) => false,
            (Err(e), Ok(t)) => e == WgError::NoEntropy,
            (Err(e), Err(f)) => e == f,
        },
{
    let got = match read_initiation(our_static_priv, our_static_pub, init) {
        Ok(g) => g,
        Err(e) => {
            return Err(e);
        },
    };
    let er_priv = match random32() {
        Ok(k) => k,
        Err(_) => {
            return Err(WgError::NoEntropy);
        },
    };
    let (resp, tunnel) = build_response(&got, our_index, &er_priv);
    proof {
        let t = read_initiation_of(our_static_priv@, our_static_pub@, init@)->Ok_0;
        let want = response_to(init@, t.0, t.1, our_index, er_priv@);
        assert(resp@ == want.bytes());
    }
    Ok((resp, tunnel, got.initiator_pub))
}

/// The initiator's end of the tunnel, given the response `resp` to the handshake.
pub open spec fn read_response_of(hs: HandshakeInfo, resp: Seq<u8>) -> Result<TunnelState, WgError> {
    if resp.len() < RESP_LEN {
        Err(WgError::TooShort(resp.len() as usize))
    } else if resp[0] != MSG_RESPONSE {
        Err(WgError::WrongType(resp[0]))
    } else if get_le32(resp, 8) != hs.our_index {
        Err(WgError::WrongIndex(get_le32(resp, 8) as u32))
    } else {
        let e_r = resp.subrange(12, 44);
        let chain = response_chain(
            hs.transcript,
            e_r,
            x25519(hs.eph_priv, e_r),
            x25519(hs.our_static_priv, e_r),
        );
        match aead_open(
            kdf3_of(chain, zero_psk()),
            nonce_of(0),
            resp.subrange(44, 60),
            response_hash(hs.transcript, e_r, chain),
        ) {
            None => Err(WgError::AuthFailed),
            Some(_) => {
                let c = kdf1_of(chain, zero_psk());
                Ok(
                    TunnelState {
                        send_key: kdf1_of(c, Seq::empty()),
                        recv_key: kdf2_of(c, Seq::empty()),
                        their_index: get_le32(resp, 4) as u32,
                        our_index: hs.our_index,
                        tx_counter: 0,
                    },
                )
            },
        }
    }
}

impl Handshake {
    /// Reads the handshake response and derives the tunnel. The response that the
    /// responder made in the state that this side reached is accepted, and the two
    /// ends of the tunnel then hold the same keys, crossed over.
    pub fn consume_response(self, resp: &[u8]) -> (r: Result<Tunnel, WgError>)
        ensures
            match r {
                Ok(t) => read_response_of(self@, resp@) == Ok::<TunnelState, WgError>(t@),
                Err(e) => read_response_of(self@, resp@) == Err::<TunnelState, WgError>(e),
            },
            forall|a: Response|
                a.transcript == self@.transcript && a.initiator_eph == x25519_base(self.eph_priv@)
                    && a.initiator_pub == x25519_base(self.our_static_priv@) && a.their_index
                    == self.our_index && a.eph_priv.len() == 32 && a.shaped() && resp@.len()
                    == RESP_LEN && resp@
                    == #[trigger] a.bytes() ==> r is Ok && r->Ok_0@ == a.initiator_tunnel(),
    {
        if resp.len() < RESP_LEN {
            return Err(WgError::TooShort(resp.len()));
        }
        proof {
            assert forall|a: Response|
                a.shaped() && resp@ == #[trigger] a.bytes() implies {
                &&& resp@[0] == MSG_RESPONSE
                &&& get_le32(resp@, 4) == a.our_index
                &&& get_le32(resp@, 8) == a.their_index
                &&& resp@.subrange(12, 44) == x25519_base(a.eph_priv)
                &&& resp@.subrange(44, 60) == a.enc_empty()
            } by {
                assert(resp@.subrange(4, 8) =~= le32(a.our_index as int));
                lemma_get_le32(resp@, 4, a.our_index as int);
                assert(resp@.subrange(8, 12) =~= le32(a.their_index as int));
                lemma_get_le32(resp@, 8, a.their_index as int);
                assert(resp@.subrange(12, 44) =~= x25519_base(a.eph_priv));
                assert(resp@.subrange(44, 60) =~= a.enc_empty());
            }
        }
        if resp[0] != MSG_RESPONSE {
            return Err(WgError::WrongType(resp[0]));
        }
        let their_index: u32 = read_le32(resp, 4);
        let recv_index: u32 = read_le32(resp, 8);
        if recv_index != self.our_index {
            return Err(WgError::WrongIndex(recv_index));
        }
        let e_r = array32(resp, 12);
        let enc_empty = slice_subrange(resp, 44, 60);
        let c1 = kdf1(&self.chaining, e_r.as_slice());
        let h1 = hash2(self.hash.as_slice(), e_r.as_slice());
        let ee = dh(&self.eph_priv, &e_r);
        let c2 = kdf1(&c1, ee.as_slice());
        let se = dh(&self.our_static_priv, &e_r);
        let c3 = kdf1(&c2, se.as_slice());
        let psk: [u8; 32] = [0u8; 32];
        assert(psk@ =~= zero_psk());
        let (c4, tau, k) = kdf3(&c3, psk.as_slice());
        let h2 = hash2(h1.as_slice(), tau.as_slice());
        let got = open(&k, 0, enc_empty, h2.as_slice());
        let none: [u8; 0] = [];
        assert(none@ =~= Seq::empty());
        match got {
            Some(_) => {},
            None => {
                return Err(WgError::AuthFailed);
            },
        }
        let (send_key, recv_key) = kdf2(&c4, none.as_slice());
        Ok(
            Tunnel {
                send_key,
                recv_key,
                their_index,
                our_index: self.our_index,
                tx_counter: 0,
            },
        )
    }
}

/// The receiver index of a response is that of the handshake it answers.
pub proof fn lemma_response_index(a: Response)
    requires
        a.shaped(),
    ensures
        get_le32(a.bytes(), 8) == a.their_index,
{
    let b = a.bytes();
    assert(b.subrange(8, 12) =~= le32(a.their_index as int));
    lemma_get_le32(b, 8, a.their_index as int);
}

// --- transport ---

/// `inner` padded with zero bytes to a multiple of 16.
pub open spec fn padded(inner: Seq<u8>) -> Seq<u8> {
    inner + zeros(((16 - inner.len() % 16) % 16) as nat)
}

/// A transport packet.
pub open spec fn transport_bytes(key: Seq<u8>, index: u32, counter: u64, inner: Seq<u8>) -> Seq<u8> {
    seq![MSG_TRANSPORT, 0u8, 0, 0] + le32(index as int) + le64(counter as int) + aead_seal(
        key,
        nonce_of(counter),
        padded(inner),
        Seq::empty(),
    )
}

/// What the transport packet `pkt` opens to.
pub open spec fn transport_open(key: Seq<u8>, pkt: Seq<u8>) -> Option<Seq<u8>> {
    if pkt.len() < 32 || pkt[0] != MSG_TRANSPORT {
        None
    } else {
        opened(
            key,
            get_le64(pkt, 8) as u64,
            pkt.subrange(16, pkt.len() as int),
            Seq::empty(),
        )
    }
}

/// Decrypts a transport packet given just the receive key: the counter is read from
/// the packet, replays are not tracked. What the other end encrypted comes out,
/// padded.
pub fn decrypt_transport(recv_key: &[u8; 32], pkt: &[u8]) -> (r: Option<Vec<u8>>)
    ensures
        opt_view(r) == transport_open(recv_key@, pkt@),
        r matches Some(m) ==> m@.len() + 32 == pkt@.len(),
        forall|index: u32, counter: u64, inner: Seq<u8>|
            inner.len() <= AEAD_MAX && pkt@.len() == 32 + padded(inner).len() && pkt@
                == #[trigger] transport_bytes(recv_key@, index, counter, inner) ==> opt_view(r)
                == Some(padded(inner)),
{
    if pkt.len() < 32 || pkt[0] != MSG_TRANSPORT {
        return None;
    }
    let counter: u64 = read_le64(pkt, 8);
    let none: [u8; 0] = [];
    assert(none@ =~= Seq::empty());
    let r = open(recv_key, counter, slice_subrange(pkt, 16, pkt.len()), none.as_slice());
    proof {
        assert forall|index: u32, n: u64, inner: Seq<u8>|
            inner.len() <= AEAD_MAX && pkt@.len() == 32 + padded(inner).len() && pkt@
                == #[trigger] transport_bytes(recv_key@, index, n, inner) implies opt_view(r)
            == Some(padded(inner)) by {
            lemma_transport_parts(pkt@, recv_key@, index, n, inner);
        }
    }
    r
}

/// The counter and the ciphertext of a transport packet.
proof fn lemma_transport_parts(
    pkt: Seq<u8>,
    key: Seq<u8>,
    index: u32,
    counter: u64,
    inner: Seq<u8>,
)
    requires
        pkt.len() >= 16,
        pkt == transport_bytes(key, index, counter, inner),
    ensures
        get_le64(pkt, 8) == counter,
        pkt.subrange(16, pkt.len() as int) == aead_seal(
            key,
            nonce_of(counter),
            padded(inner),
            Seq::empty(),
        ),
        inner.len() <= AEAD_MAX ==> padded(inner).len() <= AEAD_MAX,
{
    let ct = aead_seal(key, nonce_of(counter), padded(inner), Seq::empty());
    assert(pkt.subrange(16, pkt.len() as int) =~= ct);
    assert(pkt.subrange(8, 16) =~= le64(counter as int));
    lemma_counter_at(pkt, counter);
}

/// The counter field of a packet that holds `n` there.
proof fn lemma_counter_at(pkt: Seq<u8>, n: u64)
    requires
        pkt.len() >= 16,
        pkt.subrange(8, 16) == le64(n as int),
    ensures
        get_le64(pkt, 8) == n,
{
    law_le64_roundtrip(n as int);
    let b = pkt.subrange(8, 16);
    assert forall|k: int| 0 <= k < 8 implies pkt[8 + k] == #[trigger] b[k] by {}
    assert(pkt[8] == b[0] && pkt[9] == b[1] && pkt[10] == b[2] && pkt[11] == b[3]);
    assert(pkt[12] == b[4] && pkt[13] == b[5] && pkt[14] == b[6] && pkt[15] == b[7]);
}

impl Tunnel {
    /// The index by which the other end addresses this one.
    pub fn our_index(&self) -> (r: u32)
        ensures
            r == self.our_index,
    {
        self.our_index
    }

    /// The receive key, for `decrypt_transport`.
    pub fn recv_key(&self) -> (r: [u8; 32])
        ensures
            r@ == self.recv_key@,
    {
        self.recv_key
    }

    /// Wraps an inner packet in a transport message and counts it.
    pub fn encrypt(&mut self, inner: &[u8]) -> (r: Vec<u8>)
        requires
            inner@.len() <= AEAD_MAX,
            old(self).tx_counter < u64::MAX,
        ensures
            r@ == transport_bytes(
                old(self).send_key@,
                old(self).their_index,
                old(self).tx_counter,
                inner@,
            ),
            r@.len() == 32 + padded(inner@).len(),
            final(self)@ == (TunnelState {
                tx_counter: (old(self).tx_counter + 1) as u64,
                ..old(self)@
            }),
    {
        let mut pt = copy(inner);
        append_zeros(&mut pt, (16 - inner.len() % 16) % 16);
        let none: [u8; 0] = [];
        assert(none@ =~= Seq::empty());
        let ct = seal(&self.send_key, self.tx_counter, pt.as_slice(), none.as_slice());
        let mut out: Vec<u8> = Vec::new();
        out.push(MSG_TRANSPORT);
        append_zeros(&mut out, 3);
        push_le32(&mut out, self.their_index);
        push_le64(&mut out, self.tx_counter);
        append(&mut out, ct.as_slice());
        assert(out@ =~= transport_bytes(
            self.send_key@,
            self.their_index,
            self.tx_counter,
            inner@,
        ));
        self.tx_counter = self.tx_counter + 1;
        out
    }

    /// A keepalive: an empty transport packet.
    pub fn keepalive(&mut self) -> (r: Vec<u8>)
        requires
            old(self).tx_counter < u64::MAX,
        ensures
            r@ == transport_bytes(
                old(self).send_key@,
                old(self).their_index,
                old(self).tx_counter,
                Seq::empty(),
            ),
            r@.len() == 32,
            final(self)@ == (TunnelState {
                tx_counter: (old(self).tx_counter + 1) as u64,
                ..old(self)@
            }),
    {
        let none: [u8; 0] = [];
        assert(none@ =~= Seq::empty());
        self.encrypt(none.as_slice())
    }

    /// Decrypts a transport message. The plaintext still has its padding.
    pub fn decrypt(&self, pkt: &[u8]) -> (r: Result<Vec<u8>, WgError>)
        ensures
            match r {
                Ok(m) => transport_open(self.recv_key@, pkt@) == Some(m@),
                Err(e) => transport_open(self.recv_key@, pkt@) is None && e == (if pkt@.len() < 32 {
                    WgError::TooShort(pkt@.len() as usize)
                } else if pkt@[0] != MSG_TRANSPORT {
                    WgError::WrongType(pkt@[0])
                } else {
                    WgError::AuthFailed
                }),
            },
            forall|index: u32, counter: u64, inner: Seq<u8>|
                inner.len() <= AEAD_MAX && pkt@.len() == 32 + padded(inner).len() && pkt@
                    == #[trigger] transport_bytes(self.recv_key@, index, counter, inner) ==> r is Ok
                    && r->Ok_0@ == padded(inner),
    {
        let got = decrypt_transport(&self.recv_key, pkt);
        if pkt.len() < 32 {
            return Err(WgError::TooShort(pkt.len()));
        }
        if pkt[0] != MSG_TRANSPORT {
            return Err(WgError::WrongType(pkt[0]));
        }
        match got {
            Some(m) => Ok(m),
            None => Err(WgError::AuthFailed),
        }
    }
}

/// A TAI64N timestamp: eight bytes of seconds, four of nanoseconds.
pub open spec fn tai64n_of(unix_secs: u64, nanos: u32) -> Seq<u8> {
    be64(TAI64_EPOCH + unix_secs) + be32(nanos as int)
}

/// Builds a TAI64N timestamp from a Unix time. The responder rejects stamps that do
/// not increase, so the time should not go back across restarts.
pub fn tai64n(unix_secs: u64, nanos: u32) -> (r: [u8; 12])
    requires
        TAI64_EPOCH + unix_secs <= u64::MAX,
    ensures
        r@ == tai64n_of(unix_secs, nanos),
{
    let mut v: Vec<u8> = Vec::new();
    push_be64(&mut v, TAI64_EPOCH + unix_secs);
    push_be32(&mut v, nanos);
    let r = array_at(v.as_slice(), 0, [0u8; 12]);
    assert(r@ =~= tai64n_of(unix_secs, nanos));
    r
}

/// The number that a timestamp's bytes stand for, most significant first.
pub open spec fn stamp_number(s: Seq<u8>) -> int {
    (get_be32(s, 0) * 4294967296 + get_be32(s, 4)) * 4294967296 + get_be32(s, 8)
}

/// The number of a timestamp.
proof fn lemma_stamp_number(unix_secs: u64, nanos: u32)
    requires
        TAI64_EPOCH + unix_secs <= u64::MAX,
    ensures
        stamp_number(tai64n_of(unix_secs, nanos)) == (TAI64_EPOCH + unix_secs) * 4294967296 + nanos,
{
    let n = TAI64_EPOCH + unix_secs;
    let s = tai64n_of(unix_secs, nanos);
    assert(s.subrange(0, 4) =~= be32(n / 4294967296));
    lemma_get_be32(s, 0, n / 4294967296);
    assert(s.subrange(4, 8) =~= be32(n % 4294967296));
    lemma_get_be32(s, 4, n % 4294967296);
    assert(s.subrange(8, 12) =~= be32(nanos as int));
    lemma_get_be32(s, 8, nanos as int);
}

/// Later times have greater timestamps, compared byte by byte from the front: a responder
/// that takes only increasing ones takes the later one.
pub proof fn law_stamps_increase(secs1: u64, nanos1: u32, secs2: u64, nanos2: u32)
    requires
        TAI64_EPOCH + secs1 <= u64::MAX,
        TAI64_EPOCH + secs2 <= u64::MAX,
        secs1 < secs2 || (secs1 == secs2 && nanos1 < nanos2),
    ensures
        stamp_number(tai64n_of(secs1, nanos1)) < stamp_number(tai64n_of(secs2, nanos2)),
{
    lemma_stamp_number(secs1, nanos1);
    lemma_stamp_number(secs2, nanos2);
}

/// Padding adds fewer than 16 zero bytes behind the packet and nothing before it.
pub proof fn law_padding(inner: Seq<u8>)
    ensures
        padded(inner).len() % 16 == 0,
        inner.len() <= padded(inner).len() < inner.len() + 16,
        padded(inner).subrange(0, inner.len() as int) == inner,
{
    assert(padded(inner).subrange(0, inner.len() as int) =~= inner);
}

/// A random local index for a new handshake. It fails where the system has no
/// entropy to give; nothing is known of the number.
pub fn random_index() -> Result<u32, NoEntropy> {
    random_u32()
}

} // verus!
