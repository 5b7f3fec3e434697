//! The ts2021 Noise IK handshake and the transport records of the control channel.
//!
//! The handshake runs in the `snow` crate. The transport phase counts its nonces
//! big-endian, which `snow` does not, so the keys are taken out of it and the records
//! are made here.
use vstd::prelude::*;
use crate::bytes::{
    append, append_zeros, array_at, be16, be64, lemma_be16_low, push_be16, push_be64, zeros,
};
use crate::crypto::{aead_open, aead_seal, chacha_decrypt, chacha_encrypt, AEAD_MAX};

verus! {

broadcast use crate::bytes::group_lengths;

pub const PROTOCOL_VERSION: u16 = 1;

pub const MSG_INITIATION: u8 = 1;

pub const MSG_RESPONSE: u8 = 2;

pub const MSG_ERROR: u8 = 3;

pub const MSG_RECORD: u8 = 4;

/// Room for a handshake message.
pub const ROOM: usize = 256;

/// The Noise protocol that the control server speaks.
pub open spec fn pattern() -> Seq<char> {
    "Noise_IK_25519_ChaChaPoly_BLAKE2s"@
}

/// What both sides hash before the handshake.
pub open spec fn prologue() -> Seq<u8> {
    vstd::utf8::encode_utf8("Tailscale Control Protocol v1"@)
}

/// Why the handshake or a record failed.
#[derive(Clone, Copy, Debug, PartialEq, Eq, Structural)]
pub enum NoiseError {
    /// The first message could not be written.
    Write,
    /// The server's response was refused.
    Response,
    /// The handshake needs more messages than it should.
    Unfinished,
    /// The plaintext is beyond the cipher's limit.
    SealFailed,
    /// The record under this nonce does not authenticate.
    OpenFailed(u64),
    /// The nonces are used up.
    Exhausted,
}

#[verifier::external_type_specification]
#[verifier::external_body]
pub struct ExHandshakeState(snow::HandshakeState);

/// What a handshake was set up with: pattern, prologue, own private key and the
/// responder's public key.
pub struct NoiseSetup {
    pub pattern: Seq<char>,
    pub prologue: Seq<u8>,
    pub private: Seq<u8>,
    pub public: Seq<u8>,
}

/// What the handshake `h` was set up with.
pub uninterp spec fn noise_setup(h: snow::HandshakeState) -> NoiseSetup;

/// How many messages the handshake `h` has behind it.
pub uninterp spec fn noise_messages(h: snow::HandshakeState) -> nat;

/// The message that the handshake `h` has last written.
pub uninterp spec fn noise_written(h: snow::HandshakeState) -> Seq<u8>;

/// The handshake that `h` becomes by reading `msg`, if it accepts it.
pub uninterp spec fn noise_read(h: snow::HandshakeState, msg: Seq<u8>) -> Option<
    snow::HandshakeState,
>;

/// How many messages a handshake of the pattern has.
pub const MESSAGES: usize = 2;

/// The two transport keys of the handshake `h`: the initiator's, then the responder's.
pub uninterp spec fn noise_split(h: snow::HandshakeState) -> (Seq<u8>, Seq<u8>);

/// `snow::Builder` with prologue and both keys set, ending in `build_initiator`: a
/// handshake set up with just these and no message behind it. The pattern is one that the
/// default resolver serves and both keys have its key length, so this succeeds.
#[verifier::external_body]
fn build_initiator(pattern: &str, prologue: &[u8], private: &[u8; 32], public: &[u8; 32]) -> (r:
    Option<snow::HandshakeState>)
    requires
        pattern@ == self::pattern(),
    ensures
        r is Some,
        r matches Some(h) ==> noise_messages(h) == 0 && noise_setup(h) == (NoiseSetup {
            pattern: pattern@,
            prologue: prologue@,
            private: private@,
            public: public@,
        }),
{
    let b = snow::Builder::new(pattern.parse().ok()?).prologue(prologue).ok()?;
    let b = b.local_private_key(private).ok()?.remote_public_key(public).ok()?;
    b.build_initiator().ok()
}

/// `snow::HandshakeState::write_message` with an empty payload. The first message of the
/// IK pattern is an ephemeral key, an encrypted static key and a tag: 96 bytes. They follow
/// from the setup and a random ephemeral key, which the handshake keeps, so they belong to
/// the handshake that it has become. When it fails is left unsaid: entropy decides.
#[verifier::external_body]
fn write_message(hs: &mut snow::HandshakeState, room: usize) -> (r: Option<Vec<u8>>)
    requires
        noise_setup(*old(hs)).pattern == pattern(),
        noise_messages(*old(hs)) == 0,
        room >= 96,
    ensures
        noise_setup(*final(hs)) == noise_setup(*old(hs)),
        r matches Some(m) ==> m@.len() == 96 && m@ == noise_written(*final(hs)) && noise_messages(
            *final(hs),
        ) == 1,
{
    let mut buf = vec![0u8; room];
    let n = hs.write_message(&[], &mut buf).ok()?;
    Some(buf[..n].to_vec())
}

/// `snow::HandshakeState::read_message`. Whether the message is accepted, and what the
/// handshake then is, depends on the handshake and the message alone. One that is accepted
/// is one more message behind the handshake. The payload is dropped.
#[verifier::external_body]
fn read_message(hs: &mut snow::HandshakeState, msg: &[u8], room: usize) -> (r: bool)
    requires
        room == ROOM,
    ensures
        r == noise_read(*old(hs), msg@) is Some,
        r ==> noise_read(*old(hs), msg@) == Some(*final(hs)) && noise_setup(*final(hs))
            == noise_setup(*old(hs)) && noise_messages(*final(hs)) == noise_messages(*old(hs)) + 1,
{
    let mut buf = vec![0u8; room];
    hs.read_message(msg, &mut buf).is_ok()
}

/// `snow::HandshakeState::is_handshake_finished`: whether all messages of the pattern are
/// behind the handshake. The IK pattern has two.
#[verifier::external_body]
fn is_handshake_finished(hs: &snow::HandshakeState) -> (r: bool)
    requires
        noise_setup(*hs).pattern == pattern(),
    ensures
        r == (noise_messages(*hs) == MESSAGES),
{
    hs.is_handshake_finished()
}

/// `snow::HandshakeState::dangerously_get_raw_split`: the two transport keys.
#[verifier::external_body]
fn raw_split(hs: &mut snow::HandshakeState) -> (r: ([u8; 32], [u8; 32]))
    ensures
        (r.0@, r.1@) == noise_split(*old(hs)),
{
    hs.dangerously_get_raw_split()
}

/// An IK handshake in progress, on the initiator's side: the first message was written.
pub struct Handshake {
    hs: snow::HandshakeState,
}

/// The framed initiation: protocol version, type, length, Noise message.
pub open spec fn initiation_frame(noise: Seq<u8>) -> Seq<u8> {
    be16(PROTOCOL_VERSION as int) + seq![MSG_INITIATION] + be16(noise.len() as int) + noise
}

/// Frames the first Noise message.
pub fn frame_initiation(noise: &[u8]) -> (r: Vec<u8>)
    ensures
        r@ == initiation_frame(noise@),
{
    let mut v: Vec<u8> = Vec::new();
    push_be16(&mut v, PROTOCOL_VERSION);
    v.push(MSG_INITIATION);
    push_be16(&mut v, (noise.len() % 65536) as u16);
    proof {
        lemma_be16_low(noise@.len() as int);
    }
    append(&mut v, noise);
    assert(v@ =~= initiation_frame(noise@));
    v
}

/// Begins the handshake: its state, and the framed initiation of 101 bytes for the
/// upgrade request, which holds the message that this state has written. Entropy decides
/// whether that works.
pub fn start(machine_priv: &[u8; 32], control_pub: &[u8; 32]) -> (r: Result<
    (Handshake, Vec<u8>),
    NoiseError,
>)
    ensures
        r matches Ok(p) ==> {
            &&& p.1@.len() == 101
            &&& p.1@ == initiation_frame(noise_written(p.0.state()))
            &&& noise_messages(p.0.state()) == 1
            &&& noise_setup(p.0.state()) == (NoiseSetup {
                pattern: pattern(),
                prologue: prologue(),
                private: machine_priv@,
                public: control_pub@,
            })
        },
        r matches Err(e) ==> e == NoiseError::Write,
{
    let mut hs = build_initiator(
        "Noise_IK_25519_ChaChaPoly_BLAKE2s",
        "Tailscale Control Protocol v1".as_bytes(),
        machine_priv,
        control_pub,
    ).unwrap();
    let noise = match write_message(&mut hs, ROOM) {
        Some(m) => m,
        None => {
            return Err(NoiseError::Write);
        },
    };
    let framed = frame_initiation(noise.as_slice());
    Ok((Handshake { hs }, framed))
}

impl Handshake {
    /// The handshake.
    pub closed spec fn state(&self) -> snow::HandshakeState {
        self.hs
    }

    /// The pattern is the one of the control channel, and one message is behind it.
    #[verifier::type_invariant]
    closed spec fn begun(&self) -> bool {
        noise_setup(self.hs).pattern == pattern() && noise_messages(self.hs) == 1
    }

    /// Reads the server's response and derives the transport: the initiator sends with
    /// the first key and receives with the second. A response that is accepted is the last
    /// message of the handshake.
    pub fn complete(self, resp_noise: &[u8]) -> (r: Result<Transport, NoiseError>)
        ensures
            match noise_read(self.state(), resp_noise@) {
                None => r == Err::<Transport, NoiseError>(NoiseError::Response),
                Some(h) => r matches Ok(t) && t@ == TransportState::fresh(
                    noise_split(h).0,
                    noise_split(h).1,
                ),
            },
    {
        proof {
            use_type_invariant(&self);
        }
        let mut hs = self.hs;
        if !read_message(&mut hs, resp_noise, ROOM) {
            return Err(NoiseError::Response);
        }
        if !is_handshake_finished(&hs) {
            return Err(NoiseError::Unfinished);
        }
        let (k_send, k_recv) = raw_split(&mut hs);
        Ok(Transport::new(&k_send, &k_recv))
    }
}

/// The transport after the handshake: keys and nonce counters for both directions.
pub struct Transport {
    pub send_key: [u8; 32],
    pub recv_key: [u8; 32],
    pub tx_nonce: u64,
    pub rx_nonce: u64,
}

/// What a `Transport` holds.
pub struct TransportState {
    pub send_key: Seq<u8>,
    pub recv_key: Seq<u8>,
    pub tx_nonce: u64,
    pub rx_nonce: u64,
}

impl View for Transport {
    type V = TransportState;

    open spec fn view(&self) -> TransportState {
        TransportState {
            send_key: self.send_key@,
            recv_key: self.recv_key@,
            tx_nonce: self.tx_nonce,
            rx_nonce: self.rx_nonce,
        }
    }
}

impl TransportState {
    /// A transport that has sent and received nothing.
    pub open spec fn fresh(send_key: Seq<u8>, recv_key: Seq<u8>) -> TransportState {
        TransportState { send_key, recv_key, tx_nonce: 0, rx_nonce: 0 }
    }
}

/// The nonce of a counter: four zero bytes, then the counter, big-endian.
pub open spec fn nonce_of(counter: u64) -> Seq<u8> {
    zeros(4) + be64(counter as int)
}

/// A record around a ciphertext. The length field holds the length modulo 65536.
pub open spec fn record_of(ct: Seq<u8>) -> Seq<u8> {
    seq![MSG_RECORD] + be16(ct.len() as int) + ct
}

/// The ciphertext of `pt` under the counter.
pub open spec fn sealed(key: Seq<u8>, counter: u64, pt: Seq<u8>) -> Seq<u8> {
    aead_seal(key, nonce_of(counter), pt, Seq::empty())
}

/// What `ct` opens to under the counter. A ciphertext beyond the cipher's limit does
/// not open.
pub open spec fn unsealed(key: Seq<u8>, counter: u64, ct: Seq<u8>) -> Option<Seq<u8>> {
    if ct.len() <= AEAD_MAX + 16 {
        aead_open(key, nonce_of(counter), ct, Seq::empty())
    } else {
        None
    }
}

/// The nonce of a counter.
fn be_nonce(counter: u64) -> (r: [u8; 12])
    ensures
        r@ == nonce_of(counter),
{
    let mut v: Vec<u8> = Vec::new();
    append_zeros(&mut v, 4);
    push_be64(&mut v, counter);
    let r = array_at(v.as_slice(), 0, [0u8; 12]);
    assert(r@ =~= nonce_of(counter));
    r
}

impl Transport {
    /// A transport that has sent and received nothing.
    pub fn new(send_key: &[u8; 32], recv_key: &[u8; 32]) -> (r: Self)
        ensures
            r@ == TransportState::fresh(send_key@, recv_key@),
    {
        Transport { send_key: *send_key, recv_key: *recv_key, tx_nonce: 0, rx_nonce: 0 }
    }

    /// Encrypts one plaintext into a framed record. The nonce is spent even where the
    /// plaintext is beyond the cipher's limit.
    pub fn seal_record(&mut self, plaintext: &[u8]) -> (r: Result<Vec<u8>, NoiseError>)
        ensures
            match r {
                Ok(rec) => {
                    &&& old(self).tx_nonce < u64::MAX
                    &&& plaintext@.len() <= AEAD_MAX
                    &&& rec@ == record_of(
                        sealed(old(self).send_key@, old(self).tx_nonce, plaintext@),
                    )
                    &&& rec@.len() == 19 + plaintext@.len()
                },
                Err(NoiseError::Exhausted) => old(self).tx_nonce == u64::MAX,
                Err(NoiseError::SealFailed) => old(self).tx_nonce < u64::MAX && plaintext@.len()
                    > AEAD_MAX,
                Err(_) => false,
            },
            final(self)@ == (TransportState {
                tx_nonce: if old(self).tx_nonce < u64::MAX {
                    (old(self).tx_nonce + 1) as u64
                } else {
                    u64::MAX
                },
                ..old(self)@
            }),
    {
        if self.tx_nonce == u64::MAX {
            return Err(NoiseError::Exhausted);
        }
        let nonce = be_nonce(self.tx_nonce);
        self.tx_nonce = self.tx_nonce + 1;
        if plaintext.len() as u64 > AEAD_MAX {
            return Err(NoiseError::SealFailed);
        }
        let none: [u8; 0] = [];
        assert(none@ =~= Seq::empty());
        let ct = chacha_encrypt(&self.send_key, &nonce, plaintext, none.as_slice()).unwrap();
        let mut out: Vec<u8> = Vec::new();
        out.push(MSG_RECORD);
        push_be16(&mut out, (ct.len() % 65536) as u16);
        proof {
            lemma_be16_low(ct@.len() as int);
        }
        append(&mut out, ct.as_slice());
        assert(out@ =~= record_of(ct@));
        Ok(out)
    }

    /// Decrypts the payload of a received record. The nonce is spent even where the
    /// record does not authenticate. What the other end sealed under the same nonce
    /// comes out.
    pub fn open_record(&mut self, ciphertext: &[u8]) -> (r: Result<Vec<u8>, NoiseError>)
        ensures
            match r {
                Ok(pt) => {
                    &&& old(self).rx_nonce < u64::MAX
                    &&& unsealed(old(self).recv_key@, old(self).rx_nonce, ciphertext@) == Some(pt@)
                    &&& pt@.len() + 16 == ciphertext@.len()
                },
                Err(NoiseError::Exhausted) => old(self).rx_nonce == u64::MAX,
                Err(NoiseError::OpenFailed(n)) => {
                    &&& n == old(self).rx_nonce
                    &&& n < u64::MAX
                    &&& unsealed(old(self).recv_key@, n, ciphertext@) is None
                },
                Err(_) => false,
            },
            final(self)@ == (TransportState {
                rx_nonce: if old(self).rx_nonce < u64::MAX {
                    (old(self).rx_nonce + 1) as u64
                } else {
                    u64::MAX
                },
                ..old(self)@
            }),
            forall|pt: Seq<u8>|
                old(self).rx_nonce < u64::MAX && pt.len() <= AEAD_MAX && ciphertext@.len()
                    == pt.len() + 16 && ciphertext@ == #[trigger] sealed(
                    old(self).recv_key@,
                    old(self).rx_nonce,
                    pt,
                ) ==> r is Ok && r->Ok_0@ == pt,
    {
        if self.rx_nonce == u64::MAX {
            return Err(NoiseError::Exhausted);
        }
        let at: u64 = self.rx_nonce;
        let nonce = be_nonce(at);
        self.rx_nonce = at + 1;
        if ciphertext.len() as u64 > AEAD_MAX + 16 {
            return Err(NoiseError::OpenFailed(at));
        }
        let none: [u8; 0] = [];
        assert(none@ =~= Seq::empty());
        match chacha_decrypt(&self.recv_key, &nonce, ciphertext, none.as_slice()) {
            Some(pt) => Ok(pt),
            None => Err(NoiseError::OpenFailed(at)),
        }
    }
}

} // verus!
