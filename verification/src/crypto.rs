//! The cryptographic primitives. Each name below stands for what an outside
//! function computes from its arguments; what the library builds from them is
//! stated over these names.
use vstd::prelude::*;
use blake2::digest::consts::U16;
use blake2::digest::Mac;
use blake2::Digest;
use chacha20poly1305::aead::{Aead, Payload};
use chacha20poly1305::KeyInit;

verus! {

/// The longest plaintext that ChaCha20-Poly1305 takes without wearing out its
/// block counter.
pub const AEAD_MAX: u64 = 274877906816;

/// The BLAKE2s-256 digest of `data`.
pub uninterp spec fn blake2s(data: Seq<u8>) -> Seq<u8>;

/// The 16-byte keyed BLAKE2s digest of `data`.
pub uninterp spec fn blake2s_mac(key: Seq<u8>, data: Seq<u8>) -> Seq<u8>;

/// The X25519 shared secret of the private key `private` and the public key
/// `public`.
pub uninterp spec fn x25519(private: Seq<u8>, public: Seq<u8>) -> Seq<u8>;

/// The X25519 public key of `private`.
pub uninterp spec fn x25519_base(private: Seq<u8>) -> Seq<u8>;

/// The ChaCha20-Poly1305 ciphertext of `msg`, tag last.
pub uninterp spec fn aead_seal(key: Seq<u8>, nonce: Seq<u8>, msg: Seq<u8>, aad: Seq<u8>) -> Seq<u8>;

/// The plaintext of the ChaCha20-Poly1305 ciphertext `ct`, where its tag is right.
pub uninterp spec fn aead_open(key: Seq<u8>, nonce: Seq<u8>, ct: Seq<u8>, aad: Seq<u8>) -> Option<
    Seq<u8>,
>;

/// The NaCl box (X25519, XSalsa20, Poly1305) of `msg`, tag first.
pub uninterp spec fn box_seal(
    private: Seq<u8>,
    public: Seq<u8>,
    nonce: Seq<u8>,
    msg: Seq<u8>,
) -> Seq<u8>;

/// What is in the NaCl box `ct`, where its tag is right.
pub uninterp spec fn box_open(
    private: Seq<u8>,
    public: Seq<u8>,
    nonce: Seq<u8>,
    ct: Seq<u8>,
) -> Option<Seq<u8>>;

/// What an optional byte string holds.
pub open spec fn opt_view(o: Option<Vec<u8>>) -> Option<Seq<u8>> {
    match o {
        Some(v) => Some(v@),
        None => None,
    }
}

/// `blake2::Blake2s256::digest`: 32 bytes that depend on `data` alone.
#[verifier::external_body]
pub(crate) fn hash(data: &[u8]) -> (r: [u8; 32])
    ensures
        r@ == blake2s(data@),
{
    blake2::Blake2s256::digest(data).into()
}

/// `blake2::Blake2sMac<U16>`, keyed, updated once with `data` and finalized: 16
/// bytes that depend on key and data alone. A key over 32 bytes is refused there.
#[verifier::external_body]
pub(crate) fn keyed_hash(key: &[u8], data: &[u8]) -> (r: Option<[u8; 16]>)
    requires
        key@.len() <= 32,
    ensures
        r is Some,
        r->0@ == blake2s_mac(key@, data@),
{
    let mut mac = <blake2::Blake2sMac<U16> as blake2::digest::KeyInit>::new_from_slice(key).ok()?;
    Mac::update(&mut mac, data);
    Some(mac.finalize().into_bytes().into())
}

/// `x25519_dalek::StaticSecret::diffie_hellman`. Both sides of an exchange come to
/// the same secret: where `public` is the public key of some `b`, the result is
/// also what `b` gets with the public key of `private`.
#[verifier::external_body]
pub(crate) fn dh(private: &[u8; 32], public: &[u8; 32]) -> (r: [u8; 32])
    ensures
        r@ == x25519(private@, public@),
        forall|b: Seq<u8>|
            b.len() == 32 && public@ == #[trigger] x25519_base(b) ==> r@ == x25519(
                b,
                x25519_base(private@),
            ),
{
    let secret = x25519_dalek::StaticSecret::from(*private);
    secret.diffie_hellman(&x25519_dalek::PublicKey::from(*public)).to_bytes()
}

/// `x25519_dalek::PublicKey::from` a `StaticSecret`: the public key, which depends
/// on the private key alone.
#[verifier::external_body]
pub(crate) fn public_key(private: &[u8; 32]) -> (r: [u8; 32])
    ensures
        r@ == x25519_base(private@),
{
    let secret = x25519_dalek::StaticSecret::from(*private);
    x25519_dalek::PublicKey::from(&secret).to_bytes()
}

/// `ChaCha20Poly1305::encrypt`. It succeeds on every message up to `AEAD_MAX`
/// bytes, and the ciphertext is 16 bytes longer than the message.
#[verifier::external_body]
pub(crate) fn chacha_encrypt(key: &[u8; 32], nonce: &[u8; 12], msg: &[u8], aad: &[u8]) -> (r: Option<
    Vec<u8>,
>)
    requires
        msg@.len() <= AEAD_MAX,
    ensures
        r is Some,
        r->0@ == aead_seal(key@, nonce@, msg@, aad@),
        r->0@.len() == msg@.len() + 16,
{
    let cipher = chacha20poly1305::ChaCha20Poly1305::new(chacha20poly1305::Key::from_slice(key));
    cipher.encrypt(chacha20poly1305::Nonce::from_slice(nonce), Payload { msg, aad }).ok()
}

/// `ChaCha20Poly1305::decrypt`. A ciphertext opens to a message if and only if it
/// is what `encrypt` makes of that message under the same key, nonce and
/// associated data.
#[verifier::external_body]
pub(crate) fn chacha_decrypt(key: &[u8; 32], nonce: &[u8; 12], ct: &[u8], aad: &[u8]) -> (r: Option<
    Vec<u8>,
>)
    requires
        ct@.len() <= AEAD_MAX + 16,
    ensures
        opt_view(r) == aead_open(key@, nonce@, ct@, aad@),
        r matches Some(m) ==> m@.len() + 16 == ct@.len(),
        forall|m: Seq<u8>|
            m.len() + 16 == ct@.len() ==> (ct@ == #[trigger] aead_seal(key@, nonce@, m, aad@)
                <==> opt_view(r) == Some(m)),
{
    let cipher = chacha20poly1305::ChaCha20Poly1305::new(chacha20poly1305::Key::from_slice(key));
    cipher.decrypt(chacha20poly1305::Nonce::from_slice(nonce), Payload { msg: ct, aad }).ok()
}

/// `crypto_box::SalsaBox::encrypt` without associated data, which always succeeds.
/// The box is 16 bytes longer than the message.
#[verifier::external_body]
pub(crate) fn salsa_encrypt(private: &[u8; 32], public: &[u8; 32], nonce: &[u8; 24], msg: &[u8]) -> (r:
    Option<Vec<u8>>)
    ensures
        r is Some,
        r->0@ == box_seal(private@, public@, nonce@, msg@),
        r->0@.len() == msg@.len() + 16,
{
    let secret = crypto_box::SecretKey::from(*private);
    let bx = crypto_box::SalsaBox::new(&crypto_box::PublicKey::from(*public), &secret);
    bx.encrypt(crypto_box::Nonce::from_slice(nonce), msg).ok()
}

/// `crypto_box::SalsaBox::decrypt` without associated data. A box opens to a message if and
/// only if it is what `encrypt` makes of that message with the same keys and nonce. The two
/// sides share one key: the box that the owner of `a` made for the public key of `private`
/// opens with `private` and the public key of `a`.
#[verifier::external_body]
pub(crate) fn salsa_decrypt(private: &[u8; 32], public: &[u8; 32], nonce: &[u8; 24], ct: &[u8]) -> (r:
    Option<Vec<u8>>)
    ensures
        opt_view(r) == box_open(private@, public@, nonce@, ct@),
        r matches Some(m) ==> m@.len() + 16 == ct@.len(),
        forall|m: Seq<u8>|
            m.len() + 16 == ct@.len() ==> (ct@ == #[trigger] box_seal(
                private@,
                public@,
                nonce@,
                m,
            ) <==> opt_view(r) == Some(m)),
        forall|a: Seq<u8>, m: Seq<u8>|
            a.len() == 32 && public@ == x25519_base(a) && ct@ == #[trigger] box_seal(
                a,
                x25519_base(private@),
                nonce@,
                m,
            ) ==> opt_view(r) == Some(m),
{
    let secret = crypto_box::SecretKey::from(*private);
    let bx = crypto_box::SalsaBox::new(&crypto_box::PublicKey::from(*public), &secret);
    bx.decrypt(crypto_box::Nonce::from_slice(nonce), ct).ok()
}

} // verus!
