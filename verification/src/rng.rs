//! Random numbers from the system's entropy source.
use vstd::prelude::*;
use crate::bytes::{array_at, read_le32};

verus! {

/// The system's entropy source could not deliver.
#[derive(Clone, Copy, Debug, PartialEq, Eq, Structural)]
pub struct NoEntropy;

/// `getrandom::getrandom` on a fresh buffer of `n` bytes: it fills the whole
/// buffer or fails. Nothing is claimed of the bytes, nor of when it fails.
#[verifier::external_body]
fn entropy(n: usize) -> (r: Result<Vec<u8>, NoEntropy>)
    ensures
        r matches Ok(v) ==> v@.len() == n,
{
    let mut v = vec![0u8; n];
    match getrandom::getrandom(&mut v) {
        Ok(()) => Ok(v),
        Err(_) => Err(NoEntropy),
    }
}

/// `n` random bytes.
pub(crate) fn random_bytes(n: usize) -> (r: Result<Vec<u8>, NoEntropy>)
    ensures
        r matches Ok(v) ==> v@.len() == n,
{
    entropy(n)
}

/// A random 32-bit number.
pub(crate) fn random_u32() -> Result<u32, NoEntropy> {
    match entropy(4) {
        Ok(v) => Ok(read_le32(v.as_slice(), 0)),
        Err(e) => Err(e),
    }
}

/// A random 32-byte string.
pub(crate) fn random32() -> Result<[u8; 32], NoEntropy> {
    match entropy(32) {
        Ok(v) => Ok(array_at(v.as_slice(), 0, [0u8; 32])),
        Err(e) => Err(e),
    }
}

/// A random 12-byte string.
pub(crate) fn random12() -> Result<[u8; 12], NoEntropy> {
    match entropy(12) {
        Ok(v) => Ok(array_at(v.as_slice(), 0, [0u8; 12])),
        Err(e) => Err(e),
    }
}

/// A random 24-byte string.
pub(crate) fn random24() -> Result<[u8; 24], NoEntropy> {
    match entropy(24) {
        Ok(v) => Ok(array_at(v.as_slice(), 0, [0u8; 24])),
        Err(e) => Err(e),
    }
}

/// The random values that the handling of one packet may need.
pub struct Entropy {
    /// For a disco reply.
    pub nonce: [u8; 24],
    /// For a new tunnel's index.
    pub index: u32,
    /// For a new tunnel's ephemeral key.
    pub eph: [u8; 32],
    /// For a new TCP connection's initial sequence number.
    pub iss: u32,
}

impl Entropy {
    /// Draws fresh values. It fails where the system has no entropy to give; nothing
    /// is known of the values.
    pub fn draw() -> Result<Entropy, NoEntropy> {
        let nonce = match random24() {
            Ok(n) => n,
            Err(e) => {
                return Err(e);
            },
        };
        let index: u32 = match random_u32() {
            Ok(n) => n,
            Err(e) => {
                return Err(e);
            },
        };
        let eph = match random32() {
            Ok(k) => k,
            Err(e) => {
                return Err(e);
            },
        };
        match random_u32() {
            Ok(iss) => Ok(Entropy { nonce, index, eph, iss }),
            Err(e) => Err(e),
        }
    }
}

} // verus!
