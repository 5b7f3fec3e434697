//! The three Curve25519 identities of a node: the machine key, which authenticates the
//! device on the control channel, the node key of the data plane, and the disco key.
use vstd::prelude::*;
use vstd::utf8::encode_utf8;
use crate::bytes::{array32, copy};
use crate::crypto::{opt_view, public_key, x25519_base};
use crate::text::{ascii_string, hex_of, push_hex};

verus! {

/// A private key and its public key.
#[derive(Clone)]
pub struct Keypair {
    pub private: [u8; 32],
    pub public: [u8; 32],
}

/// The node's three identities.
#[derive(Clone)]
pub struct NodeKeys {
    pub machine: Keypair,
    pub node: Keypair,
    pub disco: Keypair,
}

impl Keypair {
    /// Whether the public key belongs to the private key.
    pub open spec fn wf(&self) -> bool {
        self.public@ == x25519_base(self.private@)
    }

    /// The pair of this private key.
    pub fn from_private(private: [u8; 32]) -> (r: Self)
        ensures
            r.private@ == private@,
            r.wf(),
    {
        let public = public_key(&private);
        Keypair { private, public }
    }

    /// The public key in lower-case hexadecimal.
    pub fn public_hex(&self) -> (r: String)
        ensures
            encode_utf8(r@) == hex_of(self.public@),
    {
        hex_lower(self.public.as_slice())
    }

    /// The pair for what is stored: a stored key of the right length is taken; otherwise
    /// the fresh one is, and is to be stored.
    pub fn load_or_make(stored: &Option<Vec<u8>>, fresh: [u8; 32]) -> (r: (Self, bool))
        ensures
            r.0.wf(),
            r.0.private@ == chosen(opt_view(*stored), fresh@),
            r.1 == !usable(opt_view(*stored)),
    {
        if let Some(v) = stored {
            if v.len() == 32 {
                let private = array32(v.as_slice(), 0);
                assert(private@ =~= v@);
                return (Self::from_private(private), false);
            }
        }
        (Self::from_private(fresh), true)
    }
}

/// Whether what is stored is a key.
pub open spec fn usable(stored: Option<Seq<u8>>) -> bool {
    stored is Some && stored->0.len() == 32
}

/// The private key for what is stored.
pub open spec fn chosen(stored: Option<Seq<u8>>, fresh: Seq<u8>) -> Seq<u8> {
    if usable(stored) {
        stored->0
    } else {
        fresh
    }
}

/// Lower-case hexadecimal digits.
pub fn hex_lower(bytes: &[u8]) -> (r: String)
    ensures
        encode_utf8(r@) == hex_of(bytes@),
{
    let mut v: Vec<u8> = Vec::new();
    push_hex(&mut v, bytes);
    assert(v@ =~= hex_of(bytes@));
    ascii_string(v)
}

/// The keys that are stored, each under its name.
pub struct KeyStore {
    pub machine: Option<Vec<u8>>,
    pub node: Option<Vec<u8>>,
    pub disco: Option<Vec<u8>>,
}

/// What a `KeyStore` holds.
pub struct StoreState {
    pub machine: Option<Seq<u8>>,
    pub node: Option<Seq<u8>>,
    pub disco: Option<Seq<u8>>,
}

impl View for KeyStore {
    type V = StoreState;

    open spec fn view(&self) -> StoreState {
        StoreState {
            machine: opt_view(self.machine),
            node: opt_view(self.node),
            disco: opt_view(self.disco),
        }
    }
}

/// Fresh private keys, for those that are absent.
pub struct FreshKeys {
    pub machine: [u8; 32],
    pub node: [u8; 32],
    pub disco: [u8; 32],
}

/// One of the three identities.
#[derive(Clone, Copy, Debug, PartialEq, Eq, Structural)]
pub enum KeyName {
    Machine,
    Node,
    Disco,
}

impl KeyName {
    /// The name that the key is stored under.
    pub open spec fn text(self) -> Seq<char> {
        match self {
            KeyName::Machine => "k_machine"@,
            KeyName::Node => "k_node"@,
            KeyName::Disco => "k_disco"@,
        }
    }

    /// The name that the key is stored under.
    pub fn name(self) -> (r: &'static str)
        ensures
            r@ == self.text(),
    {
        match self {
            KeyName::Machine => "k_machine",
            KeyName::Node => "k_node",
            KeyName::Disco => "k_disco",
        }
    }
}

impl StoreState {
    /// The store after the keys were loaded: what is a key stays, and what is absent or no
    /// key is replaced by the fresh one.
    pub open spec fn loaded(self, fresh: FreshKeys) -> StoreState {
        StoreState {
            machine: Some(chosen(self.machine, fresh.machine@)),
            node: Some(chosen(self.node, fresh.node@)),
            disco: Some(chosen(self.disco, fresh.disco@)),
        }
    }

    /// The names under which a key is written when the keys are loaded.
    pub open spec fn missing(self) -> Seq<KeyName> {
        let a = if usable(self.machine) {
            Seq::empty()
        } else {
            seq![KeyName::Machine]
        };
        let b = if usable(self.node) {
            a
        } else {
            a.push(KeyName::Node)
        };
        if usable(self.disco) {
            b
        } else {
            b.push(KeyName::Disco)
        }
    }
}

/// Loads one key, or takes the fresh one and stores it. The result says whether it did.
fn load_one(stored: &mut Option<Vec<u8>>, fresh: &[u8; 32]) -> (r: (Keypair, bool))
    ensures
        r.0.wf(),
        r.0.private@ == chosen(opt_view(*old(stored)), fresh@),
        r.1 == !usable(opt_view(*old(stored))),
        opt_view(*final(stored)) == Some(r.0.private@),
{
    let (pair, store) = Keypair::load_or_make(stored, *fresh);
    if store {
        *stored = Some(copy(pair.private.as_slice()));
    }
    (pair, store)
}

/// Loads the three key pairs, and makes and stores any that are absent: the keys, and the
/// names under which a key is to be written back.
pub fn load_or_generate(store: &mut KeyStore, fresh: &FreshKeys) -> (r: (NodeKeys, Vec<KeyName>))
    ensures
        r.0.machine.wf() && r.0.node.wf() && r.0.disco.wf(),
        final(store)@ == old(store)@.loaded(*fresh),
        Some(r.0.machine.private@) == final(store)@.machine,
        Some(r.0.node.private@) == final(store)@.node,
        Some(r.0.disco.private@) == final(store)@.disco,
        r.1@ == old(store)@.missing(),
{
    let mut names: Vec<KeyName> = Vec::new();
    let (machine, a) = load_one(&mut store.machine, &fresh.machine);
    if a {
        names.push(KeyName::Machine);
    }
    let (node, b) = load_one(&mut store.node, &fresh.node);
    if b {
        names.push(KeyName::Node);
    }
    let (disco, c) = load_one(&mut store.disco, &fresh.disco);
    if c {
        names.push(KeyName::Disco);
    }
    assert(names@ =~= old(store)@.missing());
    (NodeKeys { machine, node, disco }, names)
}

/// Loading the keys again, from the store as the first loading left it, gives the same keys,
/// writes none and leaves the store as it is, whatever fresh keys are at hand.
pub proof fn law_reload(s: StoreState, fresh: FreshKeys, other: FreshKeys)
    ensures
        s.loaded(fresh).loaded(other) == s.loaded(fresh),
        s.loaded(fresh).missing() == Seq::<KeyName>::empty(),
{
}

/// A key that is stored is used as it is and never overwritten.
pub proof fn law_stored_keys_stay(s: StoreState, fresh: FreshKeys)
    ensures
        usable(s.machine) ==> s.loaded(fresh).machine == s.machine && !s.missing().contains(
            KeyName::Machine,
        ),
        usable(s.node) ==> s.loaded(fresh).node == s.node && !s.missing().contains(KeyName::Node),
        usable(s.disco) ==> s.loaded(fresh).disco == s.disco && !s.missing().contains(
            KeyName::Disco,
        ),
{
}

/// The identity does not change across restarts: what one start chose and stored is what
/// the next one chooses, whatever fresh key it has at hand.
pub proof fn law_identity_is_stable(stored: Option<Seq<u8>>, fresh: Seq<u8>, other: Seq<u8>)
    requires
        fresh.len() == 32,
    ensures
        chosen(Some(chosen(stored, fresh)), other) == chosen(stored, fresh),
        usable(Some(chosen(stored, fresh))),
{
}

} // verus!
