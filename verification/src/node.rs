//! The node's identity on the data plane, what it knows of its peers, and the
//! packet-filter check that both transports share.
use vstd::prelude::*;
use crate::bytes::{get_be32, read_be32};
use crate::net::{Ipv4Addr, SocketAddr};
use crate::peers::{any_covers, cidr_match, Cidr};

verus! {

/// A peer to reach directly, with its disco and node keys and its paths.
pub struct Target {
    pub name: String,
    pub disco_pub: [u8; 32],
    pub node_pub: [u8; 32],
    pub endpoints: Vec<SocketAddr>,
    /// Spray ports at this peer's public endpoints, for a symmetric NAT.
    pub spray: bool,
}

/// What a `Target` holds.
pub struct TargetState {
    pub name: Seq<char>,
    pub disco_pub: Seq<u8>,
    pub node_pub: Seq<u8>,
    pub endpoints: Seq<SocketAddr>,
    pub spray: bool,
}

impl View for Target {
    type V = TargetState;

    open spec fn view(&self) -> TargetState {
        TargetState {
            name: self.name@,
            disco_pub: self.disco_pub@,
            node_pub: self.node_pub@,
            endpoints: self.endpoints@,
            spray: self.spray,
        }
    }
}

/// What a list of targets holds.
pub open spec fn target_states(v: Seq<Target>) -> Seq<TargetState> {
    v.map_values(|t: Target| t@)
}

/// A netmap row by which a relayed peer's disco key and endpoints are found.
pub struct PeerDir {
    pub node_pub: [u8; 32],
    pub disco_pub: [u8; 32],
    pub endpoints: Vec<SocketAddr>,
}

/// Traffic that the node starts itself: pings and one HTTP GET to one peer.
#[derive(Clone)]
pub struct OutboundCfg {
    pub our_ip: Ipv4Addr,
    pub target_ip: Ipv4Addr,
    pub target_node: [u8; 32],
    pub http_port: u16,
    pub http_path: String,
}

/// The identity that this node uses on the data plane.
#[derive(Clone)]
pub struct Identity {
    pub disco_priv: [u8; 32],
    pub disco_pub: [u8; 32],
    pub node_priv: [u8; 32],
    pub node_pub: [u8; 32],
    /// The sources that the packet filter allows. `None` allows all.
    pub allowed_srcs: Option<Vec<Cidr>>,
}

/// What an `Identity` holds.
pub struct IdentityState {
    pub disco_priv: Seq<u8>,
    pub disco_pub: Seq<u8>,
    pub node_priv: Seq<u8>,
    pub node_pub: Seq<u8>,
    pub allowed_srcs: Option<Seq<Cidr>>,
}

impl View for Identity {
    type V = IdentityState;

    open spec fn view(&self) -> IdentityState {
        IdentityState {
            disco_priv: self.disco_priv@,
            disco_pub: self.disco_pub@,
            node_priv: self.node_priv@,
            node_pub: self.node_pub@,
            allowed_srcs: match self.allowed_srcs {
                Some(v) => Some(v@),
                None => None,
            },
        }
    }
}

/// What the relay needs to bring a relayed peer to a direct path: this node's
/// endpoints and the netmap rows.
pub struct Upgrade {
    pub our_endpoints: Vec<SocketAddr>,
    pub peers: Vec<PeerDir>,
}

/// Where captured mDNS goes: this node's address and the partner's address and key.
pub struct MdnsLink {
    pub our_ip: Ipv4Addr,
    pub partner_ip: Ipv4Addr,
    pub partner_node: [u8; 32],
}

/// Whether the inner packet may reach this node. Without a filter everything may;
/// what is no IPv4 packet is not blocked.
pub open spec fn allowed(filter: Option<Seq<Cidr>>, inner: Seq<u8>) -> bool {
    match filter {
        None => true,
        Some(cidrs) => inner.len() < 16 || inner[0] / 16 != 4 || any_covers(
            cidrs,
            get_be32(inner, 12) as u32,
        ),
    }
}

/// Enforces the packet filter: whether the inner packet's source may reach this
/// node.
pub fn src_allowed(filter: &Option<Vec<Cidr>>, inner: &[u8]) -> (r: bool)
    ensures
        r == allowed(
            match *filter {
                Some(v) => Some(v@),
                None => None,
            },
            inner@,
        ),
{
    let cidrs = match filter {
        Some(c) => c,
        None => {
            return true;
        },
    };
    if inner.len() < 16 || inner[0] / 16 != 4 {
        return true;
    }
    cidr_match(cidrs.as_slice(), read_be32(inner, 12))
}

/// Where the filter is empty, no IPv4 packet gets through.
pub proof fn law_empty_filter_denies(inner: Seq<u8>)
    requires
        inner.len() >= 16,
        inner[0] / 16 == 4,
    ensures
        !allowed(Some(Seq::<Cidr>::empty()), inner),
{
}

} // verus!
