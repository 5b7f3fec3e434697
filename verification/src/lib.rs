//! A Tailscale node's protocol core.
pub mod bytes;
pub mod channel_laws;
pub mod chore_laws;
pub mod control;
pub mod crypto;
pub mod dataplane;
pub mod dataplane_laws;
pub mod derp;
pub mod disco;
pub mod exchange_laws;
pub mod h2;
pub mod icmp;
pub mod ipv4;
pub mod json;
pub mod keys;
pub mod magicsock;
pub mod mdns;
pub mod model_laws;
pub mod net;
pub mod netmap_laws;
pub mod node;
pub mod node_laws;
pub mod noise;
pub mod outbound;
pub mod packet_laws;
pub mod peers;
pub mod periodic;
pub mod platform;
pub mod proxy;
pub mod relay_laws;
pub mod request_laws;
pub mod rng;
pub mod scan;
pub mod session_laws;
pub mod setup;
pub mod stun;
pub mod tcp;
pub mod text;
pub mod transport;
pub mod wg;
pub mod wg_laws;
pub mod wire;
