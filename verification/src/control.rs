//! The control plane (ts2021): the Noise handshake over the upgraded connection, the
//! registration, and what is asked of and read from the netmap.
use vstd::prelude::*;
use vstd::utf8::{decode_utf8, encode_utf8, encode_utf8_decode_utf8};
use crate::bytes::{append, copy, copy_range, starts, starts_with};
use crate::h2::{
    io_failed, post_of, start_failed, started, streamed, stripped, tx_exhausted, Answered,
    H2Error, Out, Streamed, H2,
};
use crate::json::{
    as_bool, as_str, get, json_parse, json_text, member, object, of_bool, of_number, of_str,
    of_vec, parse, put, render, tree, trees, Json,
};
use crate::keys::NodeKeys;
use crate::noise::{
    initiation_frame, noise_messages, noise_read, noise_setup, noise_split,
    noise_written, pattern, prologue, start, Handshake, NoiseError, NoiseSetup, Transport,
    TransportState, MSG_ERROR, MSG_RESPONSE,
};
use crate::peers::{
    filter_of, list, parse_allowed_srcs, parse_peers, peer_states, peers_of, Cidr, FilterResp,
    MapResp, PeerInfo,
};
use crate::platform::{
    follows, read_on, rest, untouched, write_on, wrote_first, wrote_on, ByteStream, Connector,
    ReadError,
};
use crate::scan::{
    find_own, first_own, in_message, lemma_first_own_unique, lemma_opening, opening, own_at,
    place_at,
};
use crate::text::{
    all_ascii, ascii_string, hex_bytes, hex_decode_64, hex_digit, hex_of, hex_val, occurs_at,
    push_hex, suffix_string,
};
use crate::transport::{
    b64_of, base64_std, connect_and_upgrade, frame_len, frame_payload, from_utf8_lossy,
    has_frame, lossy_text, trim, trimmed, upgrade_done, upgrade_failed, Conn,
    ConnError,
};

verus! {

/// What the node says of itself, and where its control server is.
pub struct Config {
    pub hostname: String,
    pub os_name: String,
    pub os_version: String,
    pub go_arch: String,
    pub device_name: String,
    pub capability_version: u32,
    pub advertise_tags: Vec<String>,
    pub subnet_routes: Vec<String>,
    pub advertise_exit_node: bool,
    pub control_host: String,
    pub ts2021_port: u16,
}

/// Why something on the control plane failed.
#[derive(Debug)]
pub enum ControlError {
    /// The handshake failed.
    Noise(NoiseError),
    /// No connection to the server.
    Connect,
    /// The connection failed.
    Conn(ConnError),
    /// The server answered the handshake with an error.
    Server(Vec<u8>),
    /// The server answered the handshake with a frame of another type.
    Unexpected(u8),
    /// The session failed.
    Session(H2Error),
}

/// Outcome of a registration.
pub struct RegisterResult {
    pub status: u16,
    pub machine_authorized: bool,
    pub auth_url: Option<String>,
    pub raw: String,
}

/// Outcome of a map request.
pub struct MapResult {
    pub status: u16,
    pub ip: Option<String>,
    pub body_len: usize,
}

// --- requests ---

/// A key in hexadecimal with its type in front.
pub open spec fn typed_key(prefix: Seq<u8>, key: Seq<u8>) -> Seq<char> {
    decode_utf8(prefix + hex_of(key))
}

/// The bytes of "nodekey:".
pub open spec fn nodekey() -> Seq<u8> {
    seq![110u8, 111, 100, 101, 107, 101, 121, 58]
}

/// The bytes of "discokey:".
pub open spec fn discokey() -> Seq<u8> {
    seq![100u8, 105, 115, 99, 111, 107, 101, 121, 58]
}

/// The bytes of "mkey:".
pub open spec fn mkey() -> Seq<u8> {
    seq![109u8, 107, 101, 121, 58]
}

/// A list of texts as JSON.
pub open spec fn strings(v: Seq<String>) -> Json {
    Json::Arr(v.map_values(|s: String| Json::Str(s@)))
}

/// The routes to advertise: the configured ones, and everything for an exit node.
pub open spec fn routes_of(cfg: Config) -> Seq<Json> {
    let own = cfg.subnet_routes@.map_values(|s: String| Json::Str(s@));
    if cfg.advertise_exit_node {
        own + seq![Json::Str("0.0.0.0/0"@), Json::Str("::/0"@)]
    } else {
        own
    }
}

/// What the node says of its network.
pub open spec fn netinfo_of() -> Json {
    Json::Obj(
        Map::empty().insert("MappingVariesByDestIP"@, Json::Bool(false)).insert(
            "HairPinning"@,
            Json::Bool(false),
        ).insert("WorkingIPv4"@, Json::Bool(true)).insert("WorkingIPv6"@, Json::Bool(false)).insert(
            "PreferredDERP"@,
            Json::Int(1),
        ).insert("LinkType"@, Json::Str("wired"@)),
    )
}

/// What the node says of its host. Tags and routes are there only where there are any.
pub open spec fn hostinfo_of(cfg: Config) -> Json {
    let base = Map::empty().insert("Hostname"@, Json::Str(cfg.hostname@)).insert(
        "OS"@,
        Json::Str(cfg.os_name@),
    ).insert("OSVersion"@, Json::Str(cfg.os_version@)).insert(
        "GoArch"@,
        Json::Str(cfg.go_arch@),
    ).insert("NetInfo"@, netinfo_of()).insert("InheritTailscaleNetfilter"@, Json::Bool(false));
    let tagged = if cfg.advertise_tags@.len() > 0 {
        base.insert("RequestTags"@, strings(cfg.advertise_tags@))
    } else {
        base
    };
    Json::Obj(
        if routes_of(cfg).len() > 0 {
            tagged.insert("RoutableIPs"@, Json::Arr(routes_of(cfg)))
        } else {
            tagged
        },
    )
}

/// A map request.
pub open spec fn map_request_of(
    cfg: Config,
    node_pub: Seq<u8>,
    disco_pub: Seq<u8>,
    stream: bool,
    omit_peers: bool,
    keep_alive: bool,
    endpoints: Seq<String>,
) -> Json {
    Json::Obj(
        Map::empty().insert("Version"@, Json::Int(cfg.capability_version as int)).insert(
            "NodeKey"@,
            Json::Str(typed_key(nodekey(), node_pub)),
        ).insert("DiscoKey"@, Json::Str(typed_key(discokey(), disco_pub))).insert(
            "Endpoints"@,
            strings(endpoints),
        ).insert("Hostinfo"@, hostinfo_of(cfg)).insert("Stream"@, Json::Bool(stream)).insert(
            "KeepAlive"@,
            Json::Bool(keep_alive),
        ).insert("ReadOnly"@, Json::Bool(false)).insert("OmitPeers"@, Json::Bool(omit_peers)).insert(
            "Compress"@,
            Json::Str(""@),
        ),
    )
}

/// A registration request. The pre-auth key is there only where there is one.
pub open spec fn register_request_of(
    cfg: Config,
    node_pub: Seq<u8>,
    machine_pub: Seq<u8>,
    disco_pub: Seq<u8>,
    auth_key: Seq<char>,
) -> Json {
    let none = Json::Arr(Seq::<Json>::empty());
    let base = Map::empty().insert("Version"@, Json::Int(cfg.capability_version as int)).insert(
        "NodeKey"@,
        Json::Str(typed_key(nodekey(), node_pub)),
    ).insert("MachineKey"@, Json::Str(typed_key(mkey(), machine_pub))).insert(
        "DiscoKey"@,
        Json::Str(typed_key(discokey(), disco_pub)),
    ).insert("Hostinfo"@, hostinfo_of(cfg)).insert("Endpoints"@, none).insert(
        "Capabilities"@,
        none,
    ).insert("DeviceName"@, Json::Str(cfg.device_name@)).insert("Ephemeral"@, Json::Bool(false));
    Json::Obj(
        if auth_key.len() > 0 {
            base.insert(
                "Auth"@,
                Json::Obj(Map::empty().insert("AuthKey"@, Json::Str(auth_key))),
            )
        } else {
            base
        },
    )
}

/// Routes are advertised if and only if some are configured or the node is an exit node.
pub proof fn law_routes_advertised(cfg: Config)
    ensures
        member(hostinfo_of(cfg), "RoutableIPs"@) == if cfg.subnet_routes@.len() > 0
            || cfg.advertise_exit_node {
            Some(Json::Arr(routes_of(cfg)))
        } else {
            None
        },
{
    reveal_strlit("RoutableIPs");
    reveal_strlit("RequestTags");
    reveal_strlit("Hostname");
    reveal_strlit("OS");
    reveal_strlit("OSVersion");
    reveal_strlit("GoArch");
    reveal_strlit("NetInfo");
    reveal_strlit("InheritTailscaleNetfilter");
    let name = "RoutableIPs"@;
    assert(name[1] != "RequestTags"@[1]);
    assert(name != "RequestTags"@);
    assert(name.len() == 11 && "Hostname"@.len() == 8 && "OS"@.len() == 2 && "OSVersion"@.len() == 9
        && "GoArch"@.len() == 6 && "NetInfo"@.len() == 7 && "InheritTailscaleNetfilter"@.len()
        == 25);
}

/// A registration carries a pre-auth key if and only if there is one.
pub proof fn law_auth_key_sent(
    cfg: Config,
    node_pub: Seq<u8>,
    machine_pub: Seq<u8>,
    disco_pub: Seq<u8>,
    auth_key: Seq<char>,
)
    ensures
        member(
            register_request_of(cfg, node_pub, machine_pub, disco_pub, auth_key),
            "Auth"@,
        ) == if auth_key.len() > 0 {
            Some(Json::Obj(Map::empty().insert("AuthKey"@, Json::Str(auth_key))))
        } else {
            None
        },
{
    reveal_strlit("Auth");
    reveal_strlit("Version");
    reveal_strlit("NodeKey");
    reveal_strlit("MachineKey");
    reveal_strlit("DiscoKey");
    reveal_strlit("Hostinfo");
    reveal_strlit("Endpoints");
    reveal_strlit("Capabilities");
    reveal_strlit("DeviceName");
    reveal_strlit("Ephemeral");
    assert("Auth"@.len() == 4 && "Version"@.len() == 7 && "NodeKey"@.len() == 7
        && "MachineKey"@.len() == 10 && "DiscoKey"@.len() == 8 && "Hostinfo"@.len() == 8
        && "Endpoints"@.len() == 9 && "Capabilities"@.len() == 12 && "DeviceName"@.len() == 10
        && "Ephemeral"@.len() == 9);
}

/// The body of a map request.
pub open spec fn map_body(
    cfg: Config,
    keys: NodeKeys,
    stream: bool,
    omit_peers: bool,
    keep_alive: bool,
    endpoints: Seq<String>,
) -> Seq<u8> {
    encode_utf8(
        json_text(
            map_request_of(
                cfg,
                keys.node.public@,
                keys.disco.public@,
                stream,
                omit_peers,
                keep_alive,
                endpoints,
            ),
        ),
    )
}

/// The body of a registration request.
pub open spec fn register_body(cfg: Config, keys: NodeKeys, auth_key: Seq<char>) -> Seq<u8> {
    encode_utf8(
        json_text(
            register_request_of(
                cfg,
                keys.node.public@,
                keys.machine.public@,
                keys.disco.public@,
                auth_key,
            ),
        ),
    )
}

/// A key in hexadecimal with its type in front.
fn key_text(prefix: &[u8], key: &[u8; 32]) -> (r: String)
    requires
        all_ascii(prefix@),
    ensures
        r@ == typed_key(prefix@, key@),
{
    let mut v = copy(prefix);
    push_hex(&mut v, key.as_slice());
    let r = ascii_string(v);
    proof {
        encode_utf8_decode_utf8(r@);
    }
    r
}

/// Appends texts as JSON.
fn push_strings(out: &mut Vec<serde_json::Value>, v: &Vec<String>)
    ensures
        trees(final(out)@) == trees(old(out)@) + v@.map_values(|s: String| Json::Str(s@)),
{
    let ghost want = v@.map_values(|s: String| Json::Str(s@));
    let mut i: usize = 0;
    assert(trees(out@) =~= trees(old(out)@) + want.subrange(0, 0));
    while i < v.len()
        invariant
            i <= v@.len(),
            want == v@.map_values(|s: String| Json::Str(s@)),
            trees(out@) == trees(old(out)@) + want.subrange(0, i as int),
        decreases v@.len() - i,
    {
        let ghost was = trees(out@);
        let x = of_str(v[i].as_str());
        out.push(x);
        assert(tree(x) == want[i as int]);
        assert(trees(out@) =~= was.push(tree(x)));
        assert(trees(out@) =~= trees(old(out)@) + want.subrange(0, i + 1));
        i = i + 1;
    }
    assert(want.subrange(0, i as int) =~= want);
}

/// A list of texts as JSON.
fn string_list(v: &Vec<String>) -> (r: serde_json::Value)
    ensures
        tree(r) == strings(v@),
{
    let mut out: Vec<serde_json::Value> = Vec::new();
    push_strings(&mut out, v);
    assert(trees(out@) =~= v@.map_values(|s: String| Json::Str(s@)));
    of_vec(out)
}

/// The empty list.
fn empty_list() -> (r: serde_json::Value)
    ensures
        tree(r) == Json::Arr(Seq::<Json>::empty()),
{
    let out: Vec<serde_json::Value> = Vec::new();
    assert(trees(out@) =~= Seq::empty());
    of_vec(out)
}

/// What the node says of its host.
fn build_hostinfo(cfg: &Config) -> (r: serde_json::Value)
    ensures
        tree(r) == hostinfo_of(*cfg),
{
    let mut net = object();
    put(&mut net, "MappingVariesByDestIP", of_bool(false));
    put(&mut net, "HairPinning", of_bool(false));
    put(&mut net, "WorkingIPv4", of_bool(true));
    put(&mut net, "WorkingIPv6", of_bool(false));
    put(&mut net, "PreferredDERP", of_number(1));
    put(&mut net, "LinkType", of_str("wired"));
    let mut hi = object();
    put(&mut hi, "Hostname", of_str(cfg.hostname.as_str()));
    put(&mut hi, "OS", of_str(cfg.os_name.as_str()));
    put(&mut hi, "OSVersion", of_str(cfg.os_version.as_str()));
    put(&mut hi, "GoArch", of_str(cfg.go_arch.as_str()));
    put(&mut hi, "NetInfo", net);
    put(&mut hi, "InheritTailscaleNetfilter", of_bool(false));
    if cfg.advertise_tags.len() > 0 {
        put(&mut hi, "RequestTags", string_list(&cfg.advertise_tags));
    }
    let mut routes: Vec<serde_json::Value> = Vec::new();
    push_strings(&mut routes, &cfg.subnet_routes);
    if cfg.advertise_exit_node {
        routes.push(of_str("0.0.0.0/0"));
        routes.push(of_str("::/0"));
    }
    assert(trees(routes@) =~= routes_of(*cfg));
    if routes.len() > 0 {
        put(&mut hi, "RoutableIPs", of_vec(routes));
    }
    hi
}

/// The text of what the node says of its host.
pub fn build_hostinfo_json(cfg: &Config) -> (r: String)
    ensures
        r@ == json_text(hostinfo_of(*cfg)),
{
    let hi = build_hostinfo(cfg);
    render(&hi)
}

/// The text of a map request.
pub fn build_map_json(
    cfg: &Config,
    keys: &NodeKeys,
    stream: bool,
    omit_peers: bool,
    keep_alive: bool,
    endpoints: &Vec<String>,
) -> (r: String)
    ensures
        encode_utf8(r@) == map_body(*cfg, *keys, stream, omit_peers, keep_alive, endpoints@),
{
    let node: [u8; 8] = [110u8, 111, 100, 101, 107, 101, 121, 58];
    let disco: [u8; 9] = [100u8, 105, 115, 99, 111, 107, 101, 121, 58];
    assert(node@ =~= nodekey());
    assert(disco@ =~= discokey());
    let node_text = key_text(node.as_slice(), &keys.node.public);
    let disco_text = key_text(disco.as_slice(), &keys.disco.public);
    let mut v = object();
    put(&mut v, "Version", of_number(cfg.capability_version));
    put(&mut v, "NodeKey", of_str(node_text.as_str()));
    put(&mut v, "DiscoKey", of_str(disco_text.as_str()));
    put(&mut v, "Endpoints", string_list(endpoints));
    put(&mut v, "Hostinfo", build_hostinfo(cfg));
    put(&mut v, "Stream", of_bool(stream));
    put(&mut v, "KeepAlive", of_bool(keep_alive));
    put(&mut v, "ReadOnly", of_bool(false));
    put(&mut v, "OmitPeers", of_bool(omit_peers));
    put(&mut v, "Compress", of_str(""));
    render(&v)
}

/// The text of a registration request.
pub fn build_register_json(cfg: &Config, keys: &NodeKeys, auth_key: &str) -> (r: String)
    ensures
        encode_utf8(r@) == register_body(*cfg, *keys, auth_key@),
{
    let node: [u8; 8] = [110u8, 111, 100, 101, 107, 101, 121, 58];
    let disco: [u8; 9] = [100u8, 105, 115, 99, 111, 107, 101, 121, 58];
    let machine: [u8; 5] = [109u8, 107, 101, 121, 58];
    assert(node@ =~= nodekey());
    assert(disco@ =~= discokey());
    assert(machine@ =~= mkey());
    let node_text = key_text(node.as_slice(), &keys.node.public);
    let machine_text = key_text(machine.as_slice(), &keys.machine.public);
    let disco_text = key_text(disco.as_slice(), &keys.disco.public);
    let mut v = object();
    put(&mut v, "Version", of_number(cfg.capability_version));
    put(&mut v, "NodeKey", of_str(node_text.as_str()));
    put(&mut v, "MachineKey", of_str(machine_text.as_str()));
    put(&mut v, "DiscoKey", of_str(disco_text.as_str()));
    put(&mut v, "Hostinfo", build_hostinfo(cfg));
    put(&mut v, "Endpoints", empty_list());
    put(&mut v, "Capabilities", empty_list());
    put(&mut v, "DeviceName", of_str(cfg.device_name.as_str()));
    put(&mut v, "Ephemeral", of_bool(false));
    if auth_key.unicode_len() > 0 {
        let mut auth = object();
        put(&mut auth, "AuthKey", of_str(auth_key));
        put(&mut v, "Auth", auth);
    }
    render(&v)
}

// --- responses ---

/// Whether a registration response says that the machine is authorized.
pub open spec fn authorized_in(j: Json) -> bool {
    member(j, "MachineAuthorized"@) == Some(Json::Bool(true))
}

/// The login address in a registration response, if there is one that is not empty.
pub open spec fn auth_url_in(j: Json) -> Option<Seq<char>> {
    match member(j, "AuthURL"@) {
        Some(Json::Str(s)) => if s.len() > 0 {
            Some(s)
        } else {
            None
        },
        _ => None,
    }
}

/// The tree of a response; what is no JSON counts as null.
pub open spec fn response_tree(resp: Seq<u8>) -> Json {
    match json_parse(resp) {
        Some(j) => j,
        None => Json::Null,
    }
}

/// Whether `res` is what a registration response of this status and body says.
pub open spec fn is_registered(res: RegisterResult, status: u16, resp: Seq<u8>) -> bool {
    let j = response_tree(resp);
    &&& res.status == status
    &&& res.machine_authorized == authorized_in(j)
    &&& match res.auth_url {
        Some(s) => auth_url_in(j) == Some(s@),
        None => auth_url_in(j) is None,
    }
    &&& res.raw@ == lossy_text(resp)
}

/// Reads authorization and login address from a registration response.
pub fn register_fields(v: &serde_json::Value) -> (r: (bool, Option<String>))
    ensures
        r.0 == authorized_in(tree(*v)),
        match r.1 {
            Some(s) => auth_url_in(tree(*v)) == Some(s@),
            None => auth_url_in(tree(*v)) is None,
        },
{
    let authorized: bool = match get(v, "MachineAuthorized") {
        Some(x) => match as_bool(x) {
            Some(b) => b,
            None => false,
        },
        None => false,
    };
    let url: Option<String> = match get(v, "AuthURL") {
        Some(x) => match as_str(x) {
            Some(s) => if s.unicode_len() > 0 {
                Some(s.to_owned())
            } else {
                None
            },
            None => None,
        },
        None => None,
    };
    (authorized, url)
}

/// Reads a registration response.
pub fn parse_register(status: u16, resp: &[u8]) -> (r: RegisterResult)
    ensures
        is_registered(r, status, resp@),
{
    let raw = from_utf8_lossy(resp);
    let (machine_authorized, auth_url) = match parse(resp) {
        Some(v) => register_fields(&v),
        None => (false, None),
    };
    RegisterResult { status, machine_authorized, auth_url, raw }
}

/// Whether `c` ends an address: a slash or a quote.
pub open spec fn ends_ip(c: u8) -> bool {
    c == 47 || c == 34
}

/// The length of the address at the beginning of `s`.
pub open spec fn ip_len(s: Seq<u8>) -> int
    decreases s.len(),
{
    if s.len() == 0 || ends_ip(s[0]) {
        0
    } else {
        1 + ip_len(rest(s, 1))
    }
}

/// Whether `s` looks like a dotted address: digits and dots, and at least seven of them.
pub open spec fn looks_like_ip(s: Seq<u8>) -> bool {
    s.len() >= 7 && forall|k: int|
        0 <= k < s.len() ==> (48 <= #[trigger] s[k] <= 57 || s[k] == 46)
}

/// The text of the address whose mark stands at `pos`.
pub open spec fn ip_text_at(raw: Seq<u8>, pos: int) -> Seq<u8> {
    let s = rest(raw, pos + 1);
    s.subrange(0, ip_len(s))
}

/// Where the node's own address stands in a map response, if it stands there.
pub open spec fn own_pos(raw: Seq<u8>) -> int {
    choose|pos: int| first_own(raw, pos)
}

/// The node's own address in a map response: the first text that begins with "100." in the
/// `Addresses` list of the `Node` member, up to a slash, if it looks like an address.
pub open spec fn scan_of(raw: Seq<u8>) -> Option<Seq<u8>> {
    if forall|i: int| !#[trigger] own_at(raw, i) {
        None
    } else if looks_like_ip(ip_text_at(raw, own_pos(raw))) {
        Some(ip_text_at(raw, own_pos(raw)))
    } else {
        None
    }
}

/// The node's own address in the beginning of a map response, of which more may come: an
/// address counts where its end has come, a slash or a quote.
pub open spec fn whole_scan_of(raw: Seq<u8>) -> Option<Seq<u8>> {
    if scan_of(raw) is Some && own_pos(raw) + 1 + (scan_of(raw)->0).len() < raw.len() {
        scan_of(raw)
    } else {
        None
    }
}

/// What an optional text holds.
pub open spec fn opt_bytes(s: Option<String>) -> Option<Seq<u8>> {
    match s {
        Some(s) => Some(encode_utf8(s@)),
        None => None,
    }
}

/// Where the address at the beginning of `s` ends, seen from a later place in it.
proof fn lemma_ip_len(s: Seq<u8>, n: int)
    requires
        0 <= n <= s.len(),
        forall|k: int| 0 <= k < n ==> !ends_ip(#[trigger] s[k]),
        n == s.len() || ends_ip(s[n]),
    ensures
        ip_len(s) == n,
    decreases s.len(),
{
    if s.len() > 0 && n > 0 {
        assert(!ends_ip(s[0]));
        let t = rest(s, 1);
        assert forall|k: int| 0 <= k < n - 1 implies !ends_ip(#[trigger] t[k]) by {
            assert(!ends_ip(s[k + 1]));
        }
        lemma_ip_len(t, n - 1);
    }
}

/// Finds the node's own Tailscale address in the raw bytes of a map response, which may be
/// too large to parse.
pub fn scan_tailscale_ip(raw: &[u8]) -> (r: Option<String>)
    ensures
        opt_bytes(r) == scan_of(raw@),
{
    match scan(raw) {
        Some((ip, _)) => Some(ip),
        None => None,
    }
}

/// Finds the node's own Tailscale address in the beginning of a map response, once the whole
/// address has come.
pub fn scan_whole_ip(raw: &[u8]) -> (r: Option<String>)
    ensures
        opt_bytes(r) == whole_scan_of(raw@),
{
    match scan(raw) {
        Some((ip, true)) => Some(ip),
        _ => None,
    }
}

/// Finds the node's own address, and whether something follows it.
fn scan(raw: &[u8]) -> (r: Option<(String, bool)>)
    ensures
        match r {
            Some(p) => scan_of(raw@) == Some(encode_utf8(p.0@)) && p.1 == (own_pos(raw@) + 1
                + encode_utf8(p.0@).len() < raw@.len()),
            None => scan_of(raw@) is None,
        },
{
    let pos: usize = match find_own(raw) {
        Some(p) => p,
        None => {
            return None;
        },
    };
    proof {
        assert(own_at(raw@, pos as int));
        lemma_first_own_unique(raw@, pos as int, own_pos(raw@));
    }
    let n: usize = raw.len();
    let start: usize = pos + 1;
    let ghost s = rest(raw@, start as int);
    let mut end: usize = start;
    while end < n && raw[end] != 47 && raw[end] != 34
        invariant
            start <= end <= n,
            n == raw@.len(),
            s == rest(raw@, start as int),
            forall|k: int| 0 <= k < end - start ==> !ends_ip(#[trigger] s[k]),
        decreases n - end,
    {
        assert(s[end - start] == raw@[end as int]);
        end = end + 1;
    }
    proof {
        if end < n {
            assert(s[end - start] == raw@[end as int]);
        }
        lemma_ip_len(s, end - start);
    }
    let text = copy_range(raw, start, end);
    assert(text@ =~= ip_text_at(raw@, pos as int));
    let ghost want = if looks_like_ip(text@) {
        Some(text@)
    } else {
        None
    };
    assert(scan_of(raw@) == want);
    let mut i: usize = 0;
    while i < text.len()
        invariant
            i <= text@.len(),
            scan_of(raw@) == want,
            text@.len() == end - pos - 1,
            want == if looks_like_ip(text@) {
                Some(text@)
            } else {
                None
            },
            forall|k: int| 0 <= k < i ==> (48 <= #[trigger] text@[k] <= 57 || text@[k] == 46),
        decreases text@.len() - i,
    {
        let c: u8 = text[i];
        if !((c >= 48 && c <= 57) || c == 46) {
            assert(!looks_like_ip(text@));
            return None;
        }
        i = i + 1;
    }
    if text.len() < 7 {
        return None;
    }
    Some((ascii_string(text), end < n))
}

/// The address that comes out is the node's own: where a message opens its `Node` member and
/// that one's `Addresses` list with the text `ip`, the result is `ip`, whatever stands before
/// (as long as it did not open such a list with such a text itself) and after.
pub proof fn law_scan_own_address(raw: Seq<u8>, n: int, ip: Seq<u8>)
    requires
        0 <= n,
        in_message(place_at(raw, n)),
        forall|j: int| 0 <= j < n ==> !#[trigger] own_at(raw, j),
        occurs_at(raw, opening() + ip, n),
        n + opening().len() + ip.len() < raw.len(),
        ends_ip(raw[n + opening().len() + ip.len()]),
        looks_like_ip(ip),
        starts(ip, seq![49u8, 48, 48, 46]),
    ensures
        scan_of(raw) == Some(ip),
        whole_scan_of(raw) == Some(ip),
{
    let all = opening() + ip;
    let q = n + opening().len() - 1;
    let w = raw.subrange(n, n + all.len());
    assert(w.subrange(0, opening().len() as int) =~= opening());
    assert(raw.subrange(n, n + opening().len()) =~= opening());
    assert forall|k: int| 0 <= k < 4 implies raw[q + 1 + k] == seq![49u8, 48, 48, 46][k] by {
        assert(w[opening().len() + k] == ip[k]);
        assert(ip.subrange(0, 4)[k] == ip[k]);
    }
    let from = n + opening().len();
    assert(raw.subrange(from, from + 4) =~= seq![49u8, 48, 48, 46]) by {
        assert forall|k: int| 0 <= k < 4 implies raw.subrange(from, from + 4)[k] == seq![
            49u8,
            48,
            48,
            46,
        ][k] by {
            assert(raw[q + 1 + k] == seq![49u8, 48, 48, 46][k]);
        }
    }
    lemma_opening(raw, n);
    assert(first_own(raw, q));
    let p = choose|p: int| first_own(raw, p);
    lemma_first_own_unique(raw, p, q);
    let t = rest(raw, q + 1);
    assert forall|k: int| 0 <= k < ip.len() implies !ends_ip(#[trigger] t[k]) by {
        assert(w[opening().len() + k] == ip[k]);
        assert(48 <= ip[k] <= 57 || ip[k] == 46);
    }
    lemma_ip_len(t, ip.len() as int);
    assert(ip_text_at(raw, q) =~= ip) by {
        assert forall|k: int| 0 <= k < ip.len() implies ip_text_at(raw, q)[k] == ip[k] by {
            assert(w[opening().len() + k] == ip[k]);
        }
    }
}

// --- the netmap ---

/// What the node takes from a whole map response.
pub struct Netmap {
    pub ip: Option<String>,
    pub peers: Vec<PeerInfo>,
    pub allowed: Option<Vec<Cidr>>,
}

/// Takes from a whole map response what the node needs: its own address, found in the raw
/// bytes, the peers, and what the packet filter allows to reach that address. The filter is
/// absent where it could not be read, and nothing is allowed or denied without an address.
pub fn read_netmap(resp: &[u8], map: &MapResp, filter: &Option<FilterResp>) -> (r: Netmap)
    ensures
        opt_bytes(r.ip) == scan_of(resp@),
        peer_states(r.peers@) == peers_of(list(map.peers)),
        match r.allowed {
            Some(v) => filter is Some && scan_of(resp@) is Some && filter_of(
                filter->0,
                scan_of(resp@)->0,
            ) == Some(v@),
            None => filter is None || scan_of(resp@) is None || filter_of(
                filter->0,
                scan_of(resp@)->0,
            ) is None,
        },
{
    let ip = scan_tailscale_ip(resp);
    let peers = parse_peers(map);
    let allowed: Option<Vec<Cidr>> = match (&ip, filter) {
        (Some(our), Some(f)) => parse_allowed_srcs(f, our.as_str()),
        _ => None,
    };
    Netmap { ip, peers, allowed }
}

// --- the control key ---

/// Why a key text was refused.
#[derive(Clone, Copy, Debug, PartialEq, Eq, Structural)]
pub enum KeyError {
    /// The response is no JSON.
    NotJson,
    /// There is no key in it.
    Missing,
    /// The key has another number of digits.
    Length(usize),
    /// A character is no hexadecimal digit.
    BadChar(u8),
}

/// The first character that is no hexadecimal digit.
pub open spec fn bad_char(s: Seq<u8>) -> Option<u8>
    decreases s.len(),
{
    if s.len() == 0 {
        None
    } else if hex_digit(s[0]) is None {
        Some(s[0])
    } else {
        bad_char(rest(s, 1))
    }
}

/// The 32 bytes of 64 hexadecimal digits.
pub open spec fn key_of(s: Seq<u8>) -> Result<Seq<u8>, KeyError> {
    if s.len() != 64 {
        Err(KeyError::Length(s.len() as usize))
    } else {
        match hex_bytes(s) {
            Some(k) => Ok(k),
            None => Err(KeyError::BadChar(bad_char(s)->0)),
        }
    }
}

/// What the result of reading a key holds.
pub open spec fn key_view(r: Result<[u8; 32], KeyError>) -> Result<Seq<u8>, KeyError> {
    match r {
        Ok(k) => Ok(k@),
        Err(e) => Err(e),
    }
}

/// Decodes the digits of a key.
pub fn decode_key(s: &[u8]) -> (r: Result<[u8; 32], KeyError>)
    ensures
        key_view(r) == key_of(s@),
{
    if s.len() != 64 {
        return Err(KeyError::Length(s.len()));
    }
    let mut i: usize = 0;
    assert(rest(s@, 0) =~= s@);
    while i < s.len()
        invariant
            i <= s@.len(),
            s@.len() == 64,
            bad_char(rest(s@, i as int)) == bad_char(s@),
            forall|k: int| 0 <= k < i ==> hex_digit(#[trigger] s@[k]) is Some,
        decreases s@.len() - i,
    {
        let ghost left = rest(s@, i as int);
        assert(left[0] == s@[i as int]);
        if hex_val(s[i]).is_none() {
            assert(hex_digit(s@[i as int]) is None);
            return Err(KeyError::BadChar(s[i]));
        }
        assert(rest(left, 1) =~= rest(s@, i + 1));
        i = i + 1;
    }
    Ok(hex_decode_64(s).unwrap())
}

/// Decodes 64 hexadecimal digits, with white space around them or not.
pub fn hex_decode_32(s: &str) -> (r: Result<[u8; 32], KeyError>)
    ensures
        key_view(r) == key_of(encode_utf8(trimmed(s@))),
{
    let t = trim(s);
    decode_key(t.as_str().as_bytes())
}

/// The digits of a machine key, whose type may stand in front.
pub open spec fn without_mkey(s: Seq<u8>) -> Seq<u8> {
    if starts(s, mkey()) {
        rest(s, 5)
    } else {
        s
    }
}

/// The text of the server's key in its answer.
pub open spec fn key_text_in(body: Seq<u8>) -> Result<Seq<char>, KeyError> {
    match json_parse(body) {
        None => Err(KeyError::NotJson),
        Some(j) => match member(j, "publicKey"@) {
            Some(Json::Str(s)) => Ok(s),
            _ => Err(KeyError::Missing),
        },
    }
}

/// The text of a key without its type in front.
pub open spec fn bare_key(s: Seq<char>) -> Seq<char> {
    decode_utf8(without_mkey(encode_utf8(s)))
}

/// The text of a key without its type in front.
fn strip_mkey(s: &str) -> (r: String)
    ensures
        r@ == bare_key(s@),
{
    let pre: [u8; 5] = [109u8, 107, 101, 121, 58];
    assert(pre@ =~= mkey());
    let r = if starts_with(s.as_bytes(), pre.as_slice()) {
        proof {
            let b = encode_utf8(s@);
            assert(b.subrange(0, 5)[4] == b[4]);
        }
        suffix_string(s, 5)
    } else {
        s.to_owned()
    };
    proof {
        encode_utf8_decode_utf8(r@);
    }
    r
}

/// What the server's answer to the key request says.
pub open spec fn control_key_in(body: Seq<u8>) -> Result<Seq<u8>, KeyError> {
    match key_text_in(body) {
        Err(e) => Err(e),
        Ok(s) => key_of(encode_utf8(trimmed(bare_key(s)))),
    }
}

/// Reads a key whose type may stand in front.
pub fn parse_mkey(s: &str) -> (r: Result<[u8; 32], KeyError>)
    ensures
        key_view(r) == key_of(encode_utf8(trimmed(bare_key(s@)))),
{
    let bare = strip_mkey(s);
    hex_decode_32(bare.as_str())
}

/// Reads the server's Noise public key from its answer to the key request.
pub fn parse_control_key(body: &[u8]) -> (r: Result<[u8; 32], KeyError>)
    ensures
        key_view(r) == control_key_in(body@),
{
    let v = match parse(body) {
        Some(v) => v,
        None => {
            return Err(KeyError::NotJson);
        },
    };
    match get(&v, "publicKey") {
        Some(x) => match as_str(x) {
            Some(s) => parse_mkey(s),
            None => Err(KeyError::Missing),
        },
        None => Err(KeyError::Missing),
    }
}

// --- the channel ---

/// How the handshake ends, given what the server sends next.
pub open spec fn handshake_end(hs: snow::HandshakeState, s: Seq<u8>) -> Result<
    TransportState,
    NoiseError,
> {
    match noise_read(hs, frame_payload(s)) {
        None => Err(NoiseError::Response),
        Some(h) => Ok(TransportState::fresh(noise_split(h).0, noise_split(h).1)),
    }
}

/// Whether the handshake `hs` ends on `conn` with the connection `c` and the transport `tr`.
pub open spec fn finished<S: ByteStream>(
    hs: snow::HandshakeState,
    conn: Conn<S>,
    c: Conn<S>,
    tr: Transport,
) -> bool {
    let s = conn.pending();
    &&& has_frame(s)
    &&& s[0] == MSG_RESPONSE
    &&& handshake_end(hs, s) == Ok::<TransportState, NoiseError>(tr@)
    &&& c.pending() == rest(s, 3 + frame_len(s))
    &&& c.stream.sent() == conn.stream.sent()
    &&& read_on(conn.stream.history(), c.stream.history())
    &&& conn.stream.reliable() ==> c.stream.reliable()
}

/// Whether the handshake `hs` may fail on `conn` with `e`.
pub open spec fn finish_failed<S: ByteStream>(
    hs: snow::HandshakeState,
    conn: Conn<S>,
    e: ControlError,
) -> bool {
    let s = conn.pending();
    match e {
        ControlError::Noise(e) => {
            &&& has_frame(s)
            &&& s[0] == MSG_RESPONSE
            &&& handshake_end(hs, s) == Err::<TransportState, NoiseError>(e)
        },
        ControlError::Server(b) => has_frame(s) && s[0] == MSG_ERROR && b@ == frame_payload(s),
        ControlError::Unexpected(t) => has_frame(s) && t == s[0] && t != MSG_RESPONSE && t
            != MSG_ERROR,
        ControlError::Conn(ConnError::Read(ReadError::Closed)) => !has_frame(s),
        ControlError::Conn(ConnError::Read(ReadError::Failed)) => !conn.stream.reliable(),
        _ => false,
    }
}

/// Reads the server's answer to the handshake and derives the transport.
pub fn finish_handshake<S: ByteStream>(hs: Handshake, conn: Conn<S>) -> (r: Result<
    (Conn<S>, Transport),
    ControlError,
>)
    ensures
        match r {
            Ok(p) => finished(hs.state(), conn, p.0, p.1),
            Err(e) => finish_failed(hs.state(), conn, e),
        },
{
    let mut c = conn;
    let (typ, payload) = match c.read_frame() {
        Ok(f) => f,
        Err(e) => {
            return Err(ControlError::Conn(e));
        },
    };
    if typ == MSG_ERROR {
        return Err(ControlError::Server(payload));
    }
    if typ != MSG_RESPONSE {
        return Err(ControlError::Unexpected(typ));
    }
    match hs.complete(payload.as_slice()) {
        Ok(tr) => Ok((c, tr)),
        Err(e) => Err(ControlError::Noise(e)),
    }
}

/// Whether `stream` is a fresh connection that `connector` opened to the control server.
pub open spec fn dialled<C: Connector>(connector: &C, cfg: Config, stream: C::Stream) -> bool {
    &&& connector.may_open(cfg.control_host@, cfg.ts2021_port, false, Some(stream))
    &&& untouched(stream)
}

/// Whether `hs` is a handshake between these two keys that has sent its first message.
pub open spec fn begun(
    hs: snow::HandshakeState,
    machine_priv: Seq<u8>,
    control_pub: Seq<u8>,
) -> bool {
    &&& noise_messages(hs) == 1
    &&& noise_setup(hs) == (NoiseSetup {
        pattern: pattern(),
        prologue: prologue(),
        private: machine_priv,
        public: control_pub,
    })
}

/// Whether `conn` is a fresh connection to the control server after its upgrade, and `hs` the
/// handshake whose first message, framed, was the header of the upgrade request.
pub open spec fn upgraded<C: Connector>(
    connector: &C,
    cfg: Config,
    machine_priv: Seq<u8>,
    control_pub: Seq<u8>,
    hs: snow::HandshakeState,
    conn: Conn<C::Stream>,
) -> bool {
    &&& begun(hs, machine_priv, control_pub)
    &&& exists|stream: C::Stream, header: Seq<char>|
        dialled(connector, cfg, stream) && #[trigger] upgrade_done(
            stream,
            cfg.control_host@,
            header,
            conn,
        ) && encode_utf8(header) == b64_of(initiation_frame(noise_written(hs)))
}

/// Whether `conn` and `tr` are what the handshake with the control server gives: its
/// response came in on a fresh, upgraded connection.
pub open spec fn shaken<C: Connector>(
    connector: &C,
    cfg: Config,
    machine_priv: Seq<u8>,
    control_pub: Seq<u8>,
    conn: Conn<C::Stream>,
    tr: Transport,
) -> bool {
    exists|hs: snow::HandshakeState, before: Conn<C::Stream>|
        #[trigger] upgraded(connector, cfg, machine_priv, control_pub, hs, before)
            && #[trigger] finished(hs, before, conn, tr)
}

/// Whether the handshake with the control server may fail with `e`: there was no entropy for
/// its first message, the connection could not be opened or upgraded, or the server's
/// answer was no response that the handshake accepts.
pub open spec fn handshake_failed<C: Connector>(
    connector: &C,
    cfg: Config,
    machine_priv: Seq<u8>,
    control_pub: Seq<u8>,
    e: ControlError,
) -> bool {
    ||| e == ControlError::Noise(NoiseError::Write)
    ||| e is Connect && connector.may_open(cfg.control_host@, cfg.ts2021_port, false, None)
    ||| e matches ControlError::Conn(c) && exists|stream: C::Stream|
        dialled(connector, cfg, stream) && #[trigger] upgrade_failed(stream, c)
    ||| exists|hs: snow::HandshakeState, conn: Conn<C::Stream>|
        #[trigger] upgraded(connector, cfg, machine_priv, control_pub, hs, conn)
            && #[trigger] finish_failed(hs, conn, e)
}

/// Performs the ts2021 handshake over a fresh connection: the connection, and the
/// transport that the handshake gave. Connection, server and entropy decide whether that
/// works.
pub fn handshake<C: Connector>(
    connector: &C,
    cfg: &Config,
    machine_priv: &[u8; 32],
    control_pub: &[u8; 32],
) -> (r: Result<(Conn<C::Stream>, Transport), ControlError>)
    ensures
        match r {
            Ok(p) => shaken(connector, *cfg, machine_priv@, control_pub@, p.0, p.1),
            Err(e) => handshake_failed(connector, *cfg, machine_priv@, control_pub@, e),
        },
        r matches Ok(p) ==> p.1.tx_nonce == 0 && p.1.rx_nonce == 0,
        r matches Err(e) ==> !(e is Session),
{
    let (hs, framed) = match start(machine_priv, control_pub) {
        Ok(p) => p,
        Err(e) => {
            return Err(ControlError::Noise(e));
        },
    };
    let header = base64_std(framed.as_slice());
    let stream = match connector.connect_tcp(cfg.control_host.as_str(), cfg.ts2021_port) {
        Ok(s) => s,
        Err(()) => {
            return Err(ControlError::Connect);
        },
    };
    let conn = match connect_and_upgrade(stream, cfg.control_host.as_str(), header.as_str()) {
        Ok(c) => c,
        Err(e) => {
            return Err(ControlError::Conn(e));
        },
    };
    proof {
        assert(encode_utf8(header@) == b64_of(framed@));
        assert(dialled(connector, *cfg, stream));
        assert(upgraded(connector, *cfg, machine_priv@, control_pub@, hs.state(), conn));
    }
    finish_handshake(hs, conn)
}

/// Whether `sess` is a session that was just started on a fresh connection to the control
/// server, after the handshake, and `early` the early payload.
pub open spec fn connected<C: Connector>(
    connector: &C,
    cfg: Config,
    machine_priv: Seq<u8>,
    control_pub: Seq<u8>,
    sess: H2<C::Stream>,
    early: Option<Seq<u8>>,
) -> bool {
    exists|conn: Conn<C::Stream>, tr: Transport|
        #[trigger] shaken(connector, cfg, machine_priv, control_pub, conn, tr)
            && #[trigger] started(conn, tr, cfg.control_host@, sess, early)
}

/// Whether `sess` is a session that was just started on a fresh connection to the control
/// server, whatever the early payload was.
pub open spec fn fresh_session<C: Connector>(
    connector: &C,
    cfg: Config,
    machine_priv: Seq<u8>,
    control_pub: Seq<u8>,
    sess: H2<C::Stream>,
) -> bool {
    exists|early: Option<Seq<u8>>|
        #[trigger] connected(connector, cfg, machine_priv, control_pub, sess, early)
}

/// Whether opening the control channel may fail with `e`: in the handshake, or when the
/// session starts.
pub open spec fn connect_failed<C: Connector>(
    connector: &C,
    cfg: Config,
    machine_priv: Seq<u8>,
    control_pub: Seq<u8>,
    e: ControlError,
) -> bool {
    match e {
        ControlError::Session(h) => exists|conn: Conn<C::Stream>, tr: Transport|
            #[trigger] shaken(connector, cfg, machine_priv, control_pub, conn, tr)
                && #[trigger] start_failed(conn, tr, h),
        e => handshake_failed(connector, cfg, machine_priv, control_pub, e),
    }
}

/// Opens the control channel and starts HTTP/2 on it: the session, and the early payload.
pub fn connect<C: Connector>(
    connector: &C,
    cfg: &Config,
    machine_priv: &[u8; 32],
    control_pub: &[u8; 32],
) -> (r: Result<(H2<C::Stream>, Option<Vec<u8>>), ControlError>)
    ensures
        match r {
            Ok(p) => connected(
                connector,
                *cfg,
                machine_priv@,
                control_pub@,
                p.0,
                match p.1 {
                    Some(v) => Some(v@),
                    None => None,
                },
            ),
            Err(e) => connect_failed(connector, *cfg, machine_priv@, control_pub@, e),
        },
        r matches Ok(p) ==> p.0.next_stream == 1 && p.0.authority@ == cfg.control_host@,
{
    let (conn, tr) = match handshake(connector, cfg, machine_priv, control_pub) {
        Ok(p) => p,
        Err(e) => {
            return Err(e);
        },
    };
    match H2::start(conn, tr, cfg.control_host.clone()) {
        Ok(p) => Ok(p),
        Err(e) => Err(ControlError::Session(e)),
    }
}

/// Whether the request with `body` to `path` on `sess` may fail with `e`.
pub open spec fn request_failed<S: ByteStream>(
    sess: H2<S>,
    path: Seq<char>,
    body: Seq<u8>,
    e: H2Error,
) -> bool {
    match e {
        H2Error::Goaway(status) => sess.reply(path, body).0 == Answered::Goaway(status),
        e => io_failed(e) && (sess.reliable() && !tx_exhausted(e) ==> sess.reply(path, body).0
            is Short),
    }
}

/// Whether `sess` became `done` by one whole exchange: first of all the request with `body`
/// went out to `path`, and then the response to it was read, with this status and this
/// content.
pub open spec fn exchanged<S: ByteStream>(
    sess: H2<S>,
    done: H2<S>,
    path: Seq<char>,
    body: Seq<u8>,
    status: u16,
    raw: Seq<u8>,
) -> bool {
    let end = sess.reply(path, body);
    &&& done.out() == end.1
    &&& end.0 matches Answered::Done { status: st, body: b, after }
    &&& st == status
    &&& stripped(b) == raw
    &&& done.incoming() == after
    &&& wrote_first(sess.calls(), done.calls(), sess.request(path, body))
}

/// Whether one request with `body` to `path` went out on a fresh connection and was answered
/// with this status and this content.
#[verifier::opaque]
pub open spec fn exchange_done<C: Connector>(
    connector: &C,
    cfg: Config,
    machine_priv: Seq<u8>,
    control_pub: Seq<u8>,
    path: Seq<char>,
    body: Seq<u8>,
    status: u16,
    raw: Seq<u8>,
) -> bool {
    exists|sess: H2<C::Stream>, done: H2<C::Stream>|
        fresh_session(connector, cfg, machine_priv, control_pub, sess) && #[trigger] exchanged(
            sess,
            done,
            path,
            body,
            status,
            raw,
        )
}

/// One exchange on a fresh session is one on a fresh connection.
proof fn lemma_exchange_done<C: Connector>(
    connector: &C,
    cfg: Config,
    machine_priv: Seq<u8>,
    control_pub: Seq<u8>,
    sess: H2<C::Stream>,
    done: H2<C::Stream>,
    path: Seq<char>,
    body: Seq<u8>,
    status: u16,
    raw: Seq<u8>,
)
    requires
        fresh_session(connector, cfg, machine_priv, control_pub, sess),
        exchanged(sess, done, path, body, status, raw),
    ensures
        exchange_done(connector, cfg, machine_priv, control_pub, path, body, status, raw),
{
    reveal(exchange_done);
}

/// Whether one request with `body` to `path` on a fresh connection may fail with `e`.
pub open spec fn exchange_failed<C: Connector>(
    connector: &C,
    cfg: Config,
    machine_priv: Seq<u8>,
    control_pub: Seq<u8>,
    path: Seq<char>,
    body: Seq<u8>,
    e: ControlError,
) -> bool {
    ||| connect_failed(connector, cfg, machine_priv, control_pub, e)
    ||| e matches ControlError::Session(h) && exists|sess: H2<C::Stream>|
        fresh_session(connector, cfg, machine_priv, control_pub, sess)
            && #[trigger] request_failed(sess, path, body, h)
}

/// Registers the node, with a pre-auth key or without.
pub fn register<S: ByteStream>(sess: &mut H2<S>, cfg: &Config, keys: &NodeKeys, auth_key: &str) -> (r:
    Result<RegisterResult, H2Error>)
    requires
        old(sess).next_stream <= u32::MAX - 2,
    ensures
        final(sess).next_stream == old(sess).next_stream + 2,
        ({
            let body = register_body(*cfg, *keys, auth_key@);
            match r {
                Ok(res) => exists|raw: Seq<u8>|
                    #[trigger] exchanged(
                        *old(sess),
                        *final(sess),
                        "/machine/register"@,
                        register_body(*cfg, *keys, auth_key@),
                        res.status,
                        raw,
                    ) && is_registered(res, res.status, raw),
                Err(e) => request_failed(*old(sess), "/machine/register"@, body, e),
            }
        }),
{
    let body = build_register_json(cfg, keys, auth_key);
    match sess.post_json("/machine/register", body.as_str().as_bytes()) {
        Ok((status, resp)) => {
            let res = parse_register(status, resp.as_slice());
            assert(exchanged(
                *old(sess),
                *sess,
                "/machine/register"@,
                register_body(*cfg, *keys, auth_key@),
                status,
                resp@,
            ));
            Ok(res)
        },
        Err(e) => Err(e),
    }
}

/// One registration on a fresh connection.
pub fn connect_and_register<C: Connector>(
    connector: &C,
    cfg: &Config,
    machine_priv: &[u8; 32],
    control_pub: &[u8; 32],
    keys: &NodeKeys,
    auth_key: &str,
) -> (r: Result<RegisterResult, ControlError>)
    ensures
        match r {
            Ok(res) => exists|raw: Seq<u8>|
                #[trigger] exchange_done(
                    connector,
                    *cfg,
                    machine_priv@,
                    control_pub@,
                    "/machine/register"@,
                    register_body(*cfg, *keys, auth_key@),
                    res.status,
                    raw,
                ) && is_registered(res, res.status, raw),
            Err(e) => exchange_failed(
                connector,
                *cfg,
                machine_priv@,
                control_pub@,
                "/machine/register"@,
                register_body(*cfg, *keys, auth_key@),
                e,
            ),
        },
{
    let (mut sess, _) = match connect(connector, cfg, machine_priv, control_pub) {
        Ok(s) => s,
        Err(e) => {
            return Err(e);
        },
    };
    assert(fresh_session(connector, *cfg, machine_priv@, control_pub@, sess));
    let ghost before = sess;
    match register(&mut sess, cfg, keys, auth_key) {
        Ok(res) => {
            let ghost raw = choose|raw: Seq<u8>|
                #[trigger] exchanged(
                    before,
                    sess,
                    "/machine/register"@,
                    register_body(*cfg, *keys, auth_key@),
                    res.status,
                    raw,
                ) && is_registered(res, res.status, raw);
            proof {
                lemma_exchange_done(
                    connector,
                    *cfg,
                    machine_priv@,
                    control_pub@,
                    before,
                    sess,
                    "/machine/register"@,
                    register_body(*cfg, *keys, auth_key@),
                    res.status,
                    raw,
                );
            }
            Ok(res)
        },
        Err(e) => Err(ControlError::Session(e)),
    }
}

/// Asks for the netmap once: status and body.
pub fn request_map<S: ByteStream>(
    sess: &mut H2<S>,
    cfg: &Config,
    keys: &NodeKeys,
    omit_peers: bool,
    endpoints: &Vec<String>,
) -> (r: Result<(u16, Vec<u8>), H2Error>)
    requires
        old(sess).next_stream <= u32::MAX - 2,
    ensures
        final(sess).next_stream == old(sess).next_stream + 2,
        ({
            let body = map_body(*cfg, *keys, false, omit_peers, false, endpoints@);
            match r {
                Ok(p) => exchanged(
                    *old(sess),
                    *final(sess),
                    "/machine/map"@,
                    body,
                    p.0,
                    p.1@,
                ),
                Err(e) => request_failed(*old(sess), "/machine/map"@, body, e),
            }
        }),
{
    let body = build_map_json(cfg, keys, false, omit_peers, false, endpoints);
    sess.post_json("/machine/map", body.as_str().as_bytes())
}

/// Asks for the whole netmap once and finds the node's own address in it.
pub fn fetch_map<S: ByteStream>(sess: &mut H2<S>, cfg: &Config, keys: &NodeKeys) -> (r: Result<
    MapResult,
    H2Error,
>)
    requires
        old(sess).next_stream <= u32::MAX - 2,
    ensures
        final(sess).next_stream == old(sess).next_stream + 2,
        ({
            let body = map_body(*cfg, *keys, false, false, false, Seq::empty());
            let end = old(sess).reply("/machine/map"@, body);
            match r {
                Ok(m) => {
                    &&& end.0 matches Answered::Done { status, body: b, after }
                    &&& m.status == status
                    &&& opt_bytes(m.ip) == scan_of(stripped(b))
                    &&& m.body_len == stripped(b).len()
                    &&& final(sess).incoming() == after
                    &&& final(sess).out() == end.1
                },
                Err(e) => request_failed(*old(sess), "/machine/map"@, body, e),
            }
        }),
{
    let none: Vec<String> = Vec::new();
    assert(none@ =~= Seq::empty());
    match request_map(sess, cfg, keys, false, &none) {
        Ok((status, resp)) => {
            let ip = scan_tailscale_ip(resp.as_slice());
            Ok(MapResult { status, ip, body_len: resp.len() })
        },
        Err(e) => Err(e),
    }
}

/// Asks for the whole netmap on a fresh connection, advertising the node's endpoints: the
/// body of the answer, which `read_netmap` takes apart.
pub fn fetch_peers<C: Connector>(
    connector: &C,
    cfg: &Config,
    machine_priv: &[u8; 32],
    control_pub: &[u8; 32],
    keys: &NodeKeys,
    endpoints: &Vec<String>,
) -> (r: Result<Vec<u8>, ControlError>)
    ensures
        match r {
            Ok(raw) => exists|status: u16|
                #[trigger] exchange_done(
                    connector,
                    *cfg,
                    machine_priv@,
                    control_pub@,
                    "/machine/map"@,
                    map_body(*cfg, *keys, false, false, false, endpoints@),
                    status,
                    raw@,
                ),
            Err(e) => exchange_failed(
                connector,
                *cfg,
                machine_priv@,
                control_pub@,
                "/machine/map"@,
                map_body(*cfg, *keys, false, false, false, endpoints@),
                e,
            ),
        },
{
    let (mut sess, _) = match connect(connector, cfg, machine_priv, control_pub) {
        Ok(s) => s,
        Err(e) => {
            return Err(e);
        },
    };
    assert(fresh_session(connector, *cfg, machine_priv@, control_pub@, sess));
    let ghost before = sess;
    let (status, resp) = match request_map(&mut sess, cfg, keys, false, endpoints) {
        Ok(p) => p,
        Err(e) => {
            return Err(ControlError::Session(e));
        },
    };
    let r: Result<Vec<u8>, ControlError> = Ok(resp);
    proof {
        lemma_exchange_done(
            connector,
            *cfg,
            machine_priv@,
            control_pub@,
            before,
            sess,
            "/machine/map"@,
            map_body(*cfg, *keys, false, false, false, endpoints@),
            status,
            r->Ok_0@,
        );
    }
    r
}

/// Reports the node's endpoints on a fresh connection; the result is the status. The
/// request leaves the peers out, which makes it an endpoint update.
pub fn update_endpoints<C: Connector>(
    connector: &C,
    cfg: &Config,
    machine_priv: &[u8; 32],
    control_pub: &[u8; 32],
    keys: &NodeKeys,
    endpoints: &Vec<String>,
) -> (r: Result<u16, ControlError>)
    ensures
        match r {
            Ok(status) => exists|raw: Seq<u8>|
                #[trigger] exchange_done(
                    connector,
                    *cfg,
                    machine_priv@,
                    control_pub@,
                    "/machine/map"@,
                    map_body(*cfg, *keys, false, true, false, endpoints@),
                    status,
                    raw,
                ),
            Err(e) => exchange_failed(
                connector,
                *cfg,
                machine_priv@,
                control_pub@,
                "/machine/map"@,
                map_body(*cfg, *keys, false, true, false, endpoints@),
                e,
            ),
        },
{
    let (mut sess, _) = match connect(connector, cfg, machine_priv, control_pub) {
        Ok(s) => s,
        Err(e) => {
            return Err(e);
        },
    };
    assert(fresh_session(connector, *cfg, machine_priv@, control_pub@, sess));
    let ghost before = sess;
    let (status, resp) = match request_map(&mut sess, cfg, keys, true, endpoints) {
        Ok(p) => p,
        Err(e) => {
            return Err(ControlError::Session(e));
        },
    };
    let r: Result<u16, ControlError> = Ok(status);
    proof {
        lemma_exchange_done(
            connector,
            *cfg,
            machine_priv@,
            control_pub@,
            before,
            sess,
            "/machine/map"@,
            map_body(*cfg, *keys, false, true, false, endpoints@),
            r->Ok_0,
            resp@,
        );
    }
    r
}

/// How the search for the node's address in the first payloads of a stream ends, `got` being
/// those that came before: the address if it was found, what follows, and what went out; or
/// how the read ended with which a payload failed to come. A response may be spread over
/// payloads, so each is searched together with those before it, and an address that is cut
/// off at the end does not count yet.
pub open spec fn sought(
    got: Seq<u8>,
    s: Seq<u8>,
    stream_id: u32,
    key: Seq<u8>,
    out: Out,
    tries: nat,
) -> Result<(Option<Seq<u8>>, Seq<u8>, Out), Streamed>
    decreases tries,
{
    if tries == 0 {
        Ok((None, s, out))
    } else {
        match streamed(s, stream_id, key, out) {
            (Streamed::Data { payload, after }, o) => if whole_scan_of(got + payload) is Some {
                Ok((whole_scan_of(got + payload), after, o))
            } else {
                sought(got + payload, after, stream_id, key, o, (tries - 1) as nat)
            },
            (end, _) => Err(end),
        }
    }
}

/// The records that ask for the netmap as a stream on `sess`.
pub open spec fn stream_request<S: ByteStream>(
    sess: H2<S>,
    cfg: Config,
    keys: NodeKeys,
    endpoints: Seq<String>,
) -> Seq<u8> {
    sess.request("/machine/map"@, map_body(cfg, keys, true, true, true, endpoints))
}

/// How asking for the netmap as a stream on `sess` ends.
pub open spec fn stream_end<S: ByteStream>(
    sess: H2<S>,
    cfg: Config,
    keys: NodeKeys,
    endpoints: Seq<String>,
) -> Result<(Option<Seq<u8>>, Seq<u8>, Out), Streamed> {
    let body = map_body(cfg, keys, true, true, true, endpoints);
    let sid = sess.next_stream;
    let key = sess.tr.send_key@;
    let out = sess.out().push(key, post_of(sess.authority@, "/machine/map"@, sid, body));
    sought(Seq::empty(), sess.incoming(), sid, key, out, TRIES as nat)
}

/// Whether asking for the netmap as a stream on `sess` may fail with `e`.
pub open spec fn stream_failed<S: ByteStream>(
    sess: H2<S>,
    cfg: Config,
    keys: NodeKeys,
    endpoints: Seq<String>,
    e: H2Error,
) -> bool {
    let end = stream_end(sess, cfg, keys, endpoints);
    match e {
        H2Error::Goaway(_) => end matches Err(Streamed::Goaway),
        H2Error::StreamClosed => end matches Err(Streamed::StreamClosed),
        H2Error::HeadersClosed => end matches Err(Streamed::HeadersClosed),
        e => io_failed(e) && (sess.reliable() && !tx_exhausted(e) ==> end matches Err(
            Streamed::Short,
        )),
    }
}

/// Payloads in which the node's address is searched.
pub const TRIES: usize = 4;

/// Asks for the netmap as a stream on this session, and searches the first payloads for
/// the node's address: the stream and the address. No more than `TRIES` payloads are held,
/// however large the response is.
pub fn open_stream<S: ByteStream>(
    sess: &mut H2<S>,
    cfg: &Config,
    keys: &NodeKeys,
    endpoints: &Vec<String>,
) -> (r: Result<(u32, Option<String>), H2Error>)
    requires
        old(sess).next_stream <= u32::MAX - 2,
    ensures
        final(sess).next_stream == old(sess).next_stream + 2,
        final(sess).authority@ == old(sess).authority@,
        wrote_first(
            old(sess).calls(),
            final(sess).calls(),
            stream_request(*old(sess), *cfg, *keys, endpoints@),
        ) || (r is Err && write_on(old(sess).calls(), final(sess).calls())),
        match r {
            Ok(p) => p.0 == old(sess).next_stream && stream_end(
                *old(sess),
                *cfg,
                *keys,
                endpoints@,
            ) == Ok::<_, Streamed>((opt_bytes(p.1), final(sess).incoming(), final(sess).out())),
            Err(e) => stream_failed(*old(sess), *cfg, *keys, endpoints@, e),
        },
{
    let body = build_map_json(cfg, keys, true, true, true, endpoints);
    let ghost key = sess.tr.send_key@;
    let sid: u32 = match sess.post_stream("/machine/map", body.as_str().as_bytes()) {
        Ok(id) => id,
        Err(e) => {
            return Err(e);
        },
    };
    let ghost asked = sess.calls();
    assert(wrote_on(
        old(sess).calls(),
        asked,
        stream_request(*old(sess), *cfg, *keys, endpoints@),
    ));
    let mut got: Vec<u8> = Vec::new();
    let ghost end = sought(got@, sess.incoming(), sid, key, sess.out(), TRIES as nat);
    assert(got@ =~= Seq::empty());
    let mut left: usize = TRIES;
    while left > 0
        invariant
            left <= TRIES,
            key == old(sess).tr.send_key@,
            sess.tr.send_key@ == key,
            sid == old(sess).next_stream,
            sess.next_stream == old(sess).next_stream + 2,
            sess.authority@ == old(sess).authority@,
            old(sess).reliable() ==> sess.reliable(),
            follows(asked, sess.calls()),
            wrote_on(
                old(sess).calls(),
                asked,
                stream_request(*old(sess), *cfg, *keys, endpoints@),
            ),
            end == sought(got@, sess.incoming(), sid, key, sess.out(), left as nat),
            end == stream_end(*old(sess), *cfg, *keys, endpoints@),
        decreases left,
    {
        let chunk = match sess.read_data(sid) {
            Ok(c) => c,
            Err(e) => {
                return Err(e);
            },
        };
        append(&mut got, chunk.as_slice());
        let ip = scan_whole_ip(got.as_slice());
        if ip.is_some() {
            return Ok((sid, ip));
        }
        left = left - 1;
    }
    Ok((sid, None))
}

/// Opens the long poll for the netmap on a fresh connection: the session, its stream and
/// the node's address.
pub fn stream_map<C: Connector>(
    connector: &C,
    cfg: &Config,
    machine_priv: &[u8; 32],
    control_pub: &[u8; 32],
    keys: &NodeKeys,
    endpoints: &Vec<String>,
) -> (r: Result<(H2<C::Stream>, u32, Option<String>), ControlError>)
    ensures
        r matches Ok(p) ==> p.1 == 1 && p.0.next_stream == 3 && p.0.authority@
            == cfg.control_host@,
        match r {
            Ok(p) => exists|sess: H2<C::Stream>|
                fresh_session(connector, *cfg, machine_priv@, control_pub@, sess)
                    && #[trigger] stream_end(sess, *cfg, *keys, endpoints@) == Ok::<_, Streamed>(
                    (opt_bytes(p.2), p.0.incoming(), p.0.out()),
                ) && wrote_first(
                    sess.calls(),
                    p.0.calls(),
                    stream_request(sess, *cfg, *keys, endpoints@),
                ),
            Err(e) => {
                ||| connect_failed(connector, *cfg, machine_priv@, control_pub@, e)
                ||| e matches ControlError::Session(h) && exists|sess: H2<C::Stream>|
                    fresh_session(connector, *cfg, machine_priv@, control_pub@, sess)
                        && #[trigger] stream_failed(sess, *cfg, *keys, endpoints@, h)
            },
        },
{
    let (mut sess, _) = match connect(connector, cfg, machine_priv, control_pub) {
        Ok(s) => s,
        Err(e) => {
            return Err(e);
        },
    };
    assert(fresh_session(connector, *cfg, machine_priv@, control_pub@, sess));
    match open_stream(&mut sess, cfg, keys, endpoints) {
        Ok((sid, ip)) => Ok((sess, sid, ip)),
        Err(e) => Err(ControlError::Session(e)),
    }
}

} // verus!
