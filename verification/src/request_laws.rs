//! What the node says to the control server, member by member.
use vstd::prelude::*;
use vstd::utf8::{decode_utf8, encode_utf8};
use crate::control::{
    auth_url_in, authorized_in, hostinfo_of, map_body, map_request_of, register_body,
    register_request_of, response_tree, Config,
};
use crate::json::{json_parse, json_text, member, Json};
use crate::keys::NodeKeys;
use crate::text::hex_of;

verus! {

/// The sixteen lower-case digits.
pub open spec fn digit(n: int) -> u8 {
    if n < 10 {
        (48 + n) as u8
    } else {
        (97 + n - 10) as u8
    }
}

/// Two digits for each byte, the upper half first.
pub open spec fn digits(key: Seq<u8>) -> Seq<u8> {
    Seq::new(
        2 * key.len(),
        |i: int|
            if i % 2 == 0 {
                digit(key[i / 2] as int / 16)
            } else {
                digit(key[i / 2] as int % 16)
            },
    )
}

/// Keys go out in lower-case hexadecimal.
pub proof fn law_digits(key: Seq<u8>)
    ensures
        hex_of(key) == digits(key),
{
    assert(hex_of(key) =~= digits(key));
}

/// Whether `j` is a list of just these texts, in their order.
pub open spec fn is_list_of(j: Json, v: Seq<String>) -> bool {
    &&& j matches Json::Arr(a)
    &&& a.len() == v.len()
    &&& forall|i: int| 0 <= i < v.len() ==> #[trigger] a[i] == Json::Str(v[i]@)
}

/// Whether `j` is the text of `key` with `kind` in front.
pub open spec fn is_key(j: Option<Json>, kind: Seq<u8>, key: Seq<u8>) -> bool {
    j == Some(Json::Str(decode_utf8(kind + digits(key))))
}

/// Whether `j` says of the host what is configured: its name and system, its tags where there
/// are any, and the routes, all of IPv4 and IPv6 with them for an exit node, where there are any.
pub open spec fn is_hostinfo(j: Json, cfg: Config) -> bool {
    &&& member(j, "Hostname"@) == Some(Json::Str(cfg.hostname@))
    &&& member(j, "OS"@) == Some(Json::Str(cfg.os_name@))
    &&& member(j, "OSVersion"@) == Some(Json::Str(cfg.os_version@))
    &&& member(j, "GoArch"@) == Some(Json::Str(cfg.go_arch@))
    &&& member(j, "InheritTailscaleNetfilter"@) == Some(Json::Bool(false))
    &&& member(j, "NetInfo"@) matches Some(n) && is_netinfo(n)
    &&& if cfg.advertise_tags@.len() > 0 {
        member(j, "RequestTags"@) matches Some(t) && is_list_of(t, cfg.advertise_tags@)
    } else {
        member(j, "RequestTags"@) is None
    }
    &&& if cfg.subnet_routes@.len() == 0 && !cfg.advertise_exit_node {
        member(j, "RoutableIPs"@) is None
    } else {
        let n = cfg.subnet_routes@.len() as int;
        &&& member(j, "RoutableIPs"@) matches Some(Json::Arr(a))
        &&& a.len() == n + if cfg.advertise_exit_node {
            2int
        } else {
            0
        }
        &&& forall|i: int| 0 <= i < n ==> #[trigger] a[i] == Json::Str(cfg.subnet_routes@[i]@)
        &&& cfg.advertise_exit_node ==> a[n] == Json::Str("0.0.0.0/0"@) && a[n + 1] == Json::Str(
            "::/0"@,
        )
    }
}

/// Whether `j` says of the network what this node always says.
pub open spec fn is_netinfo(j: Json) -> bool {
    &&& member(j, "MappingVariesByDestIP"@) == Some(Json::Bool(false))
    &&& member(j, "HairPinning"@) == Some(Json::Bool(false))
    &&& member(j, "WorkingIPv4"@) == Some(Json::Bool(true))
    &&& member(j, "WorkingIPv6"@) == Some(Json::Bool(false))
    &&& member(j, "PreferredDERP"@) == Some(Json::Int(1))
    &&& member(j, "LinkType"@) == Some(Json::Str("wired"@))
}

proof fn lemma_netinfo()
    ensures
        is_netinfo(crate::control::netinfo_of()),
{
    reveal_strlit("MappingVariesByDestIP");
    reveal_strlit("HairPinning");
    reveal_strlit("WorkingIPv4");
    reveal_strlit("WorkingIPv6");
    reveal_strlit("PreferredDERP");
    reveal_strlit("LinkType");
    assert("MappingVariesByDestIP"@.len() == 21 && "HairPinning"@.len() == 11
        && "WorkingIPv4"@.len() == 11 && "WorkingIPv6"@.len() == 11 && "PreferredDERP"@.len() == 13
        && "LinkType"@.len() == 8);
    assert("HairPinning"@[0] != "WorkingIPv4"@[0]);
    assert("HairPinning"@[0] != "WorkingIPv6"@[0]);
    assert("WorkingIPv4"@[10] != "WorkingIPv6"@[10]);
}

/// What is sent of the host is what is configured.
pub proof fn law_hostinfo(cfg: Config)
    ensures
        is_hostinfo(hostinfo_of(cfg), cfg),
{
    lemma_netinfo();
    reveal_strlit("RoutableIPs");
    reveal_strlit("RequestTags");
    reveal_strlit("Hostname");
    reveal_strlit("OS");
    reveal_strlit("OSVersion");
    reveal_strlit("GoArch");
    reveal_strlit("NetInfo");
    reveal_strlit("InheritTailscaleNetfilter");
    assert("RoutableIPs"@[1] != "RequestTags"@[1]);
    assert("RoutableIPs"@.len() == 11 && "RequestTags"@.len() == 11 && "Hostname"@.len() == 8
        && "OS"@.len() == 2 && "OSVersion"@.len() == 9 && "GoArch"@.len() == 6 && "NetInfo"@.len()
        == 7 && "InheritTailscaleNetfilter"@.len() == 25);
}

/// Whether `j` is a map request of this node: its keys, its host, how the answer is wanted, and
/// every one of its endpoints.
pub open spec fn is_map_request(
    j: Json,
    cfg: Config,
    node_pub: Seq<u8>,
    disco_pub: Seq<u8>,
    stream: bool,
    omit_peers: bool,
    keep_alive: bool,
    endpoints: Seq<String>,
) -> bool {
    &&& member(j, "Version"@) == Some(Json::Int(cfg.capability_version as int))
    &&& is_key(member(j, "NodeKey"@), seq![110u8, 111, 100, 101, 107, 101, 121, 58], node_pub)
    &&& is_key(
        member(j, "DiscoKey"@),
        seq![100u8, 105, 115, 99, 111, 107, 101, 121, 58],
        disco_pub,
    )
    &&& member(j, "Endpoints"@) matches Some(e) && is_list_of(e, endpoints)
    &&& member(j, "Hostinfo"@) matches Some(h) && is_hostinfo(h, cfg)
    &&& member(j, "Stream"@) == Some(Json::Bool(stream))
    &&& member(j, "KeepAlive"@) == Some(Json::Bool(keep_alive))
    &&& member(j, "ReadOnly"@) == Some(Json::Bool(false))
    &&& member(j, "OmitPeers"@) == Some(Json::Bool(omit_peers))
    &&& member(j, "Compress"@) == Some(Json::Str(""@))
}

/// A map request reports every endpoint, in order, and this node's node and disco keys.
pub proof fn law_map_request(
    cfg: Config,
    keys: NodeKeys,
    stream: bool,
    omit_peers: bool,
    keep_alive: bool,
    endpoints: Seq<String>,
)
    ensures
        exists|j: Json|
            map_body(cfg, keys, stream, omit_peers, keep_alive, endpoints) == encode_utf8(
                #[trigger] json_text(j),
            ) && is_map_request(
                j,
                cfg,
                keys.node.public@,
                keys.disco.public@,
                stream,
                omit_peers,
                keep_alive,
                endpoints,
            ),
{
    let j = map_request_of(
        cfg,
        keys.node.public@,
        keys.disco.public@,
        stream,
        omit_peers,
        keep_alive,
        endpoints,
    );
    law_hostinfo(cfg);
    law_digits(keys.node.public@);
    law_digits(keys.disco.public@);
    reveal_strlit("Version");
    reveal_strlit("NodeKey");
    reveal_strlit("DiscoKey");
    reveal_strlit("Endpoints");
    reveal_strlit("Hostinfo");
    reveal_strlit("Stream");
    reveal_strlit("KeepAlive");
    reveal_strlit("ReadOnly");
    reveal_strlit("OmitPeers");
    reveal_strlit("Compress");
    assert("Version"@.len() == 7 && "NodeKey"@.len() == 7 && "DiscoKey"@.len() == 8
        && "Endpoints"@.len() == 9 && "Hostinfo"@.len() == 8 && "Stream"@.len() == 6
        && "KeepAlive"@.len() == 9 && "ReadOnly"@.len() == 8 && "OmitPeers"@.len() == 9
        && "Compress"@.len() == 8);
    assert("Version"@[0] == 'V' && "NodeKey"@[0] == 'N' && "DiscoKey"@[0] == 'D'
        && "Endpoints"@[0] == 'E' && "Hostinfo"@[0] == 'H' && "KeepAlive"@[0] == 'K'
        && "ReadOnly"@[0] == 'R' && "OmitPeers"@[0] == 'O' && "Compress"@[0] == 'C');
    assert(json_text(j) == json_text(j));
}

/// Whether `j` is a registration of this node: its three keys, its host and name, and the
/// pre-auth key where there is one.
pub open spec fn is_registration(
    j: Json,
    cfg: Config,
    node_pub: Seq<u8>,
    machine_pub: Seq<u8>,
    disco_pub: Seq<u8>,
    auth_key: Seq<char>,
) -> bool {
    &&& member(j, "Version"@) == Some(Json::Int(cfg.capability_version as int))
    &&& is_key(member(j, "NodeKey"@), seq![110u8, 111, 100, 101, 107, 101, 121, 58], node_pub)
    &&& is_key(member(j, "MachineKey"@), seq![109u8, 107, 101, 121, 58], machine_pub)
    &&& is_key(
        member(j, "DiscoKey"@),
        seq![100u8, 105, 115, 99, 111, 107, 101, 121, 58],
        disco_pub,
    )
    &&& member(j, "Hostinfo"@) matches Some(h) && is_hostinfo(h, cfg)
    &&& member(j, "Endpoints"@) == Some(Json::Arr(Seq::empty()))
    &&& member(j, "Capabilities"@) == Some(Json::Arr(Seq::empty()))
    &&& member(j, "DeviceName"@) == Some(Json::Str(cfg.device_name@))
    &&& member(j, "Ephemeral"@) == Some(Json::Bool(false))
    &&& if auth_key.len() > 0 {
        member(j, "Auth"@) matches Some(a) && member(a, "AuthKey"@) == Some(Json::Str(auth_key))
    } else {
        member(j, "Auth"@) is None
    }
}

/// A registration carries this node's three keys, its host and its pre-auth key.
pub proof fn law_registration(cfg: Config, keys: NodeKeys, auth_key: Seq<char>)
    ensures
        exists|j: Json|
            register_body(cfg, keys, auth_key) == encode_utf8(#[trigger] json_text(j))
                && is_registration(
                j,
                cfg,
                keys.node.public@,
                keys.machine.public@,
                keys.disco.public@,
                auth_key,
            ),
{
    let j = register_request_of(
        cfg,
        keys.node.public@,
        keys.machine.public@,
        keys.disco.public@,
        auth_key,
    );
    law_hostinfo(cfg);
    law_digits(keys.node.public@);
    law_digits(keys.machine.public@);
    law_digits(keys.disco.public@);
    reveal_strlit("Auth");
    reveal_strlit("Version");
    reveal_strlit("NodeKey");
    reveal_strlit("MachineKey");
    reveal_strlit("DiscoKey");
    reveal_strlit("Hostinfo");
    reveal_strlit("Endpoints");
    reveal_strlit("Capabilities");
    reveal_strlit("DeviceName");
    reveal_strlit("Ephemeral");
    assert("Auth"@.len() == 4 && "Version"@.len() == 7 && "NodeKey"@.len() == 7
        && "MachineKey"@.len() == 10 && "DiscoKey"@.len() == 8 && "Hostinfo"@.len() == 8
        && "Endpoints"@.len() == 9 && "Capabilities"@.len() == 12 && "DeviceName"@.len() == 10
        && "Ephemeral"@.len() == 9);
    assert("Version"@[0] == 'V' && "NodeKey"@[0] == 'N' && "MachineKey"@[0] == 'M'
        && "DeviceName"@[0] == 'D' && "DiscoKey"@[0] == 'D' && "Hostinfo"@[0] == 'H'
        && "Endpoints"@[1] == 'n' && "Ephemeral"@[1] == 'p');
    assert(json_text(j) == json_text(j));
}

/// A registration response authorizes the machine only by saying so in as many words, and a
/// login address counts only if it is a text that is not empty.
pub proof fn law_registered(resp: Seq<u8>)
    ensures
        authorized_in(response_tree(resp)) <==> (json_parse(resp) matches Some(j) && member(
            j,
            "MachineAuthorized"@,
        ) == Some(Json::Bool(true))),
        match auth_url_in(response_tree(resp)) {
            Some(url) => url.len() > 0 && (json_parse(resp) matches Some(j) && member(
                j,
                "AuthURL"@,
            ) == Some(Json::Str(url))),
            None => json_parse(resp) matches Some(j) ==> !(member(j, "AuthURL"@) matches Some(
                Json::Str(url),
            ) && url.len() > 0),
        },
{
}

} // verus!
