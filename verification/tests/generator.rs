use slipmesh::awg::config::{validate as validate_awg, AwgConfig, InterfaceEntry};
use slipmesh::common::addr::{format_ipv4, format_ipv6};
use slipmesh::common::keys::{generate_private_key, public_key_from_private};
use slipmesh::common::obfuscation::Obfuscation;
use slipmesh::patches::mesh_config::{
    validate, BypassEntry, BypassSourceEntry, ClusterConfig, LabeledPrefix, LoopbackNetworks,
    MeshConfig, MeshError, MeshLink, MeshTopology, NftablesTopology, NodeEntry, RoadwarriorClient,
    RoadwarriorPool, TunnelNetworks,
};
use slipmesh::patches::render::{
    bgp_peers_for, bypass_for, node_loopbacks, node_tunnel_addresses, render_awg_config,
    render_nftables_config, render_router_config, resolve_obfuscation, resolve_secrets,
    resolve_string, ExistingState, NetworkError, NothingStored, RenderError,
};
use slipmesh::router::config::validate as validate_router;
use slipmesh::taloscfg::addressing::{ipv4_loopback, ipv6_loopback};
use slipmesh::taloscfg::document::{splice, split};
use slipmesh::taloscfg::edit::{
    add_client, generated_values, record, ClientFields, remove_client, LinkFields, MeshFields, NetworkDocument, NodeFields,
    Overlay, PoolClients, PoolDocument, RecordError,
};
use slipmesh::taloscfg::existing::FileExistingState;
use slipmesh::taloscfg::generate::{
    colored_prefix, host_file, record_file, render_extension_service_document, render_hosts,
    settle_secrets, targets, ChangeTag, GenerateError, HEADER,
};
use slipmesh::taloscfg::migrate::{migrate, settle, Migration};
use slipmesh::taloscfg::minted::{minted, GeneratedObfuscation, MintedError};
use slipmesh::taloscfg::obfuscation_gen::{from_draws, generate, magic_headers};
use slipmesh::taloscfg::roadwarrior::{
    add, add_client_to_yaml, check_not_duplicate, del, find_client_index, find_pool, inspect,
    parse_allowed_ip, pool_endpoints, pool_identity, remove_client_from_yaml,
    render_client_config, render_qr, resolve_dns, ClientPrivateKey, Refused, RoadwarriorError,
};
use slipmesh::taloscfg::secrets;
use slipmesh::taloscfg::secrets::{link_key, resolve, ResolvedSecrets};
use slipmesh::taloscfg::segments::{foreign_segments, is_owned, owned_segment};
use slipmesh::taloscfg::slipmesh_file::{
    Aim, Bodies, FileError, HostDocument, Kind, MetaError, SlipmeshFile,
};
use yaml_serde::Value as Yaml;

fn parsed(text: &str) -> Yaml {
    yaml_serde::from_str(text).unwrap()
}

fn text(v: &Yaml, key: &str) -> Option<String> {
    v.get(key).and_then(Yaml::as_str).map(str::to_owned)
}

fn number(v: &Yaml, key: &str) -> Option<u64> {
    v.get(key).and_then(Yaml::as_u64)
}

fn flag(v: &Yaml, key: &str) -> bool {
    v.get(key).and_then(Yaml::as_bool).unwrap_or(false)
}

fn list<'a>(v: &'a Yaml, key: &str) -> Vec<&'a Yaml> {
    v.get(key).and_then(Yaml::as_sequence).map(|s| s.iter().collect()).unwrap_or_default()
}

fn texts(v: &Yaml, key: &str) -> Option<Vec<String>> {
    let items = v.get(key)?.as_sequence()?;
    Some(items.iter().map(|i| i.as_str().unwrap().to_owned()).collect())
}

fn obfuscation(v: Option<&Yaml>) -> Obfuscation {
    let Some(v) = v else { return Obfuscation::default() };
    let short = |key: &str| number(v, key).map(|n| n as u16);
    let long = |key: &str| number(v, key).map(|n| n as u32);
    Obfuscation {
        jc: short("jc"),
        jmin: short("jmin"),
        jmax: short("jmax"),
        s1: short("s1"),
        s2: short("s2"),
        h1: long("h1"),
        h2: long("h2"),
        h3: long("h3"),
        h4: long("h4"),
        random_trailers: v.get("random_trailers").and_then(Yaml::as_bool),
        disable_cookies: v.get("disable_cookies").and_then(Yaml::as_bool),
        ..Obfuscation::default()
    }
}

fn pool_of(v: &Yaml) -> Option<RoadwarriorPool> {
    Some(RoadwarriorPool {
        name: text(v, "name")?,
        node_hostnames: texts(v, "node_hostnames").unwrap_or_default(),
        address: text(v, "address")?,
        address6: text(v, "address6"),
        listen_port: number(v, "listen_port")? as u16,
        handshake_stale_secs: number(v, "handshake_stale_secs"),
        private_key: text(v, "private_key"),
        plain: flag(v, "plain"),
        obfuscation: obfuscation(v.get("obfuscation")),
        dns: text(v, "dns"),
        clients: list(v, "clients")
            .iter()
            .map(|c| RoadwarriorClient {
                name: text(c, "name").unwrap(),
                public_key: text(c, "public_key").unwrap(),
                allowed_ips: texts(c, "allowed_ips").unwrap_or_default(),
                advanced_security: flag(c, "advanced_security"),
            })
            .collect(),
    })
}

fn source_of(v: &Yaml) -> BypassSourceEntry {
    BypassSourceEntry {
        kind: text(v, "kind").unwrap(),
        label: text(v, "label"),
        asns: texts(v, "asns"),
        prefixes: v.get("prefixes").map(|_| {
            list(v, "prefixes")
                .iter()
                .map(|p| LabeledPrefix { net: text(p, "net").unwrap(), label: text(p, "label") })
                .collect()
        }),
        country: text(v, "country"),
        hostnames: texts(v, "hostnames"),
    }
}

fn mesh_of(v: &Yaml) -> Option<MeshConfig> {
    let cluster = v.get("cluster")?;
    let networks = cluster.get("loopback_networks")?;
    let empty = Yaml::Null;
    let mesh = v.get("mesh").unwrap_or(&empty);
    Some(MeshConfig {
        cluster: ClusterConfig {
            bgp_as: number(cluster, "bgp_as")? as u32,
            loopback_networks: LoopbackNetworks {
                ipv4: text(networks, "ipv4")?,
                ipv6: text(networks, "ipv6")?,
            },
            bypass_refresh_interval_secs: number(cluster, "bypass_refresh_interval_secs"),
            direct_interfaces: texts(cluster, "direct_interfaces").unwrap_or_default(),
            service_subnet: text(cluster, "service_subnet"),
            pod_subnet: text(cluster, "pod_subnet"),
            tunnel_networks: cluster.get("tunnel_networks").map(|t| TunnelNetworks {
                ipv4: text(t, "ipv4").unwrap(),
                ipv6: text(t, "ipv6").unwrap(),
            }),
            metrics_port: number(cluster, "metrics_port").map(|n| n as u16),
        },
        obfuscation: obfuscation(v.get("obfuscation")),
        nodes: list(v, "nodes")
            .iter()
            .map(|n| NodeEntry {
                name: text(n, "name").unwrap(),
                node_id: text(n, "node_id").unwrap(),
                endpoint: text(n, "endpoint"),
                mesh_private_key: text(n, "mesh_private_key"),
                direct_interfaces: texts(n, "direct_interfaces"),
            })
            .collect(),
        mesh: MeshTopology {
            links: list(mesh, "links")
                .iter()
                .map(|l| {
                    let pair = texts(l, "pair").unwrap();
                    MeshLink {
                        pair: [pair[0].clone(), pair[1].clone()],
                        port: number(l, "port").unwrap() as u16,
                        obfuscation: obfuscation(l.get("obfuscation")),
                        plain: flag(l, "plain"),
                    }
                })
                .collect(),
        },
        roadwarriors: list(v, "roadwarriors").iter().map(|p| pool_of(p).unwrap()).collect(),
        bypass: list(v, "bypass")
            .iter()
            .map(|b| BypassEntry {
                node: text(b, "node").unwrap(),
                include_sources: list(b, "include").iter().map(|s| source_of(s)).collect(),
                exclude_sources: list(b, "exclude").iter().map(|s| source_of(s)).collect(),
            })
            .collect(),
        nftables: v
            .get("nftables")
            .map(|n| NftablesTopology { ruleset: text(n, "ruleset").unwrap() }),
    })
}

fn mesh(yaml: &str) -> MeshConfig {
    mesh_of(&parsed(yaml)).unwrap()
}

fn awg_of(yaml: &str) -> AwgConfig {
    let v = parsed(yaml);
    AwgConfig {
        interfaces: list(&v, "interfaces")
            .iter()
            .map(|i| InterfaceEntry {
                name: text(i, "name").unwrap(),
                listen_port: number(i, "listen_port").unwrap() as u16,
                addresses: texts(i, "addresses").unwrap_or_default(),
                private_key: text(i, "private_key").unwrap(),
                obfuscation: obfuscation(i.get("obfuscation")),
                handshake_stale_secs: None,
                peers: vec![],
            })
            .collect(),
        metrics: None,
    }
}

/// A whole file, each document read as what its kind says it is.
fn read(raw: &str) -> Result<SlipmeshFile, FileError> {
    let documents = SlipmeshFile::parse(raw)?;
    let of = |kind: Kind| {
        documents
            .iter()
            .filter(move |d| d.meta.kind == kind)
            .map(|d| parsed(&d.positioned))
            .collect::<Vec<Yaml>>()
    };
    let bodies = Bodies {
        network: of(Kind::Network).first().and_then(mesh_of),
        pools: of(Kind::Roadwarriors).iter().map(pool_of).collect(),
        rulesets: of(Kind::Nftables)
            .iter()
            .map(|v| text(v, "ruleset").map(|ruleset| NftablesTopology { ruleset }))
            .collect(),
    };
    SlipmeshFile::read(documents, bodies)
}

fn value_of<'a, T>(list: &'a [(String, T)], key: &str) -> &'a T {
    &list.iter().find(|(k, _)| k == key).unwrap().1
}

// The topology.

const MINIMAL: &str = r#"
cluster:
  bgp_as: 64512
  loopback_networks: {ipv4: "10.62.0.0/16", ipv6: "fd00:62::/32"}
nodes:
  - name: a
    node_id: "10.62.0.1"
  - name: b
    node_id: "10.62.0.2"
"#;

fn link(a: &str, b: &str, port: u16) -> MeshLink {
    MeshLink {
        pair: [a.to_string(), b.to_string()],
        port,
        obfuscation: Obfuscation::default(),
        plain: false,
    }
}

fn pool(name: &str, hosts: &[&str], port: u16) -> RoadwarriorPool {
    RoadwarriorPool {
        name: name.to_string(),
        node_hostnames: hosts.iter().map(|h| h.to_string()).collect(),
        address: "10.62.253.1/24".to_string(),
        address6: None,
        listen_port: port,
        handshake_stale_secs: None,
        private_key: None,
        plain: false,
        obfuscation: Obfuscation::default(),
        dns: None,
        clients: vec![],
    }
}

fn node(name: &str, node_id: &str) -> NodeEntry {
    NodeEntry {
        name: name.to_string(),
        node_id: node_id.to_string(),
        endpoint: None,
        mesh_private_key: None,
        direct_interfaces: None,
    }
}

#[test]
fn mesh_config_parses_a_minimal_config() {
    let cfg = mesh(MINIMAL);
    assert_eq!(cfg.nodes.len(), 2);
    assert_eq!(cfg.cluster.bgp_as, 64512);
    validate(&cfg).unwrap();
}

#[test]
fn rejects_empty_nodes() {
    let mut cfg = mesh(MINIMAL);
    cfg.nodes = vec![];
    assert!(validate(&cfg).is_err());
    assert_eq!(validate(&cfg), Err(MeshError::NoNodes));
}

#[test]
fn rejects_duplicate_node_names() {
    let mut cfg = mesh(MINIMAL);
    cfg.nodes[1].name = "a".to_string();
    assert!(validate(&cfg).is_err());
    assert_eq!(validate(&cfg), Err(MeshError::DuplicateNodeName));
    cfg.nodes[1].name = String::new();
    assert_eq!(validate(&cfg), Err(MeshError::EmptyNodeName));
}

#[test]
fn rejects_duplicate_node_id() {
    let mut cfg = mesh(MINIMAL);
    cfg.nodes[1].node_id = cfg.nodes[0].node_id.clone();
    assert_eq!(validate(&cfg), Err(MeshError::DuplicateNodeId));
}

#[test]
fn rejects_a_node_id_that_is_not_a_valid_ipv4_address() {
    let mut cfg = mesh(MINIMAL);
    cfg.nodes[0].node_id = "not-an-ip".to_string();
    assert!(validate(&cfg).is_err());
    assert_eq!(validate(&cfg), Err(MeshError::InvalidNodeId));
}

#[test]
fn rejects_mesh_link_referencing_unknown_node() {
    let mut cfg = mesh(MINIMAL);
    cfg.mesh.links.push(link("a", "ghost", 51820));
    assert!(validate(&cfg).is_err());
    assert_eq!(validate(&cfg), Err(MeshError::UnknownLinkNode));
}

#[test]
fn rejects_mesh_link_to_self() {
    let mut cfg = mesh(MINIMAL);
    cfg.mesh.links.push(link("a", "a", 51820));
    assert!(validate(&cfg).is_err());
    assert_eq!(validate(&cfg), Err(MeshError::SelfLink));
}

#[test]
fn accepts_two_links_on_the_same_node_with_different_ports() {
    let mut cfg = mesh(MINIMAL);
    cfg.nodes.push(node("c", "10.62.0.3"));
    cfg.mesh.links.push(link("a", "b", 51820));
    cfg.mesh.links.push(link("a", "c", 51821));
    validate(&cfg).unwrap();
}

#[test]
fn rejects_duplicate_port_on_the_same_node() {
    let mut cfg = mesh(MINIMAL);
    cfg.nodes.push(node("c", "10.62.0.3"));
    cfg.mesh.links.push(link("a", "b", 51820));
    cfg.mesh.links.push(link("a", "c", 51820));
    assert!(validate(&cfg).is_err());
    assert_eq!(validate(&cfg), Err(MeshError::PortInUse));
}

#[test]
fn rejects_roadwarriors_pool_referencing_unknown_node() {
    let mut cfg = mesh(MINIMAL);
    cfg.roadwarriors.push(pool("eu", &["ghost"], 51820));
    assert!(validate(&cfg).is_err());
    assert_eq!(validate(&cfg), Err(MeshError::UnknownPoolNode));
}

#[test]
fn rejects_roadwarriors_pool_with_empty_node_hostnames() {
    let mut cfg = mesh(MINIMAL);
    cfg.roadwarriors.push(pool("eu", &[], 51820));
    assert!(validate(&cfg).is_err());
    assert_eq!(validate(&cfg), Err(MeshError::PoolWithoutNodes));
}

#[test]
fn rejects_duplicate_roadwarrior_client_public_key_in_one_pool() {
    let mut cfg = mesh(MINIMAL);
    let mut eu = pool("eu", &["a"], 51820);
    for (name, ip) in [("alice", "10.62.253.5/32"), ("bob", "10.62.253.6/32")] {
        eu.clients.push(RoadwarriorClient {
            name: name.to_string(),
            public_key: "k".to_string(),
            allowed_ips: vec![ip.to_string()],
            advanced_security: false,
        });
    }
    cfg.roadwarriors.push(eu);
    assert!(validate(&cfg).is_err());
    assert_eq!(validate(&cfg), Err(MeshError::DuplicateClientKey));
}

#[test]
fn rejects_bypass_entry_referencing_unknown_node() {
    let mut cfg = mesh(MINIMAL);
    cfg.bypass.push(BypassEntry {
        node: "ghost".to_string(),
        include_sources: vec![],
        exclude_sources: vec![],
    });
    assert!(validate(&cfg).is_err());
    assert_eq!(validate(&cfg), Err(MeshError::UnknownBypassNode));
}

#[test]
fn accepts_roadwarriors_and_mesh_sharing_a_node_with_distinct_ports() {
    let mut cfg = mesh(MINIMAL);
    cfg.mesh.links.push(link("a", "b", 51820));
    cfg.roadwarriors.push(pool("eu", &["a"], 51821));
    validate(&cfg).unwrap();
    cfg.roadwarriors.push(pool("eu", &["b"], 51822));
    assert_eq!(validate(&cfg), Err(MeshError::DuplicatePoolName));
    cfg.roadwarriors[1] = pool("us", &["b"], 51820);
    assert_eq!(validate(&cfg), Err(MeshError::PortInUse));
}

// Addresses.

#[test]
fn ipv4_loopback_ors_node_id_into_the_host_bits() {
    assert_eq!(ipv4_loopback(0x0a00_0000, 24, 5), 0x0a00_0005);
}

#[test]
fn different_node_ids_never_collide_for_the_same_network() {
    assert_ne!(ipv4_loopback(0x0a00_0000, 24, 1), ipv4_loopback(0x0a00_0000, 24, 2));
}

#[test]
fn ipv6_loopback_ors_node_id_into_the_low_32_host_bits() {
    assert_eq!(format_ipv6(ipv6_loopback(0xfd00 << 112, 16, 5)), "fd00::5");
}

#[test]
fn ipv6_loopback_leaves_middle_bits_zero() {
    assert_eq!(format_ipv6(ipv6_loopback(0xfd00 << 112, 16, 0x0a00_0001)), "fd00::a00:1");
    assert_eq!(ipv6_loopback(u128::MAX, 0, 7), 7);
    assert_eq!(ipv6_loopback(u128::MAX, 128, 7), u128::MAX);
}

// Generated parameters.

#[test]
fn generates_jmin_less_than_jmax() {
    let o = generate();
    assert!(o.jmin.unwrap() < o.jmax.unwrap());
}

#[test]
fn generates_four_distinct_magic_headers_avoiding_reserved_message_types() {
    let o = generate();
    let headers = [o.h1.unwrap(), o.h2.unwrap(), o.h3.unwrap(), o.h4.unwrap()];
    for h in headers {
        assert!(![1, 2, 3, 4].contains(&h));
    }
    let mut sorted = headers.to_vec();
    sorted.sort_unstable();
    sorted.dedup();
    assert_eq!(sorted.len(), 4, "h1-h4 must all be distinct");
}

#[test]
fn leaves_amneziawg_3_0_fields_unset() {
    let o = generate();
    assert_eq!(o.s3, None);
    assert_eq!(o.s4, None);
    assert_eq!(o.i1, None);
    assert_eq!(o.header_protection_key, None);
    assert_eq!(o.content_padding_addition, None);
}

#[test]
fn generates_different_results_on_each_call() {
    assert_ne!(generate(), generate());
}

// Resolution.

#[test]
fn resolve_string_prefers_specific() {
    let s = resolve_string(Some("explicit"), Some("existing".to_string()), || {
        "generated".to_string()
    });
    assert_eq!(s, "explicit");
}

#[test]
fn resolve_string_falls_back_to_existing() {
    let s = resolve_string(None, Some("existing".to_string()), || "generated".to_string());
    assert_eq!(s, "existing");
}

#[test]
fn resolve_string_falls_back_to_generated() {
    let s = resolve_string(None, None, || "generated".to_string());
    assert_eq!(s, "generated");
}

#[test]
fn render_resolve_obfuscation_prefers_specific_field_over_global() {
    let specific = Obfuscation { jc: Some(9), ..Obfuscation::default() };
    let global = Obfuscation { jc: Some(1), jmin: Some(10), ..Obfuscation::default() };
    let resolved = resolve_obfuscation(&specific, &global, None);
    assert_eq!(resolved.jc, Some(9));
    assert_eq!(resolved.jmin, Some(10));
}

#[test]
fn resolve_obfuscation_prefers_existing_over_generating_fresh() {
    let existing = Obfuscation { h1: Some(42), ..Obfuscation::default() };
    let resolved = resolve_obfuscation(
        &Obfuscation::default(),
        &Obfuscation::default(),
        Some(&existing),
    );
    assert_eq!(resolved.h1, Some(42));
}

#[test]
fn render_resolve_obfuscation_generates_when_nothing_else_is_set() {
    let resolved = resolve_obfuscation(&Obfuscation::default(), &Obfuscation::default(), None);
    assert!(resolved.jc.is_some());
    assert!(resolved.h1.is_some());
}

#[test]
fn resolve_obfuscation_never_generates_header_protection_key() {
    let resolved = resolve_obfuscation(&Obfuscation::default(), &Obfuscation::default(), None);
    assert_eq!(resolved.header_protection_key, None);
}

const LINKED: &str = r#"
cluster:
  bgp_as: 64512
  loopback_networks: {ipv4: "10.62.0.0/16", ipv6: "fd00:62::/32"}
nodes:
  - {name: a, node_id: "10.62.0.1"}
  - {name: b, node_id: "10.62.0.2"}
mesh:
  links:
    - {pair: [a, b], port: 51820}
"#;

#[test]
fn resolve_secrets_shares_the_same_generated_key_for_a_node_across_calls() {
    let resolved = resolve_secrets(&mesh(LINKED), &NothingStored);
    assert_ne!(
        value_of(&resolved.mesh_private_keys, "a"),
        value_of(&resolved.mesh_private_keys, "b")
    );
}

#[test]
fn resolve_secrets_uses_explicit_node_private_key() {
    let mut m = mesh(LINKED);
    m.nodes[0].mesh_private_key = Some("explicit-key".to_string());
    let resolved = resolve_secrets(&m, &NothingStored);
    assert_eq!(value_of(&resolved.mesh_private_keys, "a"), "explicit-key");
}

#[test]
fn resolve_secrets_shares_one_obfuscation_value_across_both_ends_of_a_link() {
    let resolved = resolve_secrets(&mesh(LINKED), &NothingStored);
    assert_eq!(resolved.mesh_link_obfuscation.len(), 1);
}

#[test]
fn resolve_secrets_plain_link_skips_obfuscation_generation_entirely() {
    let mut m = mesh(LINKED);
    m.mesh.links[0].plain = true;
    let resolved = resolve_secrets(&m, &NothingStored);
    let key = link_key(&m.mesh.links[0].pair);
    assert_eq!(value_of(&resolved.mesh_link_obfuscation, &key), &Obfuscation::default());
}

#[test]
fn resolve_secrets_non_plain_link_still_generates_obfuscation() {
    let m = mesh(LINKED);
    let resolved = resolve_secrets(&m, &NothingStored);
    let key = link_key(&m.mesh.links[0].pair);
    assert_ne!(value_of(&resolved.mesh_link_obfuscation, &key), &Obfuscation::default());
}

#[test]
fn link_key_does_not_depend_on_the_order_of_the_pair() {
    let ab = link_key(&["a".to_owned(), "b".to_owned()]);
    let ba = link_key(&["b".to_owned(), "a".to_owned()]);
    assert_eq!(ab, ba);
    assert_eq!(ab, "a|b");
}

#[test]
fn secrets_resolve_obfuscation_prefers_specific_field_over_global() {
    let specific = Obfuscation { jc: Some(9), ..Obfuscation::default() };
    let global = Obfuscation { jc: Some(1), jmin: Some(10), ..Obfuscation::default() };
    let (resolved, _) = secrets::resolve_obfuscation(&specific, &global);
    assert_eq!(resolved.jc, Some(9));
    assert_eq!(resolved.jmin, Some(10));
}

#[test]
fn resolve_obfuscation_carries_the_31_switches_and_never_generates_them() {
    let global = Obfuscation { random_trailers: Some(true), ..Obfuscation::default() };
    let (resolved, generated) =
        secrets::resolve_obfuscation(&Obfuscation::default(), &global);
    assert_eq!(resolved.random_trailers, Some(true));
    assert_eq!(resolved.disable_cookies, None);
    assert_eq!(generated.random_trailers, None);
}

#[test]
fn secrets_resolve_obfuscation_generates_when_nothing_else_is_set() {
    let (resolved, generated) =
        secrets::resolve_obfuscation(&Obfuscation::default(), &Obfuscation::default());
    assert!(resolved.jc.is_some());
    assert!(resolved.h1.is_some());
    assert_eq!(resolved, generated);
}

#[test]
fn resolve_obfuscation_reports_as_generated_only_what_no_layer_set() {
    let specific = Obfuscation { jc: Some(9), ..Obfuscation::default() };
    let global = Obfuscation { h1: Some(42), ..Obfuscation::default() };
    let (resolved, generated) = secrets::resolve_obfuscation(&specific, &global);
    assert_eq!((generated.jc, generated.h1), (None, None));
    assert_eq!(generated.jmin, resolved.jmin);
    assert!(generated.jmin.is_some());
}

const POOLED: &str = r#"
cluster:
  bgp_as: 64512
  loopback_networks: {ipv4: "10.62.0.0/16", ipv6: "fd00:62::/32"}
nodes:
  - {name: a, node_id: "10.62.0.1"}
  - {name: b, node_id: "10.62.0.2"}
mesh:
  links:
    - {pair: [b, a], port: 51820}
roadwarriors:
  - name: obfuscated
    node_hostnames: [a]
    address: "10.99.0.1/24"
    listen_port: 51900
    obfuscation: {jc: 4, jmin: 10, jmax: 50, s1: 1, s2: 2, h1: 5, h2: 6, h3: 7, h4: 8}
  - name: plain
    node_hostnames: [b]
    address: "10.98.0.1/24"
    listen_port: 51901
    plain: true
"#;

#[test]
fn resolve_uses_explicit_node_private_key() {
    let mut topology = mesh(POOLED);
    topology.nodes[0].mesh_private_key = Some("explicit-key".to_owned());
    let (resolved, minted) = resolve(&topology);
    assert_eq!(value_of(&resolved.mesh_private_keys, "a"), "explicit-key");
    assert_eq!(minted.node_keys.len(), 1);
    assert_eq!(minted.node_keys[0].0, 1);
}

#[test]
fn resolve_plain_link_skips_obfuscation_generation_entirely() {
    let mut topology = mesh(POOLED);
    topology.mesh.links[0].plain = true;
    let (resolved, minted) = resolve(&topology);
    let key = link_key(&topology.mesh.links[0].pair);
    assert_eq!(value_of(&resolved.mesh_link_obfuscation, &key), &Obfuscation::default());
    assert!(minted.link_obfuscation.is_empty());
}

#[test]
fn resolve_non_plain_link_still_generates_obfuscation() {
    let (resolved, _) = resolve(&mesh(POOLED));
    assert_ne!(value_of(&resolved.mesh_link_obfuscation, "a|b"), &Obfuscation::default());
}

#[test]
fn resolve_plain_roadwarrior_pool_skips_obfuscation_generation_entirely() {
    let (resolved, _) = resolve(&mesh(POOLED));
    assert_eq!(value_of(&resolved.roadwarrior_obfuscation, "plain"), &Obfuscation::default());
}

#[test]
fn resolve_non_plain_roadwarrior_pool_still_generates_obfuscation() {
    let mut topology = mesh(POOLED);
    topology.roadwarriors[0].obfuscation = Obfuscation::default();
    let (resolved, _) = resolve(&topology);
    assert_ne!(
        value_of(&resolved.roadwarrior_obfuscation, "obfuscated"),
        &Obfuscation::default()
    );
}

#[test]
fn secrets_routes_name_each_value_by_what_it_belongs_to() {
    let (_, minted) = resolve(&mesh(POOLED));
    assert_eq!(
        minted.routes(),
        &[
            "nodes[a].mesh_private_key",
            "nodes[b].mesh_private_key",
            "mesh.links[a|b].obfuscation",
            "roadwarriors[obfuscated].private_key",
            "roadwarriors[plain].private_key",
        ]
    );
    assert!(!minted.is_empty());
}

#[test]
fn once_recorded_the_same_secrets_come_out_again() {
    let mut topology = mesh(POOLED);
    let (resolved, minted) = resolve(&topology);
    for (i, key) in &minted.node_keys {
        topology.nodes[*i].mesh_private_key = Some(key.clone());
    }
    for (i, o) in &minted.link_obfuscation {
        topology.mesh.links[*i].obfuscation = o.clone();
    }
    for (i, p) in minted.pools.iter().enumerate() {
        topology.roadwarriors[i].private_key = p.private_key.clone();
    }
    let (again, nothing) = resolve(&topology);
    assert!(nothing.is_empty(), "{:?}", nothing.routes());
    assert_eq!(again, resolved);
}

#[test]
fn what_was_never_resolved_cannot_be_minted() {
    let topology = mesh(POOLED);
    let nothing = ResolvedSecrets {
        mesh_private_keys: vec![],
        mesh_link_obfuscation: vec![],
        roadwarrior_private_keys: vec![],
        roadwarrior_obfuscation: vec![],
    };
    assert_eq!(minted(&topology, &nothing), Err(MintedError::NoNodeKey(0)));
    let keyed = ResolvedSecrets {
        mesh_private_keys: vec![
            ("a".to_string(), "ka".to_string()),
            ("b".to_string(), "kb".to_string()),
        ],
        ..nothing
    };
    assert_eq!(minted(&topology, &keyed), Err(MintedError::NoPoolKey(0)));
}

fn overlay_of(topology: &MeshConfig) -> Overlay {
    Overlay {
        network: NetworkDocument {
            nodes: topology
                .nodes
                .iter()
                .map(|n| NodeFields { mesh_private_key: n.mesh_private_key.clone() })
                .collect(),
            mesh: Some(MeshFields {
                links: topology.mesh.links.iter().map(|_| LinkFields { obfuscation: None }).collect(),
            }),
        },
        pools: topology
            .roadwarriors
            .iter()
            .map(|p| PoolDocument {
                name: p.name.clone(),
                private_key: None,
                obfuscation: Some(GeneratedObfuscation::from_all(&p.obfuscation)),
            })
            .collect(),
    }
}

#[test]
fn every_minted_value_goes_into_the_field_it_belongs_to() {
    let topology = mesh(POOLED);
    let (resolved, minted) = resolve(&topology);
    let recorded = record(overlay_of(&topology), &minted).unwrap();
    for (i, n) in topology.nodes.iter().enumerate() {
        assert_eq!(
            recorded.network.nodes[i].mesh_private_key.as_ref(),
            Some(value_of(&resolved.mesh_private_keys, &n.name))
        );
    }
    let fields = recorded.network.mesh.as_ref().unwrap().links[0].obfuscation.unwrap();
    assert_eq!(
        fields,
        GeneratedObfuscation::from_all(value_of(&resolved.mesh_link_obfuscation, "a|b"))
    );
    assert!(recorded.pools.iter().all(|p| p.private_key.is_some()));
    assert_eq!(recorded.pools[0].obfuscation.unwrap().jc, Some(4));

    let mut short = overlay_of(&topology);
    short.network.nodes.pop();
    assert_eq!(record(short, &minted), Err(RecordError::NoNode(1)));
    let mut unlinked = overlay_of(&topology);
    unlinked.network.mesh = None;
    assert_eq!(record(unlinked, &minted), Err(RecordError::NoLink(0)));
    let mut poolless = overlay_of(&topology);
    poolless.pools.remove(0);
    assert_eq!(record(poolless, &minted), Err(RecordError::NoPool(0)));
}

#[test]
fn a_client_added_last_is_removed_again() {
    let client = RoadwarriorClient {
        name: "dave".to_string(),
        public_key: "D=".to_string(),
        allowed_ips: vec!["10.0.0.1/32".to_string()],
        advanced_security: false,
    };
    let added = add_client(PoolClients { clients: None }, &client);
    assert_eq!(added.clients.as_ref().unwrap()[0].name, "dave");
    let removed = remove_client(added, 0).unwrap();
    assert_eq!(removed.clients.unwrap().len(), 0);
    assert_eq!(remove_client(PoolClients { clients: None }, 0), None);
}

// What an earlier run left.

const EXISTING: &str = r#"
cluster:
  bgp_as: 64512
  loopback_networks: {ipv4: "10.62.0.0/16", ipv6: "fd00:62::/32"}
nodes:
  - {name: a, node_id: "10.62.0.1"}
  - {name: b, node_id: "10.62.0.2"}
mesh:
  links:
    - {pair: [a, b], port: 51820}
roadwarriors:
  - name: eu
    node_hostnames: [a]
    address: "10.99.0.1/24"
    listen_port: 51900
    clients: []
"#;

fn state<'a>(m: &'a MeshConfig, configs: &[(&str, &str)]) -> FileExistingState<'a> {
    FileExistingState {
        mesh: m,
        configs: configs.iter().map(|(n, y)| (n.to_string(), awg_of(y))).collect(),
    }
}

#[test]
fn mesh_private_key_reads_back_from_a_mesh_interface() {
    let m = mesh(EXISTING);
    let s = state(
        &m,
        &[(
            "a",
            "interfaces:\n  - name: mesh-b\n    listen_port: 51820\n    private_key: \"existing-a-key\"\n    peers: []\n",
        )],
    );
    assert_eq!(s.mesh_private_key("a"), Some("existing-a-key".to_string()));
    let resolved = resolve_secrets(&m, &s);
    assert_eq!(value_of(&resolved.mesh_private_keys, "a"), "existing-a-key");
}

#[test]
fn mesh_private_key_is_none_when_no_file_exists() {
    let m = mesh(EXISTING);
    assert_eq!(state(&m, &[]).mesh_private_key("a"), None);
}

#[test]
fn mesh_link_obfuscation_reads_back_from_either_end() {
    let m = mesh(EXISTING);
    let s = state(
        &m,
        &[(
            "b",
            "interfaces:\n  - name: mesh-a\n    listen_port: 51820\n    private_key: \"existing-b-key\"\n    obfuscation: {h1: 111}\n    peers: []\n",
        )],
    );
    let pair = ["a".to_string(), "b".to_string()];
    assert_eq!(s.mesh_link_obfuscation(&pair).unwrap().h1, Some(111));
}

#[test]
fn roadwarrior_private_key_reads_back_from_a_node_hostname() {
    let m = mesh(EXISTING);
    let s = state(
        &m,
        &[(
            "a",
            "interfaces:\n  - name: rw-eu\n    listen_port: 51900\n    private_key: \"existing-rw-key\"\n    peers: []\n",
        )],
    );
    assert_eq!(s.roadwarrior_private_key("eu"), Some("existing-rw-key".to_string()));
}

#[test]
fn roadwarrior_obfuscation_is_none_for_an_unknown_pool() {
    let m = mesh(EXISTING);
    assert_eq!(state(&m, &[]).roadwarrior_obfuscation("nonexistent"), None);
}

// Rendering.

const THREE: &str = r#"
cluster:
  bgp_as: 64512
  loopback_networks: {ipv4: "10.62.0.0/16", ipv6: "fd00:62::/32"}
  bypass_refresh_interval_secs: 3600
nodes:
  - {name: a, node_id: "10.62.0.1"}
  - {name: b, node_id: "10.62.0.2"}
  - {name: c, node_id: "10.62.0.3"}
mesh:
  links:
    - {pair: [a, b], port: 51820}
bypass:
  - node: a
    include:
      - kind: literal
        prefixes: [{net: "10.0.0.0/8"}]
"#;

#[test]
fn node_loopbacks_ors_node_id_onto_cluster_networks() {
    let (v4, v6) = node_loopbacks(&mesh(THREE), "a").unwrap();
    assert_eq!(format_ipv4(v4), "10.62.0.1");
    assert_eq!(format_ipv6(v6), "fd00:62::a3e:1");
}

#[test]
fn node_loopbacks_rejects_unknown_node() {
    assert!(node_loopbacks(&mesh(THREE), "nonexistent").is_err());
    assert_eq!(node_loopbacks(&mesh(THREE), "nonexistent"), Err(RenderError::UnknownNode));
    let mut m = mesh(THREE);
    m.cluster.loopback_networks.ipv6 = "10.0.0.0/8".to_string();
    assert_eq!(
        node_loopbacks(&m, "a"),
        Err(RenderError::LoopbackNetworks(NetworkError::NotV6))
    );
}

#[test]
fn bgp_peers_for_excludes_self_and_covers_full_mesh() {
    let peers = bgp_peers_for(&mesh(THREE), "a").unwrap();
    let names: Vec<&str> = peers.iter().map(|p| p.name.as_str()).collect();
    assert_eq!(names.len(), 2);
    assert!(names.contains(&"b"));
    assert!(names.contains(&"c"));
    assert!(!names.contains(&"a"));
}

#[test]
fn bgp_peers_for_addresses_are_ipv6_loopbacks() {
    let peers = bgp_peers_for(&mesh(THREE), "a").unwrap();
    let b = peers.iter().find(|p| p.name == "b").unwrap();
    assert_eq!(b.address, "fd00:62::a3e:2");
}

#[test]
fn bypass_for_filters_by_node() {
    assert!(bypass_for(&mesh(THREE), "a").is_some());
    assert!(bypass_for(&mesh(THREE), "b").is_none());
}

#[test]
fn bypass_for_converts_literal_prefixes() {
    let bypass = bypass_for(&mesh(THREE), "a").unwrap();
    assert_eq!(bypass.include_sources.len(), 1);
    assert_eq!(bypass.include_sources[0].kind, "literal");
    assert_eq!(bypass.include_sources[0].prefixes.as_ref().unwrap()[0].net, "10.0.0.0/8");
    assert_eq!(bypass.refresh_interval_secs, 3600);
}

#[test]
fn render_router_config_is_valid() {
    let cfg = render_router_config(&mesh(THREE), "a").unwrap();
    validate_router(&cfg).unwrap();
    assert_eq!(cfg.bgp_as, 64512);
    assert_eq!(cfg.ospf_interfaces, vec!["mesh-*".to_string(), "router-lo".to_string()]);
    assert!(cfg.bypass.is_some());
}

#[test]
fn render_router_config_omits_mesh_glob_from_direct_interfaces_when_tunnel_networks_not_configured(
) {
    let cfg = render_router_config(&mesh(THREE), "a").unwrap();
    assert!(!cfg.direct_interfaces.iter().any(|s| s == "mesh-*"));
}

#[test]
fn render_router_config_uses_explicit_cluster_direct_interfaces() {
    let mut m = mesh(THREE);
    m.cluster.direct_interfaces = vec!["cni0".to_string(), "extra0".to_string()];
    let cfg = render_router_config(&m, "a").unwrap();
    assert_eq!(cfg.direct_interfaces, vec!["cni0".to_string(), "extra0".to_string()]);
}

#[test]
fn render_router_config_per_node_direct_interfaces_overrides_not_merges_the_global_default() {
    let mut m = mesh(THREE);
    m.cluster.direct_interfaces = vec!["cni*".to_string()];
    m.nodes[0].direct_interfaces = Some(vec!["home".to_string()]);
    let cfg_a = render_router_config(&m, "a").unwrap();
    let cfg_b = render_router_config(&m, "b").unwrap();
    assert_eq!(cfg_a.direct_interfaces, vec!["home".to_string()]);
    assert_eq!(cfg_b.direct_interfaces, vec!["cni*".to_string()]);
}

#[test]
fn render_router_config_announce_is_empty_by_default() {
    assert!(render_router_config(&mesh(THREE), "a").unwrap().announce.is_empty());
}

#[test]
fn render_router_config_announces_the_configured_service_subnet_on_every_node() {
    let mut m = mesh(THREE);
    m.cluster.service_subnet = Some("10.60.0.0/16".to_string());
    for name in ["a", "b"] {
        let cfg = render_router_config(&m, name).unwrap();
        assert_eq!(cfg.announce.len(), 1);
        assert_eq!(cfg.announce[0].net, "10.60.0.0/16");
        assert_eq!(cfg.announce[0].label.as_deref(), Some("k8s-services"));
    }
}

#[test]
fn the_pod_range_is_what_is_learned() {
    let mut m = mesh(THREE);
    m.cluster.pod_subnet = Some("10.244.0.0/16".to_string());
    assert_eq!(render_router_config(&m, "a").unwrap().learn, vec!["10.244.0.0/16"]);
}

#[test]
fn render_router_config_omits_bypass_for_a_node_with_none() {
    assert!(render_router_config(&mesh(THREE), "b").unwrap().bypass.is_none());
}

const FULL: &str = r#"
cluster:
  bgp_as: 64512
  loopback_networks: {ipv4: "10.62.0.0/16", ipv6: "fd00:62::/32"}
nodes:
  - {name: a, node_id: "10.62.0.1"}
  - {name: b, node_id: "10.62.0.2", endpoint: "b.example.com"}
  - {name: c, node_id: "10.62.0.3"}
mesh:
  links:
    - {pair: [a, b], port: 51820}
roadwarriors:
  - name: eu
    node_hostnames: [a]
    address: "10.99.0.1/24"
    listen_port: 51900
    clients:
      - name: alice
        public_key: "client-pubkey"
        allowed_ips: ["10.99.0.5/32"]
nftables:
  ruleset: "table inet talos_filter {}"
"#;

fn interfaces(m: &MeshConfig, node: &str) -> (Vec<InterfaceEntry>, ResolvedSecrets) {
    let resolved = resolve_secrets(m, &NothingStored);
    (render_awg_config(m, node, &resolved).unwrap().interfaces, resolved)
}

#[test]
fn mesh_interfaces_for_names_the_interface_after_the_peers_node_name() {
    let (ifaces, _) = interfaces(&mesh(FULL), "a");
    assert_eq!(ifaces.len(), 2);
    assert_eq!(ifaces[0].name, "mesh-b");
    assert_eq!(ifaces[0].listen_port, 51820);
}

#[test]
fn mesh_interfaces_for_is_full_tunnel_with_no_allowed_ips() {
    let (ifaces, _) = interfaces(&mesh(FULL), "a");
    assert_eq!(ifaces[0].peers[0].allowed_ips, None);
}

#[test]
fn mesh_interfaces_for_builds_endpoint_from_node_host_and_link_port() {
    let m = mesh(FULL);
    let (a, _) = interfaces(&m, "a");
    assert_eq!(a[0].peers[0].endpoint, Some("b.example.com:51820".to_string()));
    let (b, _) = interfaces(&m, "b");
    assert_eq!(b[0].peers[0].endpoint, None);
}

#[test]
fn mesh_interfaces_for_peer_public_key_matches_the_peers_resolved_private_key() {
    let (ifaces, resolved) = interfaces(&mesh(FULL), "a");
    let expected = public_key_from_private(value_of::<String>(&resolved.mesh_private_keys, "b")).unwrap();
    assert_eq!(ifaces[0].peers[0].public_key, expected);
}

const TUNNELLED: &str = r#"
cluster:
  bgp_as: 64512
  loopback_networks: {ipv4: "10.62.0.0/16", ipv6: "fd00:62::/32"}
  tunnel_networks: {ipv4: "10.62.1.0/24", ipv6: "fd00:63::/120"}
nodes:
  - {name: a, node_id: "10.62.0.1"}
  - {name: b, node_id: "10.62.0.2", endpoint: "b.example.com"}
mesh:
  links:
    - {pair: [a, b], port: 51820}
"#;

#[test]
fn node_tunnel_addresses_is_none_when_not_configured() {
    assert!(node_tunnel_addresses(&mesh(FULL), "a").unwrap().is_none());
}

#[test]
fn node_tunnel_addresses_ors_node_id_onto_cluster_networks() {
    let (v4, v6) = node_tunnel_addresses(&mesh(TUNNELLED), "a").unwrap().unwrap();
    assert_eq!(format_ipv4(v4), "10.62.1.1");
    assert_eq!(format_ipv6(v6), "fd00:63::1");
}

#[test]
fn mesh_interfaces_for_uses_tunnel_ipv6_as_the_sole_link_local_when_configured() {
    let (ifaces, _) = interfaces(&mesh(TUNNELLED), "a");
    assert_eq!(
        ifaces[0].addresses,
        vec!["fd00:63::1/64".to_string(), "10.62.1.1/32".to_string()]
    );
}

#[test]
fn mesh_interfaces_for_uses_the_loopback_derived_link_local_when_not_configured() {
    let (ifaces, _) = interfaces(&mesh(FULL), "a");
    assert_eq!(ifaces[0].addresses, vec!["fe80::a3e:1/64".to_string()]);
}

#[test]
fn render_router_config_adds_mesh_glob_to_direct_interfaces_when_tunnel_networks_configured() {
    let cfg = render_router_config(&mesh(TUNNELLED), "a").unwrap();
    assert!(cfg.direct_interfaces.iter().any(|s| s == "mesh-*"));
}

#[test]
fn render_router_config_does_not_duplicate_mesh_glob_if_already_present() {
    let mut m = mesh(TUNNELLED);
    m.cluster.direct_interfaces = vec!["mesh-*".to_string()];
    let cfg = render_router_config(&m, "a").unwrap();
    assert_eq!(cfg.direct_interfaces.iter().filter(|s| *s == "mesh-*").count(), 1);
}

#[test]
fn mesh_interfaces_for_a_node_with_no_links_is_empty() {
    let (ifaces, _) = interfaces(&mesh(FULL), "c");
    assert!(ifaces.is_empty());
}

#[test]
fn roadwarrior_interfaces_for_builds_a_tracked_peer_per_client() {
    let (ifaces, _) = interfaces(&mesh(FULL), "a");
    assert_eq!(ifaces[1].name, "rw-eu");
    assert_eq!(ifaces[1].listen_port, 51900);
    assert_eq!(ifaces[1].peers[0].public_key, "client-pubkey");
    assert_eq!(ifaces[1].peers[0].allowed_ips, Some(vec!["10.99.0.5/32".to_string()]));
    assert_eq!(ifaces[1].peers[0].name, Some("alice".to_string()));
}

#[test]
fn roadwarrior_interfaces_for_a_node_not_in_node_hostnames_is_empty() {
    let (ifaces, _) = interfaces(&mesh(FULL), "b");
    assert!(ifaces.iter().all(|i| !i.name.starts_with("rw-")));
}

#[test]
fn render_awg_config_combines_mesh_and_roadwarrior_interfaces_and_is_valid() {
    let m = mesh(FULL);
    let cfg = render_awg_config(&m, "a", &resolve_secrets(&m, &NothingStored)).unwrap();
    validate_awg(&cfg).unwrap();
    assert_eq!(cfg.interfaces.len(), 2);
    assert_eq!(cfg.metrics, None);
}

#[test]
fn metrics_are_served_on_the_nodes_own_loopback() {
    let mut m = mesh(FULL);
    m.cluster.metrics_port = Some(9586);
    let cfg = render_awg_config(&m, "a", &resolve_secrets(&m, &NothingStored)).unwrap();
    validate_awg(&cfg).unwrap();
    assert_eq!(cfg.metrics.unwrap().listen, "10.62.0.1:9586");
}

#[test]
fn a_link_without_keys_is_not_rendered() {
    let m = mesh(FULL);
    let mut resolved = resolve_secrets(&m, &NothingStored);
    resolved.mesh_private_keys.remove(1);
    assert_eq!(render_awg_config(&m, "a", &resolved), Err(RenderError::NoMeshKey));
    resolved.mesh_private_keys.push(("b".to_string(), "!".to_string()));
    assert!(matches!(
        render_awg_config(&m, "a", &resolved),
        Err(RenderError::InvalidMeshKey(_))
    ));
}

#[test]
fn render_nftables_config_carries_the_global_ruleset_verbatim() {
    let cfg = render_nftables_config(&mesh(FULL)).unwrap();
    assert_eq!(cfg.ruleset, "table inet talos_filter {}");
}

#[test]
fn render_nftables_config_is_none_when_mesh_yaml_has_no_nftables_section() {
    assert!(render_nftables_config(&mesh(THREE)).is_none());
}

#[test]
fn the_two_ends_of_a_link_fit() {
    let m = mesh(FULL);
    let resolved = resolve_secrets(&m, &NothingStored);
    let a = render_awg_config(&m, "a", &resolved).unwrap().interfaces;
    let b = render_awg_config(&m, "b", &resolved).unwrap().interfaces;
    let (a, b) = (&a[0], &b[0]);
    assert_eq!(public_key_from_private(&a.private_key).unwrap(), b.peers[0].public_key);
    assert_eq!(public_key_from_private(&b.private_key).unwrap(), a.peers[0].public_key);
    assert_eq!(a.listen_port, b.listen_port);
    assert_eq!(a.obfuscation, b.obfuscation);
}

// The file as a whole, and what each host gets of it.

const NETWORK: &str = r#"slipmesh:
  kind: network
cluster:
  bgp_as: 64512
  loopback_networks: {ipv4: "10.62.0.0/16", ipv6: "fd00:62::/32"}
nodes:
  - {name: node-a, node_id: "10.62.0.1"}
  - {name: node-b, node_id: "10.62.0.2"}
  - {name: node-c, node_id: "10.62.0.3"}
"#;

const KUBELET: &str = r#"slipmesh:
  kind: patch
apiVersion: v1alpha1
kind: KubeletConfig
extraArgs:
    rotate-server-certificates: "true"
"#;

fn file(documents: &[&str]) -> String {
    documents.join("---\n")
}

fn pool_text(name: &str, port: u16) -> String {
    format!(
        "slipmesh:\n  kind: roadwarriors\nname: {name}\nnode_hostnames: [node-a]\naddress: \"10.99.0.1/24\"\nlisten_port: {port}\nclients: []\n"
    )
}

fn ruleset(meta: &str, table: &str) -> String {
    format!("slipmesh:\n  kind: nftables\n{meta}ruleset: |\n  table inet {table} {{}}\n")
}

fn error(raw: &str) -> FileError {
    match read(raw) {
        Ok(_) => panic!("parsed, but should have been refused:\n{raw}"),
        Err(e) => e,
    }
}

/// The line of the document that holds `needle`.
fn line_of(raw: &str, needle: &str) -> usize {
    raw[..raw.find(needle).unwrap()].matches('\n').count() + 1
}

#[test]
fn hosts_come_from_the_network_document_in_its_order() {
    assert_eq!(read(NETWORK).unwrap().hosts(), ["node-a", "node-b", "node-c"]);
}

#[test]
fn a_file_without_a_network_document_is_refused() {
    assert_eq!(error(KUBELET), FileError::NetworkCount(0));
}

#[test]
fn a_file_with_two_network_documents_is_refused() {
    assert_eq!(error(&file(&[NETWORK, NETWORK])), FileError::NetworkCount(2));
}

#[test]
fn a_document_without_a_slipmesh_block_is_refused_by_its_line() {
    let raw = file(&[NETWORK, "stray: 1\n"]);
    assert_eq!(error(&raw), FileError::NoMeta(line_of(&raw, "---\nstray")));
}

#[test]
fn a_document_of_only_comments_is_not_one() {
    read(&file(&[NETWORK, "# end of file\n"])).unwrap();
}

#[test]
fn a_file_that_is_not_yaml_is_refused() {
    assert_eq!(error("a: [1\n"), FileError::NotYaml);
}

#[test]
fn an_unknown_kind_is_refused_with_the_known_ones() {
    let raw = file(&[NETWORK, "slipmesh:\n  kind: patches\na: 1\n"]);
    let line = line_of(&raw, "---\n");
    assert_eq!(error(&raw), FileError::BadMeta(line, MetaError::UnknownKind));
    let known = [Kind::Network, Kind::Roadwarriors, Kind::Nftables, Kind::Patch];
    assert_eq!(known.map(Kind::name), ["network", "roadwarriors", "nftables", "patch"]);
}

#[test]
fn a_misspelled_meta_key_is_refused() {
    let raw = file(&[
        NETWORK,
        "slipmesh:\n  kind: patch\n  tagrets: [node-a]\napiVersion: v1alpha1\nkind: KubeletConfig\n",
    ]);
    // Its second key is the misspelled one.
    let line = line_of(&raw, "---\n");
    assert_eq!(error(&raw), FileError::BadMeta(line, MetaError::UnknownKey(1)));
}

#[test]
fn an_empty_include_is_refused() {
    let raw = file(&[
        NETWORK,
        "slipmesh:\n  kind: patch\n  include: []\napiVersion: v1alpha1\nkind: KubeletConfig\n",
    ]);
    assert_eq!(error(&raw), FileError::ReachesNoHost(line_of(&raw, "---\n")));
}

#[test]
fn include_on_a_network_document_is_refused() {
    let network =
        NETWORK.replace("  kind: network\n", "  kind: network\n  include: [node-a]\n");
    assert_eq!(error(&network), FileError::Aimed(1));
}

#[test]
fn exclude_on_a_roadwarriors_document_is_refused() {
    let pool = pool_text("plain", 51820)
        .replace("  kind: roadwarriors\n", "  kind: roadwarriors\n  exclude: [node-b]\n");
    let raw = file(&[NETWORK, &pool]);
    assert_eq!(error(&raw), FileError::Aimed(line_of(&raw, "---\n")));
}

#[test]
fn an_unknown_host_in_include_or_exclude_is_refused_by_name() {
    for (meta, named) in [
        ("  include: [node-z]\n", Aim::Reached(0)),
        ("  exclude: [node-z]\n", Aim::LeftOut(0)),
        ("  include: [node-a, node-z]\n", Aim::Reached(1)),
    ] {
        let raw = file(&[NETWORK, &ruleset(meta, "t")]);
        assert_eq!(error(&raw), FileError::UnknownHost(line_of(&raw, "---\n"), named));
    }
}

#[test]
fn a_block_of_the_wrong_shape_is_refused() {
    for (block, why) in [
        ("slipmesh: 1\n", MetaError::NotAMapping),
        ("slipmesh:\n  include: [node-a]\n", MetaError::NoKind),
        ("slipmesh:\n  kind: [patch]\n", MetaError::NoKind),
        ("slipmesh:\n  kind: patch\n  include: node-a\n", MetaError::BadHosts),
        ("slipmesh:\n  kind: patch\n  exclude: [1]\n", MetaError::BadHosts),
    ] {
        let raw = file(&[NETWORK, block]);
        assert_eq!(error(&raw), FileError::BadMeta(line_of(&raw, "---\n"), why), "{block}");
    }
}

#[test]
fn a_document_keeps_its_lines_for_whoever_reads_its_fields() {
    let raw = file(&[KUBELET, NETWORK]);
    let documents = SlipmeshFile::parse(&raw).unwrap();
    let network = &documents[1];
    assert_eq!(line_of(&network.positioned, "  bgp_as"), line_of(&raw, "  bgp_as"));
    assert_eq!(network.at(), format!("the `kind: network` document at line {}", network.line));
    assert!(!network.positioned.contains("slipmesh"));
}

#[test]
fn a_document_without_the_fields_of_its_kind_is_refused() {
    let raw = file(&[NETWORK, "slipmesh:\n  kind: nftables\nrules: x\n"]);
    assert_eq!(error(&raw), FileError::Unreadable(line_of(&raw, "---\n")));
}

#[test]
fn a_network_document_with_its_meta_block_last_still_parses() {
    let network = format!(
        "{}slipmesh:\n  kind: network\n",
        NETWORK.strip_prefix("slipmesh:\n  kind: network\n").unwrap()
    );
    read(&network).unwrap();
}

#[test]
fn a_patch_without_include_reaches_every_host() {
    let parsed = read(&file(&[NETWORK, KUBELET])).unwrap();
    for host in ["node-a", "node-b", "node-c"] {
        assert_eq!(parsed.patches_for(host).unwrap().len(), 1, "{host}");
    }
    assert_eq!(parsed.patches_for("node-z"), Err(FileError::NotAHost));
}

#[test]
fn a_patch_with_include_reaches_only_its_hosts() {
    let patch = KUBELET.replace("  kind: patch\n", "  kind: patch\n  include: [node-b]\n");
    let parsed = read(&file(&[NETWORK, &patch])).unwrap();
    assert!(parsed.patches_for("node-a").unwrap().is_empty());
    assert_eq!(parsed.patches_for("node-b").unwrap().len(), 1);
}

#[test]
fn a_host_in_exclude_does_not_get_the_patch() {
    let patch = KUBELET.replace("  kind: patch\n", "  kind: patch\n  exclude: [node-c]\n");
    let parsed = read(&file(&[NETWORK, &patch])).unwrap();
    assert_eq!(parsed.patches_for("node-a").unwrap().len(), 1);
    assert!(parsed.patches_for("node-c").unwrap().is_empty());
}

#[test]
fn a_patch_goes_out_as_the_serializer_writes_it_without_its_slipmesh_block() {
    let patch = "slipmesh:\n  kind: patch\n  include: [node-a]\n# why this disk\napiVersion: v1alpha1\nkind: UnattendedInstallConfig   # trailing\ninstaller:\n    disk:   /dev/vda\n";
    let parsed = read(&file(&[NETWORK, patch])).unwrap();
    let documents = parsed.patches_for("node-a").unwrap();
    assert_eq!(
        documents,
        [HostDocument {
            identity: "UnattendedInstallConfig".into(),
            text: "apiVersion: v1alpha1\nkind: UnattendedInstallConfig\ninstaller:\n  disk: /dev/vda"
                .into(),
        }]
    );
}

#[test]
fn a_block_scalar_with_a_trailing_space_and_a_pem_keeps_its_value() {
    let block = "      password: \"x\" \n      -----BEGIN CERTIFICATE-----\n      MIIB\n      -----END CERTIFICATE-----\n";
    let patch = format!(
        "slipmesh:\n  kind: patch\n  include: [node-b]\napiVersion: v1alpha1\nkind: ExtensionServiceConfig\nname: mikrotik\nconfigFiles:\n  - content: |\n{block}    mountPath: /etc/x\n"
    );
    let parsed = read(&file(&[NETWORK, &patch])).unwrap();
    let documents = parsed.patches_for("node-b").unwrap();
    assert_eq!(
        content(&documents[0].text, 0).as_str(),
        Some(
            "password: \"x\" \n-----BEGIN CERTIFICATE-----\nMIIB\n-----END CERTIFICATE-----\n"
        ),
        "{}",
        documents[0].text
    );
    assert_eq!(documents[0].identity, "ExtensionServiceConfig/mikrotik");
}

const DEVICE: &str = "slipmesh:\n  kind: patch\n  include: [node-b]\n# the device the converger talks to\napiVersion: v1alpha1\nkind: ExtensionServiceConfig\nname: device\nconfigFiles:\n  - mountPath: /etc/device.yaml\n    content:\n      host: router1.example.com\n      port: 8729\n      username: admin\n      password: hunter2   # the one secret here\n";

/// A `configFiles[].content` in `text`, parsed as it lands in a patch file: followed by a line
/// break, which a block scalar ending the document keeps.
fn content(text: &str, index: usize) -> Yaml {
    let value: Yaml = yaml_serde::from_str(&format!("{text}\n")).unwrap();
    value["configFiles"][index]["content"].clone()
}

#[test]
fn a_content_mapping_goes_out_as_the_text_of_that_yaml() {
    let parsed = read(&file(&[NETWORK, DEVICE])).unwrap();
    let text = &parsed.patches_for("node-b").unwrap()[0].text;
    assert_eq!(
        content(text, 0).as_str(),
        Some("host: router1.example.com\nport: 8729\nusername: admin\npassword: hunter2\n"),
        "{text}"
    );
}

#[test]
fn a_document_with_content_written_as_yaml_goes_out_as_the_serializer_writes_it() {
    let parsed = read(&file(&[NETWORK, DEVICE])).unwrap();
    let text = &parsed.patches_for("node-b").unwrap()[0].text;
    assert_eq!(
        text,
        "apiVersion: v1alpha1\nkind: ExtensionServiceConfig\nname: device\nconfigFiles:\n- mountPath: /etc/device.yaml\n  content: |\n    host: router1.example.com\n    port: 8729\n    username: admin\n    password: hunter2"
    );
}

#[test]
fn a_content_ending_in_blank_lines_keeps_them() {
    let patch = "slipmesh:\n  kind: patch\napiVersion: v1alpha1\nkind: ExtensionServiceConfig\nname: script\nconfigFiles:\n  - mountPath: /etc/script\n    content: \"run\\n\\n\\n\"\n";
    let parsed = read(&file(&[NETWORK, patch])).unwrap();
    let text = &parsed.patches_for("node-a").unwrap()[0].text;
    assert_eq!(content(text, 0).as_str(), Some("run\n\n\n"), "{text}");
}

#[test]
fn a_content_mapping_goes_out_as_text_after_a_merge_too() {
    let default = "slipmesh:\n  kind: patch\napiVersion: v1alpha1\nkind: ExtensionServiceConfig\nname: device\nconfigFiles:\n  - mountPath: /etc/device.yaml\n    content:\n      host: router0.example.com\n";
    let parsed = read(&file(&[NETWORK, default, DEVICE])).unwrap();
    let documents = parsed.patches_for("node-b").unwrap();
    assert_eq!(
        content(&documents[0].text, 0).as_str(),
        Some("host: router1.example.com\nport: 8729\nusername: admin\npassword: hunter2\n")
    );
    assert_eq!(
        content(&parsed.patches_for("node-a").unwrap()[0].text, 0).as_str(),
        Some("host: router0.example.com\n")
    );
}

#[test]
fn patches_of_one_identity_merge_with_the_included_one_over_the_default() {
    let host = "slipmesh:\n  kind: patch\n  include: [node-a]\napiVersion: v1alpha1\nkind: KubeletConfig\nextraArgs:\n    v: \"4\"\n";
    // The host document comes first in the file and still lands on top.
    let parsed = read(&file(&[NETWORK, host, KUBELET])).unwrap();

    let merged = parsed.patches_for("node-a").unwrap();
    assert_eq!(merged.len(), 1);
    let value: Yaml = yaml_serde::from_str(&merged[0].text).unwrap();
    assert_eq!(value["extraArgs"]["v"].as_str(), Some("4"));
    assert_eq!(
        value["extraArgs"]["rotate-server-certificates"].as_str(),
        Some("true")
    );
}

#[test]
fn patches_come_out_in_the_order_their_identities_first_appear() {
    let install =
        "slipmesh:\n  kind: patch\napiVersion: v1alpha1\nkind: UnattendedInstallConfig\n";
    let parsed = read(&file(&[NETWORK, install, KUBELET])).unwrap();
    let identities: Vec<_> = parsed
        .patches_for("node-a")
        .unwrap()
        .into_iter()
        .map(|d| d.identity)
        .collect();
    assert_eq!(identities, ["UnattendedInstallConfig", "KubeletConfig"]);
}


#[test]
fn a_patch_without_kind_is_refused() {
    let raw = file(&[
        NETWORK,
        "slipmesh:\n  kind: patch\nmachine:\n  install: {disk: /dev/vda}\n",
    ]);
    assert_eq!(error(&raw), FileError::NoIdentity(line_of(&raw, "---\n")));
}

#[test]
fn a_patch_claiming_a_generated_document_is_refused() {
    for name in ["awg", "router", "nftables"] {
        let raw = file(&[
            NETWORK,
            &format!(
                "slipmesh:\n  kind: patch\napiVersion: v1alpha1\nkind: ExtensionServiceConfig\nname: {name}\n"
            ),
        ]);
        assert_eq!(error(&raw), FileError::Generated(line_of(&raw, "---\n")));
    }
}

#[test]
fn pools_are_gathered_in_file_order() {
    let parsed =
        read(&file(&[NETWORK, &pool_text("second", 51821), &pool_text("first", 51820)])).unwrap();
    let names: Vec<_> = parsed.topology().roadwarriors.iter().map(|p| p.name.as_str()).collect();
    assert_eq!(names, ["second", "first"]);
}

#[test]
fn documents_are_found_by_their_position_in_the_file() {
    // A document of only comments holds a position too.
    let raw = file(&[
        NETWORK,
        &pool_text("first", 51820),
        "# nothing here yet\n",
        &pool_text("second", 51821),
    ]);
    let parsed = read(&raw).unwrap();
    assert_eq!(parsed.network_document(), 0);
    assert_eq!(parsed.pool_document("first"), Some(1));
    assert_eq!(parsed.pool_document("second"), Some(3));
    assert_eq!(parsed.pool_document("third"), None);
}

#[test]
fn two_pools_of_one_name_are_refused() {
    let raw = file(&[NETWORK, &pool_text("plain", 51820), &pool_text("plain", 51821)]);
    assert_eq!(error(&raw), FileError::Invalid(MeshError::DuplicatePoolName));
}

#[test]
fn pools_or_a_ruleset_inside_the_network_document_are_refused_by_their_kind() {
    for (section, kind) in [
        ("roadwarriors: []\n", Kind::Roadwarriors),
        ("nftables: {ruleset: x}\n", Kind::Nftables),
    ] {
        assert_eq!(error(&format!("{NETWORK}{section}")), FileError::Misplaced(1, kind));
    }
}

#[test]
fn an_excluded_host_has_no_ruleset_rather_than_an_empty_one() {
    let parsed = read(&file(&[NETWORK, &ruleset("  exclude: [node-c]\n", "t")])).unwrap();
    assert!(parsed.effective_for("node-c").unwrap().nftables.is_none());
    let ruleset = parsed.effective_for("node-a").unwrap().nftables.unwrap();
    assert_eq!(ruleset.ruleset, "table inet t {}\n");
}

#[test]
fn a_host_two_rulesets_reach_is_refused_by_name() {
    let raw = file(&[
        NETWORK,
        &ruleset("", "everyone"),
        &ruleset("  include: [node-b]\n", "extra"),
    ]);
    assert_eq!(error(&raw), FileError::TwoRulesets(1));
}

#[test]
fn the_topology_carries_every_pool_and_no_ruleset() {
    let parsed = read(&file(&[
        NETWORK,
        &pool_text("plain", 51820),
        &ruleset("  include: [node-a]\n", "t"),
    ]))
    .unwrap();
    let topology = parsed.topology();
    assert_eq!(topology.roadwarriors.len(), 1);
    assert!(topology.nftables.is_none());
    assert_eq!(parsed.into_topology().nodes.len(), 3);
}

// Clients of a pool.

fn fixture() -> &'static str {
    r#"cluster:
  bgp_as: 64512
  loopback_networks: {ipv4: "192.0.2.0/24", ipv6: "2001:db8::/32"}
  service_subnet: "100.64.0.0/16"
nodes:
  - {name: a, node_id: "0.0.0.1", endpoint: "192.0.2.10"}
  - {name: b, node_id: "0.0.0.2", endpoint: "192.0.2.11"}
roadwarriors:
  - name: plain
    node_hostnames: ["a", "b"]
    address: "198.51.100.1/24"
    listen_port: 51820
    plain: true
    clients:
      - {name: alice, public_key: "AAA=", allowed_ips: ["198.51.100.41/32"]}
      - {name: bob, public_key: "BBB=", allowed_ips: ["198.51.100.32/32"]}
  - name: obfuscation
    node_hostnames: ["a"]
    address: "203.0.113.1/24"
    listen_port: 51821
    obfuscation:
      jc: 4
      jmin: 81
      jmax: 408
      s1: 1114
      s2: 131
      h1: 883683258
      h2: 2249923740
      h3: 891489045
      h4: 2070706730
    clients:
      - {name: carol, public_key: "CCC=", allowed_ips: ["203.0.113.22/32"]}
"#
}

fn pools() -> MeshConfig {
    mesh(fixture())
}

fn secrets_of(mesh: &MeshConfig) -> ResolvedSecrets {
    resolve_secrets(mesh, &NothingStored)
}

/// The `plain` pool as its own document.
const PLAIN_POOL: &str = r#"slipmesh:
  kind: roadwarriors
name: plain
node_hostnames: ["a", "b"]
address: "198.51.100.1/24"
listen_port: 51820
plain: true
clients:
  - {name: alice, public_key: "AAA=", allowed_ips: ["198.51.100.41/32"]}
  - {name: bob, public_key: "BBB=", allowed_ips: ["198.51.100.32/32"]}
"#;

#[test]
fn pool_endpoints_defaults_to_node_hostnames_order() {
    let m = pools();
    let pool = find_pool(&m, "plain").unwrap();
    let endpoints = pool_endpoints(&m, pool, None).unwrap();
    assert_eq!(endpoints, vec!["192.0.2.10:51820", "192.0.2.11:51820"]);
}

#[test]
fn pool_endpoints_promotes_the_requested_endpoint_to_primary() {
    let m = pools();
    let pool = find_pool(&m, "plain").unwrap();
    let endpoints = pool_endpoints(&m, pool, Some("b")).unwrap();
    assert_eq!(endpoints, vec!["192.0.2.11:51820", "192.0.2.10:51820"]);
}

#[test]
fn pool_endpoints_errors_on_an_endpoint_not_in_node_hostnames() {
    let m = pools();
    let pool = find_pool(&m, "plain").unwrap();
    assert_eq!(
        pool_endpoints(&m, pool, Some("ghost")),
        Err(RoadwarriorError::NotAnEndpoint)
    );
}

#[test]
fn inspect_with_a_matching_private_key_fills_the_config_instead_of_a_placeholder() {
    let alice_priv = generate_private_key();
    let alice_pub = public_key_from_private(&alice_priv).unwrap();
    let yaml = fixture().replace(
        r#"{name: alice, public_key: "AAA=", allowed_ips: ["198.51.100.41/32"]}"#,
        &format!(
            r#"{{name: alice, public_key: "{alice_pub}", allowed_ips: ["198.51.100.41/32"]}}"#
        ),
    );
    let m = mesh(&yaml);
    let cfg = inspect(&m, &secrets_of(&m), "plain", "alice", Some(&alice_priv), None).unwrap();
    assert!(cfg.contains(&format!("PrivateKey = {alice_priv}")));
    assert!(!cfg.contains("<enter your private key here>"));
}

#[test]
fn inspect_rejects_a_private_key_that_does_not_match_the_stored_public_key() {
    let m = pools();
    let wrong_priv = generate_private_key();
    let out = inspect(&m, &secrets_of(&m), "plain", "alice", Some(&wrong_priv), None);
    assert_eq!(out.unwrap_err().why, RoadwarriorError::KeyMismatch);
}

#[test]
fn resolve_dns_falls_back_to_service_subnet_derived_coredns_ip() {
    let m = pools();
    let pool = find_pool(&m, "plain").unwrap();
    assert_eq!(resolve_dns(&m, pool), Some("100.64.0.10".to_string()));
}

#[test]
fn resolve_dns_prefers_an_explicit_pool_dns_over_the_derived_default() {
    let yaml = r#"cluster:
  bgp_as: 64512
  loopback_networks: {ipv4: "192.0.2.0/24", ipv6: "2001:db8::/32"}
  service_subnet: "100.64.0.0/16"
nodes:
  - {name: a, node_id: "0.0.0.1", endpoint: "192.0.2.10"}
roadwarriors:
  - name: plain
    node_hostnames: ["a"]
    address: "198.51.100.1/24"
    listen_port: 51820
    plain: true
    dns: "9.9.9.9"
    clients: []
"#;
    let m = mesh(yaml);
    let pool = find_pool(&m, "plain").unwrap();
    assert_eq!(resolve_dns(&m, pool), Some("9.9.9.9".to_string()));
}

#[test]
fn resolve_dns_is_none_without_an_explicit_dns_or_a_service_subnet() {
    let yaml = r#"cluster:
  bgp_as: 64512
  loopback_networks: {ipv4: "192.0.2.0/24", ipv6: "2001:db8::/32"}
nodes:
  - {name: a, node_id: "0.0.0.1", endpoint: "192.0.2.10"}
roadwarriors:
  - name: plain
    node_hostnames: ["a"]
    address: "198.51.100.1/24"
    listen_port: 51820
    plain: true
    clients: []
"#;
    let m = mesh(yaml);
    let pool = find_pool(&m, "plain").unwrap();
    assert_eq!(resolve_dns(&m, pool), None);
}

#[test]
fn parse_allowed_ip_normalizes_bare_v4_to_slash_32() {
    assert_eq!(
        parse_allowed_ip("198.51.100.99").unwrap(),
        "198.51.100.99/32"
    );
}

#[test]
fn parse_allowed_ip_normalizes_bare_v6_to_slash_128() {
    assert_eq!(parse_allowed_ip("2001:db8::1").unwrap(), "2001:db8::1/128");
}

#[test]
fn parse_allowed_ip_leaves_an_explicit_prefix_untouched() {
    assert_eq!(
        parse_allowed_ip("203.0.113.0/28").unwrap(),
        "203.0.113.0/28"
    );
    assert_eq!(
        parse_allowed_ip("2001:db8::/120").unwrap(),
        "2001:db8::/120"
    );
}

#[test]
fn parse_allowed_ip_rejects_garbage() {
    assert!(parse_allowed_ip("not-an-ip").is_err());
    assert!(parse_allowed_ip("198.51.100.99/99").is_err());
}

#[test]
fn find_pool_errors_with_known_names_on_miss() {
    let m = pools();
    let err = find_pool(&m, "nope").unwrap_err();
    assert_eq!(err.known, ["plain", "obfuscation"]);
}

#[test]
fn find_client_index_errors_with_known_names_on_miss() {
    let m = pools();
    let pool = find_pool(&m, "plain").unwrap();
    let err = find_client_index(pool, "nope").unwrap_err();
    assert_eq!(err.known, ["alice", "bob"]);
}

#[test]
fn check_not_duplicate_rejects_existing_name() {
    let m = pools();
    let pool = find_pool(&m, "plain").unwrap();
    assert!(check_not_duplicate(pool, "alice", "fresh-key=").is_err());
}

#[test]
fn check_not_duplicate_rejects_existing_public_key() {
    let m = pools();
    let pool = find_pool(&m, "plain").unwrap();
    assert!(check_not_duplicate(pool, "fresh-name", "AAA=").is_err());
}

#[test]
fn check_not_duplicate_accepts_a_genuinely_new_client() {
    let m = pools();
    let pool = find_pool(&m, "plain").unwrap();
    assert!(check_not_duplicate(pool, "dave", "DDD=").is_ok());
}

/// `source` with a client added.
fn with_client(source: &str, name: &str) -> String {
    let ips = vec!["198.51.100.99/32".to_owned()];
    add_client_to_yaml(source, name, &format!("{name}="), &ips).unwrap()
}

fn client_names(source: &str) -> Vec<String> {
    let value: Yaml = yaml_serde::from_str(source).unwrap();
    value["clients"]
        .as_sequence()
        .unwrap()
        .iter()
        .map(|c| c["name"].as_str().unwrap().to_owned())
        .collect()
}

#[test]
fn add_client_to_yaml_appends_and_leaves_the_rest_untouched() {
    let out = with_client(PLAIN_POOL, "dave");
    assert!(out.starts_with(PLAIN_POOL), "{out}");
    assert_eq!(client_names(&out), ["alice", "bob", "dave"]);
}

#[test]
fn add_client_to_yaml_starts_the_list_a_pool_lacks() {
    let pool = PLAIN_POOL.split("clients:").next().unwrap();
    let out = with_client(pool, "dave");
    assert!(out.starts_with(pool), "{out}");
    assert_eq!(client_names(&out), ["dave"]);
}

#[test]
fn remove_client_from_yaml_deletes_exactly_the_target() {
    let out = remove_client_from_yaml(PLAIN_POOL, 0).unwrap();
    assert_eq!(
        out,
        PLAIN_POOL.replace(
            "  - {name: alice, public_key: \"AAA=\", allowed_ips: [\"198.51.100.41/32\"]}\n",
            ""
        )
    );
}

#[test]
fn append_onto_an_empty_flow_clients_list() {
    let src = r#"slipmesh:
  kind: roadwarriors
name: fresh
node_hostnames: ["a"]
address: "198.51.100.250/24"
listen_port: 51830
clients: []
"#;
    let out = with_client(src, "eve");
    assert!(
        out.starts_with(&src[..src.find("clients").unwrap()]),
        "{out}"
    );
    assert_eq!(client_names(&out), ["eve"]);
}

#[test]
fn render_client_config_includes_amneziawg_fields_for_a_non_plain_pool() {
    let m = pools();
    let pool = find_pool(&m, "obfuscation").unwrap();
    let (server_key, obf) = pool_identity(pool, &secrets_of(&m)).unwrap();
    let server_pub = public_key_from_private(&server_key).unwrap();
    let endpoints = pool_endpoints(&m, pool, None).unwrap();
    let cfg = render_client_config(
        &ClientPrivateKey::Unknown,
        &vec!["203.0.113.22/32".to_string()],
        resolve_dns(&m, pool).as_deref(),
        &server_pub,
        &endpoints,
        &obf,
    );
    assert!(cfg.contains("Jc = 4"));
    assert!(cfg.contains("H4 = 2070706730"));
    assert!(cfg.contains("<enter your private key here>"));
    assert!(cfg.contains("Endpoint = 192.0.2.10:51821"));
    assert!(!cfg.contains("# Name"));
    assert!(cfg.contains("DNS = 100.64.0.10"));
    assert!(cfg.contains("PersistentKeepalive = 25"));
}

#[test]
fn render_client_config_omits_amneziawg_fields_for_a_plain_pool() {
    let m = pools();
    let pool = find_pool(&m, "plain").unwrap();
    let (server_key, obf) = pool_identity(pool, &secrets_of(&m)).unwrap();
    assert_eq!(obf, Obfuscation::default());
    let server_pub = public_key_from_private(&server_key).unwrap();
    let endpoints = pool_endpoints(&m, pool, None).unwrap();
    let cfg = render_client_config(
        &ClientPrivateKey::Known("client-priv-key".to_string()),
        &vec!["198.51.100.41/32".to_string()],
        resolve_dns(&m, pool).as_deref(),
        &server_pub,
        &endpoints,
        &obf,
    );
    assert!(!cfg.contains("Jc ="));
    assert!(cfg.contains("PrivateKey = client-priv-key"));
    assert!(cfg.contains("Endpoint = 192.0.2.10:51820"));
    assert!(cfg.contains("#Endpoint = 192.0.2.11:51820"));
    assert!(!cfg.contains("# Name"));
}

/// `add` on `PLAIN_POOL`: the pool as it comes back, and what `add` returned.
fn add_to_plain(
    public_key: Option<&str>,
    export: bool,
) -> Result<(String, Option<(ClientPrivateKey, String)>), Refused> {
    let m = pools();
    add(
        &m,
        PLAIN_POOL,
        &secrets_of(&m),
        "plain",
        "dave",
        "198.51.100.99",
        public_key,
        None,
        export,
        false,
    )
}

#[test]
fn add_requires_export_or_qr_when_public_key_is_omitted() {
    let refused = add_to_plain(None, false).unwrap_err();
    assert_eq!(refused.why, RoadwarriorError::KeyWouldBeLost);
    assert!(refused.known.is_empty());
}

#[test]
fn add_with_public_key_and_no_export_succeeds_with_no_config() {
    let (updated, config) = add_to_plain(Some("DDD="), false).unwrap();
    assert_eq!(client_names(&updated), ["alice", "bob", "dave"]);
    assert!(config.is_none());
}

#[test]
fn add_without_public_key_but_with_export_generates_and_returns_a_key() {
    let (updated, config) = add_to_plain(None, true).unwrap();
    assert!(updated.contains("dave"));
    let (key, text) = config.unwrap();
    assert!(matches!(key, ClientPrivateKey::Known(_)));
    assert!(!text.contains("<enter your private key here>"));
}

#[test]
fn del_removes_the_named_client_and_returns_its_public_key() {
    let m = pools();
    let (updated, public_key) = del(&m, PLAIN_POOL, "plain", "alice").unwrap();
    assert_eq!(client_names(&updated), ["bob"]);
    assert_eq!(public_key, "AAA=");
}

#[test]
fn del_on_unknown_client_errors() {
    let m = pools();
    let refused = del(&m, PLAIN_POOL, "plain", "nope").unwrap_err();
    assert_eq!(refused.why, RoadwarriorError::UnknownClient);
    assert_eq!(refused.known, ["alice", "bob"]);
    let refused = del(&m, PLAIN_POOL, "nope", "alice").unwrap_err();
    assert_eq!(refused.why, RoadwarriorError::UnknownPool);
    assert_eq!(refused.known, ["plain", "obfuscation"]);
    let secrets = secrets_of(&m);
    let refused = inspect(&m, &secrets, "plain", "alice", None, Some("ghost")).unwrap_err();
    assert_eq!(refused.why, RoadwarriorError::NotAnEndpoint);
    assert_eq!(refused.known, ["a", "b"]);
}

#[test]
fn render_qr_produces_nonempty_output() {
    let qr = render_qr("[Interface]\nPrivateKey = x\n", false).unwrap();
    assert!(!qr.trim().is_empty());
}

#[test]
fn render_qr_invert_actually_swaps_dark_and_light() {
    let normal = render_qr("[Interface]\nPrivateKey = x\n", false).unwrap();
    let inverted = render_qr("[Interface]\nPrivateKey = x\n", true).unwrap();
    assert_ne!(normal, inverted);
}

#[test]
fn inspect_renders_the_same_config_shape_as_add_with_a_placeholder_key() {
    let m = pools();
    let cfg = inspect(&m, &secrets_of(&m), "obfuscation", "carol", None, None).unwrap();
    assert!(cfg.contains("<enter your private key here>"));
    assert!(cfg.contains("Address = 203.0.113.22/32"));
    assert!(cfg.contains("Jc = 4"));
}

#[test]
fn removing_what_was_added_gives_the_document_back() {
    let added = with_client(PLAIN_POOL, "dave");
    assert_eq!(remove_client_from_yaml(&added, 2).unwrap(), PLAIN_POOL);
    assert_eq!(
        remove_client_from_yaml(PLAIN_POOL, 2),
        Err(RoadwarriorError::NotRemoved)
    );
}

#[test]
fn a_client_config_is_written_field_by_field() {
    let config = render_client_config(
        &ClientPrivateKey::Known("cHJpdg==".to_string()),
        &vec!["198.51.100.41/32".to_string(), "2001:db8::41/128".to_string()],
        Some("9.9.9.9"),
        "cHVi",
        &vec!["192.0.2.10:51820".to_string(), "192.0.2.11:51820".to_string()],
        &Obfuscation::default(),
    );
    assert!(config.contains("Address = 198.51.100.41/32, 2001:db8::41/128"), "{config}");
    assert!(config.contains("PublicKey = cHVi\n"), "{config}");
    let primary = config.find("\nEndpoint = 192.0.2.10:51820").unwrap();
    assert!(primary < config.find("#Endpoint = 192.0.2.11:51820").unwrap(), "{config}");
}

// What is written down of what was generated.

const NINE: [&str; 9] = ["jc", "jmin", "jmax", "s1", "s2", "h1", "h2", "h3", "h4"];

const BLOCK_NETWORK: &str = "\
slipmesh:
    kind: network
cluster:
    bgp_as: 64512
    loopback_networks:
        ipv4: 10.62.0.0/16
        ipv6: fd00:62::/32
nodes:
    - name: node-a
      node_id: 10.62.0.1
    - name: node-b
      node_id: 10.62.0.2
    - name: node-c
      node_id: 10.62.0.3
mesh:
    links:
        - pair:
            - node-b
            - node-a
          port: 51820
        - pair:
            - node-a
            - node-c
          port: 51821
          plain: true
";

const BLOCK_POOLS: &str = "\
---
slipmesh:
    kind: roadwarriors
name: obfuscated
node_hostnames:
    - node-a
address: 10.99.0.1/24
listen_port: 51900
obfuscation:
    jc: 4
    jmin: 10
    jmax: 50
    s1: 1
    s2: 2
    h1: 5
    h2: 6
    h3: 7
    h4: 8
---
slipmesh:
    kind: roadwarriors
name: plain
node_hostnames:
    - node-b
address: 10.98.0.1/24
listen_port: 51901
plain: true
";

fn slipmesh() -> String {
    format!("{BLOCK_NETWORK}{BLOCK_POOLS}")
}

fn topology(raw: &str) -> MeshConfig {
    read(raw).unwrap().into_topology()
}

/// One run: resolve with nothing stored, write down what was minted.
fn run_with_nothing_stored(raw: &str) -> String {
    let file = read(raw).unwrap();
    let resolved = resolve_secrets(file.topology(), &NothingStored);
    let found = minted(file.topology(), &resolved).unwrap();
    record_file(raw, &file, &found).unwrap()
}

/// One run: resolve, write down what was minted.
fn run(raw: &str) -> String {
    let file = read(raw).unwrap();
    let (_, found) = resolve(file.topology());
    record_file(raw, &file, &generated_values(&found)).unwrap()
}

/// The fields that are set.
fn keys_of(o: &Obfuscation) -> Vec<&'static str> {
    let all = [
        ("jc", o.jc.is_some()),
        ("jmin", o.jmin.is_some()),
        ("jmax", o.jmax.is_some()),
        ("s1", o.s1.is_some()),
        ("s2", o.s2.is_some()),
        ("s3", o.s3.is_some()),
        ("s4", o.s4.is_some()),
        ("h1", o.h1.is_some()),
        ("h2", o.h2.is_some()),
        ("h3", o.h3.is_some()),
        ("h4", o.h4.is_some()),
        ("random_trailers", o.random_trailers.is_some()),
        ("disable_cookies", o.disable_cookies.is_some()),
    ];
    all.iter().filter(|(_, set)| *set).map(|(name, _)| *name).collect()
}

#[test]
fn minted_every_node_gets_its_key_written_into_its_entry() {
    let recorded = run_with_nothing_stored(&slipmesh());
    for node in topology(&recorded).nodes {
        let key = node.mesh_private_key.expect(&node.name);
        assert!(
            recorded.contains(&format!(
                "      node_id: {}\n      mesh_private_key: {key}\n",
                node.node_id
            )),
            "{recorded}"
        );
    }
}

#[test]
fn minted_a_link_gets_the_nine_generated_fields_nested_under_it() {
    let recorded = run_with_nothing_stored(&slipmesh());
    assert!(
        recorded.contains("          port: 51820\n          obfuscation:\n            jc: "),
        "{recorded}"
    );
    let links = topology(&recorded).mesh.links;
    assert_eq!(keys_of(&links[0].obfuscation), NINE);
}

#[test]
fn minted_plain_links_and_pools_get_no_obfuscation() {
    let topology = topology(&run_with_nothing_stored(&slipmesh()));
    assert_eq!(topology.mesh.links[1].obfuscation, Obfuscation::default());
    let plain = &topology.roadwarriors[1];
    assert!(plain.private_key.is_some());
    assert_eq!(plain.obfuscation, Obfuscation::default());
}

#[test]
fn minted_a_pool_with_all_nine_fields_written_gets_only_its_key() {
    let recorded = run_with_nothing_stored(&slipmesh());
    let pool = &topology(&recorded).roadwarriors[0];
    assert!(pool.private_key.is_some());
    assert_eq!(pool.obfuscation.jc, Some(4));
    assert_eq!(recorded.matches("jc:").count(), 2, "{recorded}");
}

#[test]
fn minted_switches_that_are_never_generated_are_never_written() {
    let raw = slipmesh().replace(
        "cluster:\n",
        "obfuscation:\n    random_trailers: true\n    disable_cookies: true\ncluster:\n",
    );
    let links = topology(&run_with_nothing_stored(&raw)).mesh.links;
    let written = keys_of(&links[0].obfuscation);
    assert_eq!(written, NINE, "the link's own fields only");
}

#[test]
fn minted_a_field_set_globally_is_not_written_down() {
    let raw = slipmesh().replace("cluster:\n", "obfuscation:\n    jc: 5\ncluster:\n");
    let recorded = run_with_nothing_stored(&raw);
    let links = topology(&recorded).mesh.links;
    assert!(!keys_of(&links[0].obfuscation).contains(&"jc"));
    assert_eq!(keys_of(&links[0].obfuscation).len(), 8);
}

#[test]
fn minted_a_field_set_on_the_link_stays_and_the_rest_join_it() {
    let raw = slipmesh().replace(
        "          port: 51820\n",
        "          port: 51820\n          obfuscation:\n            jc: 9\n",
    );
    let recorded = run_with_nothing_stored(&raw);
    let obfuscation = &topology(&recorded).mesh.links[0].obfuscation;
    assert_eq!(obfuscation.jc, Some(9));
    assert_eq!(keys_of(obfuscation).len(), 9);
    assert!(
        recorded.contains("          obfuscation:\n            jc: 9\n            jmin: "),
        "{recorded}"
    );
}

#[test]
fn minted_nothing_but_the_new_lines_changes() {
    let raw = slipmesh();
    let recorded = run_with_nothing_stored(&raw);
    let deleted = similar::TextDiff::from_lines(&raw, &recorded)
        .iter_all_changes()
        .filter(|c| c.tag() == similar::ChangeTag::Delete)
        .count();
    assert_eq!(deleted, 0, "{recorded}");
}

#[test]
fn minted_a_second_run_mints_nothing_and_changes_nothing() {
    let first = run_with_nothing_stored(&slipmesh());
    let file = read(&first).unwrap();
    let resolved = resolve_secrets(file.topology(), &NothingStored);
    let found = minted(file.topology(), &resolved).unwrap();
    assert!(found.is_empty(), "{:?}", found.routes());
    assert_eq!(record_file(&first, &file, &found).unwrap(), first);
}

#[test]
fn minted_a_flow_entry_takes_its_value_in_flow_style() {
    let raw = slipmesh().replace(
        "    - name: node-c\n      node_id: 10.62.0.3\n",
        "    - {name: node-c, node_id: 10.62.0.3}\n",
    );
    let recorded = run_with_nothing_stored(&raw);
    let line = recorded
        .lines()
        .find(|l| l.contains("node-c,"))
        .expect(&recorded);
    assert!(line.contains("mesh_private_key"), "{line}");
    assert!(topology(&recorded).nodes[2].mesh_private_key.is_some());
}

#[test]
fn minted_routes_name_each_value_by_what_it_belongs_to() {
    let raw = slipmesh();
    let topology = topology(&raw);
    let resolved = resolve_secrets(&topology, &NothingStored);
    assert_eq!(
        minted(&topology, &resolved).unwrap().routes(),
        [
            "nodes[node-a].mesh_private_key",
            "nodes[node-b].mesh_private_key",
            "nodes[node-c].mesh_private_key",
            "mesh.links[node-a|node-b].obfuscation",
            "roadwarriors[obfuscated].private_key",
            "roadwarriors[plain].private_key",
        ]
    );
}

#[test]
fn edit_every_node_gets_its_key_written_into_its_entry() {
    let recorded = run(&slipmesh());
    for node in topology(&recorded).nodes {
        let key = node.mesh_private_key.expect(&node.name);
        assert!(
            recorded.contains(&format!(
                "      node_id: {}\n      mesh_private_key: {key}\n",
                node.node_id
            )),
            "{recorded}"
        );
    }
}

#[test]
fn edit_a_link_gets_the_nine_generated_fields_nested_under_it() {
    let recorded = run(&slipmesh());
    assert!(
        recorded.contains("          port: 51820\n          obfuscation:\n            jc: "),
        "{recorded}"
    );
    let links = topology(&recorded).mesh.links;
    assert_eq!(keys_of(&links[0].obfuscation), NINE);
}

#[test]
fn edit_plain_links_and_pools_get_no_obfuscation() {
    let topology = topology(&run(&slipmesh()));
    assert_eq!(topology.mesh.links[1].obfuscation, Obfuscation::default());
    let plain = &topology.roadwarriors[1];
    assert!(plain.private_key.is_some());
    assert_eq!(plain.obfuscation, Obfuscation::default());
}

#[test]
fn edit_a_pool_with_all_nine_fields_written_gets_only_its_key() {
    let recorded = run(&slipmesh());
    let pool = &topology(&recorded).roadwarriors[0];
    assert!(pool.private_key.is_some());
    assert_eq!(pool.obfuscation.jc, Some(4));
    assert_eq!(recorded.matches("jc:").count(), 2, "{recorded}");
}

#[test]
fn edit_switches_that_are_never_generated_are_never_written() {
    let raw = slipmesh().replace(
        "cluster:\n",
        "obfuscation:\n    random_trailers: true\n    disable_cookies: true\ncluster:\n",
    );
    let links = topology(&run(&raw)).mesh.links;
    let written = keys_of(&links[0].obfuscation);
    assert_eq!(written, NINE, "the link's own fields only");
}

#[test]
fn edit_a_field_set_globally_is_not_written_down() {
    let raw = slipmesh().replace("cluster:\n", "obfuscation:\n    jc: 5\ncluster:\n");
    let recorded = run(&raw);
    let links = topology(&recorded).mesh.links;
    assert!(!keys_of(&links[0].obfuscation).contains(&"jc"));
    assert_eq!(keys_of(&links[0].obfuscation).len(), 8);
}

#[test]
fn edit_a_field_set_on_the_link_stays_and_the_rest_join_it() {
    let raw = slipmesh().replace(
        "          port: 51820\n",
        "          port: 51820\n          obfuscation:\n            jc: 9\n",
    );
    let recorded = run(&raw);
    let obfuscation = &topology(&recorded).mesh.links[0].obfuscation;
    assert_eq!(obfuscation.jc, Some(9));
    assert_eq!(keys_of(obfuscation).len(), 9);
    assert!(
        recorded.contains("          obfuscation:\n            jc: 9\n            jmin: "),
        "{recorded}"
    );
}

#[test]
fn edit_nothing_but_the_new_lines_changes() {
    let raw = slipmesh();
    let recorded = run(&raw);
    let deleted = similar::TextDiff::from_lines(&raw, &recorded)
        .iter_all_changes()
        .filter(|c| c.tag() == similar::ChangeTag::Delete)
        .count();
    assert_eq!(deleted, 0, "{recorded}");
}

#[test]
fn edit_a_second_run_mints_nothing_and_changes_nothing() {
    let first = run(&slipmesh());
    let file = read(&first).unwrap();
    let (_, found) = resolve(file.topology());
    let found = generated_values(&found);
    assert!(found.is_empty(), "{:?}", found.routes());
    assert_eq!(record_file(&first, &file, &found).unwrap(), first);
}

#[test]
fn edit_a_flow_entry_takes_its_value_in_flow_style() {
    let raw = slipmesh().replace(
        "    - name: node-c\n      node_id: 10.62.0.3\n",
        "    - {name: node-c, node_id: 10.62.0.3}\n",
    );
    let recorded = run(&raw);
    let line = recorded
        .lines()
        .find(|l| l.contains("node-c,"))
        .expect(&recorded);
    assert!(line.contains("mesh_private_key"), "{line}");
    assert!(topology(&recorded).nodes[2].mesh_private_key.is_some());
}

fn client(name: &str) -> RoadwarriorClient {
    RoadwarriorClient {
        name: name.to_owned(),
        public_key: format!("{name}="),
        allowed_ips: vec!["198.51.100.99/32".to_owned()],
        advanced_security: false,
    }
}

/// The clients of a pool's document.
fn listed_in(source: &str) -> Vec<ClientFields> {
    let clients = pool_of(&parsed(source)).unwrap().clients;
    clients
        .into_iter()
        .map(|c| ClientFields {
            name: c.name,
            public_key: c.public_key,
            allowed_ips: c.allowed_ips,
        })
        .collect()
}

/// `source` with a client added, and the clients of its pool likewise.
fn edited(source: &str, name: &str) -> (String, Vec<String>) {
    let added = client(name);
    let out =
        add_client_to_yaml(source, &added.name, &added.public_key, &added.allowed_ips).unwrap();
    let listed = PoolClients { clients: parsed(source).get("clients").map(|_| listed_in(source)) };
    let after = add_client(listed, &added).clients.unwrap();
    let names = after.iter().map(|c| c.name.clone()).collect();
    assert_eq!(listed_in(&out), after);
    (out, names)
}

#[test]
fn add_client_appends_and_leaves_the_rest_untouched() {
    let (out, names) = edited(PLAIN_POOL, "dave");
    assert!(out.starts_with(PLAIN_POOL), "{out}");
    assert_eq!(names, ["alice", "bob", "dave"]);
}

#[test]
fn add_client_starts_the_list_a_pool_lacks() {
    let pool = PLAIN_POOL.split("clients:").next().unwrap();
    let (out, names) = edited(pool, "dave");
    assert!(out.starts_with(pool), "{out}");
    assert_eq!(names, ["dave"]);
}

#[test]
fn add_client_onto_an_empty_flow_clients_list() {
    let src = r#"slipmesh:
  kind: roadwarriors
name: fresh
node_hostnames: ["a"]
address: "198.51.100.250/24"
listen_port: 51830
clients: []
"#;
    let (out, names) = edited(src, "eve");
    assert!(out.starts_with(&src[..src.find("clients").unwrap()]), "{out}");
    assert_eq!(names, ["eve"]);
}

#[test]
fn remove_client_deletes_exactly_the_target() {
    let out = remove_client_from_yaml(PLAIN_POOL, 0).unwrap();
    assert_eq!(
        out,
        PLAIN_POOL.replace(
            "  - {name: alice, public_key: \"AAA=\", allowed_ips: [\"198.51.100.41/32\"]}\n",
            ""
        )
    );
    let clients = Some(listed_in(PLAIN_POOL));
    let left = remove_client(PoolClients { clients }, 0).unwrap();
    assert_eq!(left.clients, Some(listed_in(&out)));
}

// A run of the generator.

const RESET: &str = "\x1b[0m";

#[test]
fn colored_prefix_without_color_is_plain_signs_with_no_reset() {
    assert_eq!(colored_prefix(ChangeTag::Delete, false), ("-", ""));
    assert_eq!(colored_prefix(ChangeTag::Insert, false), ("+", ""));
    assert_eq!(colored_prefix(ChangeTag::Equal, false), (" ", ""));
}

#[test]
fn colored_prefix_with_color_wraps_delete_in_red_and_insert_in_green() {
    let (prefix, reset) = colored_prefix(ChangeTag::Delete, true);
    assert_eq!(prefix, "\x1b[31m-");
    assert_eq!(reset, RESET);
    let (prefix, reset) = colored_prefix(ChangeTag::Insert, true);
    assert_eq!(prefix, "\x1b[32m+");
    assert_eq!(reset, RESET);
}

#[test]
fn colored_prefix_equal_line_is_never_colored() {
    assert_eq!(colored_prefix(ChangeTag::Equal, true), (" ", ""));
}

#[test]
fn render_extension_service_document_is_the_serializers_output() {
    let inner = "interfaces:\n- name: mesh-b\n  listen_port: 51820\n";
    let doc = render_extension_service_document("awg", "/etc/talos-extensions/awg.yaml", inner)
        .unwrap();
    assert_eq!(
        doc,
        "apiVersion: v1alpha1\nkind: ExtensionServiceConfig\nname: awg\nconfigFiles:\n- mountPath: /etc/talos-extensions/awg.yaml\n  content: |\n    interfaces:\n    - name: mesh-b\n      listen_port: 51820\n"
    );
}

#[test]
fn render_extension_service_document_round_trips_through_owned_segment_and_serde() {
    let inner = "ruleset: table inet x {}\n";
    let doc = render_extension_service_document(
        "nftables",
        "/etc/talos-extensions/nftables.yaml",
        inner,
    )
    .unwrap();
    let found = owned_segment(&doc, "nftables").unwrap();
    assert!(is_owned(&found));
    let inner = content(&found, 0);
    let config = parsed(inner.as_str().unwrap());
    assert_eq!(config["ruleset"], "table inet x {}");
}

const SLIPMESH: &str = r#"slipmesh:
  kind: network
cluster:
  bgp_as: 64512
  loopback_networks: {ipv4: "10.62.0.0/16", ipv6: "fd00:62::/32"}
nodes:
  - {name: a, node_id: "10.62.0.1", endpoint: "192.0.2.10"}
  - {name: b, node_id: "10.62.0.2", endpoint: "192.0.2.11"}
  - {name: c, node_id: "10.62.0.3"}
  - {name: d, node_id: "10.62.0.4"}
mesh:
  links:
    - {pair: [a, b], port: 51820}
---
slipmesh:
  kind: patch
  include: [a]
apiVersion: v1alpha1
kind: UnattendedInstallConfig
installer:
    disk: /dev/vda
"#;

/// What a run leaves behind: the file, and a patch file for each host that was rendered.
type Run = (String, Vec<(String, String)>);

fn fields(o: &Obfuscation) -> String {
    let short = |name: &str, v: Option<u16>| v.map(|n| format!("{name}: {n}"));
    let long = |name: &str, v: Option<u32>| v.map(|n| format!("{name}: {n}"));
    let all = [
        short("jc", o.jc),
        short("jmin", o.jmin),
        short("jmax", o.jmax),
        short("s1", o.s1),
        short("s2", o.s2),
        long("h1", o.h1),
        long("h2", o.h2),
        long("h3", o.h3),
        long("h4", o.h4),
    ];
    all.into_iter().flatten().collect::<Vec<_>>().join(", ")
}

/// The parts of a config that a later run reads back.
fn awg_text(config: &AwgConfig) -> String {
    let interfaces = config.interfaces.iter().map(|i| {
        format!(
            "- name: {}\n  listen_port: {}\n  private_key: {}\n  obfuscation: {{{}}}\n",
            i.name,
            i.listen_port,
            i.private_key,
            fields(&i.obfuscation)
        )
    });
    format!("interfaces:\n{}", interfaces.collect::<String>())
}

fn generate_run(raw: &str, node: Option<&str>, dry_run: bool) -> Result<Run, GenerateError> {
    let file = read(raw).unwrap();
    let hosts = targets(&file, node)?;
    let (resolved, found) = settle_secrets(file.topology(), dry_run)?;
    let plans = render_hosts(&file, &resolved, &hosts).map_err(|(_, e)| e)?;
    let mut files = vec![];
    for (host, plan) in hosts.into_iter().zip(plans) {
        let document = |name: &str, inner: &str| {
            let mount = format!("/etc/talos-extensions/{name}.yaml");
            let text = render_extension_service_document(name, &mount, inner).unwrap();
            text.trim_end().to_string()
        };
        let mut generated = vec![
            document("awg", &awg_text(&plan.awg)),
            document("router", &format!("as: {}\n", plan.router.bgp_as)),
        ];
        if let Some(n) = &plan.nftables {
            let indented: String = n.ruleset.lines().map(|l| format!("  {l}\n")).collect();
            generated.push(document("nftables", &format!("ruleset: |\n{indented}")));
        }
        files.push((host, host_file(&plan.patches, &generated)));
    }
    Ok((record_file(raw, &file, &found).unwrap(), files))
}

fn patch<'a>(run: &'a Run, host: &str) -> &'a str {
    value_of::<String>(&run.1, host)
}

#[test]
fn generate_writes_what_it_minted_into_slipmesh_yaml() {
    let (written, _) = generate_run(SLIPMESH, None, false).unwrap();
    let topology = topology(&written);
    for node in &topology.nodes {
        assert!(node.mesh_private_key.is_some(), "{}", node.name);
    }
    assert!(topology.mesh.links[0].obfuscation.h1.is_some());
}

#[test]
fn generate_writes_each_host_its_patches_and_its_generated_documents() {
    let run = generate_run(SLIPMESH, None, false).unwrap();
    let a = patch(&run, "a");
    assert!(a.contains("disk: /dev/vda"), "{a}");
    let awg = owned_segment(a, "awg").unwrap();
    assert!(awg.contains("mesh-b"), "{awg}");
    assert!(owned_segment(a, "router").is_some());
    assert!(!patch(&run, "b").contains("disk:"));
    assert_eq!(foreign_segments(a.strip_prefix(HEADER).unwrap()).len(), 1);
}

#[test]
fn every_written_file_opens_with_the_header() {
    let run = generate_run(SLIPMESH, None, false).unwrap();
    for host in ["a", "b", "c", "d"] {
        assert!(patch(&run, host).starts_with(HEADER), "{host}");
    }
}

#[test]
fn a_dry_run_that_would_mint_a_secret_fails_and_writes_nothing() {
    let Err(GenerateError::Unminted(routes)) = generate_run(SLIPMESH, None, true) else {
        panic!("a dry run minted secrets");
    };
    assert_eq!(
        routes,
        [
            "nodes[a].mesh_private_key",
            "nodes[b].mesh_private_key",
            "nodes[c].mesh_private_key",
            "nodes[d].mesh_private_key",
            "mesh.links[a|b].obfuscation",
        ]
    );
}

#[test]
fn a_check_after_a_full_run_passes_and_writes_nothing() {
    let (written, files) = generate_run(SLIPMESH, None, false).unwrap();
    assert_eq!(generate_run(&written, None, true).unwrap(), (written, files));
}

#[test]
fn two_dry_runs_render_the_same() {
    let (written, _) = generate_run(SLIPMESH, None, false).unwrap();
    let render = || generate_run(&written, None, true).unwrap();
    assert_eq!(render(), render());
}

#[test]
fn a_second_run_changes_nothing() {
    let first = generate_run(SLIPMESH, None, false).unwrap();
    assert_eq!(generate_run(&first.0, None, false).unwrap(), first);
}

#[test]
fn regenerating_one_host_from_scratch_twice_changes_nothing() {
    let first = generate_run(SLIPMESH, Some("a"), false).unwrap();
    assert_eq!(generate_run(&first.0, Some("a"), false).unwrap(), first);
    assert_eq!(first.1.len(), 1);
    assert_eq!(first.1[0].0, "a");
}

#[test]
fn a_host_that_fails_validation_leaves_every_host_unwritten() {
    let raw = format!(
        "{SLIPMESH}---\nslipmesh:\n  kind: nftables\n  include: [d]\nruleset: |\n  table inet t {{ {{{{ bogus }}}} }}\n"
    );
    assert!(matches!(generate_run(&raw, None, false), Err(GenerateError::InvalidRuleset)));
    let file = read(&raw).unwrap();
    let hosts = targets(&file, None).unwrap();
    let (resolved, _) = settle_secrets(file.topology(), false).unwrap();
    let (at, _) = render_hosts(&file, &resolved, &hosts).unwrap_err();
    assert_eq!(hosts[at], "d");
    assert!(generate_run(&raw, Some("a"), false).is_ok());
}

#[test]
fn generate_rejects_an_unknown_node() {
    assert!(matches!(
        generate_run(SLIPMESH, Some("nonexistent"), false),
        Err(GenerateError::UnknownNode)
    ));
}

const POOLS: &str = r#"---
slipmesh:
  kind: roadwarriors
name: first
node_hostnames: [a]
address: "198.51.100.1/24"
listen_port: 51900
clients: []
---
slipmesh:
  kind: roadwarriors
name: second
node_hostnames: [b]
address: "203.0.113.1/24"
listen_port: 51901
clients:
  - {name: carol, public_key: "CCC=", allowed_ips: ["203.0.113.22/32"]}
"#;

/// The file with one pool's document replaced by what `edit` makes of it.
fn in_pool<T>(raw: &str, pool: &str, edit: impl FnOnce(&str) -> (String, T)) -> (String, T) {
    let file = read(raw).unwrap();
    let span = file.documents[file.find_pool(pool).unwrap()].span.clone();
    let (document, out) = edit(&raw[span.clone()]);
    (splice(raw, span, &document), out)
}

#[test]
fn rw_add_edits_only_the_pools_own_document() {
    let raw = format!("{SLIPMESH}{POOLS}");
    // Minted first, so that the only change the client makes is its own.
    let (before, _) = generate_run(&raw, None, false).unwrap();
    let file = read(&before).unwrap();
    let span = file.documents[file.find_pool("first").unwrap()].span.clone();
    let (resolved, _) = settle_secrets(file.topology(), true).unwrap();
    let (after, shown) = in_pool(&before, "first", |document| {
        add(
            file.topology(),
            document,
            &resolved,
            "first",
            "dave",
            "198.51.100.99",
            Some("DDD="),
            None,
            false,
            false,
        )
        .unwrap()
    });
    assert!(shown.is_none());
    assert!(after.starts_with(&before[..span.start]), "{after}");
    assert!(after.ends_with(&before[span.end..]), "{after}");
    let file = read(&after).unwrap();
    let new_span = file.documents[file.find_pool("first").unwrap()].span.clone();
    assert!(after[new_span].contains("name: dave"), "{after}");
}

#[test]
fn rw_del_edits_only_the_pools_own_document() {
    let before = format!("{SLIPMESH}{POOLS}");
    let file = read(&before).unwrap();
    let start = file.documents[file.find_pool("second").unwrap()].span.start;
    let (after, key) = in_pool(&before, "second", |document| {
        del(file.topology(), document, "second", "carol").unwrap()
    });
    assert_eq!(key, "CCC=");
    assert!(after.starts_with(&before[..start]), "{after}");
    assert!(!after.contains("carol"), "{after}");
}

#[test]
fn rw_add_to_an_unknown_pool_names_the_pools_there_are() {
    let file = read(&format!("{SLIPMESH}{POOLS}")).unwrap();
    assert_eq!(file.pool_document("third"), None);
    assert_eq!(find_pool(file.topology(), "third").unwrap_err().known, ["first", "second"]);
}

#[test]
fn rw_add_writes_down_the_pool_key_its_exported_config_was_built_with() {
    let raw = format!("{SLIPMESH}{POOLS}");
    let file = read(&raw).unwrap();
    let (resolved, found) = settle_secrets(file.topology(), false).unwrap();
    let recorded = record_file(&raw, &file, &found).unwrap();
    let (after, shown) = in_pool(&recorded, "first", |document| {
        add(
            file.topology(),
            document,
            &resolved,
            "first",
            "dave",
            "198.51.100.99",
            None,
            None,
            true,
            false,
        )
        .unwrap()
    });
    let topology = topology(&after);
    let key = topology.roadwarriors[0].private_key.as_ref().unwrap();
    let (_, config) = shown.unwrap();
    let expected = format!("PublicKey = {}\n", public_key_from_private(key).unwrap());
    assert!(config.contains(&expected), "{config}");
    assert_eq!(topology.roadwarriors[0].clients[0].name, "dave");
    generate_run(&after, None, true).unwrap();
}

#[test]
fn rw_inspect_needs_the_pool_key_to_be_written_down_already() {
    let raw = format!("{SLIPMESH}{POOLS}");
    let file = read(&raw).unwrap();
    assert!(matches!(
        settle_secrets(file.topology(), true),
        Err(GenerateError::Unminted(_))
    ));
    let nothing = ResolvedSecrets {
        mesh_private_keys: vec![],
        mesh_link_obfuscation: vec![],
        roadwarrior_private_keys: vec![],
        roadwarrior_obfuscation: vec![],
    };
    assert_eq!(
        inspect(file.topology(), &nothing, "second", "carol", None, None).unwrap_err().why,
        RoadwarriorError::NoPoolKey
    );
    let (written, _) = generate_run(&raw, None, false).unwrap();
    let file = read(&written).unwrap();
    let (resolved, _) = settle_secrets(file.topology(), true).unwrap();
    inspect(file.topology(), &resolved, "second", "carol", None, None).unwrap();
}

// Bringing an older topology over.

const RULESET: &str =
    "  ruleset: |\n    table inet talos_filter {\n        chain input { \n        }\n    }\n";

fn mesh_yaml(pool_key: &str) -> String {
    let obfuscated_pool_key = generate_private_key();
    format!(
        r#"cluster:
  bgp_as: 64512
  # a note inside the cluster block
  loopback_networks: {{ipv4: "10.62.0.0/16", ipv6: "fd00:62::/32"}}

nodes:
  - {{name: node-a, node_id: "10.62.0.1", endpoint: "192.0.2.10"}}
  - {{name: node-b, node_id: "10.62.0.2", endpoint: "192.0.2.11"}}

mesh:
  links:
    - pair: [node-a, node-b]
      port: 51820

roadwarriors:
  - name: plain
    node_hostnames: [node-a]
    address: "198.51.100.1/24"
    listen_port: 51900
    private_key: "{pool_key}"
    plain: true
    # clients get added by rw-add
    clients:
      - {{name: client-a, public_key: "AAA=", allowed_ips: ["198.51.100.2/32"]}}
  - name: obfuscated
    node_hostnames: [node-b]
    address: "203.0.113.1/24"
    listen_port: 51901
    private_key: "{obfuscated_pool_key}"
    obfuscation: {{jc: 4, jmin: 10, jmax: 50, s1: 1, s2: 2, h1: 5, h2: 6, h3: 7, h4: 8}}
    clients: []

# where traffic bypasses the mesh
bypass: []

nftables:
{RULESET}"#
    )
}

/// A patch file with a hand-written document, if any, ahead of the generated one.
fn older_file(foreign: &str, awg_yaml: &str) -> String {
    let content: String = awg_yaml.lines().map(|l| format!("      {l}\n")).collect();
    let awg = format!(
        "apiVersion: v1alpha1\nkind: ExtensionServiceConfig\nname: awg\nconfigFiles:\n  - mountPath: /etc/talos-extensions/awg.yaml\n    content: |\n{content}"
    );
    if foreign.is_empty() {
        format!("{awg}\n")
    } else {
        format!("{foreign}\n---\n{awg}\n")
    }
}

/// The topology and the patch files as one file, with every secret in it.
fn migration(mesh_yaml: &str, files: Vec<Option<String>>) -> Migration {
    let older = mesh(mesh_yaml);
    let raw = migrate(mesh_yaml, &older, &files).unwrap();
    let file = read(&raw).unwrap();
    let mut configs = vec![];
    for (node, text) in older.nodes.iter().zip(&files) {
        if let Some(awg) = text.as_ref().and_then(|t| owned_segment(t, "awg")) {
            configs.push((node.name.clone(), awg_of(content(&awg, 0).as_str().unwrap())));
        }
    }
    settle(&raw, &file, &FileExistingState { mesh: &older, configs }).unwrap()
}

struct Fixture {
    pool_key: String,
    node_a_key: String,
    node_b_key: String,
    migration: Migration,
}

fn migrated() -> Fixture {
    let pool_key = generate_private_key();
    let node_a_key = generate_private_key();
    let node_b_key = generate_private_key();
    let awg = |peer: &str, key: &str| {
        format!(
            "interfaces:\n  - name: mesh-{peer}\n    listen_port: 51820\n    private_key: \"{key}\"\n    obfuscation: {{jc: 9, jmin: 11, jmax: 51, s1: 3, s2: 4, h1: 15, h2: 16, h3: 17, h4: 18}}\n    peers: []\n"
        )
    };
    let a = older_file(
        "# this node boots from a different disk\napiVersion: v1alpha1\nkind: UnattendedInstallConfig\ninstaller:\n    disk: /dev/vda",
        &awg("node-b", &node_a_key),
    );
    let b = older_file("", &awg("node-a", &node_b_key));
    let migration = migration(&mesh_yaml(&pool_key), vec![Some(a), Some(b)]);
    Fixture { pool_key, node_a_key, node_b_key, migration }
}

#[test]
fn the_output_reads_as_slipmesh_yaml() {
    let file = read(&migrated().migration.slipmesh).unwrap();
    assert_eq!(file.hosts(), ["node-a", "node-b"]);
}

#[test]
fn the_network_document_is_the_topology_as_written_without_pools_or_ruleset() {
    let slipmesh = migrated().migration.slipmesh;
    let network = &split(&slipmesh).unwrap()[0];
    assert!(network.starts_with("slipmesh:\n  kind: network\n"), "{network}");
    assert!(network.contains("  # a note inside the cluster block\n"), "{network}");
    assert!(
        network.contains("\n\n# where traffic bypasses the mesh\nbypass: []"),
        "{network}"
    );
    assert!(!network.contains("roadwarriors"), "{network}");
    assert!(!network.contains("nftables"), "{network}");
}

#[test]
fn each_pool_is_its_own_document_as_written() {
    let fixture = migrated();
    let slipmesh = &fixture.migration.slipmesh;
    let pools: Vec<_> = split(slipmesh)
        .unwrap()
        .into_iter()
        .filter(|d| d.contains("kind: roadwarriors"))
        .collect();
    assert_eq!(pools.len(), 2, "{slipmesh}");
    assert!(pools[0].contains("\nname: plain\n"), "{}", pools[0]);
    assert!(
        pools[0].contains(&format!(
            "private_key: \"{}\"\nplain: true\n# clients get added by rw-add\nclients:\n  - {{name: client-a",
            fixture.pool_key
        )),
        "{}",
        pools[0]
    );
    assert!(!pools[1].contains("bypasses"), "{}", pools[1]);
}

#[test]
fn the_ruleset_is_one_document_reaching_every_host_with_its_text_unchanged() {
    let file = read(&migrated().migration.slipmesh).unwrap();
    let expected = "table inet talos_filter {\n    chain input { \n    }\n}\n";
    for host in ["node-a", "node-b"] {
        let ruleset = &file.effective_for(host).unwrap().nftables.unwrap().ruleset;
        assert_eq!(ruleset, expected, "{host}");
    }
}

#[test]
fn a_hand_written_patch_document_is_aimed_at_its_host() {
    let slipmesh = migrated().migration.slipmesh;
    let as_written = split(&slipmesh)
        .unwrap()
        .into_iter()
        .find(|d| d.contains("kind: patch"))
        .unwrap();
    assert!(
        as_written.contains(
            "# this node boots from a different disk\napiVersion: v1alpha1\nkind: UnattendedInstallConfig\ninstaller:\n    disk: /dev/vda"
        ),
        "{as_written}"
    );
    let file = read(&slipmesh).unwrap();
    let patches = file.patches_for("node-a").unwrap();
    assert_eq!(patches.len(), 1);
    assert_eq!(patches[0].identity, "UnattendedInstallConfig");
    assert!(file.patches_for("node-b").unwrap().is_empty());
}

#[test]
fn keys_and_obfuscation_from_the_patch_files_are_written_into_their_fields() {
    let fixture = migrated();
    let topology = topology(&fixture.migration.slipmesh);
    assert_eq!(
        topology.nodes[0].mesh_private_key.as_deref(),
        Some(fixture.node_a_key.as_str())
    );
    assert_eq!(
        topology.nodes[1].mesh_private_key.as_deref(),
        Some(fixture.node_b_key.as_str())
    );
    assert_eq!(topology.mesh.links[0].obfuscation.jc, Some(9));
    assert!(fixture.migration.minted.is_empty(), "{:?}", fixture.migration.minted);
}

#[test]
fn a_pool_with_its_obfuscation_written_out_gets_nothing_added() {
    let slipmesh = migrated().migration.slipmesh;
    let pool = split(&slipmesh)
        .unwrap()
        .into_iter()
        .find(|d| d.contains("\nname: obfuscated\n"))
        .unwrap();
    assert_eq!(pool.matches("obfuscation").count(), 1, "{pool}");
    assert_eq!(topology(&slipmesh).roadwarriors[1].obfuscation.jc, Some(4));
}

#[test]
fn a_secret_found_nowhere_is_reported_as_minted() {
    let migration = migration(&mesh_yaml(&generate_private_key()), vec![None, None]);
    assert!(
        migration.minted.contains(&"nodes[node-a].mesh_private_key".to_owned()),
        "{:?}",
        migration.minted
    );
    assert!(topology(&migration.slipmesh).nodes[0].mesh_private_key.is_some());
}

/// Six hosts, three plain links, a plain pool, an obfuscated pool with its fields written out, and a
/// ruleset with a `---` line and a line with a trailing space.
fn legacy_mesh_yaml() -> String {
    let plain_key = generate_private_key();
    let obfuscated_key = generate_private_key();
    format!(
        r#"bfd:
  enable: true

cluster:
  bgp_as: 64512
  loopback_networks: {{ipv4: "10.62.0.0/24", ipv6: "fd00:62::/120"}}
  # the metrics ports every node listens on
  awg_metrics_port: 9586

nodes:
  - {{name: node-a, node_id: "10.62.0.1", endpoint: "192.0.2.1"}}
  - {{name: node-b, node_id: "10.62.0.2", endpoint: "192.0.2.2"}}
  - {{name: node-c, node_id: "10.62.0.3", endpoint: "192.0.2.3"}}
  - {{name: node-d, node_id: "10.62.0.4", endpoint: "192.0.2.4"}}
  - {{name: node-e, node_id: "10.62.0.5"}}
  - {{name: router-1, node_id: "10.62.0.6", endpoint: "192.0.2.6"}}

mesh:
  links:
    - pair: [node-a, node-b]
      port: 52801
    - pair: [node-b, node-c]
      port: 52802
    - pair: [node-c, node-a]
      port: 52803

    - pair: [node-d, node-a]
      port: 52821
    - pair: [node-e, node-d]
      port: 52886

    - pair: [router-1, node-a]
      port: 52891
      plain: true
    - pair: [router-1, node-b]
      port: 52892
      plain: true
    - pair: [router-1, node-c]
      port: 52893
      plain: true

roadwarriors:
  - name: plain
    node_hostnames: [node-a, node-b]
    address: "198.51.100.1/24"
    listen_port: 51820
    private_key: "{plain_key}"
    plain: true
    clients:
      - {{name: client-a, public_key: "AAA=", allowed_ips: ["198.51.100.2/32"]}}
  - name: obfuscated
    node_hostnames: [node-c]
    address: "203.0.113.1/24"
    listen_port: 51821
    private_key: "{obfuscated_key}"
    obfuscation:
      jc: 4
      jmin: 81
      jmax: 408
      s1: 1114
      s2: 131
      h1: 883683258
      h2: 2249923740
      h3: 891489045
      h4: 2070706730
    clients: []

# prefixes that leave through the local uplink
bypass:
  - node: node-d
    include:
      - {{kind: literal, prefixes: [{{net: "203.0.113.128/25"}}]}}

nftables:
  ruleset: |
    table inet talos_filter {{
        chain input {{
            type filter hook input priority filter; policy accept;
    ---
        }}
    }}
"#
    )
    .replace("        chain input {\n", "        chain input { \n")
}

/// Hand-written documents ahead of the generated ones, by host.
fn legacy_hand_written(host: &str) -> Vec<String> {
    match host {
        "node-d" => vec![
            "apiVersion: v1alpha1\nkind: UnattendedInstallConfig\ninstaller:\n    disk: /dev/vda"
                .to_owned(),
        ],
        "node-e" => vec![
            "# a smaller box\napiVersion: v1alpha1\nkind: UnattendedInstallConfig\ninstaller:\n    disk: /dev/nvme0n1"
                .to_owned(),
        ],
        "router-1" => vec![
            "apiVersion: v1alpha1\nkind: ExtensionServiceConfig\nname: device\nconfigFiles:\n  - content: |\n      password: \"x\" \n      -----BEGIN CERTIFICATE-----\n      MIIB\n      -----END CERTIFICATE-----\n    mountPath: /etc/device.yaml"
                .to_owned(),
        ],
        _ => Vec::new(),
    }
}

const HOSTS: [&str; 6] = ["node-a", "node-b", "node-c", "node-d", "node-e", "router-1"];

#[test]
fn a_migrated_repository_regenerates_its_patch_files_document_for_document() {
    let mesh = legacy_mesh_yaml();
    assert!(mesh.contains("chain input { \n"), "the fixture lost its trailing space");
    let bootstrap = migration(&mesh, vec![None; 6]);
    let (_, generated) = generate_run(&bootstrap.slipmesh, None, false).unwrap();
    let legacy: Vec<String> = HOSTS
        .iter()
        .map(|host| {
            let text = value_of::<String>(&generated, host).strip_prefix(HEADER).unwrap();
            let mut all = legacy_hand_written(host);
            all.push(text.to_owned());
            all.join("\n---\n")
        })
        .collect();

    let migration = migration(&mesh, legacy.iter().cloned().map(Some).collect());
    assert!(migration.minted.is_empty(), "{:?}", migration.minted);
    assert_eq!(topology(&migration.slipmesh).roadwarriors.len(), 2);

    let run = generate_run(&migration.slipmesh, None, false).unwrap();
    for (host, before) in HOSTS.iter().zip(&legacy) {
        let after = patch(&run, host).strip_prefix(HEADER).unwrap();
        let values = |text: &str| {
            split(text).unwrap().iter().map(|d| parsed(&format!("{d}\n"))).collect::<Vec<_>>()
        };
        assert_eq!(values(after), values(before), "{host}");
    }
    assert_eq!(generate_run(&run.0, None, false).unwrap(), run);
}

#[test]
fn a_patch_that_names_the_host_lands_on_top_wherever_it_stands() {
    let aimed = "slipmesh:\n  kind: patch\n  include: [node-a]\napiVersion: v1alpha1\nkind: KubeletConfig\nextraArgs:\n    v: \"4\"\n    rotate-server-certificates: \"false\"\n";
    let first = read(&file(&[NETWORK, aimed, KUBELET])).unwrap();
    let last = read(&file(&[NETWORK, KUBELET, aimed])).unwrap();
    let patches = first.patches_for("node-a").unwrap();
    assert_eq!(patches, last.patches_for("node-a").unwrap());
    let value = parsed(&patches[0].text);
    assert_eq!(value["extraArgs"]["rotate-server-certificates"], "false");
}

#[test]
fn a_client_comes_and_goes_in_a_list_in_brackets() {
    let pool = "name: p\nclients: [{name: a, public_key: A=}, {name: b, public_key: B=}] # both\n";
    assert_eq!(
        remove_client_from_yaml(pool, 0).unwrap(),
        "name: p\nclients: [{name: b, public_key: B=}] # both\n"
    );
    let added = with_client(pool, "c");
    assert_eq!(client_names(&added), ["a", "b", "c"]);
    assert_eq!(remove_client_from_yaml(&added, 2).unwrap(), pool);
}

#[test]
fn a_pool_without_clients_takes_one_again() {
    let pool = "name: p\nclients:\n  - {name: a, public_key: A=, allowed_ips: []}\nplain: true\n";
    let empty = remove_client_from_yaml(pool, 0).unwrap();
    assert_eq!(empty, "name: p\nclients:\nplain: true\n");
    let again = with_client(&empty, "b");
    assert_eq!(client_names(&again), ["b"]);
    assert!(again.ends_with("plain: true\n"), "{again}");
}

#[test]
fn secrets_go_behind_keys_without_a_value() {
    let raw = slipmesh()
        .replace(
            "    - name: node-a\n",
            "    - name: node-a\n      mesh_private_key:\n",
        )
        .replace(
            "          port: 51820\n",
            "          port: 51820\n          obfuscation:\n            jc: ~\n",
        )
        .replace("name: plain\n", "name: plain\nprivate_key: # minted\n");
    let recorded = run(&raw);
    let topology = topology(&recorded);
    assert!(topology.nodes[0].mesh_private_key.is_some(), "{recorded}");
    assert_eq!(keys_of(&topology.mesh.links[0].obfuscation), NINE);
    let key = topology.roadwarriors[1].private_key.as_ref().unwrap();
    assert!(recorded.contains(&format!("private_key: {key} # minted\n")), "{recorded}");
    let empty = slipmesh().replace(
        "          port: 51820\n",
        "          port: 51820\n          obfuscation:\n",
    );
    let links = self::topology(&run(&empty)).mesh.links;
    assert_eq!(keys_of(&links[0].obfuscation), NINE);
}

#[test]
fn a_tag_in_a_patch_is_written_out_again() {
    let patch = "slipmesh:\n  kind: patch\napiVersion: v1alpha1\nkind: Thing\nsecret: !vault abc\nlist: !set [1]\n";
    let parsed = read(&file(&[NETWORK, patch])).unwrap();
    let documents = parsed.patches_for("node-a").unwrap();
    assert_eq!(
        documents[0].text,
        "apiVersion: v1alpha1\nkind: Thing\nsecret: !vault abc\nlist: !set\n- 1"
    );
}

#[test]
fn draws_become_parameters_field_by_field() {
    let o = from_draws(4, 20, 300, 15, 16, &[11, 12, 13, 14]);
    assert_eq!((o.jc, o.jmin, o.jmax), (Some(4), Some(20), Some(320)));
    assert_eq!((o.s1, o.s2), (Some(15), Some(16)));
    assert_eq!((o.h1, o.h2, o.h3, o.h4), (Some(11), Some(12), Some(13), Some(14)));
    assert_eq!((o.s3, o.i1, o.header_protection_key), (None, None, None));
}

#[test]
fn a_candidate_counts_only_the_numbers_that_are_free() {
    assert_eq!(magic_headers(&[5, 5, 5, 5]), [5, 6, 7, 8]);
    assert_eq!(magic_headers(&[100, 20, 99, 5]), [100, 20, 101, 5]);
    let top = u32::MAX;
    assert_eq!(magic_headers(&[top, top - 1, top - 2, top - 3]), [top, top - 1, top - 2, top - 3]);
    assert_eq!(magic_headers(&[5, top - 1, 6, top - 3]), [5, top, 7, top - 1]);
}

#[test]
fn a_tag_on_nothing_is_an_empty_list_of_hosts() {
    let patch = |meta: &str| {
        let text = format!("slipmesh:\n  kind: patch\n{meta}apiVersion: v1alpha1\nkind: KubeletConfig\n");
        file(&[NETWORK, &text])
    };
    let raw = patch("  include: !x null\n");
    assert_eq!(error(&raw), FileError::ReachesNoHost(line_of(&raw, "---\n")));
    assert_eq!(read(&patch("  exclude: !x\n")).unwrap().patches_for("node-a").unwrap().len(), 1);
    assert_eq!(read(&patch("  include: null\n")).unwrap().patches_for("node-a").unwrap().len(), 1);
    let network = NETWORK.replace("  kind: network\n", "  kind: network\n  exclude: !x null\n");
    assert_eq!(error(&network), FileError::Aimed(1));
}

#[test]
fn a_kind_may_be_written_as_a_tag() {
    let network = NETWORK.replace("  kind: network\n", "  kind: !network\n");
    read(&network).unwrap();
    let keyed = NETWORK.replace("  kind: network\n", "  !x kind: network\n");
    read(&keyed).unwrap();
    for (block, why) in [
        ("slipmesh:\n  kind: !patch x\n", MetaError::NoKind),
        ("slipmesh:\n  kind: !x patch\n", MetaError::NoKind),
        ("slipmesh:\n  kind: !x\n", MetaError::UnknownKind),
        ("slipmesh:\n  kind: patch\n  !x kind: patch\n", MetaError::RepeatedKey(1)),
    ] {
        let raw = file(&[NETWORK, block]);
        assert_eq!(error(&raw), FileError::BadMeta(line_of(&raw, "---\n"), why), "{block}");
    }
}

#[test]
fn what_an_added_client_was_shown_is_what_inspecting_it_shows() {
    let mut m = pools();
    let secrets = secrets_of(&m);
    let (_, shown) = add_to_plain_of(&m, &secrets);
    let (key, text) = shown.unwrap();
    let ClientPrivateKey::Known(key) = key else { panic!("the key was generated") };
    let public_key = public_key_from_private(&key).unwrap();
    let pool = m.roadwarriors.iter_mut().find(|p| p.name == "plain").unwrap();
    pool.clients.push(RoadwarriorClient {
        name: "dave".to_string(),
        public_key,
        allowed_ips: vec!["198.51.100.99/32".to_string()],
        advanced_security: false,
    });
    assert_eq!(inspect(&m, &secrets, "plain", "dave", Some(&key), None).unwrap(), text);
    assert_eq!(
        inspect(&m, &secrets, "plain", "dave", None, None).unwrap(),
        text.replace(&key, "<enter your private key here>")
    );
    let other = generate_private_key();
    assert_eq!(
        inspect(&m, &secrets, "plain", "dave", Some(&other), None).unwrap_err().why,
        RoadwarriorError::KeyMismatch
    );
}

fn add_to_plain_of(
    m: &MeshConfig,
    secrets: &ResolvedSecrets,
) -> (String, Option<(ClientPrivateKey, String)>) {
    add(m, PLAIN_POOL, secrets, "plain", "dave", "198.51.100.99", None, None, true, false).unwrap()
}

#[test]
fn a_link_key_tells_pairs_apart() {
    let key = |a: &str, b: &str| link_key(&[a.to_string(), b.to_string()]);
    assert_eq!(key("a", "b"), key("b", "a"));
    assert_ne!(key("a", "bc"), key("ab", "c"));
    // A name that holds the mark itself is not told apart.
    assert_eq!(key("a", "b|c"), key("a|b", "c"));
}

#[test]
fn merged_patches_are_counted() {
    let aimed = KUBELET.replace("  kind: patch\n", "  kind: patch\n  include: [node-b]\n");
    let parsed = read(&file(&[NETWORK, KUBELET, &aimed])).unwrap();
    assert_eq!(parsed.sources_for("node-a"), [1]);
    assert_eq!(parsed.sources_for("node-b"), [2]);
}

#[test]
fn a_second_run_over_stored_values_rotates_nothing() {
    let m = mesh(LINKED);
    let first = resolve_secrets(&m, &NothingStored);
    let stored = |node: &NodeEntry| {
        (node.name.clone(), render_awg_config(&m, &node.name, &first).unwrap())
    };
    let issued = FileExistingState { mesh: &m, configs: m.nodes.iter().map(stored).collect() };
    assert_eq!(resolve_secrets(&m, &issued), first);
    assert_ne!(resolve_secrets(&m, &NothingStored), first);
}
