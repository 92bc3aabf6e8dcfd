use slipmesh::common::addr::{format_ipv6, IpAddr};
use slipmesh::common::cidr::CidrError;
use slipmesh::router::bird::{
    current_bypass_routes, exact_iface_names, has_no_listening_socket, loopback_addresses,
    ospf_configured_interfaces, protocols_healthy, reconcile, render, render_iface_pattern,
    render_inputs,
    sanitize_comment, sanitize_protocol_id, sanitize_quoted, BgpPeer, BypassRoute, Reload,
    RenderInputs, RouterIdentity,
};
use slipmesh::router::birdc::{
    is_final_line, line_code, read_line, start_reply, strip_code_prefix, Reply,
};
use slipmesh::router::cidr::{
    address_exclude, collapse, contains, link_local_from_loopback, network_addr, parse_cidr, Cidr,
};
use slipmesh::router::config::{
    default_bypass_refresh_interval_secs, node_loopbacks, parse_loopback_address, validate,
    AnnounceEntry, BgpPeerEntry, BypassConfig, ConfigError, NodeIdentity, RouterConfig,
};
use slipmesh::router::exporter::args;
use slipmesh::router::resolver::{
    allocated_url, announced_url,
    asn_prefixes, collect_source, dedupe_and_aggregate, dns_prefixes, format_cidr,
    geoip_country_prefixes, label_all, resolve, validate_asn, validate_country, BypassSourceEntry,
    LabeledPrefix, Plan, SourceError,
};
use slipmesh::value::Value;

const FD00: u128 = 0xfd00 << 112;

fn identity() -> RouterIdentity {
    RouterIdentity { loopback: 0x0a3e_0001, ipv6_loopback: FD00 + 1 }
}

fn inputs() -> RenderInputs {
    RenderInputs {
        ospf_interfaces: vec![],
        bgp_peers: vec![],
        bypass: vec![],
        announce: vec![],
        learn: vec![],
        direct_interfaces: vec![],
    }
}

fn route(net: &str, label: &str) -> BypassRoute {
    BypassRoute { net: net.to_string(), label: label.to_string() }
}

fn bgp(name: &str) -> BgpPeer {
    BgpPeer { name: name.to_string(), address: FD00 + 2 }
}

#[test]
fn render_kernel_export_filter_installs_announce_locally_but_not_bypass() {
    let out = render(
        identity(),
        64512,
        &RenderInputs {
            bypass: vec![route("203.0.113.0/24", "some vendor")],
            announce: vec![route("10.60.0.0/16", "k8s-services")],
            ..inputs()
        },
    );
    let kernel_block = out
        .split("protocol kernel {")
        .nth(1)
        .expect("an ipv4 protocol kernel block must be present")
        .split("ipv6 {")
        .next()
        .unwrap();
    let announce_clause = kernel_block
        .split("if proto = \"ANNOUNCE\" then {")
        .nth(1)
        .expect("kernel export filter must single out proto = \"ANNOUNCE\"")
        .split('}')
        .next()
        .unwrap();
    assert!(announce_clause.contains("krt_prefsrc = 10.62.0.1;"));
    assert!(announce_clause.contains("accept;"));
    assert!(!kernel_block.contains("BYPASS"));
    assert!(!kernel_block.contains("RTS_STATIC"));
}

#[test]
fn render_includes_ospf_interfaces_as_names_and_cidrs() {
    let out = render(
        identity(),
        64512,
        &RenderInputs {
            ospf_interfaces: vec!["mesh-*".to_string(), "10.99.0.0/24".to_string()],
            ..inputs()
        },
    );
    assert!(out.contains("interface \"mesh-*\" { type ptp; };"));
    assert!(out.contains("interface 10.99.0.0/24 { type ptp; };"));
    assert!(out.contains("interface \"router-lo\" { stub yes; };"));
}

#[test]
fn render_direct_interfaces_is_empty_by_default() {
    let out = render(identity(), 64512, &inputs());
    assert!(out.contains("protocol direct direct1 {"));
    assert!(!out.contains("protocol direct direct_"));
}

#[test]
fn render_includes_a_protocol_direct_block_per_direct_interface() {
    let out = render(
        identity(),
        64512,
        &RenderInputs { direct_interfaces: vec!["cni0".to_string()], ..inputs() },
    );
    let block = out
        .split("protocol direct direct_cni0 {")
        .nth(1)
        .expect("a protocol direct block named after the interface must be present")
        .split("\n}\n")
        .next()
        .unwrap();
    assert!(block.contains("interface \"cni0\";"));
    assert!(block.contains("ipv4 { import all; };"));
}

#[test]
fn render_direct_interfaces_get_distinct_sanitized_protocol_ids() {
    let out = render(
        identity(),
        64512,
        &RenderInputs {
            direct_interfaces: vec!["cni0".to_string(), "my-bridge".to_string()],
            ..inputs()
        },
    );
    assert!(out.contains("protocol direct direct_cni0 {"));
    assert!(out.contains("protocol direct direct_my_bridge {"));
    assert!(out.contains("interface \"my-bridge\";"));
}

#[test]
fn render_includes_bgp_peer_with_sanitized_protocol_id() {
    let out =
        render(identity(), 64512, &RenderInputs { bgp_peers: vec![bgp("fra-1")], ..inputs() });
    assert!(out.contains("protocol bgp ibgp6_fra_1 {"));
    assert!(out.contains("neighbor fd00::2 as 64512;"));
    assert!(out.contains("local fd00::1 as 64512;"));
}

#[test]
fn bypass_and_announce_diverge_on_route_kind() {
    let out = render(
        identity(),
        64512,
        &RenderInputs {
            bypass: vec![route("203.0.113.0/24", "some vendor")],
            announce: vec![route("10.96.0.0/12", "k8s-services")],
            ..inputs()
        },
    );
    let bypass_block = out
        .split("protocol static BYPASS {")
        .nth(1)
        .unwrap()
        .split("\n}\n")
        .next()
        .unwrap();
    assert!(bypass_block.contains("blackhole;"));
    assert!(!bypass_block.contains("via \"router-lo\""));
    let announce_block = out
        .split("protocol static ANNOUNCE {")
        .nth(1)
        .unwrap()
        .split("\n}\n")
        .next()
        .unwrap();
    assert!(announce_block.contains("via \"router-lo\";"));
    assert!(!announce_block.contains("blackhole"));
}

#[test]
fn empty_learn_disables_kernel_learn_and_rts_inherit() {
    let conf =
        render(identity(), 64512, &RenderInputs { bgp_peers: vec![bgp("peer1")], ..inputs() });
    assert!(conf.contains("learn no;"));
    assert!(!conf.contains("import filter"));
    assert!(!conf.contains("RTS_INHERIT"));
}

#[test]
fn nonempty_learn_scopes_kernel_import_with_plus_modifier_and_exports_rts_inherit() {
    let conf = render(
        identity(),
        64512,
        &RenderInputs {
            bgp_peers: vec![bgp("peer1")],
            learn: vec!["10.99.0.0/24".to_string()],
            ..inputs()
        },
    );
    assert!(conf.contains("    learn all;\n"));
    assert!(!conf.contains("    learn;\n"));
    assert!(conf.contains("if net ~ [ 10.99.0.0/24+ ] then accept;"));
    assert!(conf.contains("if source = RTS_INHERIT then accept;"));
    assert!(!conf.contains("learn no;"));
}

#[test]
fn comment_strips_embedded_newlines() {
    assert_eq!(
        sanitize_comment("legit label\nprotocol static evil { route 0.0.0.0/0 blackhole; }"),
        "legit label protocol static evil { route 0.0.0.0/0 blackhole; }"
    );
    assert_eq!(sanitize_comment("plain label"), "plain label");
}

#[test]
fn sanitize_quoted_strips_quotes_and_newlines() {
    assert_eq!(
        sanitize_quoted("mesh-lon\"; protocol static evil { route 0.0.0.0/0 blackhole; } \""),
        "mesh-lon; protocol static evil { route 0.0.0.0/0 blackhole; } "
    );
    assert_eq!(sanitize_quoted("mesh-lon"), "mesh-lon");
}

#[test]
fn sanitize_protocol_id_replaces_invalid_characters() {
    assert_eq!(sanitize_protocol_id("fra-1"), "fra_1");
    assert_eq!(sanitize_protocol_id("fra.eu"), "fra_eu");
}

#[test]
fn sanitize_protocol_id_prefixes_a_leading_digit() {
    assert_eq!(sanitize_protocol_id("1fra"), "_1fra");
}

#[test]
fn exact_iface_names_excludes_globs_and_cidrs() {
    let entries =
        vec!["mesh-fra".to_string(), "mesh-*".to_string(), "10.99.0.0/24".to_string()];
    assert_eq!(exact_iface_names(&entries), vec!["mesh-fra".to_string()]);
}

#[test]
fn link_local_from_loopback_derives_fe80_from_low_32_bits() {
    assert_eq!(format_ipv6(link_local_from_loopback(FD00 + 0xa1b2_c3d4)), "fe80::a1b2:c3d4");
}

const SHOW_PROTOCOLS_NO_LISTENING_SOCKET: &str = "\
BIRD 2.19.1 ready.
Name       Proto      Table      State  Since         Info
device1    Device     ---        up     22:24:15.259
ospf1      OSPF       master4    up     22:24:15.259  Alone
ibgp_test  BGP        ---        down   22:24:15.266  Error: No listening socket
";

const SHOW_PROTOCOLS_HEALTHY: &str = "\
BIRD 2.19.1 ready.
Name       Proto      Table      State  Since         Info
device1    Device     ---        up     22:30:37.362
mesh       OSPF       master4    up     22:30:37.362  Alone
ibgp_test  BGP        ---        start  22:31:14.133  Connect
";

const SHOW_OSPF_INTERFACE_NONE_CONFIGURED: &str = "BIRD 2.19.1 ready.\nmesh:\n";

const SHOW_OSPF_INTERFACE_TWO_CONFIGURED: &str = "\
BIRD 2.19.1 ready.
mesh:
Interface lo (10.0.0.1/32)
\tType: nbma
\tArea: 0.0.0.0 (0)
\tState: Waiting (stub)
Interface mesh-a (10.99.0.0/31)
\tType: ptp
\tArea: 0.0.0.0 (0)
\tState: PtP (stub)
Interface mesh-b (10.99.0.2/31)
\tType: ptp
\tArea: 0.0.0.0 (0)
\tState: PtP (stub)
";

#[test]
fn detects_no_listening_socket() {
    assert!(has_no_listening_socket(SHOW_PROTOCOLS_NO_LISTENING_SOCKET));
}

#[test]
fn no_listening_socket_absent_when_healthy() {
    assert!(!has_no_listening_socket(SHOW_PROTOCOLS_HEALTHY));
}

#[test]
fn parses_configured_ospf_interfaces() {
    let configured = ospf_configured_interfaces(SHOW_OSPF_INTERFACE_TWO_CONFIGURED);
    assert_eq!(configured, vec!["lo", "mesh-a", "mesh-b"]);
}

#[test]
fn no_configured_ospf_interfaces_parses_as_empty() {
    assert!(ospf_configured_interfaces(SHOW_OSPF_INTERFACE_NONE_CONFIGURED).is_empty());
}

#[test]
fn bird_is_healthy_once_it_listens_and_every_interface_is_attached() {
    let both = vec!["mesh-a".to_string(), "mesh-b".to_string()];
    let (ok, bad) = (SHOW_PROTOCOLS_HEALTHY, SHOW_PROTOCOLS_NO_LISTENING_SOCKET);
    assert!(protocols_healthy(ok, SHOW_OSPF_INTERFACE_TWO_CONFIGURED, &both));
    assert!(!protocols_healthy(bad, SHOW_OSPF_INTERFACE_TWO_CONFIGURED, &both));
    assert!(!protocols_healthy(ok, SHOW_OSPF_INTERFACE_NONE_CONFIGURED, &both));
    assert!(protocols_healthy(ok, SHOW_OSPF_INTERFACE_NONE_CONFIGURED, &vec![]));
}

#[test]
fn only_a_changed_config_is_written() {
    assert_eq!(reconcile("a", "a"), Reload::Keep);
    assert_eq!(reconcile("a", "b"), Reload::Write);
    assert_eq!(render_iface_pattern("mesh-*"), "\"mesh-*\"");
    assert_eq!(render_iface_pattern("10.0.0.0/8"), "10.0.0.0/8");
}

#[test]
fn a_node_has_three_addresses_of_its_own() {
    assert_eq!(
        loopback_addresses(0x0a3e_0001, FD00 + 1),
        vec!["10.62.0.1/32", "fd00::1/128", "fe80::1/64"]
    );
}

#[test]
fn a_failed_refresh_keeps_the_last_routes() {
    let mut cache = None;
    let found = current_bypass_routes(Some(vec![route("10.0.0.0/8", "x")]), &mut cache);
    assert_eq!(found, vec![route("10.0.0.0/8", "x")]);
    assert_eq!(current_bypass_routes(None, &mut cache), vec![route("10.0.0.0/8", "x")]);
    assert!(current_bypass_routes(None, &mut None).is_empty());
}

#[test]
fn final_line_has_a_code_and_a_space() {
    assert!(is_final_line("0001 BIRD 2.19.2 ready.\n"));
    assert!(is_final_line("8002 syntax error\n"));
    assert!(is_final_line("0000 \n"));
}

#[test]
fn dash_separated_line_is_a_continuation() {
    assert!(!is_final_line("0013-mesh       OSPF       master4    up\n"));
}

#[test]
fn bare_leading_space_line_is_a_continuation() {
    assert!(!is_final_line("     Second line continues\n"));
}

#[test]
fn parses_the_code_from_a_dash_or_space_separated_line() {
    assert_eq!(line_code("0013-mesh\n"), Some(13));
    assert_eq!(line_code("8002 syntax error\n"), Some(8002));
}

#[test]
fn bare_leading_space_line_has_no_code() {
    assert_eq!(line_code("     kernel1 ...\n"), None);
}

#[test]
fn strips_dash_prefix() {
    assert_eq!(strip_code_prefix("0013-mesh OSPF up\n"), "mesh OSPF up\n");
}

#[test]
fn strips_final_line_prefix() {
    assert_eq!(strip_code_prefix("0001 ready.\n"), "ready.\n");
}

#[test]
fn strips_bare_space_continuation_prefix() {
    assert_eq!(strip_code_prefix(" continued text\n"), "continued text\n");
}

#[test]
fn leaves_a_line_with_no_prefix_at_all_untouched() {
    assert_eq!(strip_code_prefix("no prefix here\n"), "no prefix here\n");
}

#[test]
fn leaves_a_line_with_digits_but_no_real_separator_untouched() {
    assert_eq!(strip_code_prefix("0001\n"), "0001\n");
}

#[test]
fn codes_8000_and_above_are_errors() {
    assert!(Reply { code: 8002, text: String::new() }.is_error());
    assert!(!Reply { code: 3, text: String::new() }.is_error());
}

#[test]
fn a_reply_is_read_up_to_its_final_line() {
    let mut partial = start_reply();
    assert_eq!(read_line(&mut partial, "0013-one\n"), None);
    assert_eq!(read_line(&mut partial, " two\n"), None);
    let reply = read_line(&mut partial, "0003 done\n").unwrap();
    assert_eq!(reply, Reply { code: 3, text: "one\ntwo\ndone\n".to_string() });
}

fn c(a: u8, b: u8, c_: u8, d: u8, len: u8) -> Cidr {
    (u32::from_be_bytes([a, b, c_, d]), len)
}

#[test]
fn parse_cidr_accepts_well_formed() {
    assert_eq!(parse_cidr("10.0.0.0/24").unwrap(), c(10, 0, 0, 0, 24));
}

#[test]
fn parse_cidr_rejects_prefix_over_32() {
    assert!(parse_cidr("10.0.0.0/33").is_err());
}

#[test]
fn exclude_splits_correctly() {
    let out = address_exclude(c(10, 0, 0, 0, 24), c(10, 0, 0, 128, 25));
    assert_eq!(out, vec![c(10, 0, 0, 0, 25)]);
}

#[test]
fn exclude_splits_nested() {
    let mut out = address_exclude(c(10, 0, 0, 0, 24), c(10, 0, 0, 64, 26));
    out.sort();
    let mut expected = vec![c(10, 0, 0, 128, 25), c(10, 0, 0, 0, 26)];
    expected.sort();
    assert_eq!(out, expected);
}

#[test]
fn collapse_merges_siblings() {
    let out = collapse(&[c(10, 0, 0, 0, 25), c(10, 0, 0, 128, 25)]);
    assert_eq!(out, vec![c(10, 0, 0, 0, 24)]);
}

#[test]
fn collapse_drops_subsumed() {
    let out = collapse(&[c(10, 0, 0, 0, 24), c(10, 0, 0, 0, 25)]);
    assert_eq!(out, vec![c(10, 0, 0, 0, 24)]);
}

#[test]
fn collapse_leaves_unrelated_alone() {
    let mut out = collapse(&[c(10, 0, 0, 0, 24), c(192, 168, 1, 0, 24)]);
    out.sort();
    let mut expected = vec![c(10, 0, 0, 0, 24), c(192, 168, 1, 0, 24)];
    expected.sort();
    assert_eq!(out, expected);
}

#[test]
fn contains_checks_prefix_and_alignment() {
    assert!(contains(c(10, 0, 0, 0, 8), c(10, 1, 2, 0, 24)));
    assert!(!contains(c(10, 0, 0, 0, 24), c(10, 0, 1, 0, 24)));
}

#[test]
fn a_network_loses_its_host_bits() {
    assert_eq!(network_addr(0x0a01_0203, 8), 0x0a00_0000);
    assert_eq!(network_addr(0x0a01_0203, 0), 0);
    assert_eq!(network_addr(0x0a01_0203, 32), 0x0a01_0203);
    assert_eq!(format_cidr(c(10, 1, 0, 0, 16)), "10.1.0.0/16");
}

fn minimal() -> RouterConfig {
    RouterConfig {
        node: NodeIdentity {
            loopback_addresses: vec!["10.62.0.1/32".to_string(), "fd00::1/128".to_string()],
        },
        bgp_as: 64512,
        bgp_peers: vec![],
        ospf_interfaces: vec![],
        direct_interfaces: vec![],
        learn: vec![],
        announce: vec![],
        bypass: None,
    }
}

fn source(kind: &str) -> BypassSourceEntry {
    BypassSourceEntry {
        kind: kind.to_string(),
        label: None,
        asns: None,
        prefixes: None,
        country: None,
        hostnames: None,
    }
}

fn bgp_entry(name: &str, address: &str) -> BgpPeerEntry {
    BgpPeerEntry { name: name.to_string(), address: address.to_string() }
}

#[test]
fn router_parses_a_minimal_config() {
    let cfg = minimal();
    assert_eq!(cfg.bgp_as, 64512);
    assert!(cfg.bgp_peers.is_empty());
    assert!(cfg.bypass.is_none());
    validate(&cfg).unwrap();
}

#[test]
fn parses_a_full_config() {
    let mut asn = source("asn");
    asn.label = Some("some vendor".to_string());
    asn.asns = Some(vec!["AS15169".to_string()]);
    let mut literal = source("literal");
    literal.prefixes = Some(vec![LabeledPrefix { net: "10.0.0.0/8".to_string(), label: None }]);
    let cfg = RouterConfig {
        bgp_peers: vec![bgp_entry("fra", "fd00::2"), bgp_entry("lon", "fd00::3")],
        ospf_interfaces: vec!["mesh-*".to_string(), "router-lo".to_string()],
        learn: vec!["10.99.0.0/24".to_string()],
        announce: vec![AnnounceEntry {
            net: "10.96.0.0/12".to_string(),
            label: Some("k8s-services".to_string()),
        }],
        bypass: Some(BypassConfig {
            refresh_interval_secs: 3600,
            include_sources: vec![asn],
            exclude_sources: vec![literal],
        }),
        ..minimal()
    };
    validate(&cfg).unwrap();
    assert_eq!(cfg.bgp_peers.len(), 2);
    assert_eq!(cfg.bypass.as_ref().unwrap().refresh_interval_secs, 3600);
}

#[test]
fn parse_loopback_address_defaults_prefix_by_family() {
    assert_eq!(parse_loopback_address("10.62.0.1").unwrap(), (IpAddr::V4(0x0a3e_0001), 32));
    assert_eq!(parse_loopback_address("fd00::1").unwrap(), (IpAddr::V6(FD00 + 1), 128));
}

#[test]
fn parse_loopback_address_accepts_explicit_prefix() {
    assert_eq!(parse_loopback_address("10.62.0.1/24").unwrap(), (IpAddr::V4(0x0a3e_0001), 24));
    assert_eq!(parse_loopback_address("x"), Err(CidrError::InvalidAddress));
}

#[test]
fn rejects_missing_ipv4_loopback() {
    let mut cfg = minimal();
    cfg.node.loopback_addresses = vec!["fd00::1/128".to_string()];
    assert!(validate(&cfg).is_err());
    assert_eq!(validate(&cfg), Err(ConfigError::LoopbackV4Count));
}

#[test]
fn rejects_missing_ipv6_loopback() {
    let mut cfg = minimal();
    cfg.node.loopback_addresses = vec!["10.62.0.1/32".to_string()];
    assert!(validate(&cfg).is_err());
    assert_eq!(validate(&cfg), Err(ConfigError::LoopbackV6Count));
}

#[test]
fn rejects_duplicate_peer_names() {
    let mut cfg = minimal();
    cfg.bgp_peers = vec![bgp_entry("fra", "fd00::2"), bgp_entry("fra", "fd00::3")];
    assert!(validate(&cfg).is_err());
    assert_eq!(validate(&cfg), Err(ConfigError::DuplicatePeerName));
}

#[test]
fn rejects_ipv4_peer_address() {
    let mut cfg = minimal();
    cfg.bgp_peers = vec![bgp_entry("fra", "10.0.0.2")];
    assert!(validate(&cfg).is_err());
    assert_eq!(validate(&cfg), Err(ConfigError::InvalidPeerAddress));
}

#[test]
fn rejects_malformed_learn_cidr() {
    let mut cfg = minimal();
    cfg.learn = vec!["not-a-cidr".to_string()];
    assert!(validate(&cfg).is_err());
}

#[test]
fn rejects_malformed_announce_cidr() {
    let mut cfg = minimal();
    cfg.announce = vec![AnnounceEntry { net: "not-a-cidr".to_string(), label: None }];
    assert!(validate(&cfg).is_err());
}

fn bypass(secs: u64, include_sources: Vec<BypassSourceEntry>) -> Option<BypassConfig> {
    Some(BypassConfig { refresh_interval_secs: secs, include_sources, exclude_sources: vec![] })
}

#[test]
fn rejects_unknown_bypass_kind() {
    let mut cfg = minimal();
    cfg.bypass = bypass(default_bypass_refresh_interval_secs(), vec![source("bogus")]);
    assert!(validate(&cfg).is_err());
}

#[test]
fn rejects_as0() {
    let mut cfg = minimal();
    cfg.bgp_as = 0;
    assert!(validate(&cfg).is_err());
    assert_eq!(validate(&cfg), Err(ConfigError::ReservedAs));
}

#[test]
fn rejects_zero_bypass_refresh_interval() {
    let mut cfg = minimal();
    cfg.bypass = bypass(0, vec![]);
    assert!(validate(&cfg).is_err());
}

#[test]
fn rejects_literal_bypass_without_prefixes() {
    let mut cfg = minimal();
    cfg.bypass = bypass(default_bypass_refresh_interval_secs(), vec![source("literal")]);
    assert!(validate(&cfg).is_err());
}

#[test]
fn accepts_empty_ospf_interfaces_and_learn() {
    let cfg = minimal();
    assert!(cfg.ospf_interfaces.is_empty());
    assert!(cfg.learn.is_empty());
    validate(&cfg).unwrap();
    assert_eq!(node_loopbacks(&cfg), Ok((0x0a3e_0001, FD00 + 1)));
}

#[test]
fn the_exporter_is_pointed_at_our_socket_and_our_address() {
    let a = args("/run/bird.ctl", "10.62.0.1:9324");
    assert_eq!(
        a,
        [
            "-bird.v2",
            "-bird.socket",
            "/run/bird.ctl",
            "-web.listen-address",
            "10.62.0.1:9324"
        ]
    );
}

#[test]
fn validate_asn_accepts_well_formed() {
    assert!(validate_asn("AS15169").is_ok());
    assert!(validate_asn("AS1").is_ok());
}

#[test]
fn validate_asn_rejects_missing_prefix() {
    assert!(validate_asn("15169").is_err());
}

#[test]
fn validate_asn_rejects_non_digit_suffix() {
    assert!(validate_asn("AS").is_err());
    assert!(validate_asn("ASxyz").is_err());
}

#[test]
fn validate_asn_rejects_query_string_injection() {
    assert!(validate_asn("AS123&foo=bar").is_err());
}

#[test]
fn validate_country_accepts_two_letter_codes_either_case() {
    assert_eq!(validate_country("DE").unwrap(), "DE");
    assert_eq!(validate_country("de").unwrap(), "DE");
}

#[test]
fn validate_country_rejects_wrong_length() {
    assert!(validate_country("D").is_err());
    assert!(validate_country("DEU").is_err());
}

#[test]
fn validate_country_rejects_non_alphabetic() {
    assert!(validate_country("D1").is_err());
    assert!(validate_country("DE&foo=bar").is_err());
}

fn text(s: &str) -> Value {
    Value::Text(s.to_string())
}

fn mapping(entries: Vec<(&str, Value)>) -> Value {
    Value::Mapping(entries.into_iter().map(|(k, v)| (text(k), v)).collect())
}

#[test]
fn announced_prefixes_are_read_out_of_the_answer() {
    let prefixes = Value::Sequence(vec![
        mapping(vec![("prefix", text("8.8.8.0/24"))]),
        mapping(vec![("other", text("x"))]),
        mapping(vec![("prefix", text("2001:4860::/32"))]),
    ]);
    let answer = mapping(vec![("data", mapping(vec![("prefixes", prefixes)]))]);
    let found = asn_prefixes(&answer);
    assert!(found.contains(&"8.8.8.0/24".to_string()), "{found:?}");
    assert!(asn_prefixes(&Value::Null).is_empty());
    let countries = mapping(vec![(
        "data",
        mapping(vec![(
            "resources",
            mapping(vec![("ipv4", Value::Sequence(vec![text("2.16.0.0/13")]))]),
        )]),
    )]);
    assert_eq!(geoip_country_prefixes(&countries), vec!["2.16.0.0/13"]);
}

#[test]
fn a_source_says_what_it_needs() {
    let mut literal = source("literal");
    literal.label = Some("l".to_string());
    literal.prefixes = Some(vec![LabeledPrefix {
        net: "10.0.0.0/8".to_string(),
        label: Some("own".to_string()),
    }]);
    assert_eq!(
        collect_source(&literal),
        Ok(Plan::Known(vec![("10.0.0.0/8".to_string(), "own".to_string())]))
    );
    assert_eq!(collect_source(&source("literal")), Err(SourceError::LiteralWithoutPrefixes));
    assert_eq!(collect_source(&source("asn")), Err(SourceError::AsnWithoutLabel));
    assert_eq!(collect_source(&source("bogus")), Err(SourceError::UnknownKind));
    let mut dns = source("dns");
    dns.label = Some("d".to_string());
    assert_eq!(collect_source(&dns), Err(SourceError::DnsWithoutHostnames));
}

fn pairs(v: &[(&str, &str)]) -> Vec<(String, String)> {
    v.iter().map(|(a, b)| (a.to_string(), b.to_string())).collect()
}

#[test]
fn what_is_found_is_collapsed_and_punched() {
    let found = pairs(&[("10.0.0.0/25", "x"), ("10.0.0.128/25", "x"), ("10.0.0.0/25", "x")]);
    assert_eq!(
        dedupe_and_aggregate(&found),
        vec![(c(10, 0, 0, 0, 24), "x".to_string())]
    );
    let routes = resolve(&found, &pairs(&[("10.0.0.128/25", "y")])).unwrap();
    assert_eq!(routes, pairs(&[("10.0.0.0/25", "x")]));
    assert_eq!(resolve(&vec![], &vec![]), Err(SourceError::NoPrefixes));
    assert_eq!(label_all(&vec!["10.0.0.0/8".to_string()], "z"), pairs(&[("10.0.0.0/8", "z")]));
    assert_eq!(dns_prefixes(&vec![IpAddr::V4(0x0808_0808)]), vec!["8.8.8.8/32"]);
}

#[test]
fn each_label_keeps_what_no_exclusion_covers() {
    let found = pairs(&[
        ("10.0.0.0/24", "a"),
        ("10.0.1.0/24", "a"),
        ("10.0.0.0/25", "b"),
        ("10.0.0.0/24", "b"),
        ("not a network", "b"),
    ]);
    let excluded = pairs(&[("10.0.1.0/25", "x"), ("10.0.0.64/26", "y")]);
    assert_eq!(
        resolve(&found, &excluded).unwrap(),
        pairs(&[
            ("10.0.0.0/26", "a"),
            ("10.0.0.0/26", "b"),
            ("10.0.0.128/25", "a"),
            ("10.0.1.128/25", "a"),
        ])
    );
    assert_eq!(
        resolve(&found, &pairs(&[("10.0.0.0/16", "x")])).unwrap(),
        Vec::<(String, String)>::new()
    );
}

#[test]
fn a_config_is_rendered_from_what_it_says() {
    let cfg = RouterConfig {
        node: NodeIdentity {
            loopback_addresses: vec!["10.62.0.1".to_string(), "fd00::1".to_string()],
        },
        bgp_as: 64512,
        bgp_peers: vec![BgpPeerEntry { name: "b".to_string(), address: "fd00::2".to_string() }],
        ospf_interfaces: vec!["mesh-*".to_string()],
        direct_interfaces: vec!["cni0".to_string()],
        learn: vec!["10.244.0.0/16".to_string()],
        announce: vec![
            AnnounceEntry { net: "192.0.2.0/24".to_string(), label: None },
            AnnounceEntry { net: "198.51.100.0/24".to_string(), label: Some("x".to_string()) },
        ],
        bypass: None,
    };
    validate(&cfg).unwrap();
    let got = render_inputs(&cfg, vec![route("203.0.113.0/24", "y")]);
    let want = RenderInputs {
        ospf_interfaces: vec!["mesh-*".to_string()],
        bgp_peers: vec![BgpPeer { name: "b".to_string(), address: FD00 + 2 }],
        bypass: vec![route("203.0.113.0/24", "y")],
        announce: vec![route("192.0.2.0/24", ""), route("198.51.100.0/24", "x")],
        learn: vec!["10.244.0.0/16".to_string()],
        direct_interfaces: vec!["cni0".to_string()],
    };
    assert_eq!(got, want);
}

#[test]
fn requests_name_what_is_asked_for() {
    assert_eq!(
        announced_url("AS15169"),
        "https://stat.ripe.net/data/announced-prefixes/data.json?resource=AS15169&sourceapp=talos-extensions-router"
    );
    assert_eq!(
        allocated_url("DE"),
        "https://stat.ripe.net/data/country-resource-list/data.json?resource=DE&sourceapp=talos-extensions-router"
    );
}

#[test]
fn what_is_left_of_a_network_is_one_network_for_each_length() {
    let out = address_exclude(c(10, 0, 0, 0, 24), c(10, 0, 0, 1, 32));
    assert_eq!(out.len(), 8);
    assert_eq!(collapse(&out).len(), 8);
}
