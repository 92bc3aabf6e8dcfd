use slipmesh::awg::config::{
    validate, AwgConfig, ConfigError, InterfaceEntry, MetricsConfig, PeerEntry,
};
use slipmesh::awg::gc::gc;
use slipmesh::awg::handshake::{
    find_stats, find_stale, merge_peer_attrs, next_action, snapshot_from, stale_done, start_pass,
    tracked_interface, build_tracked_interfaces, wanted_done, wanted_routes, PeerStats,
    ReconcileSnapshot, RouteAction, Stats, TrackedInterface,
};
use slipmesh::awg::interface::{
    after_set_device, allowed_ip_to_cidr, cidr_to_allowed_ip, current_peers, desired_peer, desired_peers, diff_peers,
    full_tunnel_allowed_ips, peer_request, resolve_peer, set_identity, sync_peers, AllowedIpAttr,
    DeviceStep, DumpAttr, Lookup, Peer, WGPEER_F_REMOVE_ME,
};
use slipmesh::awg::metrics::{
    answer_to, dumped, finish_scrape, next_dump, render, Answer, DumpOutcome, Dumps, Scrape,
};
use slipmesh::common::addr::{IpAddr, SocketAddr};
use slipmesh::common::keys::encode_key;
use slipmesh::common::netlink::awg::{DeviceAttr, PeerAttr};
use slipmesh::common::obfuscation::Obfuscation;

fn iface(name: &str) -> InterfaceEntry {
    InterfaceEntry {
        name: name.to_string(),
        listen_port: 51820,
        addresses: vec![],
        private_key: "AAAAAAAAAAAAAAAAAAAAAAAAAAAAAAAAAAAAAAAAAAA=".to_string(),
        obfuscation: Obfuscation::default(),
        handshake_stale_secs: None,
        peers: vec![],
    }
}

fn entry(public_key: &str, allowed_ips: Option<&[&str]>, advanced_security: bool) -> PeerEntry {
    PeerEntry {
        name: None,
        public_key: public_key.to_string(),
        endpoint: None,
        allowed_ips: allowed_ips.map(|v| v.iter().map(|s| s.to_string()).collect()),
        advanced_security,
    }
}

fn only(a: InterfaceEntry) -> AwgConfig {
    AwgConfig { interfaces: vec![a], metrics: None }
}

#[test]
fn rejects_duplicate_interface_names() {
    let cfg = AwgConfig { interfaces: vec![iface("dup"), iface("dup")], metrics: None };
    assert!(validate(&cfg).is_err());
    assert_eq!(validate(&cfg), Err(ConfigError::DuplicateName));
}

#[test]
fn rejects_a_name_longer_than_ifnamsiz() {
    let cfg = only(iface("this-name-is-way-too-long"));
    assert!(validate(&cfg).is_err());
    assert_eq!(validate(&cfg), Err(ConfigError::NameTooLong));
}

#[test]
fn a_name_is_measured_in_bytes() {
    assert!(validate(&only(iface("123456789012345"))).is_ok());
    assert_eq!(validate(&only(iface("1234567890123456"))), Err(ConfigError::NameTooLong));
    assert_eq!(validate(&only(iface("12345678901234\u{e9}"))), Err(ConfigError::NameTooLong));
    assert_eq!(validate(&only(iface(""))), Err(ConfigError::EmptyName));
}

#[test]
fn rejects_a_malformed_address_cidr() {
    let mut a = iface("a");
    a.addresses.push("not-a-cidr".to_string());
    let cfg = only(a);
    assert!(validate(&cfg).is_err());
    assert_eq!(validate(&cfg), Err(ConfigError::InvalidAddress));
}

#[test]
fn rejects_a_malformed_allowed_ips_entry() {
    let mut a = iface("a");
    a.peers.push(entry("k", Some(&["not-a-cidr"]), false));
    let cfg = only(a);
    assert!(validate(&cfg).is_err());
    assert_eq!(validate(&cfg), Err(ConfigError::InvalidAllowedIp));
}

#[test]
fn rejects_duplicate_peer_public_key_within_one_interface() {
    let mut a = iface("a");
    a.peers.push(entry("k", Some(&["10.0.0.1/32"]), false));
    a.peers.push(entry("k", Some(&["10.0.0.2/32"]), false));
    let cfg = only(a);
    assert!(validate(&cfg).is_err());
    assert_eq!(validate(&cfg), Err(ConfigError::DuplicatePeerKey));
}

#[test]
fn rejects_advanced_security_peer_without_header_protection_key() {
    let mut a = iface("a");
    a.peers.push(entry("k", None, true));
    let cfg = only(a);
    assert!(validate(&cfg).is_err());
    assert_eq!(validate(&cfg), Err(ConfigError::MissingHeaderProtectionKey));
}

#[test]
fn accepts_advanced_security_peer_with_header_protection_key() {
    let mut a = iface("a");
    a.obfuscation.header_protection_key =
        Some("AAAAAAAAAAAAAAAAAAAAAAAAAAAAAAAAAAAAAAAAAAA=".to_string());
    a.peers.push(entry("k", None, true));
    assert!(validate(&only(a)).is_ok());
}

#[test]
fn accepts_an_empty_config() {
    assert!(validate(&AwgConfig { interfaces: vec![], metrics: None }).is_ok());
}

#[test]
fn metrics_need_an_address_and_a_port() {
    let at = |listen: &str| AwgConfig {
        interfaces: vec![],
        metrics: Some(MetricsConfig { listen: listen.to_string() }),
    };
    assert!(validate(&at("10.62.0.1:9586")).is_ok());
    assert!(validate(&at("[fd00:62::1]:9586")).is_ok());
    for listen in ["0.0.0.0:9586", "[::]:9586", "10.62.0.1:0", "10.62.0.1", "host:9586"] {
        assert_eq!(validate(&at(listen)), Err(ConfigError::InvalidMetricsListen), "{listen}");
    }
}

fn peer(public_key: &str, allowed_ips: &[&str], endpoint: Option<&str>) -> Peer {
    Peer {
        public_key: public_key.to_string(),
        allowed_ips: allowed_ips.iter().map(|s| s.to_string()).collect(),
        endpoint: endpoint.map(str::to_string),
        advanced_security: false,
    }
}

#[test]
fn identical_sets_produce_no_ops() {
    let a = vec![peer("k1", &["10.0.0.1/32"], None), peer("k2", &["10.0.0.2/32"], None)];
    assert!(diff_peers(&a, &a).is_empty());
}

#[test]
fn added_peer_yields_replace_op() {
    let previous = vec![peer("k1", &["10.0.0.1/32"], None)];
    let desired = vec![peer("k1", &["10.0.0.1/32"], None), peer("k2", &["10.0.0.2/32"], None)];
    let ops = diff_peers(&previous, &desired);
    assert_eq!(ops, vec![("k2".to_string(), Some(peer("k2", &["10.0.0.2/32"], None)))]);
}

#[test]
fn removed_peer_yields_remove_op() {
    let previous = vec![peer("k1", &["10.0.0.1/32"], None), peer("k2", &["10.0.0.2/32"], None)];
    let desired = vec![peer("k1", &["10.0.0.1/32"], None)];
    let ops = diff_peers(&previous, &desired);
    assert_eq!(ops, vec![("k2".to_string(), None)]);
}

#[test]
fn reordered_allowed_ips_produce_no_ops() {
    let previous = vec![peer("k1", &["10.0.0.1/32", "10.0.0.2/32"], None)];
    let desired = vec![peer("k1", &["10.0.0.2/32", "10.0.0.1/32"], None)];
    assert!(diff_peers(&previous, &desired).is_empty());
}

#[test]
fn changed_allowed_ips_yields_replace_op_not_remove_and_add() {
    let previous = vec![peer("k1", &["10.0.0.1/32"], None)];
    let desired = vec![peer("k1", &["10.0.0.99/32"], None)];
    let ops = diff_peers(&previous, &desired);
    assert_eq!(ops, vec![("k1".to_string(), Some(peer("k1", &["10.0.0.99/32"], None)))]);
}

#[test]
fn changed_endpoint_yields_replace_op_even_with_same_allowed_ips() {
    let previous = vec![peer("k1", &["0.0.0.0/0", "::/0"], Some("203.0.113.1:51820"))];
    let desired = vec![peer("k1", &["0.0.0.0/0", "::/0"], Some("203.0.113.2:51820"))];
    let ops = diff_peers(&previous, &desired);
    assert_eq!(
        ops,
        vec![(
            "k1".to_string(),
            Some(peer("k1", &["0.0.0.0/0", "::/0"], Some("203.0.113.2:51820")))
        )]
    );
}

#[test]
fn advanced_security_alone_yields_replace_op() {
    let previous = vec![peer("k1", &["10.0.0.1/32"], None)];
    let mut desired = peer("k1", &["10.0.0.1/32"], None);
    desired.advanced_security = true;
    let ops = diff_peers(&previous, &vec![desired.clone()]);
    assert_eq!(ops, vec![("k1".to_string(), Some(desired))]);
}

#[test]
fn unrelated_peers_are_never_mentioned() {
    let previous = vec![peer("k1", &["10.0.0.1/32"], None), peer("k2", &["10.0.0.2/32"], None)];
    let desired = vec![
        peer("k1", &["10.0.0.1/32"], None),
        peer("k2", &["10.0.0.2/32"], None),
        peer("k3", &["10.0.0.3/32"], None),
    ];
    let ops = diff_peers(&previous, &desired);
    assert!(!ops.iter().any(|(k, _)| k == "k1"));
    assert!(!ops.iter().any(|(k, _)| k == "k2"));
    assert_eq!(ops, vec![("k3".to_string(), Some(peer("k3", &["10.0.0.3/32"], None)))]);
}

#[test]
fn full_tunnel_default_is_the_expected_pair() {
    assert_eq!(full_tunnel_allowed_ips(), vec!["0.0.0.0/0", "::/0"]);
}

#[test]
fn a_dumped_allowed_ip_reads_back_as_its_cidr() {
    let attrs = vec![
        AllowedIpAttr::Other,
        AllowedIpAttr::Cidr(24),
        AllowedIpAttr::IpAddr(IpAddr::V4(0x0a00_0001)),
    ];
    assert_eq!(allowed_ip_to_cidr(&attrs), Some("10.0.0.1/24".to_string()));
    assert_eq!(allowed_ip_to_cidr(&vec![AllowedIpAttr::Cidr(24)]), None);
    let ip = cidr_to_allowed_ip("fd00::1/64").unwrap();
    assert_eq!(ip.addr, IpAddr::V6(0xfd00_0000_0000_0000_0000_0000_0000_0001));
    assert_eq!(ip.prefix, 64);
    assert!(cidr_to_allowed_ip("fd00::1").is_err());
}

#[test]
fn current_peers_come_sorted_and_only_with_a_key() {
    let key = |b: u8| DumpAttr::PublicKey([b; 32]);
    let endpoint = DumpAttr::Endpoint(SocketAddr {
        ip: IpAddr::V4(0xcb00_7107),
        scope: 0,
        port: 51820,
    });
    let dump = vec![
        vec![key(9), endpoint],
        vec![DumpAttr::RxBytes(1)],
        vec![
            key(1),
            DumpAttr::AllowedIps(vec![vec![
                AllowedIpAttr::IpAddr(IpAddr::V4(0)),
                AllowedIpAttr::Cidr(0),
            ]]),
        ],
    ];
    let peers = current_peers(&dump);
    assert_eq!(peers.len(), 2);
    assert_eq!(peers[0].public_key, encode_key(&[1; 32]));
    assert_eq!(peers[0].allowed_ips, vec!["0.0.0.0/0"]);
    assert_eq!(peers[1].public_key, encode_key(&[9; 32]));
    assert_eq!(peers[1].endpoint, Some("203.0.113.7:51820".to_string()));
}

#[test]
fn a_removal_request_carries_the_key_and_the_flag() {
    let key = encode_key(&[3; 32]);
    let attrs = peer_request(&(key.clone(), None)).unwrap();
    assert!(attrs.contains(&PeerAttr::PublicKey([3; 32])), "{attrs:?}");
    assert!(attrs.contains(&PeerAttr::Flags(WGPEER_F_REMOVE_ME)), "{attrs:?}");
    assert_eq!(peer_request(&("not a key".to_string(), None)), None);
    let requests = sync_peers(&vec![peer(&key, &["10.0.0.1/32"], None)], &vec![]);
    assert_eq!(requests, vec![attrs]);
    assert!(sync_peers(&vec![], &vec![]).is_empty());
}

#[test]
fn a_failed_lookup_keeps_what_the_kernel_has() {
    let mut e = entry("k1", None, false);
    e.endpoint = Some("host.example:51820".to_string());
    let previous = vec![peer("k1", &["0.0.0.0/0", "::/0"], Some("203.0.113.1:51820"))];
    let kept = desired_peer(&e, Lookup::Failed, &previous).unwrap();
    assert_eq!(kept, previous[0]);
    assert_eq!(desired_peer(&e, Lookup::Failed, &vec![]), None);
    let found =
        desired_peer(&e, Lookup::Resolved(Some("203.0.113.2:51820".to_string())), &previous)
            .unwrap();
    assert_eq!(found.endpoint, Some("203.0.113.2:51820".to_string()));
    assert_eq!(found.allowed_ips, full_tunnel_allowed_ips());
    assert_eq!(resolve_peer(&entry("k", Some(&["10.0.0.1/32"]), true), None).allowed_ips.len(), 1);
}

#[test]
fn an_identity_needs_a_valid_key() {
    let mut a = iface("a");
    let attrs = set_identity(&a).unwrap();
    assert!(attrs.contains(&DeviceAttr::ListenPort(51820)), "{attrs:?}");
    assert!(attrs.contains(&DeviceAttr::PrivateKey([0; 32])), "{attrs:?}");
    a.private_key = "!!".to_string();
    assert!(set_identity(&a).is_err());
}

#[test]
fn interfaces_that_no_config_names_are_removed() {
    let links = vec![("mesh-a".to_string(), 4), ("old".to_string(), 5), ("rw-x".to_string(), 6)];
    assert_eq!(gc(&links, &vec!["rw-x".to_string(), "mesh-a".to_string()]), vec![5]);
    assert_eq!(gc(&links, &vec![]), vec![4, 5, 6]);
}

const KEY: [u8; 32] = [7u8; 32];

#[test]
fn reads_handshake_and_byte_counters_for_one_peer() {
    let dump = vec![vec![
        DumpAttr::PublicKey(KEY),
        DumpAttr::LastHandshake(1_700_000_000),
        DumpAttr::RxBytes(4096),
        DumpAttr::TxBytes(2048),
    ]];
    assert_eq!(
        find_stats(&merge_peer_attrs(&dump), &encode_key(&KEY)),
        Some(PeerStats { last_handshake: 1_700_000_000, rx_bytes: 4096, tx_bytes: 2048 })
    );
}

#[test]
fn a_continuation_frame_does_not_reset_what_an_earlier_one_reported() {
    let dump = vec![
        vec![
            DumpAttr::PublicKey(KEY),
            DumpAttr::LastHandshake(1_700_000_000),
            DumpAttr::RxBytes(4096),
            DumpAttr::TxBytes(2048),
        ],
        vec![DumpAttr::PublicKey(KEY)],
    ];
    let merged = merge_peer_attrs(&dump);
    assert_eq!(merged.len(), 1);
    assert_eq!(
        find_stats(&merged, &encode_key(&KEY)),
        Some(PeerStats { last_handshake: 1_700_000_000, rx_bytes: 4096, tx_bytes: 2048 })
    );
}

#[test]
fn a_negative_handshake_timestamp_reads_as_never() {
    let dump = vec![vec![DumpAttr::PublicKey(KEY), DumpAttr::LastHandshake(-1)]];
    let merged = merge_peer_attrs(&dump);
    assert_eq!(find_stats(&merged, &encode_key(&KEY)).unwrap().last_handshake, 0);
}

#[test]
fn a_peer_frame_without_a_public_key_is_skipped() {
    assert!(merge_peer_attrs(&vec![vec![DumpAttr::RxBytes(1)]]).is_empty());
}

fn watched(index: u32, peers: &[(&str, &[&str])]) -> TrackedInterface {
    TrackedInterface {
        name: format!("iface{index}"),
        index,
        stale_secs: 180,
        peers: peers
            .iter()
            .map(|(k, cidrs)| {
                ((*k).to_string(), cidrs.iter().map(|c| (*c).to_string()).collect())
            })
            .collect(),
    }
}

fn installed(index: u32, cidrs: &[&str]) -> Vec<(u32, Vec<String>)> {
    vec![(index, cidrs.iter().map(|c| (*c).to_string()).collect())]
}

#[test]
fn a_peer_with_every_route_installed_is_connected() {
    let snap = snapshot_from(
        &vec![watched(4, &[("peer-a", &["10.0.0.1/32", "10.0.0.2/32"])])],
        &installed(4, &["10.0.0.1/32", "10.0.0.2/32"]),
        1_700_000_000,
    );
    assert_eq!(snap.taken_unix, 1_700_000_000);
    assert!(snap.connected.contains(&("iface4".to_string(), "peer-a".to_string())));
}

#[test]
fn a_peer_missing_one_of_its_routes_is_not_connected() {
    let snap = snapshot_from(
        &vec![watched(4, &[("peer-a", &["10.0.0.1/32", "10.0.0.2/32"])])],
        &installed(4, &["10.0.0.1/32"]),
        1_700_000_000,
    );
    assert!(snap.connected.is_empty());
}

#[test]
fn an_interface_with_no_installed_routes_at_all_yields_nothing() {
    let snap = snapshot_from(
        &vec![watched(4, &[("peer-a", &["10.0.0.1/32"])])],
        &vec![],
        1_700_000_000,
    );
    assert!(snap.connected.is_empty());
}

#[test]
fn a_peer_with_an_empty_allowed_ips_list_is_never_connected() {
    let snap = snapshot_from(
        &vec![watched(4, &[("peer-a", &[])])],
        &installed(4, &["10.0.0.1/32"]),
        1_700_000_000,
    );
    assert!(snap.connected.is_empty());
}

#[test]
fn only_tracked_peers_are_watched() {
    let mut a = iface("rw-eu");
    a.handshake_stale_secs = Some(60);
    a.peers.push(entry("k1", Some(&["10.0.0.1/32"]), false));
    a.peers.push(entry("k2", None, false));
    let t = tracked_interface(&a, 9);
    assert_eq!(t.stale_secs, 60);
    assert_eq!(t.peers, vec![("k1".to_string(), vec!["10.0.0.1/32".to_string()])]);
    let cfg = AwgConfig { interfaces: vec![iface("mesh-a"), a], metrics: None };
    let all = build_tracked_interfaces(&cfg, &vec![8, 9]);
    assert_eq!(all.len(), 2);
    assert_eq!(all[1].index, 9);
    assert!(all[0].peers.is_empty());
}

#[test]
fn routes_are_wanted_only_while_the_handshake_is_fresh() {
    let t = watched(4, &[("k1", &["10.0.0.1/32"]), ("k2", &["10.0.0.2/32"])]);
    let stats: Stats = vec![
        ("k1".to_string(), PeerStats { last_handshake: 1000, rx_bytes: 0, tx_bytes: 0 }),
        ("k2".to_string(), PeerStats { last_handshake: 0, rx_bytes: 0, tx_bytes: 0 }),
    ];
    assert_eq!(wanted_routes(&t, &stats, 1100), vec!["10.0.0.1/32"]);
    assert!(wanted_routes(&t, &stats, 2000).is_empty());
}

#[test]
fn a_pass_adds_what_is_wanted_and_removes_what_is_not() {
    let mut pass = start_pass(
        vec!["10.0.0.9/32".to_string()],
        vec!["10.0.0.1/32".to_string()],
    );
    assert_eq!(next_action(&pass), RouteAction::Add("10.0.0.1/32".to_string()));
    wanted_done(&mut pass, true);
    find_stale(&mut pass);
    assert_eq!(next_action(&pass), RouteAction::Delete("10.0.0.9/32".to_string()));
    stale_done(&mut pass, true);
    assert_eq!(next_action(&pass), RouteAction::Done);
    assert_eq!(pass.installed, vec!["10.0.0.1/32"]);
}

#[test]
fn a_pass_with_failures_leaves_what_it_could_not_change() {
    let mut pass = start_pass(
        vec!["10.0.0.8/32".to_string(), "10.0.0.9/32".to_string()],
        vec!["10.0.0.1/32".to_string(), "10.0.0.2/32".to_string()],
    );
    assert_eq!(next_action(&pass), RouteAction::Add("10.0.0.1/32".to_string()));
    wanted_done(&mut pass, true);
    assert_eq!(next_action(&pass), RouteAction::Add("10.0.0.2/32".to_string()));
    wanted_done(&mut pass, false);
    find_stale(&mut pass);
    assert_eq!(next_action(&pass), RouteAction::Delete("10.0.0.8/32".to_string()));
    stale_done(&mut pass, false);
    assert_eq!(next_action(&pass), RouteAction::Delete("10.0.0.9/32".to_string()));
    stale_done(&mut pass, true);
    assert_eq!(next_action(&pass), RouteAction::Done);
    assert_eq!(pass.not_added, vec!["10.0.0.2/32"]);
    assert_eq!(pass.not_removed, vec!["10.0.0.8/32"]);
    let mut installed = pass.installed.clone();
    installed.sort();
    assert_eq!(installed, vec!["10.0.0.1/32", "10.0.0.8/32"]);
}

#[test]
fn a_refused_device_is_tried_once_more_without_the_switches() {
    assert_eq!(after_set_device(0, false), DeviceStep::Done);
    assert_eq!(after_set_device(0, true), DeviceStep::RetryWithoutSwitches);
    assert_eq!(after_set_device(1, false), DeviceStep::Done);
    assert_eq!(after_set_device(1, true), DeviceStep::Fail);
}

const MESH_PEER: &str = "peer-mesh";
const RW_PEER: &str = "peer-roadwarrior";
const PRIVATE_KEY: &str = "private-key-must-never-be-emitted";
const NOW: u64 = 1_700_000_000;

fn metered(public_key: &str, name: Option<&str>, allowed_ips: Option<&[&str]>) -> PeerEntry {
    PeerEntry {
        public_key: public_key.to_string(),
        name: name.map(str::to_string),
        endpoint: Some("203.0.113.7:51820".to_string()),
        allowed_ips: allowed_ips.map(|cidrs| cidrs.iter().map(|c| (*c).to_string()).collect()),
        advanced_security: false,
    }
}

fn metered_iface(name: &str, peers: Vec<PeerEntry>) -> InterfaceEntry {
    InterfaceEntry {
        name: name.to_string(),
        listen_port: 51820,
        addresses: vec![],
        private_key: PRIVATE_KEY.to_string(),
        obfuscation: Obfuscation::default(),
        handshake_stale_secs: None,
        peers,
    }
}

fn config() -> AwgConfig {
    AwgConfig {
        interfaces: vec![
            metered_iface("mesh-node-a", vec![metered(MESH_PEER, Some("node-a"), None)]),
            metered_iface(
                "rw-eu",
                vec![metered(RW_PEER, Some("client-one"), Some(&["10.99.0.5/32"]))],
            ),
        ],
        metrics: Some(MetricsConfig { listen: "10.62.0.1:9586".to_string() }),
    }
}

fn stats(last_handshake: u64, rx_bytes: u64, tx_bytes: u64) -> PeerStats {
    PeerStats { last_handshake, rx_bytes, tx_bytes }
}

fn dumps(mesh: Option<PeerStats>, rw: Option<PeerStats>) -> Dumps {
    vec![
        (
            "mesh-node-a".to_string(),
            Some(mesh.into_iter().map(|s| (MESH_PEER.to_string(), s)).collect()),
        ),
        ("rw-eu".to_string(), Some(rw.into_iter().map(|s| (RW_PEER.to_string(), s)).collect())),
    ]
}

fn snapshot(pairs: &[(&str, &str)], taken_unix: u64) -> ReconcileSnapshot {
    ReconcileSnapshot {
        taken_unix,
        connected: pairs.iter().map(|(i, p)| ((*i).to_string(), (*p).to_string())).collect(),
    }
}

fn series(out: &str, name: &str) -> Vec<String> {
    out.lines().filter(|l| l.starts_with(name)).map(str::to_string).collect()
}

#[test]
fn kind_comes_from_allowed_ips_alone() {
    let out = render(
        &config(),
        &dumps(Some(stats(NOW - 10, 1, 2)), Some(stats(NOW - 10, 3, 4))),
        &snapshot(&[("rw-eu", RW_PEER)], NOW),
        NOW,
    );
    let handshakes = series(&out, "slipmesh_awg_peer_last_handshake_seconds{");
    assert!(
        handshakes
            .iter()
            .any(|l| l.contains("interface=\"mesh-node-a\"") && l.contains("kind=\"mesh\"")),
        "{out}"
    );
    assert!(
        handshakes
            .iter()
            .any(|l| l.contains("interface=\"rw-eu\"") && l.contains("kind=\"roadwarrior\"")),
        "{out}"
    );
}

#[test]
fn a_peer_name_is_carried_through_as_its_own_label() {
    let out = render(
        &config(),
        &dumps(Some(stats(NOW - 10, 1, 2)), Some(stats(NOW - 10, 3, 4))),
        &snapshot(&[("rw-eu", RW_PEER)], NOW),
        NOW,
    );
    assert!(out.contains("peer_name=\"node-a\""), "{out}");
    assert!(out.contains("peer_name=\"client-one\""), "{out}");
    assert!(out.contains("peer=\"peer-roadwarrior\""), "{out}");
}

#[test]
fn an_unnamed_peer_still_gets_every_series() {
    let cfg = AwgConfig {
        interfaces: vec![metered_iface(
            "rw-eu",
            vec![metered(RW_PEER, None, Some(&["10.9.0.1/32"]))],
        )],
        metrics: None,
    };
    let out = render(
        &cfg,
        &vec![("rw-eu".to_string(), Some(vec![(RW_PEER.to_string(), stats(NOW - 5, 1, 1))]))],
        &snapshot(&[], NOW),
        NOW,
    );
    assert!(out.contains("peer_name=\"\""), "{out}");
    assert!(!series(&out, "slipmesh_awg_peer_last_handshake_seconds{").is_empty(), "{out}");
}

#[test]
fn a_peer_carrying_both_an_endpoint_and_allowed_ips_is_still_a_roadwarrior() {
    let out = render(
        &config(),
        &dumps(None, Some(stats(NOW - 10, 0, 0))),
        &snapshot(&[], NOW),
        NOW,
    );
    assert!(
        series(&out, "slipmesh_awg_peer_connected{")
            .iter()
            .all(|l| l.contains("kind=\"roadwarrior\"")),
        "{out}"
    );
}

#[test]
fn peer_connected_is_emitted_for_roadwarriors_only() {
    let out = render(
        &config(),
        &dumps(Some(stats(NOW - 10, 1, 2)), Some(stats(NOW - 10, 3, 4))),
        &snapshot(&[("rw-eu", RW_PEER)], NOW),
        NOW,
    );
    let connected = series(&out, "slipmesh_awg_peer_connected{");
    assert_eq!(connected.len(), 1, "{out}");
    assert!(connected[0].ends_with(" 1"), "{out}");
    assert!(!connected[0].contains("mesh-node-a"), "{out}");
}

#[test]
fn a_roadwarrior_without_its_routes_reads_as_disconnected_not_missing() {
    let out = render(
        &config(),
        &dumps(None, Some(stats(NOW - 10, 3, 4))),
        &snapshot(&[], NOW),
        NOW,
    );
    let connected = series(&out, "slipmesh_awg_peer_connected{");
    assert_eq!(connected.len(), 1, "{out}");
    assert!(connected[0].ends_with(" 0"), "{out}");
}

#[test]
fn a_stale_snapshot_emits_no_verdict_at_all() {
    let out = render(
        &config(),
        &dumps(None, Some(stats(NOW - 10, 3, 4))),
        &snapshot(&[("rw-eu", RW_PEER)], NOW - 600),
        NOW,
    );
    assert!(series(&out, "slipmesh_awg_peer_connected{").is_empty(), "{out}");
}

#[test]
fn a_peer_that_never_handshaked_emits_no_handshake_series() {
    let out = render(
        &config(),
        &dumps(Some(stats(0, 0, 0)), Some(stats(NOW - 10, 3, 4))),
        &snapshot(&[], NOW),
        NOW,
    );
    assert!(
        !series(&out, "slipmesh_awg_peer_last_handshake_seconds{")
            .iter()
            .any(|l| l.contains("mesh-node-a")),
        "{out}"
    );
}

#[test]
fn a_peer_in_the_kernel_but_not_in_the_config_is_not_emitted() {
    let mut d = dumps(Some(stats(NOW - 10, 1, 2)), Some(stats(NOW - 10, 3, 4)));
    d[1].1.as_mut().unwrap().push(("peer-not-in-the-config".to_string(), stats(NOW, 9, 9)));
    let out = render(&config(), &d, &snapshot(&[], NOW), NOW);
    assert!(!out.contains("peer-not-in-the-config"), "{out}");
}

#[test]
fn a_failed_dump_marks_that_interface_and_leaves_the_others_alone() {
    let mut d = dumps(Some(stats(NOW - 10, 1, 2)), Some(stats(NOW - 10, 3, 4)));
    d[0].1 = None;
    let out = render(&config(), &d, &snapshot(&[], NOW), NOW);
    let ok = series(&out, "slipmesh_awg_interface_dump_ok{");
    assert!(ok.iter().any(|l| l.contains("mesh-node-a") && l.ends_with(" 0")), "{out}");
    assert!(ok.iter().any(|l| l.contains("rw-eu") && l.ends_with(" 1")), "{out}");
    assert!(
        series(&out, "slipmesh_awg_peer_rx_bytes_total{").iter().any(|l| l.contains("rw-eu")),
        "{out}"
    );
}

#[test]
fn interface_peers_counts_what_the_config_declares_by_kind() {
    let out = render(&config(), &dumps(None, None), &snapshot(&[], NOW), NOW);
    let counts = series(&out, "slipmesh_awg_interface_peers{");
    assert!(
        counts.iter().any(|l| l.contains("mesh-node-a")
            && l.contains("kind=\"mesh\"")
            && l.ends_with(" 1")),
        "{out}"
    );
    assert!(
        counts.iter().any(|l| l.contains("rw-eu")
            && l.contains("kind=\"roadwarrior\"")
            && l.ends_with(" 1")),
        "{out}"
    );
}

#[test]
fn byte_counters_come_through_as_counters() {
    let out = render(
        &config(),
        &dumps(Some(stats(NOW - 10, 4096, 2048)), None),
        &snapshot(&[], NOW),
        NOW,
    );
    assert!(out.contains("# TYPE slipmesh_awg_peer_rx_bytes counter"), "{out}");
    assert!(
        series(&out, "slipmesh_awg_peer_rx_bytes_total{").iter().any(|l| l.ends_with(" 4096")),
        "{out}"
    );
    assert!(
        series(&out, "slipmesh_awg_peer_tx_bytes_total{").iter().any(|l| l.ends_with(" 2048")),
        "{out}"
    );
}

#[test]
fn build_info_and_reconcile_freshness_are_reported() {
    let out = render(&config(), &dumps(None, None), &snapshot(&[], NOW), NOW);
    assert!(out.contains("component=\"awg\""), "{out}");
    assert!(
        series(&out, "slipmesh_awg_reconcile_last_success_seconds ")
            .iter()
            .any(|l| l.ends_with(&format!(" {NOW}"))),
        "{out}"
    );
}

#[test]
fn a_loop_that_has_never_completed_a_pass_reports_no_freshness() {
    let out = render(&config(), &dumps(None, None), &snapshot(&[], 0), NOW);
    assert!(series(&out, "slipmesh_awg_reconcile_last_success_seconds ").is_empty(), "{out}");
}

#[test]
fn no_private_key_and_no_endpoint_ever_reach_the_output() {
    let out = render(
        &config(),
        &dumps(Some(stats(NOW - 10, 1, 2)), Some(stats(NOW - 10, 3, 4))),
        &snapshot(&[("rw-eu", RW_PEER)], NOW),
        NOW,
    );
    assert!(!out.contains(PRIVATE_KEY), "{out}");
    assert!(!out.contains("203.0.113.7"), "{out}");
}

#[test]
fn an_exposition_of_nothing_still_ends_where_it_should() {
    let cfg = AwgConfig { interfaces: vec![], metrics: None };
    let out = render(&cfg, &vec![], &snapshot(&[], 0), NOW);
    assert!(out.contains("slipmesh_build_info"), "{out}");
    assert!(out.ends_with("# EOF\n"), "{out}");
}

#[test]
fn only_a_get_of_the_metrics_path_is_answered() {
    assert_eq!(answer_to("GET", "/metrics"), Answer::Metrics);
    assert_eq!(answer_to("GET", "/"), Answer::NotFound);
    assert_eq!(answer_to("POST", "/metrics"), Answer::NotFound);
}

#[test]
fn a_failed_lookup_holds_no_other_peer_up() {
    let entries =
        vec![entry("A=", None, false), entry("B=", None, false), entry("C=", None, false)];
    let live = Peer {
        public_key: "B=".to_string(),
        allowed_ips: vec!["10.0.0.0/8".to_string()],
        endpoint: Some("192.0.2.1:1".to_string()),
        advanced_security: false,
    };
    let resolved = || Lookup::Resolved(Some("192.0.2.9:51820".to_string()));
    let lookups = vec![resolved(), Lookup::Failed, Lookup::Failed];
    let desired = desired_peers(&entries, &lookups, &vec![live]);
    assert_eq!(desired.len(), 2);
    assert_eq!(desired[0].public_key, "A=");
    assert_eq!(desired[0].endpoint.as_deref(), Some("192.0.2.9:51820"));
    assert_eq!(desired[1].public_key, "B=");
    assert_eq!(desired[1].allowed_ips, ["10.0.0.0/8"]);
}

#[test]
fn a_timeout_leaves_the_rest_of_a_scrape_unread() {
    let cfg = config();
    let mut scrape = Scrape { connected: true, dumps: vec![] };
    assert_eq!(next_dump(&cfg, &scrape), Some(0));
    dumped(&cfg, &mut scrape, DumpOutcome::TimedOut);
    assert_eq!(next_dump(&cfg, &scrape), None);
    let dumps = finish_scrape(&cfg, scrape);
    assert_eq!(dumps, vec![("mesh-node-a".to_string(), None), ("rw-eu".to_string(), None)]);
}

#[test]
fn a_failed_read_is_one_interface_alone() {
    let cfg = config();
    let mut scrape = Scrape { connected: true, dumps: vec![] };
    dumped(&cfg, &mut scrape, DumpOutcome::Failed);
    assert_eq!(next_dump(&cfg, &scrape), Some(1));
    let read = vec![(RW_PEER.to_string(), stats(NOW, 1, 2))];
    dumped(&cfg, &mut scrape, DumpOutcome::Read(read));
    assert_eq!(next_dump(&cfg, &scrape), None);
    let dumps = finish_scrape(&cfg, scrape);
    assert_eq!(dumps[0].1, None);
    assert_eq!(dumps[1].1.as_ref().unwrap()[0].1.tx_bytes, 2);
}

#[test]
fn a_peer_that_only_the_kernel_has_is_not_reported() {
    let mut found = dumps(Some(stats(NOW, 1, 2)), None);
    found[0].1.as_mut().unwrap().push(("peer-gone".to_string(), stats(NOW, 3, 4)));
    let out = render(&config(), &found, &snapshot(&[("rw-eu", "peer-gone")], NOW), NOW);
    assert!(!out.contains("peer-gone"), "{out}");
    assert_eq!(series(&out, "slipmesh_awg_peer_rx_bytes_total").len(), 1, "{out}");
}

#[test]
fn what_is_not_named_in_a_series_changes_none() {
    let told = dumps(Some(stats(NOW - 10, 1, 2)), Some(stats(NOW - 10, 3, 4)));
    let seen = snapshot(&[("rw-eu", RW_PEER)], NOW);
    let mut other = config();
    for interface in other.interfaces.iter_mut() {
        interface.private_key = "another-private-key".to_string();
        interface.listen_port = 1;
        interface.addresses = vec!["10.1.2.3/32".to_string()];
        for peer in interface.peers.iter_mut() {
            peer.endpoint = Some("198.51.100.9:1".to_string());
            peer.advanced_security = true;
            if peer.allowed_ips.is_some() {
                peer.allowed_ips = Some(vec!["192.0.2.0/24".to_string()]);
            }
        }
    }
    assert_ne!(other, config());
    let mut more = dumps(Some(stats(NOW - 10, 1, 2)), Some(stats(NOW - 10, 3, 4)));
    more.push(("unknown".to_string(), Some(vec![("x".to_string(), stats(NOW, 9, 9))])));
    assert_eq!(render(&config(), &told, &seen, NOW), render(&other, &more, &seen, NOW));
}
