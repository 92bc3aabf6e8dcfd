//! The daemon's config: a flat list of interfaces, each with any number of peers.
//!
//! There is one interface shape. What differs is per peer: one without `allowed_ips` is a
//! full-tunnel mesh peer that nothing tracks; one with `allowed_ips` is a roaming client, whose
//! handshake decides whether its routes are installed.

use crate::common::addr;
use crate::common::cidr;
use crate::common::obfuscation::Obfuscation;
use crate::text;
use vstd::prelude::*;
use vstd::string::*;
use vstd::utf8::*;

verus! {

/// Where a daemon serves its Prometheus endpoint.
#[derive(Debug, PartialEq)]
pub struct MetricsConfig {
    /// `ip:port`, the node's own mesh loopback: never a wildcard, never without a port.
    pub listen: String,
}

#[derive(Debug, PartialEq)]
pub struct AwgConfig {
    pub interfaces: Vec<InterfaceEntry>,
    pub metrics: Option<MetricsConfig>,
}

#[derive(Debug, PartialEq)]
pub struct InterfaceEntry {
    /// A Linux interface name: at most 15 bytes.
    pub name: String,
    pub listen_port: u16,
    /// CIDR strings of either family.
    pub addresses: Vec<String>,
    /// Base64 X25519 private key.
    pub private_key: String,
    pub obfuscation: Obfuscation,
    /// How old a handshake may get before its peer's routes go.
    pub handshake_stale_secs: Option<u64>,
    pub peers: Vec<PeerEntry>,
}

#[derive(Debug, PartialEq)]
pub struct PeerEntry {
    /// What people call this peer; only metrics show it.
    pub name: Option<String>,
    pub public_key: String,
    pub endpoint: Option<String>,
    /// `None` for a full tunnel, which is not tracked.
    pub allowed_ips: Option<Vec<String>>,
    /// Header protection, with the interface's `header_protection_key`.
    pub advanced_security: bool,
}

pub const DEFAULT_HANDSHAKE_STALE_SECS: u64 = 180;

/// The longest interface name, in bytes.
pub const MAX_NAME_BYTES: usize = 15;

/// Why a config is refused.
#[derive(Clone, Copy, Debug, PartialEq, Eq, Structural)]
pub enum ConfigError {
    EmptyName,
    NameTooLong,
    DuplicateName,
    InvalidAddress,
    DuplicatePeerKey,
    MissingHeaderProtectionKey,
    InvalidAllowedIp,
    InvalidMetricsListen,
}

/// A daemon can listen there: an address and a port that are both given.
pub open spec fn listenable(s: Seq<char>) -> bool {
    match addr::socket_text(s) {
        Some(a) => a.port != 0 && a.ip != addr::IpAddr::V4(0) && a.ip != addr::IpAddr::V6(0),
        None => false,
    }
}

pub open spec fn all_cidrs(v: Seq<String>) -> bool {
    forall|i: int| 0 <= i < v.len() ==> cidr::cidr_text((#[trigger] v[i])@) is Ok
}

/// What is wrong with peer `i` of an interface, going by the peers ahead of it.
pub open spec fn peer_error(iface: InterfaceEntry, i: int) -> Option<ConfigError> {
    let peer = iface.peers@[i];
    if exists|j: int| 0 <= j < i && (#[trigger] iface.peers@[j]).public_key@ == peer.public_key@ {
        Some(ConfigError::DuplicatePeerKey)
    } else if peer.advanced_security && iface.obfuscation.header_protection_key is None {
        Some(ConfigError::MissingHeaderProtectionKey)
    } else if peer.allowed_ips is Some && !all_cidrs(peer.allowed_ips->0@) {
        Some(ConfigError::InvalidAllowedIp)
    } else {
        None
    }
}

/// The first thing wrong with the peers from `i` on.
pub open spec fn peers_error(iface: InterfaceEntry, i: int) -> Option<ConfigError>
    decreases iface.peers@.len() - i,
{
    if i >= iface.peers@.len() {
        None
    } else if peer_error(iface, i) is Some {
        peer_error(iface, i)
    } else {
        peers_error(iface, i + 1)
    }
}

/// The first thing wrong with interface `i`, going by the interfaces ahead of it.
pub open spec fn interface_error(ifaces: Seq<InterfaceEntry>, i: int) -> Option<ConfigError> {
    let iface = ifaces[i];
    if iface.name@.len() == 0 {
        Some(ConfigError::EmptyName)
    } else if encode_utf8(iface.name@).len() > MAX_NAME_BYTES {
        Some(ConfigError::NameTooLong)
    } else if exists|j: int| 0 <= j < i && (#[trigger] ifaces[j]).name@ == iface.name@ {
        Some(ConfigError::DuplicateName)
    } else if !all_cidrs(iface.addresses@) {
        Some(ConfigError::InvalidAddress)
    } else {
        peers_error(iface, 0)
    }
}

/// The first thing wrong with the interfaces from `i` on.
pub open spec fn interfaces_error(ifaces: Seq<InterfaceEntry>, i: int) -> Option<ConfigError>
    decreases ifaces.len() - i,
{
    if i >= ifaces.len() {
        None
    } else if interface_error(ifaces, i) is Some {
        interface_error(ifaces, i)
    } else {
        interfaces_error(ifaces, i + 1)
    }
}

/// The first thing wrong with a config.
pub open spec fn config_error(cfg: AwgConfig) -> Option<ConfigError> {
    if interfaces_error(cfg.interfaces@, 0) is Some {
        interfaces_error(cfg.interfaces@, 0)
    } else if cfg.metrics is Some && !listenable(cfg.metrics->0.listen@) {
        Some(ConfigError::InvalidMetricsListen)
    } else {
        None
    }
}

/// An interface in itself: its name fits, its addresses and its peers are in order.
pub open spec fn valid_interface(iface: InterfaceEntry) -> bool {
    &&& iface.name@.len() > 0
    &&& encode_utf8(iface.name@).len() <= MAX_NAME_BYTES
    &&& all_cidrs(iface.addresses@)
    &&& forall|i: int, j: int|
        0 <= i < j < iface.peers@.len() ==> (#[trigger] iface.peers@[i]).public_key@ != (
        #[trigger] iface.peers@[j]).public_key@
    &&& forall|i: int|
        0 <= i < iface.peers@.len() && (#[trigger] iface.peers@[i]).advanced_security
            ==> iface.obfuscation.header_protection_key is Some
    &&& forall|i: int|
        0 <= i < iface.peers@.len() && (#[trigger] iface.peers@[i]).allowed_ips is Some
            ==> all_cidrs(iface.peers@[i].allowed_ips->0@)
}

/// A config that the daemon can run.
pub open spec fn valid(cfg: AwgConfig) -> bool {
    &&& forall|i: int|
        0 <= i < cfg.interfaces@.len() ==> valid_interface(#[trigger] cfg.interfaces@[i])
    &&& forall|i: int, j: int|
        0 <= i < j < cfg.interfaces@.len() ==> (#[trigger] cfg.interfaces@[i]).name@ != (
        #[trigger] cfg.interfaces@[j]).name@
    &&& cfg.metrics is Some ==> listenable(cfg.metrics->0.listen@)
}

proof fn lemma_peers_error(iface: InterfaceEntry, i: int)
    requires
        0 <= i <= iface.peers@.len(),
    ensures
        peers_error(iface, i) is None <==> forall|k: int|
            i <= k < iface.peers@.len() ==> #[trigger] peer_error(iface, k) is None,
    decreases iface.peers@.len() - i,
{
    if i < iface.peers@.len() {
        lemma_peers_error(iface, i + 1);
    }
}

proof fn lemma_interfaces_error(ifaces: Seq<InterfaceEntry>, i: int)
    requires
        0 <= i <= ifaces.len(),
    ensures
        interfaces_error(ifaces, i) is None <==> forall|k: int|
            i <= k < ifaces.len() ==> #[trigger] interface_error(ifaces, k) is None,
    decreases ifaces.len() - i,
{
    if i < ifaces.len() {
        lemma_interfaces_error(ifaces, i + 1);
    }
}

proof fn lemma_valid_interface(iface: InterfaceEntry)
    ensures
        valid_interface(iface) <==> iface.name@.len() > 0 && encode_utf8(iface.name@).len()
            <= MAX_NAME_BYTES && all_cidrs(iface.addresses@) && peers_error(iface, 0) is None,
{
    lemma_peers_error(iface, 0);
    if peers_error(iface, 0) is None {
        assert forall|i: int, j: int| 0 <= i < j < iface.peers@.len() implies (
        #[trigger] iface.peers@[i]).public_key@ != (#[trigger] iface.peers@[j]).public_key@ by {
            assert(peer_error(iface, j) is None);
        }
        assert forall|i: int|
            0 <= i < iface.peers@.len() && (#[trigger] iface.peers@[i]).advanced_security implies
        iface.obfuscation.header_protection_key is Some by {
            assert(peer_error(iface, i) is None);
        }
        assert forall|i: int|
            0 <= i < iface.peers@.len() && (#[trigger] iface.peers@[i]).allowed_ips is Some implies
        all_cidrs(iface.peers@[i].allowed_ips->0@) by {
            assert(peer_error(iface, i) is None);
        }
    }
}

/// Law: a config is accepted exactly where it is valid.
pub proof fn accepted_iff_valid(cfg: AwgConfig)
    ensures
        config_error(cfg) is None <==> valid(cfg),
{
    let ifaces = cfg.interfaces@;
    lemma_interfaces_error(ifaces, 0);
    if valid(cfg) {
        assert forall|k: int| 0 <= k < ifaces.len() implies #[trigger] interface_error(
            ifaces,
            k,
        ) is None by {
            assert(valid_interface(ifaces[k]));
            lemma_valid_interface(ifaces[k]);
        }
    }
    if config_error(cfg) is None {
        assert forall|k: int| 0 <= k < ifaces.len() implies valid_interface(
            #[trigger] ifaces[k],
        ) by {
            assert(interface_error(ifaces, k) is None);
            lemma_valid_interface(ifaces[k]);
        }
        assert forall|i: int, j: int| 0 <= i < j < ifaces.len() implies (#[trigger] ifaces[i]).name@
            != (#[trigger] ifaces[j]).name@ by {
            assert(interface_error(ifaces, j) is None);
        }
    }
}

/// Whether every entry is a CIDR.
pub fn are_cidrs(v: &Vec<String>) -> (r: bool)
    ensures
        r == all_cidrs(v@),
{
    let mut i: usize = 0;
    while i < v.len()
        invariant
            i <= v.len(),
            forall|k: int| 0 <= k < i ==> cidr::cidr_text((#[trigger] v@[k])@) is Ok,
        decreases v.len() - i,
    {
        if cidr::parse_cidr(v[i].as_str()).is_err() {
            assert(cidr::cidr_text(v@[i as int]@) is Err);
            return false;
        }
        i += 1;
    }
    true
}

fn check_peer(iface: &InterfaceEntry, i: usize) -> (r: Option<ConfigError>)
    requires
        i < iface.peers@.len(),
    ensures
        r == peer_error(*iface, i as int),
{
    let peer = &iface.peers[i];
    let mut j: usize = 0;
    while j < i
        invariant
            j <= i < iface.peers@.len(),
            *peer == iface.peers@[i as int],
            forall|k: int|
                0 <= k < j ==> (#[trigger] iface.peers@[k]).public_key@ != peer.public_key@,
        decreases i - j,
    {
        if text::str_eq(iface.peers[j].public_key.as_str(), peer.public_key.as_str()) {
            return Some(ConfigError::DuplicatePeerKey);
        }
        j += 1;
    }
    if peer.advanced_security && iface.obfuscation.header_protection_key.is_none() {
        return Some(ConfigError::MissingHeaderProtectionKey);
    }
    if let Some(ips) = &peer.allowed_ips {
        if !are_cidrs(ips) {
            return Some(ConfigError::InvalidAllowedIp);
        }
    }
    None
}

#[verifier::loop_isolation(false)]
fn check_interface(ifaces: &Vec<InterfaceEntry>, i: usize) -> (r: Option<ConfigError>)
    requires
        i < ifaces@.len(),
    ensures
        r == interface_error(ifaces@, i as int),
{
    let iface = &ifaces[i];
    if iface.name.as_str().is_empty() {
        return Some(ConfigError::EmptyName);
    }
    if iface.name.as_str().as_bytes().len() > MAX_NAME_BYTES {
        return Some(ConfigError::NameTooLong);
    }
    let mut j: usize = 0;
    while j < i
        invariant
            j <= i < ifaces@.len(),
            *iface == ifaces@[i as int],
            forall|k: int| 0 <= k < j ==> (#[trigger] ifaces@[k]).name@ != iface.name@,
        decreases i - j,
    {
        if text::str_eq(ifaces[j].name.as_str(), iface.name.as_str()) {
            return Some(ConfigError::DuplicateName);
        }
        j += 1;
    }
    if !are_cidrs(&iface.addresses) {
        return Some(ConfigError::InvalidAddress);
    }
    let mut p: usize = 0;
    while p < iface.peers.len()
        invariant
            p <= iface.peers@.len(),
            peers_error(*iface, 0) == peers_error(*iface, p as int),
        decreases iface.peers@.len() - p,
    {
        let e = check_peer(iface, p);
        if e.is_some() {
            return e;
        }
        p += 1;
    }
    None
}

/// Whether a daemon can listen there.
pub fn is_listenable(s: &str) -> (r: bool)
    ensures
        r == listenable(s@),
{
    match addr::parse_socket(s) {
        Some(a) => a.port != 0 && !a.ip.is_unspecified(),
        None => false,
    }
}

/// Interface names are non-empty, fit the kernel's limit and are unique; peer keys are unique
/// within an interface; advanced security comes with a header protection key; every CIDR parses;
/// the metrics listener names an address and a port.
pub fn validate(cfg: &AwgConfig) -> (r: Result<(), ConfigError>)
    ensures
        match r {
            Ok(_) => config_error(*cfg) is None,
            Err(e) => config_error(*cfg) == Some(e),
        },
{
    let mut i: usize = 0;
    while i < cfg.interfaces.len()
        invariant
            i <= cfg.interfaces@.len(),
            interfaces_error(cfg.interfaces@, 0) == interfaces_error(cfg.interfaces@, i as int),
        decreases cfg.interfaces@.len() - i,
    {
        if let Some(e) = check_interface(&cfg.interfaces, i) {
            return Err(e);
        }
        i += 1;
    }
    if let Some(m) = &cfg.metrics {
        if !is_listenable(m.listen.as_str()) {
            return Err(ConfigError::InvalidMetricsListen);
        }
    }
    Ok(())
}

} // verus!
