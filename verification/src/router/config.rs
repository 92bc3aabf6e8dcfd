//! The daemon's config: everything it needs is declared statically.

use crate::common::addr;
use crate::common::addr::IpAddr;
use crate::common::cidr as dual;
use crate::common::cidr::CidrError;
use crate::router::cidr;
use crate::router::resolver;
use crate::router::resolver::BypassSourceEntry;
use crate::text;
use vstd::prelude::*;

verus! {

#[derive(Debug, PartialEq)]
pub struct RouterConfig {
    pub node: NodeIdentity,
    pub bgp_as: u32,
    pub bgp_peers: Vec<BgpPeerEntry>,
    /// Interface names, shell globs, or CIDRs that match an interface's address.
    pub ospf_interfaces: Vec<String>,
    /// Interfaces whose connected routes are announced; same grammar.
    pub direct_interfaces: Vec<String>,
    /// IPv4 ranges: a kernel route inside one of them is announced.
    pub learn: Vec<String>,
    pub announce: Vec<AnnounceEntry>,
    pub bypass: Option<BypassConfig>,
}

#[derive(Debug, PartialEq)]
pub struct NodeIdentity {
    /// Exactly one IPv4 and one IPv6 address, with or without a prefix length.
    pub loopback_addresses: Vec<String>,
}

#[derive(Debug, PartialEq)]
pub struct BgpPeerEntry {
    pub name: String,
    /// A bare IPv6 address.
    pub address: String,
}

#[derive(Debug, PartialEq)]
pub struct AnnounceEntry {
    pub net: String,
    pub label: Option<String>,
}

#[derive(Debug, PartialEq)]
pub struct BypassConfig {
    pub refresh_interval_secs: u64,
    pub include_sources: Vec<BypassSourceEntry>,
    pub exclude_sources: Vec<BypassSourceEntry>,
}

/// How often bypass sources are resolved anew where nothing else is said: once a day.
pub const DEFAULT_BYPASS_REFRESH_INTERVAL_SECS: u64 = 86400;

pub fn default_bypass_refresh_interval_secs() -> (r: u64)
    ensures
        r == 24 * 60 * 60,
{
    DEFAULT_BYPASS_REFRESH_INTERVAL_SECS
}

/// Why a config is refused.
#[derive(Clone, Copy, Debug, PartialEq, Eq, Structural)]
pub enum ConfigError {
    ReservedAs,
    InvalidLoopback(CidrError),
    LoopbackV4Count,
    LoopbackV6Count,
    EmptyPeerName,
    DuplicatePeerName,
    InvalidPeerAddress,
    EmptyOspfInterface,
    InvalidLearn,
    InvalidAnnounce,
    ZeroRefreshInterval,
    LiteralWithoutPrefixes,
    InvalidLiteralPrefix,
    AsnWithoutLabel,
    AsnWithoutAsns,
    DnsWithoutLabel,
    DnsWithoutHostnames,
    GeoipWithoutCountry,
    UnknownSourceKind,
}

/// A loopback identity: an address with a prefix length, or a bare one that stands for itself.
#[verifier::opaque]
pub open spec fn loopback_text(s: Seq<char>) -> Result<(IpAddr, u8), CidrError> {
    if s.contains('/') {
        dual::cidr_text(s)
    } else {
        match addr::ip_text(s) {
            Some(a) => Ok(
                (
                    a,
                    if a is V4 {
                        32u8
                    } else {
                        128u8
                    },
                ),
            ),
            None => Err(CidrError::InvalidAddress),
        }
    }
}

/// Parses a loopback identity.
pub fn parse_loopback_address(s: &str) -> (r: Result<(IpAddr, u8), CidrError>)
    ensures
        r == loopback_text(s@),
{
    let v = text::chars_of(s);
    let k: usize = text::find(v.as_slice(), '/', 0);
    proof {
        reveal(loopback_text);
        text::lemma_find_from(s@, '/', 0);
        if k < s@.len() {
            assert(s@[k as int] == '/');
        } else if s@.contains('/') {
            let i = choose|i: int| 0 <= i < s@.len() && s@[i] == '/';
            assert(s@[i] != '/');
        }
    }
    if k < v.len() {
        return dual::parse_cidr(s);
    }
    match addr::parse_ip_chars(v.as_slice()) {
        Some(a) => {
            let prefix: u8 = if a.is_ipv4() {
                32
            } else {
                128
            };
            Ok((a, prefix))
        },
        None => Err(CidrError::InvalidAddress),
    }
}

/// The first loopback address from `i` on that does not parse.
pub open spec fn loopback_error(v: Seq<String>, i: int) -> Option<ConfigError>
    decreases v.len() - i,
{
    if i >= v.len() {
        None
    } else {
        match loopback_text(v[i]@) {
            Err(e) => Some(ConfigError::InvalidLoopback(e)),
            Ok(_) => loopback_error(v, i + 1),
        }
    }
}

/// How many of the first `n` loopback addresses are IPv4.
pub open spec fn v4_count(v: Seq<String>, n: int) -> int
    decreases n,
{
    if n <= 0 {
        0
    } else {
        v4_count(v, n - 1) + (if loopback_text(v[n - 1]@)->Ok_0.0 is V4 {
            1int
        } else {
            0
        })
    }
}

/// What is wrong with peer `i`, going by the peers ahead of it.
pub open spec fn peer_error(peers: Seq<BgpPeerEntry>, i: int) -> Option<ConfigError> {
    let peer = peers[i];
    if peer.name@.len() == 0 {
        Some(ConfigError::EmptyPeerName)
    } else if exists|j: int| 0 <= j < i && (#[trigger] peers[j]).name@ == peer.name@ {
        Some(ConfigError::DuplicatePeerName)
    } else if addr::ipv6_text(peer.address@) is None {
        Some(ConfigError::InvalidPeerAddress)
    } else {
        None
    }
}

/// The first thing wrong with the peers from `i` on.
pub open spec fn peers_error(peers: Seq<BgpPeerEntry>, i: int) -> Option<ConfigError>
    decreases peers.len() - i,
{
    if i >= peers.len() {
        None
    } else if peer_error(peers, i) is Some {
        peer_error(peers, i)
    } else {
        peers_error(peers, i + 1)
    }
}

/// What is wrong with a bypass source, as far as that can be told without asking anyone.
pub open spec fn source_error(entry: BypassSourceEntry) -> Option<ConfigError> {
    if entry.kind@ == "literal"@ {
        match entry.prefixes {
            None => Some(ConfigError::LiteralWithoutPrefixes),
            Some(p) => if exists|i: int|
                0 <= i < p@.len() && cidr::v4_cidr_text((#[trigger] p@[i]).net@) is Err {
                Some(ConfigError::InvalidLiteralPrefix)
            } else {
                None
            },
        }
    } else if entry.kind@ == "asn"@ {
        if entry.label is None {
            Some(ConfigError::AsnWithoutLabel)
        } else if entry.asns is None {
            Some(ConfigError::AsnWithoutAsns)
        } else {
            None
        }
    } else if entry.kind@ == "dns"@ {
        if entry.label is None {
            Some(ConfigError::DnsWithoutLabel)
        } else if entry.hostnames is None {
            Some(ConfigError::DnsWithoutHostnames)
        } else {
            None
        }
    } else if entry.kind@ == "geoip"@ {
        if entry.country is None {
            Some(ConfigError::GeoipWithoutCountry)
        } else {
            None
        }
    } else {
        Some(ConfigError::UnknownSourceKind)
    }
}

/// The first thing wrong with the sources from `i` on.
pub open spec fn sources_error(v: Seq<BypassSourceEntry>, i: int) -> Option<ConfigError>
    decreases v.len() - i,
{
    if i >= v.len() {
        None
    } else if source_error(v[i]) is Some {
        source_error(v[i])
    } else {
        sources_error(v, i + 1)
    }
}

pub open spec fn bypass_error(b: BypassConfig) -> Option<ConfigError> {
    if b.refresh_interval_secs == 0 {
        Some(ConfigError::ZeroRefreshInterval)
    } else if sources_error(b.include_sources@, 0) is Some {
        sources_error(b.include_sources@, 0)
    } else {
        sources_error(b.exclude_sources@, 0)
    }
}

pub open spec fn identity_error(cfg: RouterConfig) -> Option<ConfigError> {
    let v = cfg.node.loopback_addresses@;
    if cfg.bgp_as == 0 {
        Some(ConfigError::ReservedAs)
    } else if loopback_error(v, 0) is Some {
        loopback_error(v, 0)
    } else if v4_count(v, v.len() as int) != 1 {
        Some(ConfigError::LoopbackV4Count)
    } else if v.len() - v4_count(v, v.len() as int) != 1 {
        Some(ConfigError::LoopbackV6Count)
    } else {
        None
    }
}

/// The first thing wrong with a config: its identity, its peers, its interfaces, its ranges, its
/// announcements, its bypass.
pub open spec fn config_error(cfg: RouterConfig) -> Option<ConfigError> {
    if identity_error(cfg) is Some {
        identity_error(cfg)
    } else if peers_error(cfg.bgp_peers@, 0) is Some {
        peers_error(cfg.bgp_peers@, 0)
    } else if exists|i: int|
        0 <= i < cfg.ospf_interfaces@.len() && (#[trigger] cfg.ospf_interfaces@[i])@.len() == 0 {
        Some(ConfigError::EmptyOspfInterface)
    } else if exists|i: int|
        0 <= i < cfg.learn@.len() && cidr::v4_cidr_text((#[trigger] cfg.learn@[i])@) is Err {
        Some(ConfigError::InvalidLearn)
    } else if exists|i: int|
        0 <= i < cfg.announce@.len() && cidr::v4_cidr_text((#[trigger] cfg.announce@[i]).net@) is Err {
        Some(ConfigError::InvalidAnnounce)
    } else {
        match cfg.bypass {
            Some(b) => bypass_error(b),
            None => None,
        }
    }
}

#[verifier::loop_isolation(false)]
fn check_identity(cfg: &RouterConfig) -> (r: Option<ConfigError>)
    ensures
        r == identity_error(*cfg),
{
    if cfg.bgp_as == 0 {
        return Some(ConfigError::ReservedAs);
    }
    let v = &cfg.node.loopback_addresses;
    let mut v4: usize = 0;
    let mut v6: usize = 0;
    let mut i: usize = 0;
    while i < v.len()
        invariant
            i <= v@.len(),
            v4 + v6 == i,
            v4 == v4_count(v@, i as int),
            loopback_error(v@, 0) == loopback_error(v@, i as int),
        decreases v@.len() - i,
    {
        match parse_loopback_address(v[i].as_str()) {
            Err(e) => {
                return Some(ConfigError::InvalidLoopback(e));
            },
            Ok((a, _)) => if a.is_ipv4() {
                v4 += 1;
            } else {
                v6 += 1;
            },
        }
        i += 1;
    }
    if v4 != 1 {
        Some(ConfigError::LoopbackV4Count)
    } else if v6 != 1 {
        Some(ConfigError::LoopbackV6Count)
    } else {
        None
    }
}

#[verifier::loop_isolation(false)]
fn check_peer(peers: &Vec<BgpPeerEntry>, i: usize) -> (r: Option<ConfigError>)
    requires
        i < peers@.len(),
    ensures
        r == peer_error(peers@, i as int),
{
    let peer = &peers[i];
    if peer.name.as_str().is_empty() {
        return Some(ConfigError::EmptyPeerName);
    }
    let mut j: usize = 0;
    while j < i
        invariant
            j <= i,
            forall|k: int| 0 <= k < j ==> (#[trigger] peers@[k]).name@ != peer.name@,
        decreases i - j,
    {
        if text::str_eq(peers[j].name.as_str(), peer.name.as_str()) {
            return Some(ConfigError::DuplicatePeerName);
        }
        j += 1;
    }
    let v = text::chars_of(peer.address.as_str());
    if addr::parse_ipv6_chars(v.as_slice()).is_none() {
        return Some(ConfigError::InvalidPeerAddress);
    }
    None
}

/// What is wrong with a bypass source.
#[verifier::loop_isolation(false)]
pub fn validate_bypass_entry(entry: &BypassSourceEntry) -> (r: Result<(), ConfigError>)
    ensures
        match r {
            Ok(_) => source_error(*entry) is None,
            Err(e) => source_error(*entry) == Some(e),
        },
{
    let kind = entry.kind.as_str();
    if text::str_eq(kind, "literal") {
        match &entry.prefixes {
            None => Err(ConfigError::LiteralWithoutPrefixes),
            Some(p) => {
                let mut i: usize = 0;
                while i < p.len()
                    invariant
                        i <= p@.len(),
                        forall|k: int|
                            0 <= k < i ==> cidr::v4_cidr_text((#[trigger] p@[k]).net@) is Ok,
                    decreases p@.len() - i,
                {
                    if cidr::parse_cidr(p[i].net.as_str()).is_err() {
                        return Err(ConfigError::InvalidLiteralPrefix);
                    }
                    i += 1;
                }
                Ok(())
            },
        }
    } else if text::str_eq(kind, "asn") {
        if entry.label.is_none() {
            Err(ConfigError::AsnWithoutLabel)
        } else if entry.asns.is_none() {
            Err(ConfigError::AsnWithoutAsns)
        } else {
            Ok(())
        }
    } else if text::str_eq(kind, "dns") {
        if entry.label.is_none() {
            Err(ConfigError::DnsWithoutLabel)
        } else if entry.hostnames.is_none() {
            Err(ConfigError::DnsWithoutHostnames)
        } else {
            Ok(())
        }
    } else if text::str_eq(kind, "geoip") {
        if entry.country.is_none() {
            Err(ConfigError::GeoipWithoutCountry)
        } else {
            Ok(())
        }
    } else {
        Err(ConfigError::UnknownSourceKind)
    }
}

fn check_sources(v: &Vec<BypassSourceEntry>) -> (r: Option<ConfigError>)
    ensures
        r == sources_error(v@, 0),
{
    let mut i: usize = 0;
    while i < v.len()
        invariant
            i <= v@.len(),
            sources_error(v@, 0) == sources_error(v@, i as int),
        decreases v@.len() - i,
    {
        if let Err(e) = validate_bypass_entry(&v[i]) {
            return Some(e);
        }
        i += 1;
    }
    None
}

fn check_bypass(b: &BypassConfig) -> (r: Option<ConfigError>)
    ensures
        r == bypass_error(*b),
{
    if b.refresh_interval_secs == 0 {
        return Some(ConfigError::ZeroRefreshInterval);
    }
    let e = check_sources(&b.include_sources);
    if e.is_some() {
        return e;
    }
    check_sources(&b.exclude_sources)
}

/// Whether a config can be run, or the first thing that is wrong with it.
#[verifier::loop_isolation(false)]
pub fn validate(cfg: &RouterConfig) -> (r: Result<(), ConfigError>)
    ensures
        match r {
            Ok(_) => config_error(*cfg) is None,
            Err(e) => config_error(*cfg) == Some(e),
        },
{
    if let Some(e) = check_identity(cfg) {
        return Err(e);
    }
    let mut p: usize = 0;
    while p < cfg.bgp_peers.len()
        invariant
            p <= cfg.bgp_peers@.len(),
            peers_error(cfg.bgp_peers@, 0) == peers_error(cfg.bgp_peers@, p as int),
        decreases cfg.bgp_peers@.len() - p,
    {
        if let Some(e) = check_peer(&cfg.bgp_peers, p) {
            return Err(e);
        }
        p += 1;
    }
    let mut i: usize = 0;
    while i < cfg.ospf_interfaces.len()
        invariant
            i <= cfg.ospf_interfaces@.len(),
            forall|k: int| 0 <= k < i ==> (#[trigger] cfg.ospf_interfaces@[k])@.len() > 0,
        decreases cfg.ospf_interfaces@.len() - i,
    {
        if cfg.ospf_interfaces[i].as_str().is_empty() {
            return Err(ConfigError::EmptyOspfInterface);
        }
        i += 1;
    }
    let mut l: usize = 0;
    while l < cfg.learn.len()
        invariant
            l <= cfg.learn@.len(),
            forall|k: int| 0 <= k < l ==> cidr::v4_cidr_text((#[trigger] cfg.learn@[k])@) is Ok,
        decreases cfg.learn@.len() - l,
    {
        if cidr::parse_cidr(cfg.learn[l].as_str()).is_err() {
            return Err(ConfigError::InvalidLearn);
        }
        l += 1;
    }
    let mut a: usize = 0;
    while a < cfg.announce.len()
        invariant
            a <= cfg.announce@.len(),
            forall|k: int|
                0 <= k < a ==> cidr::v4_cidr_text((#[trigger] cfg.announce@[k]).net@) is Ok,
        decreases cfg.announce@.len() - a,
    {
        if cidr::parse_cidr(cfg.announce[a].net.as_str()).is_err() {
            return Err(ConfigError::InvalidAnnounce);
        }
        a += 1;
    }
    if let Some(b) = &cfg.bypass {
        if let Some(e) = check_bypass(b) {
            return Err(e);
        }
    }
    Ok(())
}

/// The last IPv4 address among the first `n` loopback addresses.
pub open spec fn last_v4(v: Seq<String>, n: int) -> Option<u32>
    decreases n,
{
    if n <= 0 {
        None
    } else {
        match loopback_text(v[n - 1]@)->Ok_0.0 {
            IpAddr::V4(a) => Some(a),
            IpAddr::V6(_) => last_v4(v, n - 1),
        }
    }
}

/// The last IPv6 address among the first `n` loopback addresses.
pub open spec fn last_v6(v: Seq<String>, n: int) -> Option<u128>
    decreases n,
{
    if n <= 0 {
        None
    } else {
        match loopback_text(v[n - 1]@)->Ok_0.0 {
            IpAddr::V6(a) => Some(a),
            IpAddr::V4(_) => last_v6(v, n - 1),
        }
    }
}

/// Splits a node's loopback addresses into its IPv4 and its IPv6 one. Fails on the first that does
/// not parse, or where a family is missing.
#[verifier::loop_isolation(false)]
pub fn node_loopbacks(cfg: &RouterConfig) -> (r: Result<(u32, u128), ConfigError>)
    ensures
        ({
            let v = cfg.node.loopback_addresses@;
            let n = v.len() as int;
            if loopback_error(v, 0) is Some {
                r is Err && r->Err_0 == loopback_error(v, 0)->0
            } else if last_v4(v, n) is None {
                r == Err::<(u32, u128), ConfigError>(ConfigError::LoopbackV4Count)
            } else if last_v6(v, n) is None {
                r == Err::<(u32, u128), ConfigError>(ConfigError::LoopbackV6Count)
            } else {
                r == Ok::<(u32, u128), ConfigError>((last_v4(v, n)->0, last_v6(v, n)->0))
            }
        }),
{
    let v = &cfg.node.loopback_addresses;
    let mut v4: Option<u32> = None;
    let mut v6: Option<u128> = None;
    let mut i: usize = 0;
    while i < v.len()
        invariant
            i <= v@.len(),
            v4 == last_v4(v@, i as int),
            v6 == last_v6(v@, i as int),
            loopback_error(v@, 0) == loopback_error(v@, i as int),
        decreases v@.len() - i,
    {
        match parse_loopback_address(v[i].as_str()) {
            Err(e) => {
                return Err(ConfigError::InvalidLoopback(e));
            },
            Ok((a, _)) => match a {
                IpAddr::V4(a) => {
                    v4 = Some(a);
                },
                IpAddr::V6(a) => {
                    v6 = Some(a);
                },
            },
        }
        i += 1;
    }
    match (v4, v6) {
        (None, _) => Err(ConfigError::LoopbackV4Count),
        (_, None) => Err(ConfigError::LoopbackV6Count),
        (Some(a), Some(b)) => Ok((a, b)),
    }
}

} // verus!
