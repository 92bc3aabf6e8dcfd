//! Which router configs are accepted, and what identity they give a node.

use crate::common::addr;
use crate::common::addr::IpAddr;
use crate::common::cidr as dual;
use crate::common::readback;
use crate::patches::mesh_config::MeshConfig;
use crate::patches::render;
use crate::router::cidr;
use crate::router::config;
use crate::router::config::BgpPeerEntry;
use crate::router::config::RouterConfig;
use crate::router::resolver::BypassSourceEntry;
use crate::text;
use vstd::prelude::*;

verus! {

proof fn lemma_loopbacks(v: Seq<String>, i: int)
    requires
        0 <= i <= v.len(),
    ensures
        config::loopback_error(v, i) is None <==> forall|k: int|
            i <= k < v.len() ==> config::loopback_text((#[trigger] v[k])@) is Ok,
    decreases v.len() - i,
{
    if i < v.len() {
        lemma_loopbacks(v, i + 1);
        if config::loopback_error(v, i) is None {
            assert forall|k: int| i <= k < v.len() implies config::loopback_text(
                (#[trigger] v[k])@,
            ) is Ok by {
                if k == i {
                    assert(config::loopback_text(v[i]@) is Ok);
                }
            }
        } else {
            if config::loopback_text(v[i]@) is Ok {
                let k = choose|k: int|
                    i + 1 <= k < v.len() && !(config::loopback_text((#[trigger] v[k])@) is Ok);
                assert(!(config::loopback_text(v[k]@) is Ok));
            } else {
                assert(!(config::loopback_text(v[i]@) is Ok));
            }
        }
    }
}

/// How many IPv4 addresses a list holds, at least and at most.
proof fn lemma_count(v: Seq<String>, n: int)
    requires
        0 <= n <= v.len(),
    ensures
        0 <= config::v4_count(v, n) <= n,
    decreases n,
{
    if n > 0 {
        lemma_count(v, n - 1);
    }
}

proof fn lemma_peers(peers: Seq<BgpPeerEntry>, i: int)
    requires
        0 <= i <= peers.len(),
    ensures
        config::peers_error(peers, i) is None <==> forall|k: int|
            i <= k < peers.len() ==> #[trigger] config::peer_error(peers, k) is None,
    decreases peers.len() - i,
{
    if i < peers.len() {
        lemma_peers(peers, i + 1);
    }
}

proof fn lemma_sources(v: Seq<BypassSourceEntry>, i: int)
    requires
        0 <= i <= v.len(),
    ensures
        config::sources_error(v, i) is None <==> forall|k: int|
            i <= k < v.len() ==> config::source_error(#[trigger] v[k]) is None,
    decreases v.len() - i,
{
    if i < v.len() {
        lemma_sources(v, i + 1);
    }
}

/// A source that says all that its kind needs.
pub open spec fn is_complete(e: BypassSourceEntry) -> bool {
    ||| {
        &&& e.kind@ == "literal"@
        &&& e.prefixes is Some
        &&& forall|i: int|
            0 <= i < e.prefixes->0@.len() ==> cidr::v4_cidr_text(
                (#[trigger] e.prefixes->0@[i]).net@,
            ) is Ok
    }
    ||| e.kind@ == "asn"@ && e.label is Some && e.asns is Some
    ||| e.kind@ == "dns"@ && e.label is Some && e.hostnames is Some
    ||| e.kind@ == "geoip"@ && e.country is Some
}

proof fn lemma_source(e: BypassSourceEntry)
    ensures
        config::source_error(e) is None <==> is_complete(e),
{
    reveal_strlit("literal");
    reveal_strlit("asn");
    reveal_strlit("dns");
    reveal_strlit("geoip");
    assert("literal"@.len() == 7 && "geoip"@.len() == 5 && "asn"@.len() == 3 && "dns"@.len() == 3);
    assert("asn"@[0] == 'a' && "dns"@[0] == 'd');
    if e.kind@ == "literal"@ && e.prefixes is Some {
        let p = e.prefixes->0@;
        if is_complete(e) {
            assert forall|i: int| 0 <= i < p.len() implies !(cidr::v4_cidr_text(
                (#[trigger] p[i]).net@,
            ) is Err) by {
                assert(cidr::v4_cidr_text(p[i].net@) is Ok);
            }
        } else {
            let i = choose|i: int|
                0 <= i < p.len() && !(cidr::v4_cidr_text((#[trigger] p[i]).net@) is Ok);
            assert(cidr::v4_cidr_text(p[i].net@) is Err);
        }
    }
}

/// Law: a router config is accepted if and only if it has an AS, one loopback of each family, peers
/// with distinct names and IPv6 addresses, no empty interface name, IPv4 ranges to learn and to
/// announce, and, where it has a bypass, sources that are complete and an interval to refresh them.
pub proof fn accepted_iff_valid(cfg: RouterConfig)
    ensures
        config::config_error(cfg) is None <==> {
            let v = cfg.node.loopback_addresses@;
            let peers = cfg.bgp_peers@;
            &&& cfg.bgp_as != 0
            &&& v.len() == 2
            &&& config::loopback_text(v[0]@) is Ok
            &&& config::loopback_text(v[1]@) is Ok
            &&& config::loopback_text(v[0]@)->Ok_0.0 is V4 <==> config::loopback_text(
                v[1]@,
            )->Ok_0.0 is V6
            &&& forall|i: int|
                0 <= i < peers.len() ==> (#[trigger] peers[i]).name@.len() > 0 && addr::ipv6_text(
                    peers[i].address@,
                ) is Some
            &&& forall|i: int, j: int|
                0 <= i < j < peers.len() ==> (#[trigger] peers[i]).name@ != (
                #[trigger] peers[j]).name@
            &&& forall|i: int|
                0 <= i < cfg.ospf_interfaces@.len() ==> (#[trigger] cfg.ospf_interfaces@[i])@.len()
                    > 0
            &&& forall|i: int|
                0 <= i < cfg.learn@.len() ==> cidr::v4_cidr_text((#[trigger] cfg.learn@[i])@) is Ok
            &&& forall|i: int|
                0 <= i < cfg.announce@.len() ==> cidr::v4_cidr_text(
                    (#[trigger] cfg.announce@[i]).net@,
                ) is Ok
            &&& cfg.bypass is Some ==> {
                &&& cfg.bypass->0.refresh_interval_secs > 0
                &&& forall|i: int|
                    0 <= i < cfg.bypass->0.include_sources@.len() ==> is_complete(
                        #[trigger] cfg.bypass->0.include_sources@[i],
                    )
                &&& forall|i: int|
                    0 <= i < cfg.bypass->0.exclude_sources@.len() ==> is_complete(
                        #[trigger] cfg.bypass->0.exclude_sources@[i],
                    )
            }
        },
{
    lemma_identity(cfg);
    lemma_all_peers(cfg.bgp_peers@);
    assert(forall|s: Seq<char>|
        (#[trigger] cidr::v4_cidr_text(s)) is Ok <==> !(cidr::v4_cidr_text(s) is Err));
    match cfg.bypass {
        Some(b) => {
            lemma_sources(b.include_sources@, 0);
            lemma_sources(b.exclude_sources@, 0);
            assert forall|i: int| 0 <= i < b.include_sources@.len() implies (config::source_error(
                #[trigger] b.include_sources@[i],
            ) is None <==> is_complete(b.include_sources@[i])) by {
                lemma_source(b.include_sources@[i]);
            }
            assert forall|i: int| 0 <= i < b.exclude_sources@.len() implies (config::source_error(
                #[trigger] b.exclude_sources@[i],
            ) is None <==> is_complete(b.exclude_sources@[i])) by {
                lemma_source(b.exclude_sources@[i]);
            }
        },
        None => {},
    }
}

proof fn lemma_identity(cfg: RouterConfig)
    ensures
        config::identity_error(cfg) is None <==> {
            let v = cfg.node.loopback_addresses@;
            &&& cfg.bgp_as != 0
            &&& v.len() == 2
            &&& config::loopback_text(v[0]@) is Ok
            &&& config::loopback_text(v[1]@) is Ok
            &&& config::loopback_text(v[0]@)->Ok_0.0 is V4 <==> config::loopback_text(
                v[1]@,
            )->Ok_0.0 is V6
        },
{
    let v = cfg.node.loopback_addresses@;
    lemma_loopbacks(v, 0);
    lemma_count(v, v.len() as int);
    if v.len() == 2 {
        reveal_with_fuel(config::v4_count, 3);
        if config::loopback_error(v, 0) is None {
            assert(config::loopback_text(v[0]@) is Ok);
            assert(config::loopback_text(v[1]@) is Ok);
        } else {
            let k = choose|k: int|
                0 <= k < v.len() && !(config::loopback_text((#[trigger] v[k])@) is Ok);
            assert(k == 0 || k == 1);
        }
    }
}

proof fn lemma_all_peers(peers: Seq<BgpPeerEntry>)
    ensures
        config::peers_error(peers, 0) is None <==> {
            &&& forall|i: int|
                0 <= i < peers.len() ==> (#[trigger] peers[i]).name@.len() > 0 && addr::ipv6_text(
                    peers[i].address@,
                ) is Some
            &&& forall|i: int, j: int|
                0 <= i < j < peers.len() ==> (#[trigger] peers[i]).name@ != (
                #[trigger] peers[j]).name@
        },
{
    lemma_peers(peers, 0);
    if config::peers_error(peers, 0) is None {
        assert forall|i: int| 0 <= i < peers.len() implies (#[trigger] peers[i]).name@.len() > 0
            && addr::ipv6_text(peers[i].address@) is Some by {
            assert(config::peer_error(peers, i) is None);
        }
        assert forall|i: int, j: int| 0 <= i < j < peers.len() implies (#[trigger] peers[i]).name@
            != (#[trigger] peers[j]).name@ by {
            assert(config::peer_error(peers, j) is None);
        }
    }
}

/// Law: the identity that an accepted config gives a node is its IPv4 and its IPv6 loopback, in
/// whichever order they are listed.
pub proof fn identity_is_the_two_loopbacks(cfg: RouterConfig, a: int)
    requires
        config::config_error(cfg) is None,
        a == 0 || a == 1,
        config::loopback_text(cfg.node.loopback_addresses@[a]@)->Ok_0.0 is V4,
    ensures
        ({
            let v = cfg.node.loopback_addresses@;
            &&& config::loopback_error(v, 0) is None
            &&& config::last_v4(v, v.len() as int) is Some
            &&& config::last_v6(v, v.len() as int) is Some
            &&& config::loopback_text(v[a]@)->Ok_0.0 == IpAddr::V4(
                config::last_v4(v, v.len() as int)->0,
            )
            &&& config::loopback_text(v[1 - a]@)->Ok_0.0 == IpAddr::V6(
                config::last_v6(v, v.len() as int)->0,
            )
        }),
{
    accepted_iff_valid(cfg);
    reveal_with_fuel(config::last_v4, 3);
    reveal_with_fuel(config::last_v6, 3);
}

/// Law: the daemon reads the loopbacks of a rendered config as those that the topology gives the
/// node, each as a single address.
pub proof fn rendered_loopbacks_read_back(mesh: MeshConfig, name: Seq<char>, r: RouterConfig)
    requires
        render::is_router_config(mesh, name, r),
        render::loopbacks_of(mesh, name) is Ok,
    ensures
        r.node.loopback_addresses@.len() == 2,
        dual::cidr_text(r.node.loopback_addresses@[0]@) == Ok::<(IpAddr, u8), dual::CidrError>(
            (IpAddr::V4(render::loopbacks_of(mesh, name)->Ok_0.0), 32),
        ),
        dual::cidr_text(r.node.loopback_addresses@[1]@) == Ok::<(IpAddr, u8), dual::CidrError>(
            (IpAddr::V6(render::loopbacks_of(mesh, name)->Ok_0.1), 128),
        ),
{
    let v = text::texts(r.node.loopback_addresses@);
    let (v4, v6) = render::loopbacks_of(mesh, name)->Ok_0;
    assert(v.len() == r.node.loopback_addresses@.len());
    assert(v[0] == r.node.loopback_addresses@[0]@);
    assert(v[1] == r.node.loopback_addresses@[1]@);
    readback::cidr_reads_back(IpAddr::V4(v4), 32);
    readback::cidr_reads_back(IpAddr::V6(v6), 128);
}

} // verus!
