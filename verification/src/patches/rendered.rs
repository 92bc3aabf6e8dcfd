//! What a node's configs say of the topology they were rendered from, entry by entry.

use crate::assoc;
use crate::awg::config::AwgConfig;
use crate::common::addr;
use crate::common::cidr;
use crate::common::keys;
use crate::common::keys::KeyError;
use crate::common::obfuscation;
use crate::patches::mesh_config;
use crate::patches::mesh_config::MeshConfig;
use crate::patches::mesh_config::MeshLink;
use crate::patches::mesh_config::RoadwarriorPool;
use crate::patches::render;
use crate::patches::render::ExistingState;
use crate::router::config::BypassConfig;
use crate::router::config::RouterConfig;
use crate::taloscfg::secrets;
use crate::taloscfg::secrets::Fresh;
use crate::taloscfg::secrets::ResolvedSecrets;
use crate::text;
use vstd::prelude::*;

verus! {

/// Where the sources of entry `i` stand among those collected from the first `n` entries.
proof fn lemma_collected(
    bypass: Seq<mesh_config::BypassEntry>,
    name: Seq<char>,
    excluded: bool,
    n: int,
    i: int,
    j: int,
) -> (k: int)
    requires
        0 <= i < n <= bypass.len(),
        bypass[i].node@ == name,
        0 <= j < (if excluded {
            bypass[i].exclude_sources@
        } else {
            bypass[i].include_sources@
        }).len(),
    ensures
        0 <= k < render::sources_for(bypass, name, excluded, n).len(),
        render::sources_for(bypass, name, excluded, n)[k] == (if excluded {
            bypass[i].exclude_sources@
        } else {
            bypass[i].include_sources@
        })[j],
    decreases n,
{
    if i == n - 1 {
        render::sources_for(bypass, name, excluded, n - 1).len() + j
    } else {
        lemma_collected(bypass, name, excluded, n - 1, i, j)
    }
}

/// The entry, and the place in it, that a collected source comes from.
proof fn lemma_collected_from(
    bypass: Seq<mesh_config::BypassEntry>,
    name: Seq<char>,
    excluded: bool,
    n: int,
    k: int,
) -> (r: (int, int))
    requires
        n <= bypass.len(),
        0 <= k < render::sources_for(bypass, name, excluded, n).len(),
    ensures
        0 <= r.0 < n,
        bypass[r.0].node@ == name,
        0 <= r.1 < (if excluded {
            bypass[r.0].exclude_sources@
        } else {
            bypass[r.0].include_sources@
        }).len(),
        render::sources_for(bypass, name, excluded, n)[k] == (if excluded {
            bypass[r.0].exclude_sources@
        } else {
            bypass[r.0].include_sources@
        })[r.1],
    decreases n,
{
    let before = render::sources_for(bypass, name, excluded, n - 1).len();
    if n > 0 && bypass[n - 1].node@ == name && k >= before {
        (n - 1, k - before)
    } else {
        lemma_collected_from(bypass, name, excluded, n - 1, k)
    }
}

/// Law: a node is given bypass rules exactly where an entry is for it, and every source that such
/// an entry leaves out is among those that the node leaves out, with each of its fields.
pub proof fn excluded_source_reaches_the_node(
    mesh: MeshConfig,
    name: Seq<char>,
    bypass: Option<BypassConfig>,
    i: int,
    j: int,
)
    requires
        render::is_bypass(mesh, name, bypass),
        0 <= i < mesh.bypass@.len(),
        mesh.bypass@[i].node@ == name,
    ensures
        bypass is Some,
        0 <= j < mesh.bypass@[i].exclude_sources@.len() ==> exists|k: int|
            {
                let from = mesh.bypass@[i].exclude_sources@[j];
                let to = #[trigger] bypass->0.exclude_sources@[k];
                &&& 0 <= k < bypass->0.exclude_sources@.len()
                &&& to.kind@ == from.kind@
                &&& text::text_opt(to.label) == text::text_opt(from.label)
                &&& text::text_opt(to.country) == text::text_opt(from.country)
                &&& to.asns is Some <==> from.asns is Some
                &&& to.asns is Some ==> text::texts(to.asns->0@) == text::texts(from.asns->0@)
                &&& to.hostnames is Some <==> from.hostnames is Some
                &&& to.hostnames is Some ==> text::texts(to.hostnames->0@) == text::texts(
                    from.hostnames->0@,
                )
                &&& to.prefixes is Some <==> from.prefixes is Some
                &&& to.prefixes is Some ==> to.prefixes->0@.len() == from.prefixes->0@.len()
                &&& to.prefixes is Some ==> forall|p: int|
                    0 <= p < to.prefixes->0@.len() ==> (#[trigger] to.prefixes->0@[p]).net@
                        == from.prefixes->0@[p].net@ && text::text_opt(to.prefixes->0@[p].label)
                        == text::text_opt(from.prefixes->0@[p].label)
            },
{
    let n = mesh.bypass@.len() as int;
    if 0 <= j < mesh.bypass@[i].exclude_sources@.len() {
        let k = lemma_collected(mesh.bypass@, name, true, n, i, j);
        let to = bypass->0.exclude_sources@[k];
        assert(render::same_source(render::sources_for(mesh.bypass@, name, true, n)[k], to));
    }
}

/// Law: every source that an entry for a node takes in is among those that the node takes in, with
/// each of its fields.
pub proof fn included_source_reaches_the_node(
    mesh: MeshConfig,
    name: Seq<char>,
    bypass: Option<BypassConfig>,
    i: int,
    j: int,
)
    requires
        render::is_bypass(mesh, name, bypass),
        0 <= i < mesh.bypass@.len(),
        mesh.bypass@[i].node@ == name,
    ensures
        bypass is Some,
        0 <= j < mesh.bypass@[i].include_sources@.len() ==> exists|k: int|
            {
                let from = mesh.bypass@[i].include_sources@[j];
                let to = #[trigger] bypass->0.include_sources@[k];
                &&& 0 <= k < bypass->0.include_sources@.len()
                &&& to.kind@ == from.kind@
                &&& text::text_opt(to.label) == text::text_opt(from.label)
                &&& text::text_opt(to.country) == text::text_opt(from.country)
                &&& to.asns is Some <==> from.asns is Some
                &&& to.asns is Some ==> text::texts(to.asns->0@) == text::texts(from.asns->0@)
                &&& to.hostnames is Some <==> from.hostnames is Some
                &&& to.hostnames is Some ==> text::texts(to.hostnames->0@) == text::texts(
                    from.hostnames->0@,
                )
                &&& to.prefixes is Some <==> from.prefixes is Some
                &&& to.prefixes is Some ==> to.prefixes->0@.len() == from.prefixes->0@.len()
                &&& to.prefixes is Some ==> forall|p: int|
                    0 <= p < to.prefixes->0@.len() ==> (#[trigger] to.prefixes->0@[p]).net@
                        == from.prefixes->0@[p].net@ && text::text_opt(to.prefixes->0@[p].label)
                        == text::text_opt(from.prefixes->0@[p].label)
            },
{
    let n = mesh.bypass@.len() as int;
    if 0 <= j < mesh.bypass@[i].include_sources@.len() {
        let k = lemma_collected(mesh.bypass@, name, false, n, i, j);
        let to = bypass->0.include_sources@[k];
        assert(render::same_source(render::sources_for(mesh.bypass@, name, false, n)[k], to));
    }
}

/// Law: every source that a node leaves out comes from an entry for that node that leaves it out.
pub proof fn excluded_source_comes_from_an_entry(
    mesh: MeshConfig,
    name: Seq<char>,
    bypass: BypassConfig,
    k: int,
)
    requires
        render::is_bypass(mesh, name, Some(bypass)),
        0 <= k < bypass.exclude_sources@.len(),
    ensures
        exists|i: int, j: int|
            {
                let from = #[trigger] mesh.bypass@[i].exclude_sources@[j];
                let to = bypass.exclude_sources@[k];
                &&& 0 <= i < mesh.bypass@.len()
                &&& mesh.bypass@[i].node@ == name
                &&& 0 <= j < mesh.bypass@[i].exclude_sources@.len()
                &&& to.kind@ == from.kind@
                &&& text::text_opt(to.label) == text::text_opt(from.label)
                &&& text::text_opt(to.country) == text::text_opt(from.country)
                &&& to.asns is Some <==> from.asns is Some
                &&& to.asns is Some ==> text::texts(to.asns->0@) == text::texts(from.asns->0@)
                &&& to.hostnames is Some <==> from.hostnames is Some
                &&& to.hostnames is Some ==> text::texts(to.hostnames->0@) == text::texts(
                    from.hostnames->0@,
                )
                &&& to.prefixes is Some <==> from.prefixes is Some
                &&& to.prefixes is Some ==> to.prefixes->0@.len() == from.prefixes->0@.len()
                &&& to.prefixes is Some ==> forall|p: int|
                    0 <= p < to.prefixes->0@.len() ==> (#[trigger] to.prefixes->0@[p]).net@
                        == from.prefixes->0@[p].net@ && text::text_opt(to.prefixes->0@[p].label)
                        == text::text_opt(from.prefixes->0@[p].label)
            },
{
    let n = mesh.bypass@.len() as int;
    let (i, j) = lemma_collected_from(mesh.bypass@, name, true, n, k);
    let from = mesh.bypass@[i].exclude_sources@[j];
    assert(render::same_source(from, bypass.exclude_sources@[k]));
}

/// Law: every source that a node takes in comes from an entry for that node that takes it in.
pub proof fn included_source_comes_from_an_entry(
    mesh: MeshConfig,
    name: Seq<char>,
    bypass: BypassConfig,
    k: int,
)
    requires
        render::is_bypass(mesh, name, Some(bypass)),
        0 <= k < bypass.include_sources@.len(),
    ensures
        exists|i: int, j: int|
            {
                let from = #[trigger] mesh.bypass@[i].include_sources@[j];
                let to = bypass.include_sources@[k];
                &&& 0 <= i < mesh.bypass@.len()
                &&& mesh.bypass@[i].node@ == name
                &&& 0 <= j < mesh.bypass@[i].include_sources@.len()
                &&& to.kind@ == from.kind@
                &&& text::text_opt(to.label) == text::text_opt(from.label)
                &&& text::text_opt(to.country) == text::text_opt(from.country)
                &&& to.asns is Some <==> from.asns is Some
                &&& to.asns is Some ==> text::texts(to.asns->0@) == text::texts(from.asns->0@)
                &&& to.hostnames is Some <==> from.hostnames is Some
                &&& to.hostnames is Some ==> text::texts(to.hostnames->0@) == text::texts(
                    from.hostnames->0@,
                )
                &&& to.prefixes is Some <==> from.prefixes is Some
                &&& to.prefixes is Some ==> to.prefixes->0@.len() == from.prefixes->0@.len()
                &&& to.prefixes is Some ==> forall|p: int|
                    0 <= p < to.prefixes->0@.len() ==> (#[trigger] to.prefixes->0@[p]).net@
                        == from.prefixes->0@[p].net@ && text::text_opt(to.prefixes->0@[p].label)
                        == text::text_opt(from.prefixes->0@[p].label)
            },
{
    let n = mesh.bypass@.len() as int;
    let (i, j) = lemma_collected_from(mesh.bypass@, name, false, n, k);
    let from = mesh.bypass@[i].include_sources@[j];
    assert(render::same_source(from, bypass.include_sources@[k]));
}

/// The place of node `i` among the peers found in the first `n` nodes.
proof fn lemma_peer_place(mesh: MeshConfig, name: Seq<char>, n: int, i: int) -> (k: int)
    requires
        0 <= i < n <= mesh.nodes@.len(),
        mesh.nodes@[i].name@ != name,
        render::peers_of(mesh, name, n) is Ok,
    ensures
        0 <= k < render::peers_of(mesh, name, n)->Ok_0.len(),
        render::peers_of(mesh, name, n)->Ok_0[k].0 == mesh.nodes@[i].name@,
        render::loopbacks_of(mesh, mesh.nodes@[i].name@) is Ok,
        render::peers_of(mesh, name, n)->Ok_0[k].1 == addr::ipv6_format(
            render::loopbacks_of(mesh, mesh.nodes@[i].name@)->Ok_0.1 as int,
        ),
    decreases n,
{
    if i == n - 1 {
        render::peers_of(mesh, name, n - 1)->Ok_0.len() as int
    } else {
        lemma_peer_place(mesh, name, n - 1, i)
    }
}

/// The node that a peer found in the first `n` nodes is.
proof fn lemma_peer_node(mesh: MeshConfig, name: Seq<char>, n: int, k: int) -> (i: int)
    requires
        n <= mesh.nodes@.len(),
        render::peers_of(mesh, name, n) is Ok,
        0 <= k < render::peers_of(mesh, name, n)->Ok_0.len(),
    ensures
        0 <= i < n,
        mesh.nodes@[i].name@ != name,
        render::peers_of(mesh, name, n)->Ok_0[k].0 == mesh.nodes@[i].name@,
        render::loopbacks_of(mesh, mesh.nodes@[i].name@) is Ok,
        render::peers_of(mesh, name, n)->Ok_0[k].1 == addr::ipv6_format(
            render::loopbacks_of(mesh, mesh.nodes@[i].name@)->Ok_0.1 as int,
        ),
    decreases n,
{
    let before = render::peers_of(mesh, name, n - 1)->Ok_0.len();
    if n > 0 && mesh.nodes@[n - 1].name@ != name && k == before {
        n - 1
    } else {
        lemma_peer_node(mesh, name, n - 1, k)
    }
}

/// How many peers the first `n` nodes give a node that stands at `own`.
proof fn lemma_peer_count(mesh: MeshConfig, name: Seq<char>, n: int, own: int)
    requires
        0 <= n <= mesh.nodes@.len(),
        0 <= own < mesh.nodes@.len(),
        forall|i: int|
            0 <= i < mesh.nodes@.len() ==> ((#[trigger] mesh.nodes@[i]).name@ == name <==> i
                == own),
        render::peers_of(mesh, name, n) is Ok,
    ensures
        render::peers_of(mesh, name, n)->Ok_0.len() == (if own < n {
            n - 1
        } else {
            n
        }),
    decreases n,
{
    if n > 0 {
        assert(mesh.nodes@[n - 1].name@ == name <==> n - 1 == own);
        lemma_peer_count(mesh, name, n - 1, own);
    }
}

/// A node's loopbacks as its own config has them.
proof fn lemma_own_loopbacks(mesh: MeshConfig, name: Seq<char>, r: RouterConfig)
    requires
        render::is_router_config(mesh, name, r),
    ensures
        r.node.loopback_addresses@.len() == 2,
        r.node.loopback_addresses@[0]@ == addr::ipv4_format(
            render::loopbacks_of(mesh, name)->Ok_0.0 as int,
        ) + seq!['/'] + text::decimal(32),
        r.node.loopback_addresses@[1]@ == addr::ipv6_format(
            render::loopbacks_of(mesh, name)->Ok_0.1 as int,
        ) + seq!['/'] + text::decimal(128),
{
    let v = text::texts(r.node.loopback_addresses@);
    assert(v.len() == r.node.loopback_addresses@.len());
    assert(v[0] == r.node.loopback_addresses@[0]@);
    assert(v[1] == r.node.loopback_addresses@[1]@);
    let (v4, v6) = render::loopbacks_of(mesh, name)->Ok_0;
    assert(v[0] == cidr::cidr_format(addr::IpAddr::V4(v4), 32));
    assert(v[1] == cidr::cidr_format(addr::IpAddr::V6(v6), 128));
}

/// Law: a node peers with every other node, under that node's name and at the address that the
/// other node's own config has for its IPv6 loopback.
pub proof fn every_other_node_is_a_peer(
    mesh: MeshConfig,
    name: Seq<char>,
    r: RouterConfig,
    i: int,
    there: RouterConfig,
)
    requires
        render::router_error(mesh, name) is None,
        render::is_router_config(mesh, name, r),
        0 <= i < mesh.nodes@.len(),
        mesh.nodes@[i].name@ != name,
        render::router_error(mesh, mesh.nodes@[i].name@) is None,
        render::is_router_config(mesh, mesh.nodes@[i].name@, there),
    ensures
        there.node.loopback_addresses@.len() == 2,
        exists|k: int|
            0 <= k < r.bgp_peers@.len() && (#[trigger] r.bgp_peers@[k]).name@
                == mesh.nodes@[i].name@ && there.node.loopback_addresses@[1]@
                == r.bgp_peers@[k].address@ + seq!['/'] + text::decimal(128),
{
    let n = mesh.nodes@.len() as int;
    let k = lemma_peer_place(mesh, name, n, i);
    let v = render::peer_texts(r.bgp_peers@);
    assert(v[k].0 == r.bgp_peers@[k].name@ && v[k].1 == r.bgp_peers@[k].address@);
    lemma_own_loopbacks(mesh, mesh.nodes@[i].name@, there);
}

/// Law: a node's peers are other nodes of the topology, and where the names of the nodes are
/// distinct there is one for each of them.
pub proof fn peers_are_the_other_nodes(mesh: MeshConfig, own: int, r: RouterConfig)
    requires
        0 <= own < mesh.nodes@.len(),
        forall|i: int, j: int|
            0 <= i < j < mesh.nodes@.len() ==> (#[trigger] mesh.nodes@[i]).name@ != (
            #[trigger] mesh.nodes@[j]).name@,
        render::router_error(mesh, mesh.nodes@[own].name@) is None,
        render::is_router_config(mesh, mesh.nodes@[own].name@, r),
    ensures
        r.bgp_peers@.len() == mesh.nodes@.len() - 1,
        forall|k: int|
            0 <= k < r.bgp_peers@.len() ==> exists|i: int|
                0 <= i < mesh.nodes@.len() && i != own && (#[trigger] mesh.nodes@[i]).name@ == (
                #[trigger] r.bgp_peers@[k]).name@,
{
    let n = mesh.nodes@.len() as int;
    let name = mesh.nodes@[own].name@;
    lemma_peer_count(mesh, name, n, own);
    assert forall|k: int| 0 <= k < r.bgp_peers@.len() implies exists|i: int|
        0 <= i < mesh.nodes@.len() && i != own && (#[trigger] mesh.nodes@[i]).name@ == (
        #[trigger] r.bgp_peers@[k]).name@ by {
        let i = lemma_peer_node(mesh, name, n, k);
        assert(render::peer_texts(r.bgp_peers@)[k].0 == r.bgp_peers@[k].name@);
    }
}

/// Law: what a router config says of the cluster as a whole is what the topology says: the AS
/// number, the range to learn, the range to announce and how often to refresh the bypass.
pub proof fn cluster_settings_reach_the_router(mesh: MeshConfig, name: Seq<char>, r: RouterConfig)
    requires
        render::is_router_config(mesh, name, r),
    ensures
        r.bgp_as == mesh.cluster.bgp_as,
        forall|net: Seq<char>| #[trigger]
            text::texts(r.learn@).contains(net) <==> text::text_opt(mesh.cluster.pod_subnet)
                == Some(net),
        r.learn@.len() <= 1,
        r.announce@.len() <= 1,
        r.announce@.len() == 1 <==> mesh.cluster.service_subnet is Some,
        r.announce@.len() == 1 ==> r.announce@[0].net@ == mesh.cluster.service_subnet->0@
            && text::text_opt(r.announce@[0].label) == Some("k8s-services"@),
        text::texts(r.ospf_interfaces@) == seq!["mesh-*"@, "router-lo"@],
        r.bypass is Some && mesh.cluster.bypass_refresh_interval_secs is Some
            ==> r.bypass->0.refresh_interval_secs == mesh.cluster.bypass_refresh_interval_secs->0,
        r.bypass is Some && mesh.cluster.bypass_refresh_interval_secs is None
            ==> r.bypass->0.refresh_interval_secs == 86400,
        r.bypass is Some <==> exists|i: int|
            0 <= i < mesh.bypass@.len() && (#[trigger] mesh.bypass@[i]).node@ == name,
{
    let v = text::texts(r.learn@);
    assert(v.len() == r.learn@.len());
    assert forall|net: Seq<char>| #[trigger] v.contains(net) <==> text::text_opt(
        mesh.cluster.pod_subnet,
    ) == Some(net) by {
        if mesh.cluster.pod_subnet is Some {
            assert(v[0] == mesh.cluster.pod_subnet->0@);
        }
    }
}

/// The place of link `i` among those of a node.
proof fn lemma_link_place(links: Seq<MeshLink>, name: Seq<char>, n: int, i: int) -> (k: int)
    requires
        0 <= i < n <= links.len(),
        links[i].pair@[0]@ == name || links[i].pair@[1]@ == name,
    ensures
        0 <= k < render::links_of(links, name, n).len(),
        render::links_of(links, name, n)[k] == i,
    decreases n,
{
    if i == n - 1 {
        render::links_of(links, name, n - 1).len() as int
    } else {
        lemma_link_place(links, name, n - 1, i)
    }
}

/// What stands among the links of a node is a link with the node at an end, each once.
proof fn lemma_links(links: Seq<MeshLink>, name: Seq<char>, n: int)
    requires
        n <= links.len(),
    ensures
        forall|k: int|
            0 <= k < render::links_of(links, name, n).len() ==> {
                let i = #[trigger] render::links_of(links, name, n)[k];
                0 <= i < n && (links[i].pair@[0]@ == name || links[i].pair@[1]@ == name)
            },
        forall|j: int, k: int|
            0 <= j < k < render::links_of(links, name, n).len() ==> (#[trigger] render::links_of(
                links,
                name,
                n,
            )[j]) < (#[trigger] render::links_of(links, name, n)[k]),
    decreases n,
{
    if n > 0 {
        lemma_links(links, name, n - 1);
    }
}

/// The place of pool `i` among those that a node terminates.
proof fn lemma_pool_place(pools: Seq<RoadwarriorPool>, name: Seq<char>, n: int, i: int) -> (k: int)
    requires
        0 <= i < n <= pools.len(),
        text::texts(pools[i].node_hostnames@).contains(name),
    ensures
        0 <= k < render::pools_of(pools, name, n).len(),
        render::pools_of(pools, name, n)[k] == i,
    decreases n,
{
    if i == n - 1 {
        render::pools_of(pools, name, n - 1).len() as int
    } else {
        lemma_pool_place(pools, name, n - 1, i)
    }
}

/// What stands among the pools of a node is a pool that names it, each once.
proof fn lemma_pools(pools: Seq<RoadwarriorPool>, name: Seq<char>, n: int)
    requires
        n <= pools.len(),
    ensures
        forall|k: int|
            0 <= k < render::pools_of(pools, name, n).len() ==> {
                let i = #[trigger] render::pools_of(pools, name, n)[k];
                0 <= i < n && text::texts(pools[i].node_hostnames@).contains(name)
            },
        forall|j: int, k: int|
            0 <= j < k < render::pools_of(pools, name, n).len() ==> (#[trigger] render::pools_of(
                pools,
                name,
                n,
            )[j]) < (#[trigger] render::pools_of(pools, name, n)[k]),
    decreases n,
{
    if n > 0 {
        lemma_pools(pools, name, n - 1);
    }
}

/// The reason why one link cannot be rendered is a reason for the whole.
proof fn lemma_no_link_error(
    mesh: MeshConfig,
    resolved: ResolvedSecrets,
    name: Seq<char>,
    from: int,
    i: int,
)
    requires
        0 <= from <= i < mesh.mesh.links@.len(),
        render::links_error(mesh, resolved, name, from) is None,
        render::peer_of(mesh.mesh.links@[i], name) is Some,
    ensures
        render::link_error(
            mesh,
            resolved,
            render::peer_of(mesh.mesh.links@[i], name)->0,
        ) is None,
    decreases i - from,
{
    if from < i {
        lemma_no_link_error(mesh, resolved, name, from + 1, i);
    }
}

/// Law: every link that a node is at one end of is an interface of that node, on the link's port
/// and with the node's own key. It is named after the node at the other end, and its one peer is
/// that node: by name, by the public half of its key, and at its endpoint and the link's port where
/// it has an endpoint. Everything is let through.
pub proof fn link_becomes_an_interface(
    mesh: MeshConfig,
    name: Seq<char>,
    resolved: ResolvedSecrets,
    c: AwgConfig,
    i: int,
    near: int,
    other: int,
)
    requires
        mesh_config::mesh_error(mesh) is None,
        render::mesh_interfaces_error(mesh, resolved, name) is None,
        render::is_awg_config(mesh, name, resolved, c),
        0 <= i < mesh.mesh.links@.len(),
        near == 0 || near == 1,
        mesh.mesh.links@[i].pair@[near]@ == name,
        0 <= other < mesh.nodes@.len(),
        mesh.nodes@[other].name@ == mesh.mesh.links@[i].pair@[1 - near]@,
    ensures
        exists|k: int|
            {
                let link = mesh.mesh.links@[i];
                let e = #[trigger] c.interfaces@[k];
                &&& 0 <= k < c.interfaces@.len()
                &&& e.name@ == "mesh-"@ + link.pair@[1 - near]@
                &&& e.listen_port == link.port
                &&& Some(e.private_key@) == own_key(resolved, name)
                &&& e.handshake_stale_secs is None
                &&& e.peers@.len() == 1
                &&& text::text_opt(e.peers@[0].name) == Some(link.pair@[1 - near]@)
                &&& own_key(resolved, link.pair@[1 - near]@) is Some
                &&& keys::public_of(own_key(resolved, link.pair@[1 - near]@)->0) == Ok::<
                    Seq<char>,
                    KeyError,
                >(e.peers@[0].public_key@)
                &&& e.peers@[0].endpoint is Some <==> mesh.nodes@[other].endpoint is Some
                &&& e.peers@[0].endpoint is Some ==> e.peers@[0].endpoint->0@
                    == mesh.nodes@[other].endpoint->0@ + ":"@ + text::decimal(link.port as int)
                &&& e.peers@[0].allowed_ips is None
                &&& !e.peers@[0].advanced_security
            },
{
    let links = mesh.mesh.links@;
    let n = links.len() as int;
    let far = links[i].pair@[1 - near]@;
    let at = render::links_of(links, name, n);
    let k = lemma_link_place(links, name, n, i);
    lemma_no_link_error(mesh, resolved, name, 0, i);
    mesh_config::accepted_links_join_two_nodes(mesh, i);
    assert(render::peer_of(links[i], name) == Some(far));
    assert(c.interfaces@.take(at.len() as int)[k] == c.interfaces@[k]);
    assert forall|j: int| 0 <= j < other implies (#[trigger] mesh.nodes@[j]).name@ != far by {
        mesh_config::accepted_nodes_are_distinct(mesh, j, other);
    }
    render::lemma_node_index(mesh.nodes@, far, other);
}

/// The mesh key of a node among what was resolved.
pub open spec fn own_key(resolved: ResolvedSecrets, name: Seq<char>) -> Option<Seq<char>> {
    match assoc::value_of(resolved.mesh_private_keys@, name) {
        Some(key) => Some(key@),
        None => None,
    }
}

/// Law: every pool that names a node is an interface of that node, with the pool's settings and
/// secrets, and with each of its clients as a peer, in order.
pub proof fn pool_becomes_an_interface(
    mesh: MeshConfig,
    name: Seq<char>,
    resolved: ResolvedSecrets,
    c: AwgConfig,
    i: int,
)
    requires
        render::is_awg_config(mesh, name, resolved, c),
        0 <= i < mesh.roadwarriors@.len(),
        text::texts(mesh.roadwarriors@[i].node_hostnames@).contains(name),
    ensures
        exists|k: int|
            {
                let pool = mesh.roadwarriors@[i];
                let e = #[trigger] c.interfaces@[k];
                let key = assoc::value_of(resolved.roadwarrior_private_keys@, pool.name@);
                let obfuscation = assoc::value_of(resolved.roadwarrior_obfuscation@, pool.name@);
                &&& 0 <= k < c.interfaces@.len()
                &&& e.name@ == "rw-"@ + pool.name@
                &&& e.listen_port == pool.listen_port
                &&& e.addresses@[0]@ == pool.address@
                &&& e.addresses@.len() == (if pool.address6 is Some {
                    2int
                } else {
                    1
                })
                &&& pool.address6 is Some ==> e.addresses@[1]@ == pool.address6->0@
                &&& key is Some ==> e.private_key@ == key->0@
                &&& obfuscation is Some ==> e.obfuscation == obfuscation->0
                &&& obfuscation is None ==> e.obfuscation == obfuscation::unset()
                &&& e.handshake_stale_secs == pool.handshake_stale_secs
                &&& e.peers@.len() == pool.clients@.len()
                &&& forall|j: int|
                    0 <= j < pool.clients@.len() ==> text::text_opt((#[trigger] e.peers@[j]).name)
                        == Some(pool.clients@[j].name@) && e.peers@[j].public_key@
                        == pool.clients@[j].public_key@ && e.peers@[j].endpoint is None
                        && e.peers@[j].allowed_ips is Some && text::texts(
                        e.peers@[j].allowed_ips->0@,
                    ) == text::texts(pool.clients@[j].allowed_ips@)
                        && e.peers@[j].advanced_security == pool.clients@[j].advanced_security
            },
{
    let n = render::links_of(mesh.mesh.links@, name, mesh.mesh.links@.len() as int).len() as int;
    let m = mesh.roadwarriors@.len() as int;
    let k = lemma_pool_place(mesh.roadwarriors@, name, m, i);
    let e = c.interfaces@[n + k];
    assert(c.interfaces@.skip(n)[k] == e);
    assert(render::is_pool_interface(resolved, mesh.roadwarriors@[i], e));
    let v = text::texts(e.addresses@);
    assert(v.len() == e.addresses@.len());
    assert(v[0] == e.addresses@[0]@);
    if mesh.roadwarriors@[i].address6 is Some {
        assert(v[1] == e.addresses@[1]@);
    }
    assert forall|j: int| 0 <= j < mesh.roadwarriors@[i].clients@.len() implies text::text_opt(
        (#[trigger] e.peers@[j]).name,
    ) == Some(mesh.roadwarriors@[i].clients@[j].name@) by {
        assert(render::is_client_peer(mesh.roadwarriors@[i].clients@[j], e.peers@[j]));
    }
}

/// Law: a node's interfaces are those of its links, in order, and then those of its pools, in
/// order: every interface has a link that the node is at an end of, or a pool that names it.
pub proof fn interface_has_a_link_or_a_pool(
    mesh: MeshConfig,
    name: Seq<char>,
    resolved: ResolvedSecrets,
    c: AwgConfig,
    k: int,
)
    requires
        render::is_awg_config(mesh, name, resolved, c),
        0 <= k < c.interfaces@.len(),
    ensures
        (exists|i: int|
            0 <= i < mesh.mesh.links@.len() && (((#[trigger] mesh.mesh.links@[i]).pair@[0]@ == name
                && c.interfaces@[k].name@ == "mesh-"@ + mesh.mesh.links@[i].pair@[1]@) || (
            mesh.mesh.links@[i].pair@[1]@ == name && c.interfaces@[k].name@ == "mesh-"@
                + mesh.mesh.links@[i].pair@[0]@)) && c.interfaces@[k].listen_port
                == mesh.mesh.links@[i].port) || (exists|i: int|
            0 <= i < mesh.roadwarriors@.len() && text::texts(
                (#[trigger] mesh.roadwarriors@[i]).node_hostnames@,
            ).contains(name) && c.interfaces@[k].name@ == "rw-"@ + mesh.roadwarriors@[i].name@
                && c.interfaces@[k].listen_port == mesh.roadwarriors@[i].listen_port),
{
    let links = mesh.mesh.links@;
    let at = render::links_of(links, name, links.len() as int);
    let pools = render::pools_of(mesh.roadwarriors@, name, mesh.roadwarriors@.len() as int);
    lemma_links(links, name, links.len() as int);
    lemma_pools(mesh.roadwarriors@, name, mesh.roadwarriors@.len() as int);
    if k < at.len() {
        let i = at[k];
        assert(c.interfaces@.take(at.len() as int)[k] == c.interfaces@[k]);
        assert(render::peer_of(links[i], name) is Some);
        assert(mesh.mesh.links@[i].port == c.interfaces@[k].listen_port);
    } else {
        let i = pools[k - at.len()];
        assert(c.interfaces@.skip(at.len() as int)[k - at.len()] == c.interfaces@[k]);
        assert(mesh.roadwarriors@[i].listen_port == c.interfaces@[k].listen_port);
    }
}

/// Law: metrics are served exactly where the topology has a port for them: on that port, at the
/// IPv4 loopback of the node's own router config.
pub proof fn metrics_are_served_at_the_loopback(
    mesh: MeshConfig,
    name: Seq<char>,
    resolved: ResolvedSecrets,
    c: AwgConfig,
    r: RouterConfig,
)
    requires
        render::is_awg_config(mesh, name, resolved, c),
        render::is_router_config(mesh, name, r),
    ensures
        c.metrics is Some <==> mesh.cluster.metrics_port is Some,
        c.metrics is Some ==> exists|host: Seq<char>|
            r.node.loopback_addresses@[0]@ == host + seq!['/'] + text::decimal(32)
                && c.metrics->0.listen@ == #[trigger] (host + ":"@) + text::decimal(
                mesh.cluster.metrics_port->0 as int,
            ),
{
    lemma_own_loopbacks(mesh, name, r);
    let host = addr::ipv4_format(render::loopbacks_of(mesh, name)->Ok_0.0 as int);
    if c.metrics is Some {
        assert(c.metrics->0.listen@ == (host + ":"@) + text::decimal(
            mesh.cluster.metrics_port->0 as int,
        ));
    }
}

/// Law: a node announces the connected routes of the interfaces that it lists itself, or else of
/// those that the cluster lists, and of the mesh links where those carry tunnel addresses.
pub proof fn direct_interfaces_reach_the_router(
    mesh: MeshConfig,
    own: int,
    r: RouterConfig,
    interface: Seq<char>,
)
    requires
        mesh_config::mesh_error(mesh) is None,
        0 <= own < mesh.nodes@.len(),
        render::router_error(mesh, mesh.nodes@[own].name@) is None,
        render::is_router_config(mesh, mesh.nodes@[own].name@, r),
    ensures
        text::texts(r.direct_interfaces@).contains(interface) <==> (interface == "mesh-*"@
            && mesh.cluster.tunnel_networks is Some) || text::texts(
            (if mesh.nodes@[own].direct_interfaces is Some {
                mesh.nodes@[own].direct_interfaces->0@
            } else {
                mesh.cluster.direct_interfaces@
            }),
        ).contains(interface),
{
    let name = mesh.nodes@[own].name@;
    assert forall|j: int| 0 <= j < own implies (#[trigger] mesh.nodes@[j]).name@ != name by {
        mesh_config::accepted_nodes_are_distinct(mesh, j, own);
    }
    render::lemma_node_index(mesh.nodes@, name, own);
    let direct = render::direct_of(mesh, name)->Ok_0;
    text::lemma_push_contains(direct, "mesh-*"@);
}

/// Law: the key of a node or a pool is what the topology sets, or else the one that it had before, or
/// else the one drawn for it.
pub proof fn keys_come_from_the_nearest<E: ExistingState>(
    mesh: MeshConfig,
    existing: E,
    fresh: Fresh,
    r: ResolvedSecrets,
    i: int,
)
    requires
        render::resolves(mesh, existing, fresh, r),
    ensures
        0 <= i < mesh.nodes@.len() ==> {
            let node = mesh.nodes@[i];
            let stored = existing.stored_mesh_key(node.name@);
            &&& r.mesh_private_keys@.len() == mesh.nodes@.len()
            &&& r.mesh_private_keys@[i].0@ == node.name@
            &&& r.mesh_private_keys@[i].1@ == (if node.mesh_private_key is Some {
                node.mesh_private_key->0@
            } else if stored is Some {
                stored->0
            } else {
                fresh.node_keys@[i]@
            })
        },
        0 <= i < mesh.roadwarriors@.len() ==> {
            let pool = mesh.roadwarriors@[i];
            let stored = existing.stored_pool_key(pool.name@);
            &&& r.roadwarrior_private_keys@.len() == mesh.roadwarriors@.len()
            &&& r.roadwarrior_private_keys@[i].0@ == pool.name@
            &&& r.roadwarrior_private_keys@[i].1@ == (if pool.private_key is Some {
                pool.private_key->0@
            } else if stored is Some {
                stored->0
            } else {
                fresh.pool_keys@[i]@
            })
        },
{
    let back = choose|back: Fresh| #[trigger]
        render::falls_back(mesh, existing, fresh, back) && secrets::is_settled(mesh, back, r);
    secrets::own_values_are_kept(mesh, back, r, i);
    if 0 <= i < mesh.nodes@.len() {
        assert(back.node_keys@[i]@ == back.node_keys@[i]@);
    }
    if 0 <= i < mesh.roadwarriors@.len() {
        assert(back.pool_keys@[i]@ == back.pool_keys@[i]@);
    }
}

/// Law: each junk and header parameter of a link is what the link sets, or else the topology, or else
/// the one that it had before, or else the one drawn for it. A plain link has none.
pub proof fn link_parameters_come_from_the_nearest<E: ExistingState>(
    mesh: MeshConfig,
    existing: E,
    fresh: Fresh,
    r: ResolvedSecrets,
    i: int,
)
    requires
        render::resolves(mesh, existing, fresh, r),
        0 <= i < mesh.mesh.links@.len(),
    ensures
        r.mesh_link_obfuscation@.len() == mesh.mesh.links@.len(),
        mesh.mesh.links@[i].plain ==> r.mesh_link_obfuscation@[i].1 == obfuscation::unset(),
        !mesh.mesh.links@[i].plain ==> {
            let link = mesh.mesh.links@[i];
            let stored = existing.stored_link(link.pair@[0]@, link.pair@[1]@);
            let got = r.mesh_link_obfuscation@[i].1;
            &&& got.jc == (if link.obfuscation.jc is Some {
                link.obfuscation.jc
            } else if mesh.obfuscation.jc is Some {
                mesh.obfuscation.jc
            } else if stored is Some && stored->0.jc is Some {
                stored->0.jc
            } else {
                fresh.links@[i].jc
            })
            &&& got.jmin == (if link.obfuscation.jmin is Some {
                link.obfuscation.jmin
            } else if mesh.obfuscation.jmin is Some {
                mesh.obfuscation.jmin
            } else if stored is Some && stored->0.jmin is Some {
                stored->0.jmin
            } else {
                fresh.links@[i].jmin
            })
            &&& got.jmax == (if link.obfuscation.jmax is Some {
                link.obfuscation.jmax
            } else if mesh.obfuscation.jmax is Some {
                mesh.obfuscation.jmax
            } else if stored is Some && stored->0.jmax is Some {
                stored->0.jmax
            } else {
                fresh.links@[i].jmax
            })
            &&& got.s1 == (if link.obfuscation.s1 is Some {
                link.obfuscation.s1
            } else if mesh.obfuscation.s1 is Some {
                mesh.obfuscation.s1
            } else if stored is Some && stored->0.s1 is Some {
                stored->0.s1
            } else {
                fresh.links@[i].s1
            })
            &&& got.s2 == (if link.obfuscation.s2 is Some {
                link.obfuscation.s2
            } else if mesh.obfuscation.s2 is Some {
                mesh.obfuscation.s2
            } else if stored is Some && stored->0.s2 is Some {
                stored->0.s2
            } else {
                fresh.links@[i].s2
            })
            &&& got.s3 == (if link.obfuscation.s3 is Some {
                link.obfuscation.s3
            } else if mesh.obfuscation.s3 is Some {
                mesh.obfuscation.s3
            } else if stored is Some && stored->0.s3 is Some {
                stored->0.s3
            } else {
                fresh.links@[i].s3
            })
            &&& got.s4 == (if link.obfuscation.s4 is Some {
                link.obfuscation.s4
            } else if mesh.obfuscation.s4 is Some {
                mesh.obfuscation.s4
            } else if stored is Some && stored->0.s4 is Some {
                stored->0.s4
            } else {
                fresh.links@[i].s4
            })
            &&& got.h1 == (if link.obfuscation.h1 is Some {
                link.obfuscation.h1
            } else if mesh.obfuscation.h1 is Some {
                mesh.obfuscation.h1
            } else if stored is Some && stored->0.h1 is Some {
                stored->0.h1
            } else {
                fresh.links@[i].h1
            })
            &&& got.h2 == (if link.obfuscation.h2 is Some {
                link.obfuscation.h2
            } else if mesh.obfuscation.h2 is Some {
                mesh.obfuscation.h2
            } else if stored is Some && stored->0.h2 is Some {
                stored->0.h2
            } else {
                fresh.links@[i].h2
            })
            &&& got.h3 == (if link.obfuscation.h3 is Some {
                link.obfuscation.h3
            } else if mesh.obfuscation.h3 is Some {
                mesh.obfuscation.h3
            } else if stored is Some && stored->0.h3 is Some {
                stored->0.h3
            } else {
                fresh.links@[i].h3
            })
            &&& got.h4 == (if link.obfuscation.h4 is Some {
                link.obfuscation.h4
            } else if mesh.obfuscation.h4 is Some {
                mesh.obfuscation.h4
            } else if stored is Some && stored->0.h4 is Some {
                stored->0.h4
            } else {
                fresh.links@[i].h4
            })
        },
{
    let back = choose|back: Fresh| #[trigger]
        render::falls_back(mesh, existing, fresh, back) && secrets::is_settled(mesh, back, r);
    secrets::own_values_are_kept(mesh, back, r, i);
    let link = mesh.mesh.links@[i];
    assert(r.mesh_link_obfuscation@[i].1 == secrets::link_settled(mesh, back, i));
    secrets::parameters_come_from_the_nearest(link.obfuscation, mesh.obfuscation, back.links@[i]);
    obfuscation::upper_layer_decides(
        render::or_unset(existing.stored_link(link.pair@[0]@, link.pair@[1]@)),
        fresh.links@[i],
    );
}

/// Law: each junk and header parameter of a pool is what the pool sets, or else the topology, or else
/// the one that it had before, or else the one drawn for it. A plain pool has none.
pub proof fn pool_parameters_come_from_the_nearest<E: ExistingState>(
    mesh: MeshConfig,
    existing: E,
    fresh: Fresh,
    r: ResolvedSecrets,
    i: int,
)
    requires
        render::resolves(mesh, existing, fresh, r),
        0 <= i < mesh.roadwarriors@.len(),
    ensures
        r.roadwarrior_obfuscation@.len() == mesh.roadwarriors@.len(),
        mesh.roadwarriors@[i].plain ==> r.roadwarrior_obfuscation@[i].1 == obfuscation::unset(),
        !mesh.roadwarriors@[i].plain ==> {
            let pool = mesh.roadwarriors@[i];
            let stored = existing.stored_pool(pool.name@);
            let got = r.roadwarrior_obfuscation@[i].1;
            &&& got.jc == (if pool.obfuscation.jc is Some {
                pool.obfuscation.jc
            } else if mesh.obfuscation.jc is Some {
                mesh.obfuscation.jc
            } else if stored is Some && stored->0.jc is Some {
                stored->0.jc
            } else {
                fresh.pools@[i].jc
            })
            &&& got.jmin == (if pool.obfuscation.jmin is Some {
                pool.obfuscation.jmin
            } else if mesh.obfuscation.jmin is Some {
                mesh.obfuscation.jmin
            } else if stored is Some && stored->0.jmin is Some {
                stored->0.jmin
            } else {
                fresh.pools@[i].jmin
            })
            &&& got.jmax == (if pool.obfuscation.jmax is Some {
                pool.obfuscation.jmax
            } else if mesh.obfuscation.jmax is Some {
                mesh.obfuscation.jmax
            } else if stored is Some && stored->0.jmax is Some {
                stored->0.jmax
            } else {
                fresh.pools@[i].jmax
            })
            &&& got.s1 == (if pool.obfuscation.s1 is Some {
                pool.obfuscation.s1
            } else if mesh.obfuscation.s1 is Some {
                mesh.obfuscation.s1
            } else if stored is Some && stored->0.s1 is Some {
                stored->0.s1
            } else {
                fresh.pools@[i].s1
            })
            &&& got.s2 == (if pool.obfuscation.s2 is Some {
                pool.obfuscation.s2
            } else if mesh.obfuscation.s2 is Some {
                mesh.obfuscation.s2
            } else if stored is Some && stored->0.s2 is Some {
                stored->0.s2
            } else {
                fresh.pools@[i].s2
            })
            &&& got.s3 == (if pool.obfuscation.s3 is Some {
                pool.obfuscation.s3
            } else if mesh.obfuscation.s3 is Some {
                mesh.obfuscation.s3
            } else if stored is Some && stored->0.s3 is Some {
                stored->0.s3
            } else {
                fresh.pools@[i].s3
            })
            &&& got.s4 == (if pool.obfuscation.s4 is Some {
                pool.obfuscation.s4
            } else if mesh.obfuscation.s4 is Some {
                mesh.obfuscation.s4
            } else if stored is Some && stored->0.s4 is Some {
                stored->0.s4
            } else {
                fresh.pools@[i].s4
            })
            &&& got.h1 == (if pool.obfuscation.h1 is Some {
                pool.obfuscation.h1
            } else if mesh.obfuscation.h1 is Some {
                mesh.obfuscation.h1
            } else if stored is Some && stored->0.h1 is Some {
                stored->0.h1
            } else {
                fresh.pools@[i].h1
            })
            &&& got.h2 == (if pool.obfuscation.h2 is Some {
                pool.obfuscation.h2
            } else if mesh.obfuscation.h2 is Some {
                mesh.obfuscation.h2
            } else if stored is Some && stored->0.h2 is Some {
                stored->0.h2
            } else {
                fresh.pools@[i].h2
            })
            &&& got.h3 == (if pool.obfuscation.h3 is Some {
                pool.obfuscation.h3
            } else if mesh.obfuscation.h3 is Some {
                mesh.obfuscation.h3
            } else if stored is Some && stored->0.h3 is Some {
                stored->0.h3
            } else {
                fresh.pools@[i].h3
            })
            &&& got.h4 == (if pool.obfuscation.h4 is Some {
                pool.obfuscation.h4
            } else if mesh.obfuscation.h4 is Some {
                mesh.obfuscation.h4
            } else if stored is Some && stored->0.h4 is Some {
                stored->0.h4
            } else {
                fresh.pools@[i].h4
            })
        },
{
    let back = choose|back: Fresh| #[trigger]
        render::falls_back(mesh, existing, fresh, back) && secrets::is_settled(mesh, back, r);
    secrets::own_values_are_kept(mesh, back, r, i);
    let pool = mesh.roadwarriors@[i];
    assert(r.roadwarrior_obfuscation@[i].1 == secrets::pool_settled(mesh, back, i));
    secrets::parameters_come_from_the_nearest(pool.obfuscation, mesh.obfuscation, back.pools@[i]);
    obfuscation::upper_layer_decides(
        render::or_unset(existing.stored_pool(pool.name@)),
        fresh.pools@[i],
    );
}

} // verus!
