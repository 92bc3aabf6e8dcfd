//! The topology: one file that every node's config is rendered from.

use crate::common::addr;
use crate::common::obfuscation::Obfuscation;
use crate::text;
use vstd::prelude::*;

verus! {

#[derive(Debug, PartialEq)]
pub struct MeshConfig {
    pub cluster: ClusterConfig,
    /// What links and pools use where they say nothing of their own.
    pub obfuscation: Obfuscation,
    pub nodes: Vec<NodeEntry>,
    pub mesh: MeshTopology,
    pub roadwarriors: Vec<RoadwarriorPool>,
    pub bypass: Vec<BypassEntry>,
    pub nftables: Option<NftablesTopology>,
}

#[derive(Debug, PartialEq)]
pub struct ClusterConfig {
    pub bgp_as: u32,
    pub loopback_networks: LoopbackNetworks,
    pub bypass_refresh_interval_secs: Option<u64>,
    /// Interfaces whose connected routes every node announces.
    pub direct_interfaces: Vec<String>,
    /// The range of service addresses, announced by every node.
    pub service_subnet: Option<String>,
    /// The range of pod addresses: a kernel route inside it is announced.
    pub pod_subnet: Option<String>,
    /// A second address pair for every mesh interface.
    pub tunnel_networks: Option<TunnelNetworks>,
    /// Where each node serves metrics, on its own loopback.
    pub metrics_port: Option<u16>,
}

#[derive(Debug, PartialEq)]
pub struct LoopbackNetworks {
    pub ipv4: String,
    pub ipv6: String,
}

#[derive(Debug, PartialEq)]
pub struct TunnelNetworks {
    pub ipv4: String,
    pub ipv6: String,
}

#[derive(Debug, PartialEq)]
pub struct NodeEntry {
    pub name: String,
    /// Written like an IPv4 address: the host bits of every address of this node.
    pub node_id: String,
    /// A host that others can reach, without a port. A node behind NAT has none.
    pub endpoint: Option<String>,
    /// One identity for all links of this node.
    pub mesh_private_key: Option<String>,
    /// Replaces the cluster's list for this node.
    pub direct_interfaces: Option<Vec<String>>,
}

#[derive(Debug, PartialEq)]
pub struct MeshTopology {
    pub links: Vec<MeshLink>,
}

#[derive(Debug, PartialEq)]
pub struct MeshLink {
    /// Two node names, in any order.
    pub pair: [String; 2],
    /// The port of both ends.
    pub port: u16,
    pub obfuscation: Obfuscation,
    /// Stock WireGuard: no obfuscation at all.
    pub plain: bool,
}

#[derive(Debug, PartialEq)]
pub struct RoadwarriorPool {
    pub name: String,
    /// The nodes that terminate connections for this pool.
    pub node_hostnames: Vec<String>,
    pub address: String,
    pub address6: Option<String>,
    pub listen_port: u16,
    pub handshake_stale_secs: Option<u64>,
    /// One identity, shared by all nodes of the pool.
    pub private_key: Option<String>,
    /// Stock WireGuard: no obfuscation at all.
    pub plain: bool,
    pub obfuscation: Obfuscation,
    /// What clients are told to resolve names with.
    pub dns: Option<String>,
    pub clients: Vec<RoadwarriorClient>,
}

#[derive(Debug, PartialEq)]
pub struct RoadwarriorClient {
    pub name: String,
    pub public_key: String,
    pub allowed_ips: Vec<String>,
    pub advanced_security: bool,
}

#[derive(Debug, PartialEq)]
pub struct BypassEntry {
    pub node: String,
    pub include_sources: Vec<BypassSourceEntry>,
    pub exclude_sources: Vec<BypassSourceEntry>,
}

#[derive(Debug, PartialEq)]
pub struct BypassSourceEntry {
    pub kind: String,
    pub label: Option<String>,
    pub asns: Option<Vec<String>>,
    pub prefixes: Option<Vec<LabeledPrefix>>,
    pub country: Option<String>,
    pub hostnames: Option<Vec<String>>,
}

#[derive(Debug, PartialEq)]
pub struct LabeledPrefix {
    pub net: String,
    pub label: Option<String>,
}

#[derive(Debug, PartialEq)]
pub struct NftablesTopology {
    /// The same for every node.
    pub ruleset: String,
}

/// Why a topology is refused.
#[derive(Clone, Copy, Debug, PartialEq, Eq, Structural)]
pub enum MeshError {
    NoNodes,
    EmptyNodeName,
    DuplicateNodeName,
    InvalidNodeId,
    DuplicateNodeId,
    UnknownLinkNode,
    SelfLink,
    PortInUse,
    DuplicatePoolName,
    PoolWithoutNodes,
    UnknownPoolNode,
    DuplicateClientKey,
    UnknownBypassNode,
}

/// A node has this name.
pub open spec fn known(nodes: Seq<NodeEntry>, name: Seq<char>) -> bool {
    exists|i: int| 0 <= i < nodes.len() && (#[trigger] nodes[i]).name@ == name
}

/// What is wrong with node `i`, going by the nodes ahead of it.
pub open spec fn node_error(nodes: Seq<NodeEntry>, i: int) -> Option<MeshError> {
    let node = nodes[i];
    if node.name@.len() == 0 {
        Some(MeshError::EmptyNodeName)
    } else if exists|j: int| 0 <= j < i && (#[trigger] nodes[j]).name@ == node.name@ {
        Some(MeshError::DuplicateNodeName)
    } else if addr::ipv4_text(node.node_id@) is None {
        Some(MeshError::InvalidNodeId)
    } else if exists|j: int|
        0 <= j < i && addr::ipv4_text((#[trigger] nodes[j]).node_id@) == addr::ipv4_text(
            node.node_id@,
        ) {
        Some(MeshError::DuplicateNodeId)
    } else {
        None
    }
}

/// The first thing wrong with the nodes from `i` on.
pub open spec fn nodes_error(nodes: Seq<NodeEntry>, i: int) -> Option<MeshError>
    decreases nodes.len() - i,
{
    if i >= nodes.len() {
        None
    } else if node_error(nodes, i) is Some {
        node_error(nodes, i)
    } else {
        nodes_error(nodes, i + 1)
    }
}

/// A node listens on a port.
pub type Claim = (Seq<char>, u16);

/// The ports that the first `n` links claim: each on both of its nodes.
pub open spec fn link_claims(links: Seq<MeshLink>, n: int) -> Seq<Claim>
    decreases n,
{
    if n <= 0 {
        Seq::empty()
    } else {
        link_claims(links, n - 1) + seq![
            (links[n - 1].pair@[0]@, links[n - 1].port),
            (links[n - 1].pair@[1]@, links[n - 1].port),
        ]
    }
}

/// The port of a pool, on the first `n` of its nodes.
pub open spec fn host_claims(pool: RoadwarriorPool, n: int) -> Seq<Claim> {
    Seq::new(n as nat, |i: int| (pool.node_hostnames@[i]@, pool.listen_port))
}

/// The ports that the first `n` pools claim.
pub open spec fn pool_claims(pools: Seq<RoadwarriorPool>, n: int) -> Seq<Claim>
    decreases n,
{
    if n <= 0 {
        Seq::empty()
    } else {
        pool_claims(pools, n - 1) + host_claims(
            pools[n - 1],
            pools[n - 1].node_hostnames@.len() as int,
        )
    }
}

/// What is wrong with link `i`, going by the links ahead of it.
pub open spec fn link_error(cfg: MeshConfig, i: int) -> Option<MeshError> {
    let link = cfg.mesh.links@[i];
    let a = link.pair@[0]@;
    let b = link.pair@[1]@;
    let taken = link_claims(cfg.mesh.links@, i);
    if !known(cfg.nodes@, a) || !known(cfg.nodes@, b) {
        Some(MeshError::UnknownLinkNode)
    } else if a == b {
        Some(MeshError::SelfLink)
    } else if taken.contains((a, link.port)) || taken.contains((b, link.port)) {
        Some(MeshError::PortInUse)
    } else {
        None
    }
}

/// The first thing wrong with the links from `i` on.
pub open spec fn links_error(cfg: MeshConfig, i: int) -> Option<MeshError>
    decreases cfg.mesh.links@.len() - i,
{
    if i >= cfg.mesh.links@.len() {
        None
    } else if link_error(cfg, i) is Some {
        link_error(cfg, i)
    } else {
        links_error(cfg, i + 1)
    }
}

/// The ports claimed ahead of pool `i`.
pub open spec fn taken_before(cfg: MeshConfig, i: int) -> Seq<Claim> {
    link_claims(cfg.mesh.links@, cfg.mesh.links@.len() as int) + pool_claims(cfg.roadwarriors@, i)
}

/// The first thing wrong with the nodes of pool `i` from `j` on.
pub open spec fn hosts_error(cfg: MeshConfig, i: int, j: int) -> Option<MeshError>
    decreases cfg.roadwarriors@[i].node_hostnames@.len() - j,
{
    let pool = cfg.roadwarriors@[i];
    if j >= pool.node_hostnames@.len() {
        None
    } else if !known(cfg.nodes@, pool.node_hostnames@[j]@) {
        Some(MeshError::UnknownPoolNode)
    } else if (taken_before(cfg, i) + host_claims(pool, j)).contains(
        (pool.node_hostnames@[j]@, pool.listen_port),
    ) {
        Some(MeshError::PortInUse)
    } else {
        hosts_error(cfg, i, j + 1)
    }
}

pub open spec fn has_duplicate_client(pool: RoadwarriorPool) -> bool {
    exists|a: int, b: int|
        0 <= a < b < pool.clients@.len() && (#[trigger] pool.clients@[a]).public_key@ == (
        #[trigger] pool.clients@[b]).public_key@
}

/// What is wrong with pool `i`, going by what is ahead of it.
pub open spec fn pool_error(cfg: MeshConfig, i: int) -> Option<MeshError> {
    let pool = cfg.roadwarriors@[i];
    if exists|j: int| 0 <= j < i && (#[trigger] cfg.roadwarriors@[j]).name@ == pool.name@ {
        Some(MeshError::DuplicatePoolName)
    } else if pool.node_hostnames@.len() == 0 {
        Some(MeshError::PoolWithoutNodes)
    } else if hosts_error(cfg, i, 0) is Some {
        hosts_error(cfg, i, 0)
    } else if has_duplicate_client(pool) {
        Some(MeshError::DuplicateClientKey)
    } else {
        None
    }
}

/// The first thing wrong with the pools from `i` on.
pub open spec fn pools_error(cfg: MeshConfig, i: int) -> Option<MeshError>
    decreases cfg.roadwarriors@.len() - i,
{
    if i >= cfg.roadwarriors@.len() {
        None
    } else if pool_error(cfg, i) is Some {
        pool_error(cfg, i)
    } else {
        pools_error(cfg, i + 1)
    }
}

/// The first thing wrong with a topology: its nodes, its links, its pools, its bypass.
pub open spec fn mesh_error(cfg: MeshConfig) -> Option<MeshError> {
    if cfg.nodes@.len() == 0 {
        Some(MeshError::NoNodes)
    } else if nodes_error(cfg.nodes@, 0) is Some {
        nodes_error(cfg.nodes@, 0)
    } else if links_error(cfg, 0) is Some {
        links_error(cfg, 0)
    } else if pools_error(cfg, 0) is Some {
        pools_error(cfg, 0)
    } else if exists|i: int|
        0 <= i < cfg.bypass@.len() && !known(cfg.nodes@, (#[trigger] cfg.bypass@[i]).node@) {
        Some(MeshError::UnknownBypassNode)
    } else {
        None
    }
}

/// Whether a node has this name.
pub fn is_known(nodes: &Vec<NodeEntry>, name: &str) -> (r: bool)
    ensures
        r == known(nodes@, name@),
{
    let mut i: usize = 0;
    while i < nodes.len()
        invariant
            i <= nodes@.len(),
            forall|k: int| 0 <= k < i ==> (#[trigger] nodes@[k]).name@ != name@,
        decreases nodes@.len() - i,
    {
        if text::str_eq(nodes[i].name.as_str(), name) {
            return true;
        }
        i += 1;
    }
    false
}

#[verifier::loop_isolation(false)]
fn check_node(nodes: &Vec<NodeEntry>, i: usize) -> (r: Option<MeshError>)
    requires
        i < nodes@.len(),
    ensures
        r == node_error(nodes@, i as int),
{
    let node = &nodes[i];
    if node.name.as_str().is_empty() {
        return Some(MeshError::EmptyNodeName);
    }
    let mut j: usize = 0;
    while j < i
        invariant
            j <= i,
            forall|k: int| 0 <= k < j ==> (#[trigger] nodes@[k]).name@ != node.name@,
        decreases i - j,
    {
        if text::str_eq(nodes[j].name.as_str(), node.name.as_str()) {
            return Some(MeshError::DuplicateNodeName);
        }
        j += 1;
    }
    let id: u32 = match addr::parse_ipv4(node.node_id.as_str()) {
        Some(id) => id,
        None => {
            return Some(MeshError::InvalidNodeId);
        },
    };
    let mut k: usize = 0;
    while k < i
        invariant
            k <= i,
            forall|q: int|
                0 <= q < k ==> addr::ipv4_text((#[trigger] nodes@[q]).node_id@) != Some(id as int),
        decreases i - k,
    {
        if let Some(other) = addr::parse_ipv4(nodes[k].node_id.as_str()) {
            if other == id {
                return Some(MeshError::DuplicateNodeId);
            }
        }
        k += 1;
    }
    None
}

pub open spec fn claims(v: Seq<(String, u16)>) -> Seq<Claim> {
    Seq::new(v.len(), |i: int| (v[i].0@, v[i].1))
}

fn is_claimed(v: &Vec<(String, u16)>, name: &str, port: u16) -> (r: bool)
    ensures
        r == claims(v@).contains((name@, port)),
{
    let mut i: usize = 0;
    while i < v.len()
        invariant
            i <= v@.len(),
            forall|k: int| 0 <= k < i ==> claims(v@)[k] != (name@, port),
        decreases v@.len() - i,
    {
        if v[i].1 == port && text::str_eq(v[i].0.as_str(), name) {
            assert(claims(v@)[i as int] == (name@, port));
            return true;
        }
        i += 1;
    }
    false
}

fn claim(v: &mut Vec<(String, u16)>, name: &str, port: u16)
    ensures
        claims(final(v)@) == claims(old(v)@).push((name@, port)),
{
    let ghost prev = v@;
    v.push((name.to_owned(), port));
    assert(claims(v@) =~= claims(prev).push((name@, port)));
}

/// Checks link `i` and claims its ports.
fn check_link(cfg: &MeshConfig, i: usize, taken: &mut Vec<(String, u16)>) -> (r: Option<MeshError>)
    requires
        i < cfg.mesh.links@.len(),
        claims(old(taken)@) == link_claims(cfg.mesh.links@, i as int),
    ensures
        r == link_error(*cfg, i as int),
        r is None ==> claims(final(taken)@) == link_claims(cfg.mesh.links@, i + 1),
{
    let link = &cfg.mesh.links[i];
    let a = link.pair[0].as_str();
    let b = link.pair[1].as_str();
    if !is_known(&cfg.nodes, a) || !is_known(&cfg.nodes, b) {
        return Some(MeshError::UnknownLinkNode);
    }
    if text::str_eq(a, b) {
        return Some(MeshError::SelfLink);
    }
    if is_claimed(taken, a, link.port) || is_claimed(taken, b, link.port) {
        return Some(MeshError::PortInUse);
    }
    let ghost prev = claims(taken@);
    claim(taken, a, link.port);
    claim(taken, b, link.port);
    assert(claims(taken@) =~= prev + seq![(a@, link.port), (b@, link.port)]);
    None
}

/// Checks the nodes of pool `i` and claims its port on them.
#[verifier::loop_isolation(false)]
fn check_hosts(cfg: &MeshConfig, i: usize, taken: &mut Vec<(String, u16)>) -> (r: Option<MeshError>)
    requires
        i < cfg.roadwarriors@.len(),
        claims(old(taken)@) == taken_before(*cfg, i as int),
    ensures
        r == hosts_error(*cfg, i as int, 0),
        r is None ==> claims(final(taken)@) == taken_before(*cfg, i + 1),
{
    let pool = &cfg.roadwarriors[i];
    let ghost start = taken_before(*cfg, i as int);
    let mut j: usize = 0;
    assert(claims(taken@) =~= start + host_claims(*pool, 0));
    while j < pool.node_hostnames.len()
        invariant
            j <= pool.node_hostnames@.len(),
            claims(taken@) == start + host_claims(*pool, j as int),
            hosts_error(*cfg, i as int, 0) == hosts_error(*cfg, i as int, j as int),
        decreases pool.node_hostnames@.len() - j,
    {
        let name = pool.node_hostnames[j].as_str();
        if !is_known(&cfg.nodes, name) {
            return Some(MeshError::UnknownPoolNode);
        }
        if is_claimed(taken, name, pool.listen_port) {
            return Some(MeshError::PortInUse);
        }
        claim(taken, name, pool.listen_port);
        assert(claims(taken@) =~= start + host_claims(*pool, j + 1));
        j += 1;
    }
    assert(claims(taken@) =~= taken_before(*cfg, i + 1));
    None
}

fn find_duplicate_client(pool: &RoadwarriorPool) -> (r: bool)
    ensures
        r == has_duplicate_client(*pool),
{
    let mut b: usize = 0;
    while b < pool.clients.len()
        invariant
            b <= pool.clients@.len(),
            forall|x: int, y: int|
                0 <= x < y < b ==> (#[trigger] pool.clients@[x]).public_key@ != (
                #[trigger] pool.clients@[y]).public_key@,
        decreases pool.clients@.len() - b,
    {
        let mut a: usize = 0;
        while a < b
            invariant
                a <= b < pool.clients@.len(),
                forall|x: int|
                    0 <= x < a ==> (#[trigger] pool.clients@[x]).public_key@
                        != pool.clients@[b as int].public_key@,
            decreases b - a,
        {
            if text::str_eq(
                pool.clients[a].public_key.as_str(),
                pool.clients[b].public_key.as_str(),
            ) {
                return true;
            }
            a += 1;
        }
        b += 1;
    }
    false
}

/// Checks pool `i` and claims its ports.
#[verifier::loop_isolation(false)]
fn check_pool(cfg: &MeshConfig, i: usize, taken: &mut Vec<(String, u16)>) -> (r: Option<MeshError>)
    requires
        i < cfg.roadwarriors@.len(),
        claims(old(taken)@) == taken_before(*cfg, i as int),
    ensures
        r == pool_error(*cfg, i as int),
        r is None ==> claims(final(taken)@) == taken_before(*cfg, i + 1),
{
    let pool = &cfg.roadwarriors[i];
    let mut j: usize = 0;
    while j < i
        invariant
            j <= i,
            forall|k: int| 0 <= k < j ==> (#[trigger] cfg.roadwarriors@[k]).name@ != pool.name@,
        decreases i - j,
    {
        if text::str_eq(cfg.roadwarriors[j].name.as_str(), pool.name.as_str()) {
            return Some(MeshError::DuplicatePoolName);
        }
        j += 1;
    }
    if pool.node_hostnames.len() == 0 {
        return Some(MeshError::PoolWithoutNodes);
    }
    let e = check_hosts(cfg, i, taken);
    if e.is_some() {
        return e;
    }
    if find_duplicate_client(pool) {
        return Some(MeshError::DuplicateClientKey);
    }
    None
}

/// Checks what a topology refers to, and that no node is asked to listen on a port twice.
#[verifier::loop_isolation(false)]
pub fn validate(cfg: &MeshConfig) -> (r: Result<(), MeshError>)
    ensures
        match r {
            Ok(_) => mesh_error(*cfg) is None,
            Err(e) => mesh_error(*cfg) == Some(e),
        },
{
    if cfg.nodes.len() == 0 {
        return Err(MeshError::NoNodes);
    }
    let mut n: usize = 0;
    while n < cfg.nodes.len()
        invariant
            n <= cfg.nodes@.len(),
            nodes_error(cfg.nodes@, 0) == nodes_error(cfg.nodes@, n as int),
        decreases cfg.nodes@.len() - n,
    {
        if let Some(e) = check_node(&cfg.nodes, n) {
            return Err(e);
        }
        n += 1;
    }
    let mut taken: Vec<(String, u16)> = Vec::new();
    assert(claims(taken@) =~= link_claims(cfg.mesh.links@, 0));
    let mut l: usize = 0;
    while l < cfg.mesh.links.len()
        invariant
            l <= cfg.mesh.links@.len(),
            claims(taken@) == link_claims(cfg.mesh.links@, l as int),
            links_error(*cfg, 0) == links_error(*cfg, l as int),
        decreases cfg.mesh.links@.len() - l,
    {
        if let Some(e) = check_link(cfg, l, &mut taken) {
            return Err(e);
        }
        l += 1;
    }
    assert(claims(taken@) =~= taken_before(*cfg, 0));
    let mut p: usize = 0;
    while p < cfg.roadwarriors.len()
        invariant
            p <= cfg.roadwarriors@.len(),
            claims(taken@) == taken_before(*cfg, p as int),
            pools_error(*cfg, 0) == pools_error(*cfg, p as int),
        decreases cfg.roadwarriors@.len() - p,
    {
        if let Some(e) = check_pool(cfg, p, &mut taken) {
            return Err(e);
        }
        p += 1;
    }
    let mut b: usize = 0;
    while b < cfg.bypass.len()
        invariant
            b <= cfg.bypass@.len(),
            forall|k: int| 0 <= k < b ==> known(cfg.nodes@, (#[trigger] cfg.bypass@[k]).node@),
        decreases cfg.bypass@.len() - b,
    {
        if !is_known(&cfg.nodes, cfg.bypass[b].node.as_str()) {
            return Err(MeshError::UnknownBypassNode);
        }
        b += 1;
    }
    Ok(())
}

proof fn lemma_nodes_ok(nodes: Seq<NodeEntry>, i: int, k: int)
    requires
        0 <= i <= k < nodes.len(),
        nodes_error(nodes, i) is None,
    ensures
        node_error(nodes, k) is None,
    decreases k - i,
{
    if i < k {
        lemma_nodes_ok(nodes, i + 1, k);
    }
}

/// Law: the nodes of an accepted topology have distinct names and distinct identities.
pub proof fn accepted_nodes_are_distinct(cfg: MeshConfig, i: int, j: int)
    requires
        mesh_error(cfg) is None,
        0 <= i < j < cfg.nodes@.len(),
    ensures
        cfg.nodes@[i].name@ != cfg.nodes@[j].name@,
        addr::ipv4_text(cfg.nodes@[i].node_id@) is Some,
        addr::ipv4_text(cfg.nodes@[j].node_id@) is Some,
        addr::ipv4_text(cfg.nodes@[i].node_id@) != addr::ipv4_text(cfg.nodes@[j].node_id@),
{
    lemma_nodes_ok(cfg.nodes@, 0, i);
    lemma_nodes_ok(cfg.nodes@, 0, j);
}

proof fn lemma_links_ok(cfg: MeshConfig, i: int, k: int)
    requires
        0 <= i <= k < cfg.mesh.links@.len(),
        links_error(cfg, i) is None,
    ensures
        link_error(cfg, k) is None,
    decreases k - i,
{
    if i < k {
        lemma_links_ok(cfg, i + 1, k);
    }
}

proof fn lemma_pools_ok(cfg: MeshConfig, i: int, k: int)
    requires
        0 <= i <= k < cfg.roadwarriors@.len(),
        pools_error(cfg, i) is None,
    ensures
        pool_error(cfg, k) is None,
    decreases k - i,
{
    if i < k {
        lemma_pools_ok(cfg, i + 1, k);
    }
}

proof fn lemma_hosts_ok(cfg: MeshConfig, i: int, j: int, k: int)
    requires
        0 <= j <= k < cfg.roadwarriors@[i].node_hostnames@.len(),
        hosts_error(cfg, i, j) is None,
    ensures
        known(cfg.nodes@, cfg.roadwarriors@[i].node_hostnames@[k]@),
        !(taken_before(cfg, i) + host_claims(cfg.roadwarriors@[i], k)).contains(
            (cfg.roadwarriors@[i].node_hostnames@[k]@, cfg.roadwarriors@[i].listen_port),
        ),
    decreases k - j,
{
    if j < k {
        lemma_hosts_ok(cfg, i, j + 1, k);
    }
}

/// What a link claims stands among what the first `n` links claim.
proof fn lemma_link_claimed(links: Seq<MeshLink>, n: int, i: int, e: int)
    requires
        0 <= i < n <= links.len(),
        e == 0 || e == 1,
    ensures
        link_claims(links, n).contains((links[i].pair@[e]@, links[i].port)),
    decreases n,
{
    let before = link_claims(links, n - 1);
    let all = link_claims(links, n);
    if i == n - 1 {
        assert(all[before.len() + e] == (links[i].pair@[e]@, links[i].port));
    } else {
        lemma_link_claimed(links, n - 1, i, e);
        let k = choose|k: int|
            0 <= k < before.len() && before[k] == (links[i].pair@[e]@, links[i].port);
        assert(all[k] == before[k]);
    }
}

/// What a pool claims stands among what the first `n` pools claim.
proof fn lemma_pool_claimed(pools: Seq<RoadwarriorPool>, n: int, i: int, h: int)
    requires
        0 <= i < n <= pools.len(),
        0 <= h < pools[i].node_hostnames@.len(),
    ensures
        pool_claims(pools, n).contains((pools[i].node_hostnames@[h]@, pools[i].listen_port)),
    decreases n,
{
    let before = pool_claims(pools, n - 1);
    let all = pool_claims(pools, n);
    let claim = (pools[i].node_hostnames@[h]@, pools[i].listen_port);
    if i == n - 1 {
        assert(all[before.len() + h] == claim);
    } else {
        lemma_pool_claimed(pools, n - 1, i, h);
        let k = choose|k: int| 0 <= k < before.len() && before[k] == claim;
        assert(all[k] == before[k]);
    }
}

/// Law: a link of an accepted topology joins two different nodes of it.
pub proof fn accepted_links_join_two_nodes(cfg: MeshConfig, i: int)
    requires
        mesh_error(cfg) is None,
        0 <= i < cfg.mesh.links@.len(),
    ensures
        cfg.mesh.links@[i].pair@[0]@ != cfg.mesh.links@[i].pair@[1]@,
        forall|e: int|
            0 <= e < 2 ==> exists|k: int|
                0 <= k < cfg.nodes@.len() && (#[trigger] cfg.nodes@[k]).name@ == (
                #[trigger] cfg.mesh.links@[i].pair@[e])@,
{
    lemma_links_ok(cfg, 0, i);
    assert forall|e: int| 0 <= e < 2 implies exists|k: int|
        0 <= k < cfg.nodes@.len() && (#[trigger] cfg.nodes@[k]).name@ == (
        #[trigger] cfg.mesh.links@[i].pair@[e])@ by {
        assert(known(cfg.nodes@, cfg.mesh.links@[i].pair@[e]@));
    }
}

/// Law: two links of an accepted topology that meet at a node have different ports.
pub proof fn accepted_links_have_their_ports(cfg: MeshConfig, i: int, j: int, a: int, b: int)
    requires
        mesh_error(cfg) is None,
        0 <= i < j < cfg.mesh.links@.len(),
        0 <= a < 2,
        0 <= b < 2,
        cfg.mesh.links@[i].pair@[a]@ == cfg.mesh.links@[j].pair@[b]@,
    ensures
        cfg.mesh.links@[i].port != cfg.mesh.links@[j].port,
{
    lemma_links_ok(cfg, 0, j);
    lemma_link_claimed(cfg.mesh.links@, j, i, a);
}

/// Law: a pool of an accepted topology has a name of its own and at least one node. Its nodes are
/// distinct nodes of the topology, on none of which a link has its port, and its clients have
/// distinct keys.
pub proof fn accepted_pools_are_sound(cfg: MeshConfig, i: int)
    requires
        mesh_error(cfg) is None,
        0 <= i < cfg.roadwarriors@.len(),
    ensures
        forall|j: int|
            0 <= j < cfg.roadwarriors@.len() && j != i ==> (#[trigger] cfg.roadwarriors@[j]).name@
                != cfg.roadwarriors@[i].name@,
        cfg.roadwarriors@[i].node_hostnames@.len() > 0,
        forall|h: int|
            0 <= h < cfg.roadwarriors@[i].node_hostnames@.len() ==> exists|k: int|
                0 <= k < cfg.nodes@.len() && (#[trigger] cfg.nodes@[k]).name@ == (
                #[trigger] cfg.roadwarriors@[i].node_hostnames@[h])@,
        forall|g: int, h: int|
            0 <= g < h < cfg.roadwarriors@[i].node_hostnames@.len() ==> (
            #[trigger] cfg.roadwarriors@[i].node_hostnames@[g])@ != (
            #[trigger] cfg.roadwarriors@[i].node_hostnames@[h])@,
        forall|h: int, l: int, e: int|
            0 <= h < cfg.roadwarriors@[i].node_hostnames@.len() && 0 <= l
                < cfg.mesh.links@.len() && 0 <= e < 2 && (
            #[trigger] cfg.roadwarriors@[i].node_hostnames@[h])@ == (
            #[trigger] cfg.mesh.links@[l].pair@[e])@ ==> cfg.roadwarriors@[i].listen_port
                != cfg.mesh.links@[l].port,
        forall|a: int, b: int|
            0 <= a < b < cfg.roadwarriors@[i].clients@.len() ==> (
            #[trigger] cfg.roadwarriors@[i].clients@[a]).public_key@ != (
            #[trigger] cfg.roadwarriors@[i].clients@[b]).public_key@,
{
    let pool = cfg.roadwarriors@[i];
    let links = cfg.mesh.links@;
    lemma_pools_ok(cfg, 0, i);
    assert forall|j: int| 0 <= j < cfg.roadwarriors@.len() && j != i implies (
    #[trigger] cfg.roadwarriors@[j]).name@ != pool.name@ by {
        lemma_pools_ok(cfg, 0, j);
    }
    assert forall|h: int| 0 <= h < pool.node_hostnames@.len() implies exists|k: int|
        0 <= k < cfg.nodes@.len() && (#[trigger] cfg.nodes@[k]).name@ == (
        #[trigger] pool.node_hostnames@[h])@ by {
        lemma_hosts_ok(cfg, i, 0, h);
    }
    assert forall|g: int, h: int| 0 <= g < h < pool.node_hostnames@.len() implies (
    #[trigger] pool.node_hostnames@[g])@ != (#[trigger] pool.node_hostnames@[h])@ by {
        lemma_hosts_ok(cfg, i, 0, h);
        let taken = taken_before(cfg, i) + host_claims(pool, h);
        assert(taken[taken_before(cfg, i).len() + g] == (
            pool.node_hostnames@[g]@,
            pool.listen_port,
        ));
    }
    assert forall|h: int, l: int, e: int|
        0 <= h < pool.node_hostnames@.len() && 0 <= l < links.len() && 0 <= e < 2 && (
        #[trigger] pool.node_hostnames@[h])@ == (
        #[trigger] links[l].pair@[e])@ implies pool.listen_port != links[l].port by {
        lemma_hosts_ok(cfg, i, 0, h);
        lemma_link_claimed(links, links.len() as int, l, e);
        let claimed = link_claims(links, links.len() as int);
        let k = choose|k: int|
            0 <= k < claimed.len() && claimed[k] == (links[l].pair@[e]@, links[l].port);
        let taken = taken_before(cfg, i) + host_claims(pool, h);
        assert(taken[k] == claimed[k]);
    }
}

/// Law: two pools of an accepted topology that share a node have different ports.
pub proof fn accepted_pools_have_their_ports(cfg: MeshConfig, i: int, j: int, g: int, h: int)
    requires
        mesh_error(cfg) is None,
        0 <= i < j < cfg.roadwarriors@.len(),
        0 <= g < cfg.roadwarriors@[i].node_hostnames@.len(),
        0 <= h < cfg.roadwarriors@[j].node_hostnames@.len(),
        cfg.roadwarriors@[i].node_hostnames@[g]@ == cfg.roadwarriors@[j].node_hostnames@[h]@,
    ensures
        cfg.roadwarriors@[i].listen_port != cfg.roadwarriors@[j].listen_port,
{
    lemma_pools_ok(cfg, 0, j);
    lemma_hosts_ok(cfg, j, 0, h);
    lemma_pool_claimed(cfg.roadwarriors@, j, i, g);
    let claimed = pool_claims(cfg.roadwarriors@, j);
    let claim = (cfg.roadwarriors@[i].node_hostnames@[g]@, cfg.roadwarriors@[i].listen_port);
    let k = choose|k: int| 0 <= k < claimed.len() && claimed[k] == claim;
    let links = link_claims(cfg.mesh.links@, cfg.mesh.links@.len() as int);
    let taken = taken_before(cfg, j) + host_claims(cfg.roadwarriors@[j], h);
    assert(taken[links.len() + k] == claim);
}

/// What the first `n` links claim is a port of one of them on a node at its end.
proof fn lemma_claimed_by_link(links: Seq<MeshLink>, n: int, claim: Claim)
    requires
        0 <= n <= links.len(),
        link_claims(links, n).contains(claim),
    ensures
        exists|i: int, e: int|
            0 <= i < n && 0 <= e < 2 && claim.1 == links[i].port && claim.0 == (
            #[trigger] links[i].pair@[e])@,
    decreases n,
{
    let all = link_claims(links, n);
    let k = choose|k: int| 0 <= k < all.len() && all[k] == claim;
    let before = link_claims(links, n - 1);
    if k < before.len() {
        assert(before[k] == claim);
        lemma_claimed_by_link(links, n - 1, claim);
        let (i, e) = choose|i: int, e: int|
            0 <= i < n - 1 && 0 <= e < 2 && claim.1 == links[i].port && claim.0 == (
            #[trigger] links[i].pair@[e])@;
        assert(links[i].pair@[e]@ == claim.0);
    } else {
        let e = k - before.len();
        assert(claim.0 == links[n - 1].pair@[e]@);
    }
}

/// What the first `n` pools claim is the port of one of them on one of its nodes.
proof fn lemma_claimed_by_pool(pools: Seq<RoadwarriorPool>, n: int, claim: Claim)
    requires
        0 <= n <= pools.len(),
        pool_claims(pools, n).contains(claim),
    ensures
        exists|i: int, h: int|
            0 <= i < n && 0 <= h < pools[i].node_hostnames@.len() && claim.1
                == pools[i].listen_port && claim.0 == (#[trigger] pools[i].node_hostnames@[h])@,
    decreases n,
{
    let all = pool_claims(pools, n);
    let k = choose|k: int| 0 <= k < all.len() && all[k] == claim;
    let before = pool_claims(pools, n - 1);
    if k < before.len() {
        assert(before[k] == claim);
        lemma_claimed_by_pool(pools, n - 1, claim);
        let (i, h) = choose|i: int, h: int|
            0 <= i < n - 1 && 0 <= h < pools[i].node_hostnames@.len() && claim.1
                == pools[i].listen_port && claim.0 == (#[trigger] pools[i].node_hostnames@[h])@;
        assert(pools[i].node_hostnames@[h]@ == claim.0);
    } else {
        let h = k - before.len();
        assert(claim.0 == pools[n - 1].node_hostnames@[h]@);
    }
}

/// Nodes that can stand side by side.
pub open spec fn valid_nodes(nodes: Seq<NodeEntry>) -> bool {
    &&& forall|i: int|
        0 <= i < nodes.len() ==> (#[trigger] nodes[i]).name@.len() > 0 && addr::ipv4_text(
            nodes[i].node_id@,
        ) is Some
    &&& forall|i: int, j: int|
        0 <= i < j < nodes.len() ==> (#[trigger] nodes[i]).name@ != (#[trigger] nodes[j]).name@
            && addr::ipv4_text(nodes[i].node_id@) != addr::ipv4_text(nodes[j].node_id@)
}

/// Links that join two nodes each and have a port of their own wherever they meet.
pub open spec fn valid_links(cfg: MeshConfig) -> bool {
    let links = cfg.mesh.links@;
    &&& forall|i: int|
        0 <= i < links.len() ==> known(cfg.nodes@, (#[trigger] links[i]).pair@[0]@) && known(
            cfg.nodes@,
            links[i].pair@[1]@,
        ) && links[i].pair@[0]@ != links[i].pair@[1]@
    &&& forall|i: int, j: int, a: int, b: int|
        0 <= i < j < links.len() && 0 <= a < 2 && 0 <= b < 2 && (#[trigger] links[i].pair@[a])@ == (
        #[trigger] links[j].pair@[b])@ ==> links[i].port != links[j].port
}

/// Pools with names and nodes of their own, whose port is free on each of their nodes.
pub open spec fn valid_pools(cfg: MeshConfig) -> bool {
    let links = cfg.mesh.links@;
    let pools = cfg.roadwarriors@;
    &&& forall|i: int, j: int|
        0 <= i < j < pools.len() ==> (#[trigger] pools[i]).name@ != (#[trigger] pools[j]).name@
    &&& forall|i: int|
        0 <= i < pools.len() ==> (#[trigger] pools[i]).node_hostnames@.len() > 0
            && !has_duplicate_client(pools[i])
    &&& forall|i: int, h: int|
        0 <= i < pools.len() && 0 <= h < pools[i].node_hostnames@.len() ==> known(
            cfg.nodes@,
            (#[trigger] pools[i].node_hostnames@[h])@,
        )
    &&& forall|i: int, g: int, h: int|
        0 <= i < pools.len() && 0 <= g < h < pools[i].node_hostnames@.len() ==> (
        #[trigger] pools[i].node_hostnames@[g])@ != (#[trigger] pools[i].node_hostnames@[h])@
    &&& forall|i: int, h: int, l: int, e: int|
        0 <= i < pools.len() && 0 <= h < pools[i].node_hostnames@.len() && 0 <= l < links.len() && 0
            <= e < 2 && (#[trigger] pools[i].node_hostnames@[h])@ == (
        #[trigger] links[l].pair@[e])@ ==> pools[i].listen_port != links[l].port
    &&& forall|i: int, j: int, g: int, h: int|
        0 <= i < j < pools.len() && 0 <= g < pools[i].node_hostnames@.len() && 0 <= h
            < pools[j].node_hostnames@.len() && (#[trigger] pools[i].node_hostnames@[g])@ == (
        #[trigger] pools[j].node_hostnames@[h])@ ==> pools[i].listen_port != pools[j].listen_port
}

proof fn lemma_valid_nodes(nodes: Seq<NodeEntry>, i: int)
    requires
        0 <= i <= nodes.len(),
        valid_nodes(nodes),
    ensures
        nodes_error(nodes, i) is None,
    decreases nodes.len() - i,
{
    if i < nodes.len() {
        lemma_valid_nodes(nodes, i + 1);
        assert(nodes[i].name@.len() > 0);
        if exists|j: int| 0 <= j < i && (#[trigger] nodes[j]).name@ == nodes[i].name@ {
            let j = choose|j: int| 0 <= j < i && (#[trigger] nodes[j]).name@ == nodes[i].name@;
            assert(nodes[j].name@ != nodes[i].name@);
        }
        if exists|j: int|
            0 <= j < i && addr::ipv4_text((#[trigger] nodes[j]).node_id@) == addr::ipv4_text(
                nodes[i].node_id@,
            ) {
            let j = choose|j: int|
                0 <= j < i && addr::ipv4_text((#[trigger] nodes[j]).node_id@) == addr::ipv4_text(
                    nodes[i].node_id@,
                );
            assert(nodes[j].name@ != nodes[i].name@);
        }
    }
}

proof fn lemma_valid_links(cfg: MeshConfig, i: int)
    requires
        0 <= i <= cfg.mesh.links@.len(),
        valid_links(cfg),
    ensures
        links_error(cfg, i) is None,
    decreases cfg.mesh.links@.len() - i,
{
    let links = cfg.mesh.links@;
    if i < links.len() {
        lemma_valid_links(cfg, i + 1);
        let link = links[i];
        assert(known(cfg.nodes@, link.pair@[0]@));
        assert forall|b: int| 0 <= b < 2 implies !link_claims(links, i).contains(
            ((#[trigger] link.pair@[b])@, link.port),
        ) by {
            let claim = (link.pair@[b]@, link.port);
            if link_claims(links, i).contains(claim) {
                lemma_claimed_by_link(links, i, claim);
                let (l, e) = choose|l: int, e: int|
                    0 <= l < i && 0 <= e < 2 && claim.1 == links[l].port && claim.0 == (
                    #[trigger] links[l].pair@[e])@;
                assert(links[l].pair@[e]@ == links[i].pair@[b]@);
            }
        }
        assert(!link_claims(links, i).contains((link.pair@[0]@, link.port)));
        assert(!link_claims(links, i).contains((link.pair@[1]@, link.port)));
    }
}

proof fn lemma_valid_hosts(cfg: MeshConfig, i: int, j: int)
    requires
        0 <= i < cfg.roadwarriors@.len(),
        0 <= j <= cfg.roadwarriors@[i].node_hostnames@.len(),
        valid_pools(cfg),
    ensures
        hosts_error(cfg, i, j) is None,
    decreases cfg.roadwarriors@[i].node_hostnames@.len() - j,
{
    let pools = cfg.roadwarriors@;
    let links = cfg.mesh.links@;
    let pool = pools[i];
    if j < pool.node_hostnames@.len() {
        lemma_valid_hosts(cfg, i, j + 1);
        let claim = (pool.node_hostnames@[j]@, pool.listen_port);
        let of_links = link_claims(links, links.len() as int);
        let of_pools = pool_claims(pools, i);
        let own = host_claims(pool, j);
        let taken = taken_before(cfg, i) + own;
        assert(known(cfg.nodes@, pools[i].node_hostnames@[j]@));
        if taken.contains(claim) {
            let k = choose|k: int| 0 <= k < taken.len() && taken[k] == claim;
            if k < of_links.len() {
                assert(of_links[k] == claim);
                assert(of_links.contains(claim));
                lemma_claimed_by_link(links, links.len() as int, claim);
                let (l, e) = choose|l: int, e: int|
                    0 <= l < links.len() && 0 <= e < 2 && claim.1 == links[l].port && claim.0 == (
                    #[trigger] links[l].pair@[e])@;
                assert(pools[i].node_hostnames@[j]@ == links[l].pair@[e]@);
            } else if k < of_links.len() + of_pools.len() {
                assert(of_pools[k - of_links.len()] == claim);
                assert(of_pools.contains(claim));
                lemma_claimed_by_pool(pools, i, claim);
                let (q, h) = choose|q: int, h: int|
                    0 <= q < i && 0 <= h < pools[q].node_hostnames@.len() && claim.1
                        == pools[q].listen_port && claim.0 == (
                    #[trigger] pools[q].node_hostnames@[h])@;
                assert(pools[q].node_hostnames@[h]@ == pools[i].node_hostnames@[j]@);
            } else {
                let g = k - of_links.len() - of_pools.len();
                assert(own[g] == claim);
                assert(pools[i].node_hostnames@[g]@ != pools[i].node_hostnames@[j]@);
            }
        }
    }
}

proof fn lemma_valid_pools(cfg: MeshConfig, i: int)
    requires
        0 <= i <= cfg.roadwarriors@.len(),
        valid_pools(cfg),
    ensures
        pools_error(cfg, i) is None,
    decreases cfg.roadwarriors@.len() - i,
{
    let pools = cfg.roadwarriors@;
    if i < pools.len() {
        lemma_valid_pools(cfg, i + 1);
        assert(pools[i].node_hostnames@.len() > 0);
        lemma_valid_hosts(cfg, i, 0);
        if exists|j: int| 0 <= j < i && (#[trigger] pools[j]).name@ == pools[i].name@ {
            let j = choose|j: int| 0 <= j < i && (#[trigger] pools[j]).name@ == pools[i].name@;
            assert(pools[j].name@ != pools[i].name@);
        }
    }
}

/// Law: a topology is accepted where it has nodes, its nodes, links and pools are valid, and its
/// bypass entries are for nodes of it.
pub proof fn valid_topology_is_accepted(cfg: MeshConfig)
    requires
        cfg.nodes@.len() > 0,
        valid_nodes(cfg.nodes@),
        valid_links(cfg),
        valid_pools(cfg),
        forall|i: int|
            0 <= i < cfg.bypass@.len() ==> known(cfg.nodes@, (#[trigger] cfg.bypass@[i]).node@),
    ensures
        mesh_error(cfg) is None,
{
    lemma_valid_nodes(cfg.nodes@, 0);
    lemma_valid_links(cfg, 0);
    lemma_valid_pools(cfg, 0);
}

} // verus!
