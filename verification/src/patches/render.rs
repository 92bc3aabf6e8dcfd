//! What one node's daemons are configured with, computed from the topology.
//!
//! Every node is a BGP peer of every other, each mesh link is an interface of its own on both
//! ends, and each pool is one more interface on the nodes that terminate it.

use crate::assoc;
use crate::awg::config::AwgConfig;
use crate::awg::config::InterfaceEntry;
use crate::awg::config::MetricsConfig;
use crate::awg::config::PeerEntry;
use crate::common::addr;
use crate::common::addr::IpAddr;
use crate::common::cidr;
use crate::common::cidr::CidrError;
use crate::common::keys;
use crate::common::keys::KeyError;
use crate::common::obfuscation;
use crate::common::obfuscation::Obfuscation;
use crate::nftables::config::NftablesConfig;
use crate::patches::mesh_config;
use crate::patches::mesh_config::MeshConfig;
use crate::patches::mesh_config::MeshLink;
use crate::patches::mesh_config::NodeEntry;
use crate::patches::mesh_config::RoadwarriorClient;
use crate::patches::mesh_config::RoadwarriorPool;
use crate::router::cidr as ipv4;
use crate::router::config as router_config;
use crate::router::config::AnnounceEntry;
use crate::router::config::BgpPeerEntry;
use crate::router::config::BypassConfig;
use crate::router::config::NodeIdentity;
use crate::router::config::RouterConfig;
use crate::router::resolver;
use crate::taloscfg::addressing;
use crate::taloscfg::obfuscation_gen;
use crate::taloscfg::secrets;
use crate::taloscfg::secrets::Fresh;
use crate::taloscfg::secrets::ResolvedSecrets;
use crate::text;
use vstd::prelude::*;

verus! {

/// What is already there from an earlier run, for what falls back on an earlier value before
/// anything is generated.
pub trait ExistingState {
    /// The mesh private key that a node had.
    spec fn stored_mesh_key(&self, node_name: Seq<char>) -> Option<Seq<char>>;

    /// The obfuscation that a link had.
    spec fn stored_link(&self, a: Seq<char>, b: Seq<char>) -> Option<Obfuscation>;

    /// The private key that a pool had.
    spec fn stored_pool_key(&self, pool_name: Seq<char>) -> Option<Seq<char>>;

    /// The obfuscation that a pool had.
    spec fn stored_pool(&self, pool_name: Seq<char>) -> Option<Obfuscation>;

    fn mesh_private_key(&self, node_name: &str) -> (r: Option<String>)
        ensures
            text::text_opt(r) == self.stored_mesh_key(node_name@),
    ;

    fn mesh_link_obfuscation(&self, pair: &[String; 2]) -> (r: Option<Obfuscation>)
        ensures
            r == self.stored_link(pair@[0]@, pair@[1]@),
    ;

    fn roadwarrior_private_key(&self, pool_name: &str) -> (r: Option<String>)
        ensures
            text::text_opt(r) == self.stored_pool_key(pool_name@),
    ;

    fn roadwarrior_obfuscation(&self, pool_name: &str) -> (r: Option<Obfuscation>)
        ensures
            r == self.stored_pool(pool_name@),
    ;
}

/// Nothing is there from an earlier run.
#[derive(Clone, Copy, Debug, PartialEq)]
pub struct NothingStored;

impl ExistingState for NothingStored {
    open spec fn stored_mesh_key(&self, node_name: Seq<char>) -> Option<Seq<char>> {
        None
    }

    open spec fn stored_link(&self, a: Seq<char>, b: Seq<char>) -> Option<Obfuscation> {
        None
    }

    open spec fn stored_pool_key(&self, pool_name: Seq<char>) -> Option<Seq<char>> {
        None
    }

    open spec fn stored_pool(&self, pool_name: Seq<char>) -> Option<Obfuscation> {
        None
    }

    fn mesh_private_key(&self, node_name: &str) -> (r: Option<String>) {
        None
    }

    fn mesh_link_obfuscation(&self, pair: &[String; 2]) -> (r: Option<Obfuscation>) {
        None
    }

    fn roadwarrior_private_key(&self, pool_name: &str) -> (r: Option<String>) {
        None
    }

    fn roadwarrior_obfuscation(&self, pool_name: &str) -> (r: Option<Obfuscation>) {
        None
    }
}

/// The value that is set, else the one that was there, else a generated one.
pub fn resolve_string<F: FnOnce() -> String>(
    specific: Option<&str>,
    existing: Option<String>,
    generate: F,
) -> (r: String)
    requires
        specific is None && existing is None ==> generate.requires(()),
    ensures
        match (specific, existing) {
            (Some(s), _) => r@ == s@,
            (None, Some(e)) => r == e,
            (None, None) => generate.ensures((), r),
        },
{
    match specific {
        Some(s) => s.to_owned(),
        None => match existing {
            Some(e) => e,
            None => generate(),
        },
    }
}

/// What a link or pool had, else nothing.
pub open spec fn or_unset(o: Option<Obfuscation>) -> Obfuscation {
    match o {
        Some(o) => o,
        None => obfuscation::unset(),
    }
}

/// Layers `specific` over `global` over `existing`, parameter by parameter, and generates whatever
/// is still unset.
pub fn resolve_obfuscation(
    specific: &Obfuscation,
    global: &Obfuscation,
    existing: Option<&Obfuscation>,
) -> (r: Obfuscation)
    ensures
        exists|fresh: Obfuscation| #[trigger]
            obfuscation_gen::is_generated(fresh) && r == obfuscation::over(
                *specific,
                obfuscation::over(
                    *global,
                    obfuscation::over(
                        match existing {
                            Some(e) => *e,
                            None => obfuscation::unset(),
                        },
                        fresh,
                    ),
                ),
            ),
{
    let fresh = obfuscation_gen::generate();
    let base = match existing {
        Some(e) => obfuscation::layer(e, &fresh),
        None => obfuscation::layer(&Obfuscation::default(), &fresh),
    };
    obfuscation::layer(specific, &obfuscation::layer(global, &base))
}

/// `back` holds, for every place in a topology, what was there before, else the fresh value.
pub open spec fn falls_back<E: ExistingState>(
    mesh: MeshConfig,
    existing: E,
    fresh: Fresh,
    back: Fresh,
) -> bool {
    &&& secrets::fits(mesh, back)
    &&& forall|i: int|
        0 <= i < mesh.nodes@.len() ==> (#[trigger] back.node_keys@[i])@ == (
        match existing.stored_mesh_key(mesh.nodes@[i].name@) {
            Some(k) => k,
            None => fresh.node_keys@[i]@,
        })
    &&& forall|i: int|
        0 <= i < mesh.mesh.links@.len() ==> #[trigger] back.links@[i] == obfuscation::over(
            or_unset(
                existing.stored_link(
                    mesh.mesh.links@[i].pair@[0]@,
                    mesh.mesh.links@[i].pair@[1]@,
                ),
            ),
            fresh.links@[i],
        )
    &&& forall|i: int|
        0 <= i < mesh.roadwarriors@.len() ==> (#[trigger] back.pool_keys@[i])@ == (
        match existing.stored_pool_key(mesh.roadwarriors@[i].name@) {
            Some(k) => k,
            None => fresh.pool_keys@[i]@,
        })
    &&& forall|i: int|
        0 <= i < mesh.roadwarriors@.len() ==> #[trigger] back.pools@[i] == obfuscation::over(
            or_unset(existing.stored_pool(mesh.roadwarriors@[i].name@)),
            fresh.pools@[i],
        )
}

/// What was there before over what is fresh.
#[verifier::loop_isolation(false)]
fn fall_back<E: ExistingState>(mesh: &MeshConfig, existing: &E, fresh: &Fresh) -> (r: Fresh)
    requires
        secrets::fits(*mesh, *fresh),
    ensures
        falls_back(*mesh, *existing, *fresh, r),
{
    let mut node_keys: Vec<String> = Vec::new();
    let mut i: usize = 0;
    while i < mesh.nodes.len()
        invariant
            i <= mesh.nodes@.len(),
            node_keys@.len() == i,
            forall|k: int|
                0 <= k < i ==> (#[trigger] node_keys@[k])@ == (match existing.stored_mesh_key(
                    mesh.nodes@[k].name@,
                ) {
                    Some(key) => key,
                    None => fresh.node_keys@[k]@,
                }),
        decreases mesh.nodes@.len() - i,
    {
        match existing.mesh_private_key(mesh.nodes[i].name.as_str()) {
            Some(key) => node_keys.push(key),
            None => node_keys.push(fresh.node_keys[i].clone()),
        }
        i += 1;
    }
    let mut links: Vec<Obfuscation> = Vec::new();
    let mut j: usize = 0;
    while j < mesh.mesh.links.len()
        invariant
            j <= mesh.mesh.links@.len(),
            links@.len() == j,
            forall|k: int|
                0 <= k < j ==> #[trigger] links@[k] == obfuscation::over(
                    or_unset(
                        existing.stored_link(
                            mesh.mesh.links@[k].pair@[0]@,
                            mesh.mesh.links@[k].pair@[1]@,
                        ),
                    ),
                    fresh.links@[k],
                ),
        decreases mesh.mesh.links@.len() - j,
    {
        let had = match existing.mesh_link_obfuscation(&mesh.mesh.links[j].pair) {
            Some(o) => o,
            None => Obfuscation::default(),
        };
        links.push(obfuscation::layer(&had, &fresh.links[j]));
        j += 1;
    }
    let mut pool_keys: Vec<String> = Vec::new();
    let mut pools: Vec<Obfuscation> = Vec::new();
    let mut p: usize = 0;
    while p < mesh.roadwarriors.len()
        invariant
            p <= mesh.roadwarriors@.len(),
            pool_keys@.len() == p,
            pools@.len() == p,
            forall|k: int|
                0 <= k < p ==> (#[trigger] pool_keys@[k])@ == (match existing.stored_pool_key(
                    mesh.roadwarriors@[k].name@,
                ) {
                    Some(key) => key,
                    None => fresh.pool_keys@[k]@,
                }),
            forall|k: int|
                0 <= k < p ==> #[trigger] pools@[k] == obfuscation::over(
                    or_unset(existing.stored_pool(mesh.roadwarriors@[k].name@)),
                    fresh.pools@[k],
                ),
        decreases mesh.roadwarriors@.len() - p,
    {
        let name = mesh.roadwarriors[p].name.as_str();
        match existing.roadwarrior_private_key(name) {
            Some(key) => pool_keys.push(key),
            None => pool_keys.push(fresh.pool_keys[p].clone()),
        }
        let had = match existing.roadwarrior_obfuscation(name) {
            Some(o) => o,
            None => Obfuscation::default(),
        };
        pools.push(obfuscation::layer(&had, &fresh.pools[p]));
        p += 1;
    }
    Fresh { node_keys, links, pool_keys, pools }
}

/// Resolves the secrets of a topology: what it sets, else what was there before, else `fresh`.
pub fn resolve_secrets_with<E: ExistingState>(
    mesh: &MeshConfig,
    existing: &E,
    fresh: &Fresh,
) -> (r: ResolvedSecrets)
    requires
        secrets::fits(*mesh, *fresh),
    ensures
        exists|back: Fresh| #[trigger]
            falls_back(*mesh, *existing, *fresh, back) && secrets::is_settled(*mesh, back, r),
{
    let back = fall_back(mesh, existing, fresh);
    let (r, _) = secrets::resolve_with(mesh, &back);
    r
}

/// What `resolve_secrets_with` gives for some fresh values.
pub open spec fn resolves<E: ExistingState>(
    mesh: MeshConfig,
    existing: E,
    fresh: Fresh,
    r: ResolvedSecrets,
) -> bool {
    exists|back: Fresh| #[trigger]
        falls_back(mesh, existing, fresh, back) && secrets::is_settled(mesh, back, r)
}

/// Resolves the secrets of a topology: what it sets, else what was there before, else generated
/// ones.
pub fn resolve_secrets<E: ExistingState>(mesh: &MeshConfig, existing: &E) -> (r: ResolvedSecrets)
    ensures
        exists|fresh: Fresh|
            secrets::is_drawn(*mesh, fresh) && #[trigger] resolves(*mesh, *existing, fresh, r),
{
    let fresh = secrets::draw(mesh);
    let r = resolve_secrets_with(mesh, existing, &fresh);
    assert(resolves(*mesh, *existing, fresh, r));
    r
}

/// What is there is what a run resolved: every key and every set of parameters that it gave.
pub open spec fn reports<E: ExistingState>(mesh: MeshConfig, existing: E, r: ResolvedSecrets) -> bool {
    &&& forall|i: int|
        0 <= i < mesh.nodes@.len() ==> existing.stored_mesh_key((#[trigger] mesh.nodes@[i]).name@)
            == Some(r.mesh_private_keys@[i].1@)
    &&& forall|i: int|
        0 <= i < mesh.mesh.links@.len() ==> existing.stored_link(
            (#[trigger] mesh.mesh.links@[i]).pair@[0]@,
            mesh.mesh.links@[i].pair@[1]@,
        ) == Some(r.mesh_link_obfuscation@[i].1)
    &&& forall|i: int|
        0 <= i < mesh.roadwarriors@.len() ==> existing.stored_pool_key(
            (#[trigger] mesh.roadwarriors@[i]).name@,
        ) == Some(r.roadwarrior_private_keys@[i].1@) && existing.stored_pool(
            mesh.roadwarriors@[i].name@,
        ) == Some(r.roadwarrior_obfuscation@[i].1)
}

/// The same keys under the same names.
pub open spec fn same_keys(a: Seq<(String, String)>, b: Seq<(String, String)>) -> bool {
    a.len() == b.len() && forall|i: int|
        0 <= i < a.len() ==> (#[trigger] a[i]).0@ == b[i].0@ && a[i].1@ == b[i].1@
}

/// The same parameters under the same names.
pub open spec fn same_parameters(
    a: Seq<(String, Obfuscation)>,
    b: Seq<(String, Obfuscation)>,
) -> bool {
    a.len() == b.len() && forall|i: int|
        0 <= i < a.len() ==> (#[trigger] a[i]).0@ == b[i].0@ && a[i].1 == b[i].1
}

/// The same secrets, in all four lists.
pub open spec fn same_secrets(a: ResolvedSecrets, b: ResolvedSecrets) -> bool {
    &&& same_keys(a.mesh_private_keys@, b.mesh_private_keys@)
    &&& same_parameters(a.mesh_link_obfuscation@, b.mesh_link_obfuscation@)
    &&& same_keys(a.roadwarrior_private_keys@, b.roadwarrior_private_keys@)
    &&& same_parameters(a.roadwarrior_obfuscation@, b.roadwarrior_obfuscation@)
}

/// Parameters that were settled once are settled again, whatever else is drawn.
proof fn lemma_settled_again(
    plain: bool,
    own: Obfuscation,
    global: Obfuscation,
    had: Obfuscation,
    f1: Obfuscation,
    f2: Obfuscation,
)
    requires
        obfuscation_gen::is_generated(f1),
        obfuscation_gen::is_generated(f2),
    ensures
        ({
            let first = secrets::settled_obfuscation(
                plain,
                own,
                global,
                obfuscation::over(had, f1),
            );
            first == secrets::settled_obfuscation(
                plain,
                own,
                global,
                obfuscation::over(first, f2),
            )
        }),
{
}

/// Law: a value once issued is never rotated. A later run that finds what an earlier one resolved
/// gives the same secrets, whatever either of them drew.
pub proof fn issued_secrets_stay<A: ExistingState, B: ExistingState>(
    mesh: MeshConfig,
    before: A,
    f1: Fresh,
    r1: ResolvedSecrets,
    after: B,
    f2: Fresh,
    r2: ResolvedSecrets,
)
    requires
        secrets::is_drawn(mesh, f1),
        secrets::is_drawn(mesh, f2),
        resolves(mesh, before, f1, r1),
        reports(mesh, after, r1),
        resolves(mesh, after, f2, r2),
    ensures
        same_secrets(r1, r2),
{
    let b1 = choose|back: Fresh| #[trigger]
        falls_back(mesh, before, f1, back) && secrets::is_settled(mesh, back, r1);
    let b2 = choose|back: Fresh| #[trigger]
        falls_back(mesh, after, f2, back) && secrets::is_settled(mesh, back, r2);
    assert forall|i: int| 0 <= i < mesh.nodes@.len() implies (#[trigger] r1.mesh_private_keys@[i]).0@
        == r2.mesh_private_keys@[i].0@ && r1.mesh_private_keys@[i].1@
        == r2.mesh_private_keys@[i].1@ by {
        assert(mesh.nodes@[i] == mesh.nodes@[i]);
        assert(b2.node_keys@[i]@ == r1.mesh_private_keys@[i].1@);
        assert(r2.mesh_private_keys@[i].0@ == mesh.nodes@[i].name@);
    }
    assert forall|i: int| 0 <= i < mesh.mesh.links@.len() implies (
    #[trigger] r1.mesh_link_obfuscation@[i]).0@ == r2.mesh_link_obfuscation@[i].0@
        && r1.mesh_link_obfuscation@[i].1 == r2.mesh_link_obfuscation@[i].1 by {
        let link = mesh.mesh.links@[i];
        assert(b1.links@[i] == obfuscation::over(
            or_unset(before.stored_link(link.pair@[0]@, link.pair@[1]@)),
            f1.links@[i],
        ));
        assert(b2.links@[i] == obfuscation::over(r1.mesh_link_obfuscation@[i].1, f2.links@[i]));
        assert(obfuscation_gen::is_generated(f1.links@[i]));
        assert(obfuscation_gen::is_generated(f2.links@[i]));
        assert(r2.mesh_link_obfuscation@[i].1 == secrets::link_settled(mesh, b2, i));
        lemma_settled_again(
            link.plain,
            link.obfuscation,
            mesh.obfuscation,
            or_unset(before.stored_link(link.pair@[0]@, link.pair@[1]@)),
            f1.links@[i],
            f2.links@[i],
        );
    }
    assert forall|i: int| 0 <= i < mesh.roadwarriors@.len() implies (
    #[trigger] r1.roadwarrior_private_keys@[i]).0@ == r2.roadwarrior_private_keys@[i].0@
        && r1.roadwarrior_private_keys@[i].1@ == r2.roadwarrior_private_keys@[i].1@ by {
        assert(mesh.roadwarriors@[i] == mesh.roadwarriors@[i]);
        assert(b2.pool_keys@[i]@ == r1.roadwarrior_private_keys@[i].1@);
        assert(r2.roadwarrior_private_keys@[i].0@ == mesh.roadwarriors@[i].name@);
    }
    assert forall|i: int| 0 <= i < mesh.roadwarriors@.len() implies (
    #[trigger] r1.roadwarrior_obfuscation@[i]).0@ == r2.roadwarrior_obfuscation@[i].0@
        && r1.roadwarrior_obfuscation@[i].1 == r2.roadwarrior_obfuscation@[i].1 by {
        let pool = mesh.roadwarriors@[i];
        assert(b1.pools@[i] == obfuscation::over(
            or_unset(before.stored_pool(pool.name@)),
            f1.pools@[i],
        ));
        assert(b2.pools@[i] == obfuscation::over(r1.roadwarrior_obfuscation@[i].1, f2.pools@[i]));
        assert(obfuscation_gen::is_generated(f1.pools@[i]));
        assert(obfuscation_gen::is_generated(f2.pools@[i]));
        assert(r2.roadwarrior_obfuscation@[i].1 == secrets::pool_settled(mesh, b2, i));
        lemma_settled_again(
            pool.plain,
            pool.obfuscation,
            mesh.obfuscation,
            or_unset(before.stored_pool(pool.name@)),
            f1.pools@[i],
            f2.pools@[i],
        );
    }
}

/// Why a pair of networks cannot be used.
#[derive(Clone, Copy, Debug, PartialEq, Eq, Structural)]
pub enum NetworkError {
    InvalidV4(CidrError),
    NotV4,
    InvalidV6(CidrError),
    NotV6,
}

/// Why a node's config cannot be rendered.
#[derive(Clone, Copy, Debug, PartialEq, Eq, Structural)]
pub enum RenderError {
    LoopbackNetworks(NetworkError),
    TunnelNetworks(NetworkError),
    UnknownNode,
    InvalidNodeId,
    /// No mesh private key was resolved for a node.
    NoMeshKey,
    InvalidMeshKey(KeyError),
}

/// An IPv4 network and an IPv6 network, each with its prefix length.
#[derive(Clone, Copy, Debug, PartialEq, Eq, Structural)]
pub struct Networks {
    pub v4: u32,
    pub v4_len: u8,
    pub v6: u128,
    pub v6_len: u8,
}

/// The networks that two CIDR texts name.
#[verifier::opaque]
pub open spec fn networks_text(v4: Seq<char>, v6: Seq<char>) -> Result<Networks, NetworkError> {
    match cidr::cidr_text(v4) {
        Err(e) => Err(NetworkError::InvalidV4(e)),
        Ok((IpAddr::V6(_), _)) => Err(NetworkError::NotV4),
        Ok((IpAddr::V4(a), a_len)) => match cidr::cidr_text(v6) {
            Err(e) => Err(NetworkError::InvalidV6(e)),
            Ok((IpAddr::V4(_), _)) => Err(NetworkError::NotV6),
            Ok((IpAddr::V6(b), b_len)) => Ok(Networks { v4: a, v4_len: a_len, v6: b, v6_len: b_len }),
        },
    }
}

fn parse_networks(v4: &str, v6: &str) -> (r: Result<Networks, NetworkError>)
    ensures
        r == networks_text(v4@, v6@),
        r is Ok ==> r->Ok_0.v4_len <= 32 && r->Ok_0.v6_len <= 128,
{
    proof {
        reveal(networks_text);
    }
    match cidr::parse_cidr(v4) {
        Err(e) => Err(NetworkError::InvalidV4(e)),
        Ok((IpAddr::V6(_), _)) => Err(NetworkError::NotV4),
        Ok((IpAddr::V4(a), a_len)) => match cidr::parse_cidr(v6) {
            Err(e) => Err(NetworkError::InvalidV6(e)),
            Ok((IpAddr::V4(_), _)) => Err(NetworkError::NotV6),
            Ok((IpAddr::V6(b), b_len)) => Ok(Networks { v4: a, v4_len: a_len, v6: b, v6_len: b_len }),
        },
    }
}

/// The position of the first node of this name; the number of nodes where there is none.
pub open spec fn node_index(nodes: Seq<NodeEntry>, name: Seq<char>) -> int
    decreases nodes.len(),
{
    if nodes.len() == 0 {
        0
    } else if nodes[0].name@ == name {
        0
    } else {
        1 + node_index(nodes.skip(1), name)
    }
}

pub proof fn lemma_node_index(nodes: Seq<NodeEntry>, name: Seq<char>, i: int)
    requires
        0 <= i <= nodes.len(),
        forall|k: int| 0 <= k < i ==> (#[trigger] nodes[k]).name@ != name,
        i < nodes.len() ==> nodes[i].name@ == name,
    ensures
        node_index(nodes, name) == i,
    decreases i,
{
    if i > 0 {
        assert(nodes[0].name@ != name);
        let rest = nodes.skip(1);
        assert forall|k: int| 0 <= k < i - 1 implies (#[trigger] rest[k]).name@ != name by {
            assert(nodes[k + 1].name@ != name);
        }
        lemma_node_index(rest, name, i - 1);
    }
}

/// The first node of this name.
pub fn find_node<'a>(nodes: &'a Vec<NodeEntry>, name: &str) -> (r: Option<&'a NodeEntry>)
    ensures
        match r {
            Some(n) => node_index(nodes@, name@) < nodes@.len() && *n == nodes@[node_index(
                nodes@,
                name@,
            )],
            None => node_index(nodes@, name@) == nodes@.len(),
        },
        node_index(nodes@, name@) >= 0,
{
    let mut i: usize = 0;
    while i < nodes.len()
        invariant
            i <= nodes@.len(),
            forall|k: int| 0 <= k < i ==> (#[trigger] nodes@[k]).name@ != name@,
        decreases nodes@.len() - i,
    {
        if text::str_eq(nodes[i].name.as_str(), name) {
            proof {
                lemma_node_index(nodes@, name@, i as int);
            }
            return Some(&nodes[i]);
        }
        i += 1;
    }
    proof {
        lemma_node_index(nodes@, name@, i as int);
    }
    None
}

/// The identity of the node of this name.
pub open spec fn node_id_text(mesh: MeshConfig, name: Seq<char>) -> Result<int, RenderError> {
    let i = node_index(mesh.nodes@, name);
    if i >= mesh.nodes@.len() {
        Err(RenderError::UnknownNode)
    } else {
        match addr::ipv4_text(mesh.nodes@[i].node_id@) {
            Some(id) => Ok(id),
            None => Err(RenderError::InvalidNodeId),
        }
    }
}

fn node_id_of(mesh: &MeshConfig, node_name: &str) -> (r: Result<u32, RenderError>)
    ensures
        match r {
            Ok(id) => node_id_text(*mesh, node_name@) == Ok::<int, RenderError>(id as int),
            Err(e) => node_id_text(*mesh, node_name@) == Err::<int, RenderError>(e),
        },
{
    match find_node(&mesh.nodes, node_name) {
        None => Err(RenderError::UnknownNode),
        Some(n) => match addr::parse_ipv4(n.node_id.as_str()) {
            Some(id) => Ok(id),
            None => Err(RenderError::InvalidNodeId),
        },
    }
}

/// A node's addresses in two networks.
pub open spec fn derived(n: Networks, id: int) -> (u32, u128) {
    (
        addressing::with_host(n.v4 as int, 32 - n.v4_len, id) as u32,
        addressing::with_host(n.v6 as int, 128 - n.v6_len, id) as u128,
    )
}

fn derive(n: &Networks, id: u32) -> (r: (u32, u128))
    requires
        n.v4_len <= 32,
        n.v6_len <= 128,
    ensures
        r == derived(*n, id as int),
{
    (
        addressing::ipv4_loopback(n.v4, n.v4_len, id),
        addressing::ipv6_loopback(n.v6, n.v6_len, id),
    )
}

/// A node's loopbacks: its identity in the host bits of the loopback networks.
pub open spec fn loopbacks_of(mesh: MeshConfig, name: Seq<char>) -> Result<
    (u32, u128),
    RenderError,
> {
    let nets = mesh.cluster.loopback_networks;
    match networks_text(nets.ipv4@, nets.ipv6@) {
        Err(e) => Err(RenderError::LoopbackNetworks(e)),
        Ok(n) => match node_id_text(mesh, name) {
            Err(e) => Err(e),
            Ok(id) => Ok(derived(n, id)),
        },
    }
}

/// This node's IPv4 and IPv6 loopback.
pub fn node_loopbacks(mesh: &MeshConfig, node_name: &str) -> (r: Result<(u32, u128), RenderError>)
    ensures
        r == loopbacks_of(*mesh, node_name@),
{
    let nets = &mesh.cluster.loopback_networks;
    match parse_networks(nets.ipv4.as_str(), nets.ipv6.as_str()) {
        Err(e) => Err(RenderError::LoopbackNetworks(e)),
        Ok(n) => match node_id_of(mesh, node_name) {
            Err(e) => Err(e),
            Ok(id) => Ok(derive(&n, id)),
        },
    }
}

/// A node's tunnel addresses, where the topology has tunnel networks.
pub open spec fn tunnel_of(mesh: MeshConfig, name: Seq<char>) -> Result<
    Option<(u32, u128)>,
    RenderError,
> {
    match mesh.cluster.tunnel_networks {
        None => Ok(None),
        Some(nets) => match networks_text(nets.ipv4@, nets.ipv6@) {
            Err(e) => Err(RenderError::TunnelNetworks(e)),
            Ok(n) => match node_id_text(mesh, name) {
                Err(e) => Err(e),
                Ok(id) => Ok(Some(derived(n, id))),
            },
        },
    }
}

/// This node's IPv4 and IPv6 tunnel address, where the topology has tunnel networks.
pub fn node_tunnel_addresses(mesh: &MeshConfig, node_name: &str) -> (r: Result<
    Option<(u32, u128)>,
    RenderError,
>)
    ensures
        r == tunnel_of(*mesh, node_name@),
{
    match &mesh.cluster.tunnel_networks {
        None => Ok(None),
        Some(nets) => match parse_networks(nets.ipv4.as_str(), nets.ipv6.as_str()) {
            Err(e) => Err(RenderError::TunnelNetworks(e)),
            Ok(n) => match node_id_of(mesh, node_name) {
                Err(e) => Err(e),
                Ok(id) => Ok(Some(derive(&n, id))),
            },
        },
    }
}

/// Names and addresses of BGP peers.
pub open spec fn peer_texts(v: Seq<BgpPeerEntry>) -> Seq<(Seq<char>, Seq<char>)> {
    Seq::new(v.len(), |i: int| (v[i].name@, v[i].address@))
}

/// The peers of a node among the first `n` nodes: every other node, at its IPv6 loopback.
pub open spec fn peers_of(mesh: MeshConfig, name: Seq<char>, n: int) -> Result<
    Seq<(Seq<char>, Seq<char>)>,
    RenderError,
>
    decreases n,
{
    if n <= 0 {
        Ok(Seq::empty())
    } else {
        let other = mesh.nodes@[n - 1].name@;
        match peers_of(mesh, name, n - 1) {
            Err(e) => Err(e),
            Ok(v) => if other == name {
                Ok(v)
            } else {
                match loopbacks_of(mesh, other) {
                    Err(e) => Err(e),
                    Ok((_, v6)) => Ok(v.push((other, addr::ipv6_format(v6 as int)))),
                }
            },
        }
    }
}

proof fn lemma_peers_err(mesh: MeshConfig, name: Seq<char>, n: int, m: int, e: RenderError)
    requires
        n <= m,
        peers_of(mesh, name, n) == Err::<Seq<(Seq<char>, Seq<char>)>, RenderError>(e),
    ensures
        peers_of(mesh, name, m) == Err::<Seq<(Seq<char>, Seq<char>)>, RenderError>(e),
    decreases m - n,
{
    if n < m {
        lemma_peers_err(mesh, name, n, m - 1, e);
    }
}

/// Every node but this one, addressed by its IPv6 loopback.
#[verifier::loop_isolation(false)]
pub fn bgp_peers_for(mesh: &MeshConfig, node_name: &str) -> (r: Result<
    Vec<BgpPeerEntry>,
    RenderError,
>)
    ensures
        match r {
            Ok(v) => peers_of(*mesh, node_name@, mesh.nodes@.len() as int) == Ok::<
                Seq<(Seq<char>, Seq<char>)>,
                RenderError,
            >(peer_texts(v@)),
            Err(e) => peers_of(*mesh, node_name@, mesh.nodes@.len() as int) == Err::<
                Seq<(Seq<char>, Seq<char>)>,
                RenderError,
            >(e),
        },
{
    let mut out: Vec<BgpPeerEntry> = Vec::new();
    let mut i: usize = 0;
    assert(peer_texts(out@) =~= Seq::empty());
    while i < mesh.nodes.len()
        invariant
            i <= mesh.nodes@.len(),
            peers_of(*mesh, node_name@, i as int) == Ok::<
                Seq<(Seq<char>, Seq<char>)>,
                RenderError,
            >(peer_texts(out@)),
        decreases mesh.nodes@.len() - i,
    {
        let other = mesh.nodes[i].name.as_str();
        if !text::str_eq(other, node_name) {
            match node_loopbacks(mesh, other) {
                Err(e) => {
                    proof {
                        lemma_peers_err(
                            *mesh,
                            node_name@,
                            i + 1,
                            mesh.nodes@.len() as int,
                            e,
                        );
                    }
                    return Err(e);
                },
                Ok((_, v6)) => {
                    let ghost prev = peer_texts(out@);
                    out.push(
                        BgpPeerEntry { name: other.to_owned(), address: addr::format_ipv6(v6) },
                    );
                    assert(peer_texts(out@) =~= prev.push((other@, addr::ipv6_format(v6 as int))));
                },
            }
        }
        i += 1;
    }
    Ok(out)
}

/// The same list of texts, or none on either side.
pub open spec fn same_texts(a: Option<Vec<String>>, b: Option<Vec<String>>) -> bool {
    match (a, b) {
        (Some(a), Some(b)) => text::texts(a@) == text::texts(b@),
        (None, None) => true,
        _ => false,
    }
}

/// The same prefixes, each with its label.
pub open spec fn same_prefixes(
    a: Seq<mesh_config::LabeledPrefix>,
    b: Seq<resolver::LabeledPrefix>,
) -> bool {
    &&& a.len() == b.len()
    &&& forall|i: int|
        0 <= i < a.len() ==> (#[trigger] b[i]).net@ == a[i].net@ && text::text_opt(b[i].label)
            == text::text_opt(a[i].label)
}

/// The same bypass source.
pub open spec fn same_source(
    a: mesh_config::BypassSourceEntry,
    b: resolver::BypassSourceEntry,
) -> bool {
    &&& b.kind@ == a.kind@
    &&& text::text_opt(b.label) == text::text_opt(a.label)
    &&& same_texts(a.asns, b.asns)
    &&& match (a.prefixes, b.prefixes) {
        (Some(x), Some(y)) => same_prefixes(x@, y@),
        (None, None) => true,
        _ => false,
    }
    &&& text::text_opt(b.country) == text::text_opt(a.country)
    &&& same_texts(a.hostnames, b.hostnames)
}

pub open spec fn same_sources(
    a: Seq<mesh_config::BypassSourceEntry>,
    b: Seq<resolver::BypassSourceEntry>,
) -> bool {
    &&& a.len() == b.len()
    &&& forall|i: int| 0 <= i < a.len() ==> same_source(a[i], #[trigger] b[i])
}

fn copy_texts(v: &Option<Vec<String>>) -> (r: Option<Vec<String>>)
    ensures
        same_texts(*v, r),
{
    match v {
        Some(v) => Some(text::clone_texts(v)),
        None => None,
    }
}

/// A bypass source of the topology, as the daemon takes it.
fn convert_bypass_source(e: &mesh_config::BypassSourceEntry) -> (r: resolver::BypassSourceEntry)
    ensures
        same_source(*e, r),
{
    let prefixes: Option<Vec<resolver::LabeledPrefix>> = match &e.prefixes {
        None => None,
        Some(v) => {
            let mut out: Vec<resolver::LabeledPrefix> = Vec::new();
            let mut i: usize = 0;
            while i < v.len()
                invariant
                    i <= v@.len(),
                    same_prefixes(v@.take(i as int), out@),
                decreases v@.len() - i,
            {
                out.push(
                    resolver::LabeledPrefix {
                        net: v[i].net.clone(),
                        label: obfuscation::copy_text(&v[i].label),
                    },
                );
                i += 1;
            }
            assert(v@.take(i as int) =~= v@);
            Some(out)
        },
    };
    resolver::BypassSourceEntry {
        kind: e.kind.clone(),
        label: obfuscation::copy_text(&e.label),
        asns: copy_texts(&e.asns),
        prefixes,
        country: obfuscation::copy_text(&e.country),
        hostnames: copy_texts(&e.hostnames),
    }
}

/// The sources of the first `n` bypass entries that are for this node, those to leave out or those
/// to take in.
pub open spec fn sources_for(
    bypass: Seq<mesh_config::BypassEntry>,
    name: Seq<char>,
    excluded: bool,
    n: int,
) -> Seq<mesh_config::BypassSourceEntry>
    decreases n,
{
    if n <= 0 {
        Seq::empty()
    } else {
        let rest = sources_for(bypass, name, excluded, n - 1);
        if bypass[n - 1].node@ == name {
            rest + (if excluded {
                bypass[n - 1].exclude_sources@
            } else {
                bypass[n - 1].include_sources@
            })
        } else {
            rest
        }
    }
}

/// A bypass entry is for this node.
pub open spec fn has_bypass(mesh: MeshConfig, name: Seq<char>) -> bool {
    exists|i: int| 0 <= i < mesh.bypass@.len() && (#[trigger] mesh.bypass@[i]).node@ == name
}

fn append_sources(
    out: &mut Vec<resolver::BypassSourceEntry>,
    v: &Vec<mesh_config::BypassSourceEntry>,
    Ghost(so_far): Ghost<Seq<mesh_config::BypassSourceEntry>>,
)
    requires
        same_sources(so_far, old(out)@),
    ensures
        same_sources(so_far + v@, final(out)@),
{
    let mut i: usize = 0;
    assert(so_far + v@.take(0) =~= so_far);
    while i < v.len()
        invariant
            i <= v@.len(),
            same_sources(so_far + v@.take(i as int), out@),
        decreases v@.len() - i,
    {
        assert(so_far + v@.take(i + 1) =~= (so_far + v@.take(i as int)).push(v@[i as int]));
        out.push(convert_bypass_source(&v[i]));
        i += 1;
    }
    assert(v@.take(i as int) =~= v@);
}

/// A node's bypass rules, taken together from all entries for it.
pub open spec fn is_bypass(mesh: MeshConfig, name: Seq<char>, b: Option<BypassConfig>) -> bool {
    match b {
        None => !has_bypass(mesh, name),
        Some(b) => {
            &&& has_bypass(mesh, name)
            &&& b.refresh_interval_secs == (match mesh.cluster.bypass_refresh_interval_secs {
                Some(s) => s,
                None => router_config::DEFAULT_BYPASS_REFRESH_INTERVAL_SECS,
            })
            &&& same_sources(
                sources_for(mesh.bypass@, name, false, mesh.bypass@.len() as int),
                b.include_sources@,
            )
            &&& same_sources(
                sources_for(mesh.bypass@, name, true, mesh.bypass@.len() as int),
                b.exclude_sources@,
            )
        },
    }
}

/// This node's bypass rules. `None` where no entry is for it.
#[verifier::loop_isolation(false)]
pub fn bypass_for(mesh: &MeshConfig, node_name: &str) -> (r: Option<BypassConfig>)
    ensures
        is_bypass(*mesh, node_name@, r),
{
    let mut include_sources: Vec<resolver::BypassSourceEntry> = Vec::new();
    let mut exclude_sources: Vec<resolver::BypassSourceEntry> = Vec::new();
    let mut found = false;
    let mut i: usize = 0;
    while i < mesh.bypass.len()
        invariant
            i <= mesh.bypass@.len(),
            found == exists|k: int|
                0 <= k < i && (#[trigger] mesh.bypass@[k]).node@ == node_name@,
            same_sources(
                sources_for(mesh.bypass@, node_name@, false, i as int),
                include_sources@,
            ),
            same_sources(
                sources_for(mesh.bypass@, node_name@, true, i as int),
                exclude_sources@,
            ),
        decreases mesh.bypass@.len() - i,
    {
        let entry = &mesh.bypass[i];
        if text::str_eq(entry.node.as_str(), node_name) {
            found = true;
            append_sources(
                &mut include_sources,
                &entry.include_sources,
                Ghost(sources_for(mesh.bypass@, node_name@, false, i as int)),
            );
            append_sources(
                &mut exclude_sources,
                &entry.exclude_sources,
                Ghost(sources_for(mesh.bypass@, node_name@, true, i as int)),
            );
        }
        i += 1;
    }
    if !found {
        return None;
    }
    Some(
        BypassConfig {
            refresh_interval_secs: match mesh.cluster.bypass_refresh_interval_secs {
                Some(s) => s,
                None => router_config::DEFAULT_BYPASS_REFRESH_INTERVAL_SECS,
            },
            include_sources,
            exclude_sources,
        },
    )
}

/// The interfaces that OSPF runs on, on every node: mesh links and the loopback.
pub const OSPF_INTERFACES: [&'static str; 2] = ["mesh-*", "router-lo"];

/// The interfaces whose connected routes a node announces: its own list, else the cluster's.
pub open spec fn direct_of(mesh: MeshConfig, name: Seq<char>) -> Result<
    Seq<Seq<char>>,
    RenderError,
> {
    let i = node_index(mesh.nodes@, name);
    if i >= mesh.nodes@.len() {
        Err(RenderError::UnknownNode)
    } else {
        match mesh.nodes@[i].direct_interfaces {
            Some(v) => Ok(text::texts(v@)),
            None => Ok(text::texts(mesh.cluster.direct_interfaces@)),
        }
    }
}

fn direct_interfaces_for(mesh: &MeshConfig, node_name: &str) -> (r: Result<
    Vec<String>,
    RenderError,
>)
    ensures
        match r {
            Ok(v) => direct_of(*mesh, node_name@) == Ok::<Seq<Seq<char>>, RenderError>(
                text::texts(v@),
            ),
            Err(e) => direct_of(*mesh, node_name@) == Err::<Seq<Seq<char>>, RenderError>(e),
        },
{
    match find_node(&mesh.nodes, node_name) {
        None => Err(RenderError::UnknownNode),
        Some(n) => match &n.direct_interfaces {
            Some(v) => Ok(text::clone_texts(v)),
            None => Ok(text::clone_texts(&mesh.cluster.direct_interfaces)),
        },
    }
}

/// The service range, announced under a label of its own.
pub open spec fn are_announced(mesh: MeshConfig, v: Seq<AnnounceEntry>) -> bool {
    match mesh.cluster.service_subnet {
        None => v.len() == 0,
        Some(net) => {
            &&& v.len() == 1
            &&& v[0].net@ == net@
            &&& text::text_opt(v[0].label) == Some("k8s-services"@)
        },
    }
}

fn announce_for(mesh: &MeshConfig) -> (r: Vec<AnnounceEntry>)
    ensures
        are_announced(*mesh, r@),
{
    let mut out: Vec<AnnounceEntry> = Vec::new();
    if let Some(net) = &mesh.cluster.service_subnet {
        out.push(AnnounceEntry { net: net.clone(), label: Some("k8s-services".to_owned()) });
    }
    out
}

/// The direct interfaces of a node, with the mesh links among them where those carry tunnel
/// addresses: OSPF here is IPv6 only, so nothing else would announce the IPv4 ones.
pub open spec fn with_mesh(direct: Seq<Seq<char>>, tunnels: bool) -> Seq<Seq<char>> {
    if tunnels && !direct.contains("mesh-*"@) {
        direct.push("mesh-*"@)
    } else {
        direct
    }
}

/// What a router config is to say for a node.
pub open spec fn is_router_config(mesh: MeshConfig, name: Seq<char>, r: RouterConfig) -> bool {
    let (v4, v6) = loopbacks_of(mesh, name)->Ok_0;
    &&& text::texts(r.node.loopback_addresses@) == seq![
        cidr::cidr_format(IpAddr::V4(v4), 32),
        cidr::cidr_format(IpAddr::V6(v6), 128),
    ]
    &&& r.bgp_as == mesh.cluster.bgp_as
    &&& peer_texts(r.bgp_peers@) == peers_of(mesh, name, mesh.nodes@.len() as int)->Ok_0
    &&& text::texts(r.ospf_interfaces@) == seq!["mesh-*"@, "router-lo"@]
    &&& text::texts(r.direct_interfaces@) == with_mesh(
        direct_of(mesh, name)->Ok_0,
        tunnel_of(mesh, name)->Ok_0 is Some,
    )
    &&& text::texts(r.learn@) == (match mesh.cluster.pod_subnet {
        Some(net) => seq![net@],
        None => Seq::empty(),
    })
    &&& are_announced(mesh, r.announce@)
    &&& is_bypass(mesh, name, r.bypass)
}

/// Why a router config cannot be rendered.
pub open spec fn router_error(mesh: MeshConfig, name: Seq<char>) -> Option<RenderError> {
    match (
        loopbacks_of(mesh, name),
        direct_of(mesh, name),
        tunnel_of(mesh, name),
        peers_of(mesh, name, mesh.nodes@.len() as int),
    ) {
        (Err(e), _, _, _) => Some(e),
        (_, Err(e), _, _) => Some(e),
        (_, _, Err(e), _) => Some(e),
        (_, _, _, Err(e)) => Some(e),
        _ => None,
    }
}

/// A list of one or two texts.
fn list(a: String, b: Option<String>) -> (r: Vec<String>)
    ensures
        text::texts(r@) == (match b {
            Some(b) => seq![a@, b@],
            None => seq![a@],
        }),
{
    let mut r: Vec<String> = Vec::new();
    r.push(a);
    if let Some(b) = b {
        r.push(b);
        assert(text::texts(r@) =~= seq![a@, b@]);
    } else {
        assert(text::texts(r@) =~= seq![a@]);
    }
    r
}

/// Renders the routing daemon's config of a node.
pub fn render_router_config(mesh: &MeshConfig, node_name: &str) -> (r: Result<
    RouterConfig,
    RenderError,
>)
    ensures
        match r {
            Ok(c) => router_error(*mesh, node_name@) is None && is_router_config(
                *mesh,
                node_name@,
                c,
            ),
            Err(e) => router_error(*mesh, node_name@) == Some(e),
        },
{
    let (v4, v6): (u32, u128) = match node_loopbacks(mesh, node_name) {
        Ok(x) => x,
        Err(e) => {
            return Err(e);
        },
    };
    let mut direct_interfaces = match direct_interfaces_for(mesh, node_name) {
        Ok(v) => v,
        Err(e) => {
            return Err(e);
        },
    };
    let tunnel = match node_tunnel_addresses(mesh, node_name) {
        Ok(t) => t,
        Err(e) => {
            return Err(e);
        },
    };
    if tunnel.is_some() && !text::has_text(&direct_interfaces, "mesh-*") {
        let ghost prev = text::texts(direct_interfaces@);
        direct_interfaces.push("mesh-*".to_owned());
        assert(text::texts(direct_interfaces@) =~= prev.push("mesh-*"@));
    }
    let bgp_peers = match bgp_peers_for(mesh, node_name) {
        Ok(v) => v,
        Err(e) => {
            return Err(e);
        },
    };
    let mut learn: Vec<String> = Vec::new();
    if let Some(net) = &mesh.cluster.pod_subnet {
        learn.push(net.clone());
        assert(text::texts(learn@) =~= seq![net@]);
    } else {
        assert(text::texts(learn@) =~= Seq::empty());
    }
    let c = RouterConfig {
        node: NodeIdentity {
            loopback_addresses: list(
                cidr::format_cidr(IpAddr::V4(v4), 32),
                Some(cidr::format_cidr(IpAddr::V6(v6), 128)),
            ),
        },
        bgp_as: mesh.cluster.bgp_as,
        bgp_peers,
        ospf_interfaces: list(
            OSPF_INTERFACES[0].to_owned(),
            Some(OSPF_INTERFACES[1].to_owned()),
        ),
        direct_interfaces,
        learn,
        announce: announce_for(mesh),
        bypass: bypass_for(mesh, node_name),
    };
    Ok(c)
}

/// The other end of a link, seen from a node. `None` where the node is at neither end.
pub open spec fn peer_of(link: MeshLink, name: Seq<char>) -> Option<Seq<char>> {
    if link.pair@[0]@ == name {
        Some(link.pair@[1]@)
    } else if link.pair@[1]@ == name {
        Some(link.pair@[0]@)
    } else {
        None
    }
}

fn find_peer<'a>(link: &'a MeshLink, name: &str) -> (r: Option<&'a str>)
    ensures
        match r {
            Some(p) => peer_of(*link, name@) == Some(p@),
            None => peer_of(*link, name@) is None,
        },
{
    if text::str_eq(link.pair[0].as_str(), name) {
        Some(link.pair[1].as_str())
    } else if text::str_eq(link.pair[1].as_str(), name) {
        Some(link.pair[0].as_str())
    } else {
        None
    }
}

/// The addresses of a node's mesh interfaces: its tunnel addresses, else a link-local address made
/// from its loopback. There is one IPv6 address, so that it is clear what OSPF speaks from.
pub open spec fn mesh_addresses(loopback: u128, tunnel: Option<(u32, u128)>) -> Seq<Seq<char>> {
    match tunnel {
        Some((v4, v6)) => seq![
            cidr::cidr_format(IpAddr::V6(v6), 64),
            cidr::cidr_format(IpAddr::V4(v4), 32),
        ],
        None => seq![cidr::cidr_format(IpAddr::V6(ipv4::link_local(loopback)), 64)],
    }
}

fn addresses_of(loopback: u128, tunnel: Option<(u32, u128)>) -> (r: Vec<String>)
    ensures
        text::texts(r@) == mesh_addresses(loopback, tunnel),
{
    match tunnel {
        Some((v4, v6)) => list(
            cidr::format_cidr(IpAddr::V6(v6), 64),
            Some(cidr::format_cidr(IpAddr::V4(v4), 32)),
        ),
        None => list(
            cidr::format_cidr(IpAddr::V6(ipv4::link_local_from_loopback(loopback)), 64),
            None,
        ),
    }
}

/// `host:port`.
pub open spec fn endpoint_text(host: Seq<char>, port: u16) -> Seq<char> {
    host + ":"@ + text::decimal(port as int)
}

/// `host:port`.
pub fn format_endpoint(host: &str, port: u16) -> (r: String)
    ensures
        r@ == endpoint_text(host@, port),
{
    let mut r = text::join2(host, ":");
    text::push_decimal(&mut r, port as u64);
    r
}

/// The obfuscation that was resolved for a link, else none.
pub open spec fn link_obfuscation(resolved: ResolvedSecrets, link: MeshLink) -> Obfuscation {
    or_unset(
        assoc::value_of(
            resolved.mesh_link_obfuscation@,
            secrets::key_of_link(link.pair@[0]@, link.pair@[1]@),
        ),
    )
}

/// Why an interface cannot be rendered for a link to `peer`.
pub open spec fn link_error(
    mesh: MeshConfig,
    resolved: ResolvedSecrets,
    peer: Seq<char>,
) -> Option<RenderError> {
    if node_index(mesh.nodes@, peer) >= mesh.nodes@.len() {
        Some(RenderError::UnknownNode)
    } else {
        match assoc::value_of(resolved.mesh_private_keys@, peer) {
            None => Some(RenderError::NoMeshKey),
            Some(key) => match keys::public_of(key@) {
                Ok(_) => None,
                Err(e) => Some(RenderError::InvalidMeshKey(e)),
            },
        }
    }
}

/// A link's interface on a node: named after its peer, and a full tunnel to it.
pub open spec fn is_mesh_interface(
    mesh: MeshConfig,
    resolved: ResolvedSecrets,
    link: MeshLink,
    own_key: Seq<char>,
    addresses: Seq<Seq<char>>,
    peer: Seq<char>,
    e: InterfaceEntry,
) -> bool {
    let node = mesh.nodes@[node_index(mesh.nodes@, peer)];
    &&& e.name@ == "mesh-"@ + peer
    &&& e.listen_port == link.port
    &&& text::texts(e.addresses@) == addresses
    &&& e.private_key@ == own_key
    &&& e.obfuscation == link_obfuscation(resolved, link)
    &&& e.handshake_stale_secs is None
    &&& e.peers@.len() == 1
    &&& text::text_opt(e.peers@[0].name) == Some(peer)
    &&& keys::public_of(assoc::value_of(resolved.mesh_private_keys@, peer)->0@) == Ok::<
        Seq<char>,
        KeyError,
    >(e.peers@[0].public_key@)
    &&& text::text_opt(e.peers@[0].endpoint) == (match node.endpoint {
        Some(host) => Some(endpoint_text(host@, link.port)),
        None => None,
    })
    &&& e.peers@[0].allowed_ips is None
    &&& !e.peers@[0].advanced_security
}

fn mesh_interface(
    mesh: &MeshConfig,
    resolved: &ResolvedSecrets,
    link: &MeshLink,
    own_key: &str,
    addresses: &Vec<String>,
    peer: &str,
) -> (r: Result<InterfaceEntry, RenderError>)
    ensures
        match r {
            Ok(e) => link_error(*mesh, *resolved, peer@) is None && is_mesh_interface(
                *mesh,
                *resolved,
                *link,
                own_key@,
                text::texts(addresses@),
                peer@,
                e,
            ),
            Err(e) => link_error(*mesh, *resolved, peer@) == Some(e),
        },
{
    let node = match find_node(&mesh.nodes, peer) {
        Some(n) => n,
        None => {
            return Err(RenderError::UnknownNode);
        },
    };
    let public_key = match assoc::lookup(&resolved.mesh_private_keys, peer) {
        None => {
            return Err(RenderError::NoMeshKey);
        },
        Some(key) => match keys::public_key_from_private(key.as_str()) {
            Ok(p) => p,
            Err(e) => {
                return Err(RenderError::InvalidMeshKey(e));
            },
        },
    };
    let key = secrets::link_key(&link.pair);
    let obfuscation = match assoc::lookup(&resolved.mesh_link_obfuscation, key.as_str()) {
        Some(o) => o.clone(),
        None => Obfuscation::default(),
    };
    let endpoint = match &node.endpoint {
        Some(host) => Some(format_endpoint(host.as_str(), link.port)),
        None => None,
    };
    let mut peers: Vec<PeerEntry> = Vec::new();
    peers.push(
        PeerEntry {
            name: Some(peer.to_owned()),
            public_key,
            endpoint,
            allowed_ips: None,
            advanced_security: false,
        },
    );
    Ok(
        InterfaceEntry {
            name: text::join2("mesh-", peer),
            listen_port: link.port,
            addresses: text::clone_texts(addresses),
            private_key: own_key.to_owned(),
            obfuscation,
            handshake_stale_secs: None,
            peers,
        },
    )
}

/// The positions of those among the first `n` links that a node is at an end of.
pub open spec fn links_of(links: Seq<MeshLink>, name: Seq<char>, n: int) -> Seq<int>
    decreases n,
{
    if n <= 0 {
        Seq::empty()
    } else if peer_of(links[n - 1], name) is Some {
        links_of(links, name, n - 1).push(n - 1)
    } else {
        links_of(links, name, n - 1)
    }
}

/// The first reason, from link `i` on, why a node's mesh interfaces cannot be rendered.
pub open spec fn links_error(
    mesh: MeshConfig,
    resolved: ResolvedSecrets,
    name: Seq<char>,
    i: int,
) -> Option<RenderError>
    decreases mesh.mesh.links@.len() - i,
{
    if i >= mesh.mesh.links@.len() {
        None
    } else {
        match peer_of(mesh.mesh.links@[i], name) {
            Some(peer) => if link_error(mesh, resolved, peer) is Some {
                link_error(mesh, resolved, peer)
            } else {
                links_error(mesh, resolved, name, i + 1)
            },
            None => links_error(mesh, resolved, name, i + 1),
        }
    }
}

/// Why a node's mesh interfaces cannot be rendered.
pub open spec fn mesh_interfaces_error(
    mesh: MeshConfig,
    resolved: ResolvedSecrets,
    name: Seq<char>,
) -> Option<RenderError> {
    match (loopbacks_of(mesh, name), tunnel_of(mesh, name)) {
        (Err(e), _) => Some(e),
        (_, Err(e)) => Some(e),
        _ => if assoc::value_of(resolved.mesh_private_keys@, name) is None {
            Some(RenderError::NoMeshKey)
        } else {
            links_error(mesh, resolved, name, 0)
        },
    }
}

/// One interface for each link that a node is at an end of.
pub open spec fn are_mesh_interfaces(
    mesh: MeshConfig,
    resolved: ResolvedSecrets,
    name: Seq<char>,
    n: int,
    v: Seq<InterfaceEntry>,
) -> bool {
    let at = links_of(mesh.mesh.links@, name, n);
    &&& v.len() == at.len()
    &&& forall|k: int|
        0 <= k < v.len() ==> is_mesh_interface(
            mesh,
            resolved,
            mesh.mesh.links@[at[k]],
            assoc::value_of(resolved.mesh_private_keys@, name)->0@,
            mesh_addresses(loopbacks_of(mesh, name)->Ok_0.1, tunnel_of(mesh, name)->Ok_0),
            peer_of(mesh.mesh.links@[at[k]], name)->0,
            #[trigger] v[k],
        )
}

/// This node's mesh interfaces: one for each link that it is at an end of.
#[verifier::loop_isolation(false)]
fn mesh_interfaces_for(mesh: &MeshConfig, node_name: &str, resolved: &ResolvedSecrets) -> (r:
    Result<Vec<InterfaceEntry>, RenderError>)
    ensures
        match r {
            Ok(v) => mesh_interfaces_error(*mesh, *resolved, node_name@) is None
                && are_mesh_interfaces(
                *mesh,
                *resolved,
                node_name@,
                mesh.mesh.links@.len() as int,
                v@,
            ),
            Err(e) => mesh_interfaces_error(*mesh, *resolved, node_name@) == Some(e),
        },
{
    let loopbacks: (u32, u128) = match node_loopbacks(mesh, node_name) {
        Ok(x) => x,
        Err(e) => {
            return Err(e);
        },
    };
    let tunnel = match node_tunnel_addresses(mesh, node_name) {
        Ok(t) => t,
        Err(e) => {
            return Err(e);
        },
    };
    let addresses = addresses_of(loopbacks.1, tunnel);
    let own_key = match assoc::lookup(&resolved.mesh_private_keys, node_name) {
        Some(key) => key,
        None => {
            return Err(RenderError::NoMeshKey);
        },
    };
    let mut out: Vec<InterfaceEntry> = Vec::new();
    let mut i: usize = 0;
    while i < mesh.mesh.links.len()
        invariant
            i <= mesh.mesh.links@.len(),
            are_mesh_interfaces(*mesh, *resolved, node_name@, i as int, out@),
            links_error(*mesh, *resolved, node_name@, 0) == links_error(
                *mesh,
                *resolved,
                node_name@,
                i as int,
            ),
        decreases mesh.mesh.links@.len() - i,
    {
        let link = &mesh.mesh.links[i];
        if let Some(peer) = find_peer(link, node_name) {
            match mesh_interface(mesh, resolved, link, own_key.as_str(), &addresses, peer) {
                Ok(e) => out.push(e),
                Err(e) => {
                    return Err(e);
                },
            }
        }
        i += 1;
    }
    Ok(out)
}

/// A pool's peer: a client that is tracked by its addresses.
pub open spec fn is_client_peer(c: RoadwarriorClient, p: PeerEntry) -> bool {
    &&& text::text_opt(p.name) == Some(c.name@)
    &&& p.public_key@ == c.public_key@
    &&& p.endpoint is None
    &&& p.allowed_ips is Some
    &&& text::texts(p.allowed_ips->0@) == text::texts(c.allowed_ips@)
    &&& p.advanced_security == c.advanced_security
}

/// A pool's interface: its clients as peers.
pub open spec fn is_pool_interface(
    resolved: ResolvedSecrets,
    pool: RoadwarriorPool,
    e: InterfaceEntry,
) -> bool {
    &&& e.name@ == "rw-"@ + pool.name@
    &&& e.listen_port == pool.listen_port
    &&& text::texts(e.addresses@) == (match pool.address6 {
        Some(a) => seq![pool.address@, a@],
        None => seq![pool.address@],
    })
    &&& e.private_key@ == (match assoc::value_of(resolved.roadwarrior_private_keys@, pool.name@) {
        Some(key) => key@,
        None => Seq::empty(),
    })
    &&& e.obfuscation == or_unset(
        assoc::value_of(resolved.roadwarrior_obfuscation@, pool.name@),
    )
    &&& e.handshake_stale_secs == pool.handshake_stale_secs
    &&& e.peers@.len() == pool.clients@.len()
    &&& forall|i: int|
        0 <= i < pool.clients@.len() ==> is_client_peer(pool.clients@[i], #[trigger] e.peers@[i])
}

fn pool_interface(resolved: &ResolvedSecrets, pool: &RoadwarriorPool) -> (r: InterfaceEntry)
    ensures
        is_pool_interface(*resolved, *pool, r),
{
    let mut peers: Vec<PeerEntry> = Vec::new();
    let mut i: usize = 0;
    while i < pool.clients.len()
        invariant
            i <= pool.clients@.len(),
            peers@.len() == i,
            forall|k: int|
                0 <= k < i ==> is_client_peer(pool.clients@[k], #[trigger] peers@[k]),
        decreases pool.clients@.len() - i,
    {
        let c = &pool.clients[i];
        peers.push(
            PeerEntry {
                name: Some(c.name.clone()),
                public_key: c.public_key.clone(),
                endpoint: None,
                allowed_ips: Some(text::clone_texts(&c.allowed_ips)),
                advanced_security: c.advanced_security,
            },
        );
        i += 1;
    }
    let private_key = match assoc::lookup(&resolved.roadwarrior_private_keys, pool.name.as_str()) {
        Some(key) => key.clone(),
        None => String::new(),
    };
    let obfuscation = match assoc::lookup(&resolved.roadwarrior_obfuscation, pool.name.as_str()) {
        Some(o) => o.clone(),
        None => Obfuscation::default(),
    };
    InterfaceEntry {
        name: text::join2("rw-", pool.name.as_str()),
        listen_port: pool.listen_port,
        addresses: list(pool.address.clone(), obfuscation::copy_text(&pool.address6)),
        private_key,
        obfuscation,
        handshake_stale_secs: pool.handshake_stale_secs,
        peers,
    }
}

/// The positions of those among the first `n` pools that a node terminates.
pub open spec fn pools_of(pools: Seq<RoadwarriorPool>, name: Seq<char>, n: int) -> Seq<int>
    decreases n,
{
    if n <= 0 {
        Seq::empty()
    } else if text::texts(pools[n - 1].node_hostnames@).contains(name) {
        pools_of(pools, name, n - 1).push(n - 1)
    } else {
        pools_of(pools, name, n - 1)
    }
}

/// One interface for each pool that a node terminates.
pub open spec fn are_pool_interfaces(
    mesh: MeshConfig,
    resolved: ResolvedSecrets,
    name: Seq<char>,
    n: int,
    v: Seq<InterfaceEntry>,
) -> bool {
    let at = pools_of(mesh.roadwarriors@, name, n);
    &&& v.len() == at.len()
    &&& forall|k: int|
        0 <= k < v.len() ==> is_pool_interface(
            resolved,
            mesh.roadwarriors@[at[k]],
            #[trigger] v[k],
        )
}

/// Appends this node's pool interfaces: one for each pool that it terminates.
#[verifier::loop_isolation(false)]
fn roadwarrior_interfaces_for(
    mesh: &MeshConfig,
    node_name: &str,
    resolved: &ResolvedSecrets,
    out: &mut Vec<InterfaceEntry>,
)
    ensures
        final(out)@.len() >= old(out)@.len(),
        final(out)@.take(old(out)@.len() as int) == old(out)@,
        are_pool_interfaces(
            *mesh,
            *resolved,
            node_name@,
            mesh.roadwarriors@.len() as int,
            final(out)@.skip(old(out)@.len() as int),
        ),
{
    let ghost before = out@;
    let ghost len = out@.len() as int;
    let mut i: usize = 0;
    assert(out@.take(len) =~= before);
    while i < mesh.roadwarriors.len()
        invariant
            i <= mesh.roadwarriors@.len(),
            out@.len() >= len,
            out@.take(len) == before,
            are_pool_interfaces(*mesh, *resolved, node_name@, i as int, out@.skip(len)),
        decreases mesh.roadwarriors@.len() - i,
    {
        let pool = &mesh.roadwarriors[i];
        if text::has_text(&pool.node_hostnames, node_name) {
            let ghost prev = out@;
            out.push(pool_interface(resolved, pool));
            assert(out@.take(len) =~= prev.take(len));
            assert(out@.skip(len) =~= prev.skip(len).push(out@.last()));
        }
        i += 1;
    }
}

/// What an interface daemon's config is to say for a node.
pub open spec fn is_awg_config(
    mesh: MeshConfig,
    name: Seq<char>,
    resolved: ResolvedSecrets,
    c: AwgConfig,
) -> bool {
    let n = links_of(mesh.mesh.links@, name, mesh.mesh.links@.len() as int).len() as int;
    &&& c.interfaces@.len() >= n
    &&& are_mesh_interfaces(
        mesh,
        resolved,
        name,
        mesh.mesh.links@.len() as int,
        c.interfaces@.take(n),
    )
    &&& are_pool_interfaces(
        mesh,
        resolved,
        name,
        mesh.roadwarriors@.len() as int,
        c.interfaces@.skip(n),
    )
    &&& match (mesh.cluster.metrics_port, c.metrics) {
        (Some(port), Some(m)) => m.listen@ == endpoint_text(
            addr::ipv4_format(loopbacks_of(mesh, name)->Ok_0.0 as int),
            port,
        ),
        (None, None) => true,
        _ => false,
    }
}

/// Renders the interface daemon's config of a node.
pub fn render_awg_config(mesh: &MeshConfig, node_name: &str, resolved: &ResolvedSecrets) -> (r:
    Result<AwgConfig, RenderError>)
    ensures
        match r {
            Ok(c) => mesh_interfaces_error(*mesh, *resolved, node_name@) is None && is_awg_config(
                *mesh,
                node_name@,
                *resolved,
                c,
            ),
            Err(e) => mesh_interfaces_error(*mesh, *resolved, node_name@) == Some(e),
        },
{
    let mut interfaces = match mesh_interfaces_for(mesh, node_name, resolved) {
        Ok(v) => v,
        Err(e) => {
            return Err(e);
        },
    };
    roadwarrior_interfaces_for(mesh, node_name, resolved, &mut interfaces);
    let metrics = match mesh.cluster.metrics_port {
        None => None,
        Some(port) => match node_loopbacks(mesh, node_name) {
            Ok((v4, _)) => {
                let host = addr::format_ipv4(v4);
                Some(MetricsConfig { listen: format_endpoint(host.as_str(), port) })
            },
            Err(e) => {
                return Err(e);
            },
        },
    };
    Ok(AwgConfig { interfaces, metrics })
}

/// The topology's ruleset, verbatim, for every node. `None` where it has none.
pub fn render_nftables_config(mesh: &MeshConfig) -> (r: Option<NftablesConfig>)
    ensures
        match (mesh.nftables, r) {
            (Some(n), Some(c)) => c.ruleset@ == n.ruleset@,
            (None, None) => true,
            _ => false,
        },
{
    match &mesh.nftables {
        Some(n) => Some(NftablesConfig { ruleset: n.ruleset.clone() }),
        None => None,
    }
}

/// Law: both ends of a link get the same obfuscation, whichever end names the other.
pub proof fn both_ends_share_obfuscation(resolved: ResolvedSecrets, a: MeshLink, b: MeshLink)
    requires
        b.pair@[0]@ == a.pair@[1]@,
        b.pair@[1]@ == a.pair@[0]@,
    ensures
        link_obfuscation(resolved, a) == link_obfuscation(resolved, b),
{
    secrets::link_key_ignores_order(a.pair@[0]@, a.pair@[1]@);
}

/// Law: each end of a link sees the other.
pub proof fn link_joins_two_nodes(link: MeshLink, name: Seq<char>)
    requires
        peer_of(link, name) is Some,
    ensures
        peer_of(link, peer_of(link, name)->0) == Some(name),
{
}

/// Law: the two interfaces that a link becomes fit each other. Each end's peer has the public half
/// of the other end's private key, and both ends have the same port and obfuscation.
pub proof fn two_ends_of_a_link_fit(
    mesh: MeshConfig,
    resolved: ResolvedSecrets,
    a: Seq<char>,
    b: Seq<char>,
    at_a: Seq<InterfaceEntry>,
    at_b: Seq<InterfaceEntry>,
    i: int,
    j: int,
)
    requires
        are_mesh_interfaces(mesh, resolved, a, mesh.mesh.links@.len() as int, at_a),
        are_mesh_interfaces(mesh, resolved, b, mesh.mesh.links@.len() as int, at_b),
        0 <= i < at_a.len(),
        0 <= j < at_b.len(),
        links_of(mesh.mesh.links@, a, mesh.mesh.links@.len() as int)[i] == links_of(
            mesh.mesh.links@,
            b,
            mesh.mesh.links@.len() as int,
        )[j],
        peer_of(
            mesh.mesh.links@[links_of(mesh.mesh.links@, a, mesh.mesh.links@.len() as int)[i]],
            a,
        ) == Some(b),
    ensures
        keys::public_of(at_b[j].private_key@) == Ok::<Seq<char>, KeyError>(
            at_a[i].peers@[0].public_key@,
        ),
        keys::public_of(at_a[i].private_key@) == Ok::<Seq<char>, KeyError>(
            at_b[j].peers@[0].public_key@,
        ),
        at_a[i].listen_port == at_b[j].listen_port,
        at_a[i].obfuscation == at_b[j].obfuscation,
{
    let n = mesh.mesh.links@.len() as int;
    let link = mesh.mesh.links@[links_of(mesh.mesh.links@, a, n)[i]];
    link_joins_two_nodes(link, a);
}

/// Law: every node of an accepted topology whose loopback networks are valid has loopbacks, and
/// two nodes have distinct IPv6 loopbacks where the network leaves room for a whole identity.
pub proof fn accepted_nodes_have_distinct_loopbacks(mesh: MeshConfig, i: int, j: int)
    requires
        mesh_config::mesh_error(mesh) is None,
        0 <= i < j < mesh.nodes@.len(),
        networks_text(
            mesh.cluster.loopback_networks.ipv4@,
            mesh.cluster.loopback_networks.ipv6@,
        ) is Ok,
        networks_text(
            mesh.cluster.loopback_networks.ipv4@,
            mesh.cluster.loopback_networks.ipv6@,
        )->Ok_0.v6_len <= 96,
    ensures
        loopbacks_of(mesh, mesh.nodes@[i].name@) is Ok,
        loopbacks_of(mesh, mesh.nodes@[j].name@) is Ok,
        loopbacks_of(mesh, mesh.nodes@[i].name@)->Ok_0.1 != loopbacks_of(
            mesh,
            mesh.nodes@[j].name@,
        )->Ok_0.1,
{
    let n = networks_text(
        mesh.cluster.loopback_networks.ipv4@,
        mesh.cluster.loopback_networks.ipv6@,
    )->Ok_0;
    assert forall|k: int| 0 <= k < i implies (#[trigger] mesh.nodes@[k]).name@
        != mesh.nodes@[i].name@ by {
        mesh_config::accepted_nodes_are_distinct(mesh, k, i);
    }
    assert forall|k: int| 0 <= k < j implies (#[trigger] mesh.nodes@[k]).name@
        != mesh.nodes@[j].name@ by {
        mesh_config::accepted_nodes_are_distinct(mesh, k, j);
    }
    lemma_node_index(mesh.nodes@, mesh.nodes@[i].name@, i);
    lemma_node_index(mesh.nodes@, mesh.nodes@[j].name@, j);
    mesh_config::accepted_nodes_are_distinct(mesh, i, j);
    let a = addr::ipv4_text(mesh.nodes@[i].node_id@)->0;
    let b = addr::ipv4_text(mesh.nodes@[j].node_id@)->0;
    addr::lemma_ipv4_range(mesh.nodes@[i].node_id@);
    addr::lemma_ipv4_range(mesh.nodes@[j].node_id@);
    addressing::distinct_nodes_have_distinct_loopbacks(n.v6, n.v6_len, a as u32, b as u32);
    addressing::lemma_ipv6_fits(n.v6, n.v6_len, a as u32);
    addressing::lemma_ipv6_fits(n.v6, n.v6_len, b as u32);
}

} // verus!
