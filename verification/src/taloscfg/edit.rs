//! A model of the topology file's edits on values alone: minted secrets set in the fields that they
//! belong to, clients added to a list and removed from it.
//!
//! A document is an overlay here, which names only the fields that an edit sets. Nothing in this
//! module touches text: the file itself is edited by `record` and `roadwarrior`, by way of `amend`.

use crate::common::obfuscation;
use crate::common::obfuscation::Obfuscation;
use crate::patches::mesh_config::MeshConfig;
use crate::patches::mesh_config::RoadwarriorClient;
use crate::taloscfg::minted;
use crate::taloscfg::minted::GeneratedObfuscation;
use crate::taloscfg::secrets;
use crate::text;
use vstd::prelude::*;

verus! {

#[derive(Debug, PartialEq)]
pub struct NodeFields {
    pub mesh_private_key: Option<String>,
}

#[derive(Clone, Copy, Debug, PartialEq)]
pub struct LinkFields {
    pub obfuscation: Option<GeneratedObfuscation>,
}

#[derive(Debug, PartialEq)]
pub struct MeshFields {
    pub links: Vec<LinkFields>,
}

#[derive(Debug, PartialEq)]
pub struct NetworkDocument {
    pub nodes: Vec<NodeFields>,
    pub mesh: Option<MeshFields>,
}

#[derive(Debug, PartialEq)]
pub struct PoolDocument {
    pub name: String,
    pub private_key: Option<String>,
    pub obfuscation: Option<GeneratedObfuscation>,
}

/// The documents, as far as minted values go.
#[derive(Debug, PartialEq)]
pub struct Overlay {
    pub network: NetworkDocument,
    pub pools: Vec<PoolDocument>,
}

/// Why values cannot be set: the entry they belong to is in no overlay. Each says which of
/// the minted values it is about.
#[derive(Clone, Copy, Debug, PartialEq, Eq, Structural)]
pub enum RecordError {
    NoNode(usize),
    NoLink(usize),
    NoPool(usize),
}

/// The nodes with keys written in, one after the other.
pub open spec fn with_keys(nodes: Seq<NodeFields>, keys: Seq<(usize, String)>) -> Seq<NodeFields>
    decreases keys.len(),
{
    if keys.len() == 0 {
        nodes
    } else {
        with_keys(nodes, keys.drop_last()).update(
            keys.last().0 as int,
            NodeFields { mesh_private_key: Some(keys.last().1) },
        )
    }
}

/// A link's or pool's own fields with generated ones written in.
pub open spec fn with_fields(
    own: Option<GeneratedObfuscation>,
    g: GeneratedObfuscation,
) -> Option<GeneratedObfuscation> {
    Some(
        minted::filled(
            match own {
                Some(o) => o,
                None => minted::no_fields(),
            },
            g,
        ),
    )
}

/// The links with generated fields written in, one after the other.
pub open spec fn with_links(
    links: Seq<LinkFields>,
    values: Seq<(usize, GeneratedObfuscation)>,
) -> Seq<LinkFields>
    decreases values.len(),
{
    if values.len() == 0 {
        links
    } else {
        let done = with_links(links, values.drop_last());
        let (i, g) = values.last();
        done.update(
            i as int,
            LinkFields { obfuscation: with_fields(done[i as int].obfuscation, g) },
        )
    }
}

/// The position of the first document of pool `name`; the number of documents where there is none.
pub open spec fn pool_index(pools: Seq<PoolDocument>, name: Seq<char>) -> int
    decreases pools.len(),
{
    if pools.len() == 0 {
        0
    } else if pools[0].name@ == name {
        0
    } else {
        1 + pool_index(pools.skip(1), name)
    }
}

/// A pool's document with minted values written in.
pub open spec fn with_minted(pool: PoolDocument, m: minted::PoolMinted) -> PoolDocument {
    PoolDocument {
        name: pool.name,
        private_key: obfuscation::first_set(m.private_key, pool.private_key),
        obfuscation: match m.obfuscation {
            Some(g) => with_fields(pool.obfuscation, g),
            None => pool.obfuscation,
        },
    }
}

/// The pools with minted values written in, one after the other.
pub open spec fn with_pools(pools: Seq<PoolDocument>, values: Seq<minted::PoolMinted>) -> Seq<
    PoolDocument,
>
    decreases values.len(),
{
    if values.len() == 0 {
        pools
    } else {
        let done = with_pools(pools, values.drop_last());
        let i = pool_index(done, values.last().name@);
        done.update(i, with_minted(done[i], values.last()))
    }
}

/// The links of a network document: none where it has no mesh.
pub open spec fn links_of(network: NetworkDocument) -> Seq<LinkFields> {
    match network.mesh {
        Some(mesh) => mesh.links@,
        None => Seq::empty(),
    }
}

/// Value `k` of `keys` is for a node that is not there.
pub open spec fn lacks_node(network: NetworkDocument, keys: Seq<(usize, String)>, k: int) -> bool {
    keys[k].0 >= network.nodes@.len()
}

/// Value `k` of `values` is for a link that is not there.
pub open spec fn lacks_link(
    network: NetworkDocument,
    values: Seq<(usize, GeneratedObfuscation)>,
    k: int,
) -> bool {
    values[k].0 >= links_of(network).len()
}

/// Value `k` of `values` is for a pool that is not there.
pub open spec fn lacks_pool(
    pools: Seq<PoolDocument>,
    values: Seq<minted::PoolMinted>,
    k: int,
) -> bool {
    pool_index(pools, values[k].name@) >= pools.len()
}

/// What is missing for values to be written in, if anything.
pub open spec fn record_error(o: Overlay, m: minted::Minted) -> Option<RecordError> {
    if exists|k: int|
        0 <= k < m.node_keys@.len() && #[trigger] lacks_node(o.network, m.node_keys@, k) {
        Some(RecordError::NoNode(first_missing_node(o.network, m.node_keys@, 0) as usize))
    } else if exists|k: int|
        0 <= k < m.link_obfuscation@.len() && #[trigger] lacks_link(
            o.network,
            m.link_obfuscation@,
            k,
        ) {
        Some(RecordError::NoLink(first_missing_link(o.network, m.link_obfuscation@, 0) as usize))
    } else if exists|k: int|
        0 <= k < m.pools@.len() && #[trigger] lacks_pool(o.pools@, m.pools@, k) {
        Some(RecordError::NoPool(first_missing_pool(o.pools@, m.pools@, 0) as usize))
    } else {
        None
    }
}

pub open spec fn first_missing_node(
    network: NetworkDocument,
    keys: Seq<(usize, String)>,
    k: int,
) -> int
    decreases keys.len() - k,
{
    if k >= keys.len() || lacks_node(network, keys, k) {
        k
    } else {
        first_missing_node(network, keys, k + 1)
    }
}

pub open spec fn first_missing_link(
    network: NetworkDocument,
    values: Seq<(usize, GeneratedObfuscation)>,
    k: int,
) -> int
    decreases values.len() - k,
{
    if k >= values.len() || lacks_link(network, values, k) {
        k
    } else {
        first_missing_link(network, values, k + 1)
    }
}

pub open spec fn first_missing_pool(
    pools: Seq<PoolDocument>,
    values: Seq<minted::PoolMinted>,
    k: int,
) -> int
    decreases values.len() - k,
{
    if k >= values.len() || lacks_pool(pools, values, k) {
        k
    } else {
        first_missing_pool(pools, values, k + 1)
    }
}

proof fn lemma_pool_index(pools: Seq<PoolDocument>, name: Seq<char>)
    ensures
        0 <= pool_index(pools, name) <= pools.len(),
        forall|k: int| 0 <= k < pool_index(pools, name) ==> (#[trigger] pools[k]).name@ != name,
        pool_index(pools, name) < pools.len() ==> pools[pool_index(pools, name)].name@ == name,
    decreases pools.len(),
{
    if pools.len() > 0 && pools[0].name@ != name {
        let rest = pools.skip(1);
        lemma_pool_index(rest, name);
        assert forall|k: int| 0 <= k < pool_index(pools, name) implies (#[trigger] pools[k]).name@
            != name by {
            if k > 0 {
                assert(rest[k - 1].name@ != name);
            }
        }
    }
}

proof fn lemma_pool_index_unique(pools: Seq<PoolDocument>, name: Seq<char>, i: int)
    requires
        0 <= i <= pools.len(),
        forall|k: int| 0 <= k < i ==> (#[trigger] pools[k]).name@ != name,
        i < pools.len() ==> pools[i].name@ == name,
    ensures
        pool_index(pools, name) == i,
{
    lemma_pool_index(pools, name);
    let j = pool_index(pools, name);
    if j < i {
        assert(pools[j].name@ != name);
    }
    if i < j {
        assert(pools[i].name@ != name);
    }
}

/// Writing values in keeps the pools and their names.
proof fn lemma_with_pools(pools: Seq<PoolDocument>, values: Seq<minted::PoolMinted>)
    requires
        forall|k: int| 0 <= k < values.len() ==> !#[trigger] lacks_pool(pools, values, k),
    ensures
        with_pools(pools, values).len() == pools.len(),
        forall|i: int|
            0 <= i < pools.len() ==> (#[trigger] with_pools(pools, values)[i]).name
                == pools[i].name,
    decreases values.len(),
{
    if values.len() > 0 {
        let rest = values.drop_last();
        assert forall|k: int| 0 <= k < rest.len() implies !#[trigger] lacks_pool(
            pools,
            rest,
            k,
        ) by {
            assert(!lacks_pool(pools, values, k));
        }
        lemma_with_pools(pools, rest);
        let done = with_pools(pools, rest);
        lemma_same_index(done, pools, values.last().name@);
        lemma_pool_index(done, values.last().name@);
        assert(!lacks_pool(pools, values, values.len() - 1));
    }
}

proof fn lemma_same_index(a: Seq<PoolDocument>, b: Seq<PoolDocument>, name: Seq<char>)
    requires
        a.len() == b.len(),
        forall|i: int| 0 <= i < a.len() ==> (#[trigger] a[i]).name == b[i].name,
    ensures
        pool_index(a, name) == pool_index(b, name),
{
    lemma_pool_index(b, name);
    let i = pool_index(b, name);
    assert forall|k: int| 0 <= k < i implies (#[trigger] a[k]).name@ != name by {
        assert(b[k].name@ != name);
    }
    lemma_pool_index_unique(a, name, i);
}

#[verifier::loop_isolation(false)]
fn record_nodes(network: &mut NetworkDocument, keys: &Vec<(usize, String)>) -> (r: Option<usize>)
    ensures
        final(network).mesh == old(network).mesh,
        match r {
            Some(k) => {
                &&& k < keys@.len()
                &&& lacks_node(*old(network), keys@, k as int)
                &&& first_missing_node(*old(network), keys@, 0) == k
            },
            None => {
                &&& forall|k: int| 0 <= k < keys@.len() ==> !#[trigger] lacks_node(
                    *old(network),
                    keys@,
                    k,
                )
                &&& final(network).nodes@ == with_keys(old(network).nodes@, keys@)
            },
        },
{
    let ghost nodes = network.nodes@;
    let mut k: usize = 0;
    while k < keys.len()
        invariant
            k <= keys@.len(),
            network.mesh == old(network).mesh,
            network.nodes@ == with_keys(nodes, keys@.take(k as int)),
            network.nodes@.len() == nodes.len(),
            first_missing_node(*old(network), keys@, 0) == first_missing_node(
                *old(network),
                keys@,
                k as int,
            ),
            forall|i: int| 0 <= i < k ==> !#[trigger] lacks_node(*old(network), keys@, i),
        decreases keys@.len() - k,
    {
        let i: usize = keys[k].0;
        if i >= network.nodes.len() {
            assert(lacks_node(*old(network), keys@, k as int));
            return Some(k);
        }
        assert(!lacks_node(*old(network), keys@, k as int));
        network.nodes.set(i, NodeFields { mesh_private_key: Some(keys[k].1.clone()) });
        assert(keys@.take(k + 1).drop_last() =~= keys@.take(k as int));
        k += 1;
    }
    assert(keys@.take(k as int) =~= keys@);
    None
}

#[verifier::loop_isolation(false)]
fn record_links(links: &mut Vec<LinkFields>, values: &Vec<(usize, GeneratedObfuscation)>) -> (r:
    Option<usize>)
    ensures
        match r {
            Some(k) => {
                &&& k < values@.len()
                &&& values@[k as int].0 >= old(links)@.len()
                &&& forall|i: int| 0 <= i < k ==> (#[trigger] values@[i]).0 < old(links)@.len()
            },
            None => {
                &&& forall|i: int|
                    0 <= i < values@.len() ==> (#[trigger] values@[i]).0 < old(links)@.len()
                &&& final(links)@ == with_links(old(links)@, values@)
            },
        },
{
    let ghost before = links@;
    let mut k: usize = 0;
    while k < values.len()
        invariant
            k <= values@.len(),
            links@ == with_links(before, values@.take(k as int)),
            links@.len() == before.len(),
            forall|i: int| 0 <= i < k ==> (#[trigger] values@[i]).0 < before.len(),
        decreases values@.len() - k,
    {
        let (i, g) = values[k];
        if i >= links.len() {
            return Some(k);
        }
        let mut own: GeneratedObfuscation = match links[i].obfuscation {
            Some(o) => o,
            None => GeneratedObfuscation::none(),
        };
        own.fill(&g);
        links.set(i, LinkFields { obfuscation: Some(own) });
        assert(values@.take(k + 1).drop_last() =~= values@.take(k as int));
        k += 1;
    }
    assert(values@.take(k as int) =~= values@);
    None
}

/// The position of the first document of a pool.
fn find_pool_document(pools: &Vec<PoolDocument>, name: &str) -> (r: usize)
    ensures
        r == pool_index(pools@, name@),
        r <= pools@.len(),
{
    let mut i: usize = 0;
    while i < pools.len()
        invariant
            i <= pools@.len(),
            forall|k: int| 0 <= k < i ==> (#[trigger] pools@[k]).name@ != name@,
        decreases pools@.len() - i,
    {
        if text::str_eq(pools[i].name.as_str(), name) {
            proof {
                lemma_pool_index_unique(pools@, name@, i as int);
            }
            return i;
        }
        i += 1;
    }
    proof {
        lemma_pool_index_unique(pools@, name@, i as int);
    }
    i
}

#[verifier::loop_isolation(false)]
fn record_pools(pools: &mut Vec<PoolDocument>, values: &Vec<minted::PoolMinted>) -> (r: Option<
    usize,
>)
    ensures
        match r {
            Some(k) => {
                &&& k < values@.len()
                &&& lacks_pool(old(pools)@, values@, k as int)
                &&& first_missing_pool(old(pools)@, values@, 0) == k
            },
            None => {
                &&& forall|i: int| 0 <= i < values@.len() ==> !#[trigger] lacks_pool(
                    old(pools)@,
                    values@,
                    i,
                )
                &&& final(pools)@ == with_pools(old(pools)@, values@)
            },
        },
{
    let ghost before = pools@;
    let mut k: usize = 0;
    while k < values.len()
        invariant
            k <= values@.len(),
            pools@ == with_pools(before, values@.take(k as int)),
            first_missing_pool(before, values@, 0) == first_missing_pool(before, values@, k as int),
            forall|i: int| 0 <= i < k ==> !#[trigger] lacks_pool(before, values@, i),
        decreases values@.len() - k,
    {
        let m = &values[k];
        let i: usize = find_pool_document(pools, m.name.as_str());
        proof {
            assert forall|i: int| 0 <= i < k implies !#[trigger] lacks_pool(
                before,
                values@.take(k as int),
                i,
            ) by {
                assert(!lacks_pool(before, values@, i));
            }
            lemma_with_pools(before, values@.take(k as int));
            lemma_same_index(pools@, before, m.name@);
            assert(values@.take(k + 1).drop_last() =~= values@.take(k as int));
        }
        if i >= pools.len() {
            assert(lacks_pool(before, values@, k as int));
            return Some(k);
        }
        assert(!lacks_pool(before, values@, k as int));
        let private_key: Option<String> = match &m.private_key {
            Some(key) => Some(key.clone()),
            None => obfuscation::copy_text(&pools[i].private_key),
        };
        let mut fields: Option<GeneratedObfuscation> = pools[i].obfuscation;
        if let Some(g) = &m.obfuscation {
            let mut own: GeneratedObfuscation = match fields {
                Some(o) => o,
                None => GeneratedObfuscation::none(),
            };
            own.fill(g);
            fields = Some(own);
        }
        let name = pools[i].name.clone();
        pools.set(i, PoolDocument { name, private_key, obfuscation: fields });
        k += 1;
    }
    assert(values@.take(k as int) =~= values@);
    None
}

proof fn lemma_first_missing_link(
    network: NetworkDocument,
    values: Seq<(usize, GeneratedObfuscation)>,
    from: int,
    k: int,
)
    requires
        0 <= from <= k < values.len(),
        lacks_link(network, values, k),
        forall|i: int| 0 <= i < k ==> !#[trigger] lacks_link(network, values, i),
    ensures
        first_missing_link(network, values, from) == k,
    decreases k - from,
{
    if from < k {
        assert(!lacks_link(network, values, from));
        lemma_first_missing_link(network, values, from + 1, k);
    }
}

impl minted::Minted {
    /// Writes every value into its field.
    pub fn record(&self, overlay: Overlay) -> (r: Result<Overlay, RecordError>)
        ensures
            match r {
                Err(e) => record_error(overlay, *self) == Some(e),
                Ok(o) => {
                    &&& record_error(overlay, *self) is None
                    &&& o.network.nodes@ == with_keys(overlay.network.nodes@, self.node_keys@)
                    &&& o.network.mesh is Some == overlay.network.mesh is Some
                    &&& links_of(o.network) == with_links(
                        links_of(overlay.network),
                        self.link_obfuscation@,
                    )
                    &&& o.pools@ == with_pools(overlay.pools@, self.pools@)
                },
            },
    {
        let mut out = overlay;
        if let Some(k) = record_nodes(&mut out.network, &self.node_keys) {
            return Err(RecordError::NoNode(k));
        }
        let ghost start = overlay.network;
        match &mut out.network.mesh {
            Some(mesh) => {
                if let Some(k) = record_links(&mut mesh.links, &self.link_obfuscation) {
                    proof {
                        assert forall|i: int| 0 <= i < k implies !#[trigger] lacks_link(
                            start,
                            self.link_obfuscation@,
                            i,
                        ) by {
                            assert(self.link_obfuscation@[i].0 < links_of(start).len());
                        }
                        assert(lacks_link(start, self.link_obfuscation@, k as int));
                        lemma_first_missing_link(start, self.link_obfuscation@, 0, k as int);
                    }
                    return Err(RecordError::NoLink(k));
                }
            },
            None => {
                if self.link_obfuscation.len() > 0 {
                    assert(lacks_link(start, self.link_obfuscation@, 0));
                    return Err(RecordError::NoLink(0));
                }
            },
        }
        assert forall|i: int| 0 <= i < self.link_obfuscation@.len() implies !#[trigger] lacks_link(
            start,
            self.link_obfuscation@,
            i,
        ) by {
            assert(self.link_obfuscation@[i].0 < links_of(start).len());
        }
        if let Some(k) = record_pools(&mut out.pools, &self.pools) {
            return Err(RecordError::NoPool(k));
        }
        Ok(out)
    }
}

/// The same values, as far as the nine generated fields go.
pub open spec fn same_values(a: secrets::Minted, b: minted::Minted) -> bool {
    &&& b.node_keys@ == a.node_keys@
    &&& b.link_obfuscation@ == nine_links(a.link_obfuscation@)
    &&& b.pools@.len() == a.pools@.len()
    &&& forall|i: int|
        0 <= i < a.pools@.len() ==> (#[trigger] b.pools@[i]).name == a.pools@[i].name
            && b.pools@[i].private_key == a.pools@[i].private_key && b.pools@[i].obfuscation == (
        match a.pools@[i].obfuscation {
            Some(o) => Some(minted::nine(o)),
            None => None,
        })
    &&& text::texts(b.names@) == text::texts(a.names@)
}

pub open spec fn nine_links(v: Seq<(usize, Obfuscation)>) -> Seq<(usize, GeneratedObfuscation)> {
    Seq::new(v.len(), |i: int| (v[i].0, minted::nine(v[i].1)))
}

/// What was minted, as far as the nine generated fields go.
pub fn generated_values(m: &secrets::Minted) -> (r: minted::Minted)
    ensures
        same_values(*m, r),
{
    let mut node_keys: Vec<(usize, String)> = Vec::new();
    let mut i: usize = 0;
    while i < m.node_keys.len()
        invariant
            i <= m.node_keys@.len(),
            node_keys@ == m.node_keys@.take(i as int),
        decreases m.node_keys@.len() - i,
    {
        node_keys.push((m.node_keys[i].0, m.node_keys[i].1.clone()));
        i += 1;
    }
    assert(node_keys@ =~= m.node_keys@);
    let mut link_obfuscation: Vec<(usize, GeneratedObfuscation)> = Vec::new();
    let mut j: usize = 0;
    while j < m.link_obfuscation.len()
        invariant
            j <= m.link_obfuscation@.len(),
            link_obfuscation@ == nine_links(m.link_obfuscation@.take(j as int)),
        decreases m.link_obfuscation@.len() - j,
    {
        link_obfuscation.push(
            (
                m.link_obfuscation[j].0,
                GeneratedObfuscation::from_all(&m.link_obfuscation[j].1),
            ),
        );
        j += 1;
    }
    assert(m.link_obfuscation@.take(j as int) =~= m.link_obfuscation@);
    let mut pools: Vec<minted::PoolMinted> = Vec::new();
    let mut k: usize = 0;
    while k < m.pools.len()
        invariant
            k <= m.pools@.len(),
            pools@.len() == k,
            forall|i: int|
                0 <= i < k ==> (#[trigger] pools@[i]).name == m.pools@[i].name
                    && pools@[i].private_key == m.pools@[i].private_key && pools@[i].obfuscation
                    == (match m.pools@[i].obfuscation {
                    Some(o) => Some(minted::nine(o)),
                    None => None,
                }),
        decreases m.pools@.len() - k,
    {
        let p = &m.pools[k];
        let fields: Option<GeneratedObfuscation> = match &p.obfuscation {
            Some(o) => Some(GeneratedObfuscation::from_all(o)),
            None => None,
        };
        pools.push(
            minted::PoolMinted {
                name: p.name.clone(),
                private_key: obfuscation::copy_text(&p.private_key),
                obfuscation: fields,
            },
        );
        k += 1;
    }
    minted::Minted { node_keys, link_obfuscation, pools, names: text::clone_texts(&m.names) }
}

/// The overlay with everything in `m` written into its field.
pub open spec fn is_record(before: Overlay, m: minted::Minted, after: Overlay) -> bool {
    &&& after.network.nodes@ == with_keys(before.network.nodes@, m.node_keys@)
    &&& after.network.mesh is Some == before.network.mesh is Some
    &&& links_of(after.network) == with_links(links_of(before.network), m.link_obfuscation@)
    &&& after.pools@ == with_pools(before.pools@, m.pools@)
}

/// Writes every value of `minted` into its field.
pub fn record(overlay: Overlay, minted: &secrets::Minted) -> (r: Result<Overlay, RecordError>)
    ensures
        exists|m: minted::Minted| #[trigger]
            same_values(*minted, m) && (match r {
                Err(e) => record_error(overlay, m) == Some(e),
                Ok(o) => record_error(overlay, m) is None && is_record(overlay, m, o),
            }),
{
    let m = generated_values(minted);
    m.record(overlay)
}

proof fn lemma_fresh_keys_written(
    nodes: Seq<NodeFields>,
    t: MeshConfig,
    f: secrets::Fresh,
    n: int,
)
    requires
        0 <= n <= nodes.len(),
        nodes.len() == t.nodes@.len(),
        t.nodes@.len() <= usize::MAX,
    ensures
        with_keys(nodes, secrets::fresh_node_keys(t, f, n)).len() == nodes.len(),
        forall|i: int|
            0 <= i < nodes.len() ==> (#[trigger] with_keys(
                nodes,
                secrets::fresh_node_keys(t, f, n),
            )[i]).mesh_private_key == (if i < n && t.nodes@[i].mesh_private_key is None {
                Some(f.node_keys@[i])
            } else {
                nodes[i].mesh_private_key
            }),
        forall|k: int|
            0 <= k < secrets::fresh_node_keys(t, f, n).len() ==> (
            #[trigger] secrets::fresh_node_keys(t, f, n)[k]).0 < n,
    decreases n,
{
    if n > 0 {
        lemma_fresh_keys_written(nodes, t, f, n - 1);
        let keys = secrets::fresh_node_keys(t, f, n);
        let rest = secrets::fresh_node_keys(t, f, n - 1);
        if t.nodes@[n - 1].mesh_private_key is None {
            assert(keys.drop_last() =~= rest);
            assert forall|k: int| 0 <= k < keys.len() implies (#[trigger] keys[k]).0 < n by {
                if k < rest.len() {
                    assert(rest[k].0 < n - 1);
                }
            }
        }
    }
}

/// Law of the model: setting what a resolution minted in an overlay leaves every node with the key
/// that it was resolved to.
pub proof fn recorded_nodes_have_their_keys(
    before: Overlay,
    t: MeshConfig,
    f: secrets::Fresh,
    m: secrets::Minted,
    i: int,
)
    requires
        secrets::is_minted(t, f, m),
        before.network.nodes@.len() == t.nodes@.len(),
        t.nodes@.len() <= usize::MAX,
        0 <= i < t.nodes@.len(),
        before.network.nodes@[i].mesh_private_key == t.nodes@[i].mesh_private_key,
    ensures
        ({
            let key = with_keys(before.network.nodes@, m.node_keys@)[i].mesh_private_key;
            key is Some && key->0@ == secrets::settled_key(
                t.nodes@[i].mesh_private_key,
                f.node_keys@[i],
            )
        }),
{
    lemma_fresh_keys_written(before.network.nodes@, t, f, t.nodes@.len() as int);
}

/// One client entry.
#[derive(Debug, PartialEq)]
pub struct ClientFields {
    pub name: String,
    pub public_key: String,
    pub allowed_ips: Vec<String>,
}

/// A pool's document as far as its clients go. `None` where it has no list of them.
#[derive(Debug, PartialEq)]
pub struct PoolClients {
    pub clients: Option<Vec<ClientFields>>,
}

/// The entry of a client.
pub open spec fn is_entry_of(e: ClientFields, c: RoadwarriorClient) -> bool {
    &&& e.name@ == c.name@
    &&& e.public_key@ == c.public_key@
    &&& text::texts(e.allowed_ips@) == text::texts(c.allowed_ips@)
}

/// The clients of a pool's document.
pub open spec fn clients_of(p: PoolClients) -> Seq<ClientFields> {
    match p.clients {
        Some(v) => v@,
        None => Seq::empty(),
    }
}

/// Adds a client at the end of a pool's list.
pub fn add_client(pool: PoolClients, client: &RoadwarriorClient) -> (r: PoolClients)
    ensures
        r.clients is Some,
        clients_of(r).len() == clients_of(pool).len() + 1,
        clients_of(r).drop_last() == clients_of(pool),
        is_entry_of(clients_of(r).last(), *client),
{
    let mut clients: Vec<ClientFields> = match pool.clients {
        Some(v) => v,
        None => Vec::new(),
    };
    assert(clients@ =~= clients_of(pool));
    clients.push(
        ClientFields {
            name: client.name.clone(),
            public_key: client.public_key.clone(),
            allowed_ips: text::clone_texts(&client.allowed_ips),
        },
    );
    let r = PoolClients { clients: Some(clients) };
    assert(clients_of(r).drop_last() =~= clients_of(pool));
    r
}

/// Removes client `index` from a pool's list; every other stays. `None` where the pool has no list.
pub fn remove_client(pool: PoolClients, index: usize) -> (r: Option<PoolClients>)
    ensures
        match r {
            None => pool.clients is None,
            Some(p) => {
                &&& pool.clients is Some
                &&& p.clients is Some
                &&& clients_of(p) == (if index < clients_of(pool).len() {
                    clients_of(pool).remove(index as int)
                } else {
                    clients_of(pool)
                })
            },
        },
{
    match pool.clients {
        None => None,
        Some(v) => {
            let mut clients = v;
            if index < clients.len() {
                clients.remove(index);
            }
            Some(PoolClients { clients: Some(clients) })
        },
    }
}

/// Law of the model: removing the client that was just added leaves the list as it was.
pub proof fn removal_undoes_addition(pool: PoolClients, added: PoolClients)
    requires
        clients_of(added).len() == clients_of(pool).len() + 1,
        clients_of(added).drop_last() == clients_of(pool),
    ensures
        clients_of(added).remove(clients_of(pool).len() as int) == clients_of(pool),
{
    assert(clients_of(added).remove(clients_of(pool).len() as int) =~= clients_of(added).drop_last());
}

} // verus!
