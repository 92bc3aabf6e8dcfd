//! What a run minted, and the field that each value is written into: a node's `mesh_private_key`,
//! the obfuscation fields that a link or pool left unset, a pool's `private_key`.
//!
//! Written, a value is the operator's like any other: the next run mints nothing. Only what the
//! run generated is written; a field set on the entry or for the whole topology is never copied
//! down.

use crate::assoc;
use crate::common::obfuscation;
use crate::common::obfuscation::Obfuscation;
use crate::patches::mesh_config::MeshConfig;
use crate::taloscfg::secrets;
use crate::taloscfg::secrets::ResolvedSecrets;
use crate::text;
use vstd::prelude::*;

verus! {

/// The obfuscation fields that the generator fills: these nine and no others.
#[derive(Clone, Copy, Debug, PartialEq, Eq, Structural)]
pub struct GeneratedObfuscation {
    pub jc: Option<u16>,
    pub jmin: Option<u16>,
    pub jmax: Option<u16>,
    pub s1: Option<u16>,
    pub s2: Option<u16>,
    pub h1: Option<u32>,
    pub h2: Option<u32>,
    pub h3: Option<u32>,
    pub h4: Option<u32>,
}

/// None of the nine.
pub open spec fn no_fields() -> GeneratedObfuscation {
    GeneratedObfuscation {
        jc: None,
        jmin: None,
        jmax: None,
        s1: None,
        s2: None,
        h1: None,
        h2: None,
        h3: None,
        h4: None,
    }
}

/// The nine fields among all parameters.
pub open spec fn nine(o: Obfuscation) -> GeneratedObfuscation {
    GeneratedObfuscation {
        jc: o.jc,
        jmin: o.jmin,
        jmax: o.jmax,
        s1: o.s1,
        s2: o.s2,
        h1: o.h1,
        h2: o.h2,
        h3: o.h3,
        h4: o.h4,
    }
}

/// `b` over `a`: each field that `b` sets, else that of `a`.
pub open spec fn filled(a: GeneratedObfuscation, b: GeneratedObfuscation) -> GeneratedObfuscation {
    GeneratedObfuscation {
        jc: obfuscation::first_set(b.jc, a.jc),
        jmin: obfuscation::first_set(b.jmin, a.jmin),
        jmax: obfuscation::first_set(b.jmax, a.jmax),
        s1: obfuscation::first_set(b.s1, a.s1),
        s2: obfuscation::first_set(b.s2, a.s2),
        h1: obfuscation::first_set(b.h1, a.h1),
        h2: obfuscation::first_set(b.h2, a.h2),
        h3: obfuscation::first_set(b.h3, a.h3),
        h4: obfuscation::first_set(b.h4, a.h4),
    }
}

/// The fields of `resolved` that neither layer sets.
pub open spec fn generated_of(
    resolved: Obfuscation,
    own: Obfuscation,
    global: Obfuscation,
) -> GeneratedObfuscation {
    nine(obfuscation::beyond(obfuscation::over(own, global), resolved))
}

fn pick<T: Copy>(a: Option<T>, b: Option<T>) -> (r: Option<T>)
    ensures
        r == obfuscation::first_set(a, b),
{
    if a.is_some() {
        a
    } else {
        b
    }
}

impl GeneratedObfuscation {
    /// Nothing set.
    pub fn none() -> (r: Self)
        ensures
            r == no_fields(),
    {
        GeneratedObfuscation {
            jc: None,
            jmin: None,
            jmax: None,
            s1: None,
            s2: None,
            h1: None,
            h2: None,
            h3: None,
            h4: None,
        }
    }

    /// The nine fields among all parameters.
    pub fn from_all(o: &Obfuscation) -> (r: Self)
        ensures
            r == nine(*o),
    {
        GeneratedObfuscation {
            jc: o.jc,
            jmin: o.jmin,
            jmax: o.jmax,
            s1: o.s1,
            s2: o.s2,
            h1: o.h1,
            h2: o.h2,
            h3: o.h3,
            h4: o.h4,
        }
    }

    /// The fields of `resolved` that neither layer sets: the ones this run generated.
    pub fn of(resolved: &Obfuscation, own: &Obfuscation, global: &Obfuscation) -> (r: Option<Self>)
        ensures
            match r {
                Some(g) => g == generated_of(*resolved, *own, *global) && g != no_fields(),
                None => generated_of(*resolved, *own, *global) == no_fields(),
            },
    {
        let set = obfuscation::layer(own, global);
        let g = Self::from_all(&obfuscation::remainder(&set, resolved));
        if g == Self::none() {
            None
        } else {
            Some(g)
        }
    }

    /// Takes every field that `other` sets.
    pub fn fill(&mut self, other: &Self)
        ensures
            *final(self) == filled(*old(self), *other),
    {
        *self = GeneratedObfuscation {
            jc: pick(other.jc, self.jc),
            jmin: pick(other.jmin, self.jmin),
            jmax: pick(other.jmax, self.jmax),
            s1: pick(other.s1, self.s1),
            s2: pick(other.s2, self.s2),
            h1: pick(other.h1, self.h1),
            h2: pick(other.h2, self.h2),
            h3: pick(other.h3, self.h3),
            h4: pick(other.h4, self.h4),
        };
    }
}

/// What was minted for one pool.
#[derive(Debug, PartialEq)]
pub struct PoolMinted {
    pub name: String,
    pub private_key: Option<String>,
    pub obfuscation: Option<GeneratedObfuscation>,
}

/// The values that a run minted, each with the field it goes in.
#[derive(Debug, PartialEq)]
pub struct Minted {
    /// By the node's position in `nodes`.
    pub node_keys: Vec<(usize, String)>,
    /// By the link's position in `mesh.links`.
    pub link_obfuscation: Vec<(usize, GeneratedObfuscation)>,
    /// By the pool's name.
    pub pools: Vec<PoolMinted>,
    /// How a message names each value.
    pub names: Vec<String>,
}

/// Why it cannot be told what was minted: nothing was resolved for an entry that sets no key.
#[derive(Clone, Copy, Debug, PartialEq, Eq, Structural)]
pub enum MintedError {
    /// By the node's position.
    NoNodeKey(usize),
    /// By the pool's position.
    NoPoolKey(usize),
}

/// Node `i` sets no key.
pub open spec fn needs_key(t: MeshConfig, i: int) -> bool {
    t.nodes@[i].mesh_private_key is None
}

/// The key that was resolved for node `i`.
pub open spec fn node_key(t: MeshConfig, r: ResolvedSecrets, i: int) -> Option<String> {
    assoc::value_of(r.mesh_private_keys@, t.nodes@[i].name@)
}

/// The key that was resolved for pool `i`.
pub open spec fn pool_key(t: MeshConfig, r: ResolvedSecrets, i: int) -> Option<String> {
    assoc::value_of(r.roadwarrior_private_keys@, t.roadwarriors@[i].name@)
}

/// Node `i` sets no key and none was resolved.
pub open spec fn node_lacks(t: MeshConfig, r: ResolvedSecrets, i: int) -> bool {
    needs_key(t, i) && node_key(t, r, i) is None
}

/// Pool `i` sets no key and none was resolved.
pub open spec fn pool_lacks(t: MeshConfig, r: ResolvedSecrets, i: int) -> bool {
    t.roadwarriors@[i].private_key is None && pool_key(t, r, i) is None
}

/// What was generated for link `i`.
pub open spec fn link_generated(
    t: MeshConfig,
    r: ResolvedSecrets,
    i: int,
) -> Option<GeneratedObfuscation> {
    let link = t.mesh.links@[i];
    match assoc::value_of(
        r.mesh_link_obfuscation@,
        secrets::key_of_link(link.pair@[0]@, link.pair@[1]@),
    ) {
        Some(o) => if link.plain || generated_of(o, link.obfuscation, t.obfuscation)
            == no_fields() {
            None
        } else {
            Some(generated_of(o, link.obfuscation, t.obfuscation))
        },
        None => None,
    }
}

/// What was generated for pool `i`.
pub open spec fn pool_generated(
    t: MeshConfig,
    r: ResolvedSecrets,
    i: int,
) -> Option<GeneratedObfuscation> {
    let pool = t.roadwarriors@[i];
    match assoc::value_of(r.roadwarrior_obfuscation@, pool.name@) {
        Some(o) => if pool.plain || generated_of(o, pool.obfuscation, t.obfuscation)
            == no_fields() {
            None
        } else {
            Some(generated_of(o, pool.obfuscation, t.obfuscation))
        },
        None => None,
    }
}

/// The keys minted for the first `n` nodes, with their positions.
pub open spec fn minted_node_keys(t: MeshConfig, r: ResolvedSecrets, n: int) -> Seq<
    (usize, String),
>
    decreases n,
{
    if n <= 0 {
        Seq::empty()
    } else if needs_key(t, n - 1) {
        minted_node_keys(t, r, n - 1).push(((n - 1) as usize, node_key(t, r, n - 1)->0))
    } else {
        minted_node_keys(t, r, n - 1)
    }
}

/// The parameters minted for the first `n` links, with their positions.
pub open spec fn minted_links(t: MeshConfig, r: ResolvedSecrets, n: int) -> Seq<
    (usize, GeneratedObfuscation),
>
    decreases n,
{
    if n <= 0 {
        Seq::empty()
    } else if link_generated(t, r, n - 1) is Some {
        minted_links(t, r, n - 1).push(((n - 1) as usize, link_generated(t, r, n - 1)->0))
    } else {
        minted_links(t, r, n - 1)
    }
}

pub open spec fn link_routes(t: MeshConfig, r: ResolvedSecrets, n: int) -> Seq<Seq<char>>
    decreases n,
{
    if n <= 0 {
        Seq::empty()
    } else if link_generated(t, r, n - 1) is Some {
        link_routes(t, r, n - 1).push(secrets::link_route(t.mesh.links@[n - 1]))
    } else {
        link_routes(t, r, n - 1)
    }
}

/// The key minted for pool `i`.
pub open spec fn minted_pool_key(t: MeshConfig, r: ResolvedSecrets, i: int) -> Option<String> {
    if t.roadwarriors@[i].private_key is None {
        pool_key(t, r, i)
    } else {
        None
    }
}

/// The positions of those among the first `n` pools that anything was minted for.
pub open spec fn minted_pools(t: MeshConfig, r: ResolvedSecrets, n: int) -> Seq<int>
    decreases n,
{
    if n <= 0 {
        Seq::empty()
    } else if minted_pool_key(t, r, n - 1) is Some || pool_generated(t, r, n - 1) is Some {
        minted_pools(t, r, n - 1).push(n - 1)
    } else {
        minted_pools(t, r, n - 1)
    }
}

pub open spec fn is_pool_minted(t: MeshConfig, r: ResolvedSecrets, i: int, p: PoolMinted) -> bool {
    &&& p.name@ == t.roadwarriors@[i].name@
    &&& p.private_key == minted_pool_key(t, r, i)
    &&& p.obfuscation == pool_generated(t, r, i)
}

pub open spec fn are_pools_minted(
    t: MeshConfig,
    r: ResolvedSecrets,
    n: int,
    v: Seq<PoolMinted>,
) -> bool {
    &&& v.len() == minted_pools(t, r, n).len()
    &&& forall|k: int|
        0 <= k < v.len() ==> is_pool_minted(t, r, minted_pools(t, r, n)[k], #[trigger] v[k])
}

pub open spec fn pool_routes(t: MeshConfig, r: ResolvedSecrets, n: int) -> Seq<Seq<char>>
    decreases n,
{
    if n <= 0 {
        Seq::empty()
    } else {
        let a = pool_routes(t, r, n - 1);
        let b = if minted_pool_key(t, r, n - 1) is Some {
            a.push(secrets::pool_key_route(t.roadwarriors@[n - 1]))
        } else {
            a
        };
        if pool_generated(t, r, n - 1) is Some {
            b.push(secrets::pool_obfuscation_route(t.roadwarriors@[n - 1]))
        } else {
            b
        }
    }
}

/// How messages name everything that `r` holds and `t` leaves unset.
pub open spec fn routes(t: MeshConfig, r: ResolvedSecrets) -> Seq<Seq<char>> {
    secrets::node_routes(t, t.nodes@.len() as int) + link_routes(t, r, t.mesh.links@.len() as int)
        + pool_routes(t, r, t.roadwarriors@.len() as int)
}

/// Exactly what `r` holds and `t` leaves unset.
pub open spec fn is_minted(t: MeshConfig, r: ResolvedSecrets, m: Minted) -> bool {
    &&& m.node_keys@ == minted_node_keys(t, r, t.nodes@.len() as int)
    &&& m.link_obfuscation@ == minted_links(t, r, t.mesh.links@.len() as int)
    &&& are_pools_minted(t, r, t.roadwarriors@.len() as int, m.pools@)
    &&& text::texts(m.names@) == routes(t, r)
}

#[verifier::loop_isolation(false)]
fn minted_nodes(t: &MeshConfig, resolved: &ResolvedSecrets, out: &mut Minted) -> (r: Result<
    (),
    MintedError,
>)
    requires
        old(out).node_keys@.len() == 0,
        old(out).names@.len() == 0,
    ensures
        match r {
            Ok(_) => {
                &&& forall|i: int| 0 <= i < t.nodes@.len() ==> !#[trigger] node_lacks(
                    *t,
                    *resolved,
                    i,
                )
                &&& final(out).node_keys@ == minted_node_keys(*t, *resolved, t.nodes@.len() as int)
                &&& text::texts(final(out).names@) == secrets::node_routes(
                    *t,
                    t.nodes@.len() as int,
                )
            },
            Err(e) => {
                &&& e is NoNodeKey
                &&& e->NoNodeKey_0 < t.nodes@.len()
                &&& node_lacks(*t, *resolved, e->NoNodeKey_0 as int)
                &&& forall|i: int| 0 <= i < e->NoNodeKey_0 ==> !#[trigger] node_lacks(
                    *t,
                    *resolved,
                    i,
                )
            },
        },
        final(out).link_obfuscation == old(out).link_obfuscation,
        final(out).pools == old(out).pools,
{
    let mut i: usize = 0;
    assert(out.node_keys@ =~= minted_node_keys(*t, *resolved, 0));
    assert(text::texts(out.names@) =~= secrets::node_routes(*t, 0));
    while i < t.nodes.len()
        invariant
            i <= t.nodes@.len(),
            forall|k: int| 0 <= k < i ==> !#[trigger] node_lacks(*t, *resolved, k),
            out.node_keys@ == minted_node_keys(*t, *resolved, i as int),
            text::texts(out.names@) == secrets::node_routes(*t, i as int),
            out.link_obfuscation == old(out).link_obfuscation,
            out.pools == old(out).pools,
        decreases t.nodes@.len() - i,
    {
        let node = &t.nodes[i];
        if node.mesh_private_key.is_none() {
            match assoc::lookup(&resolved.mesh_private_keys, node.name.as_str()) {
                Some(key) => {
                    out.node_keys.push((i, key.clone()));
                    secrets::push_text(&mut out.names, secrets::route_of_node(node));
                },
                None => {
                    assert(node_lacks(*t, *resolved, i as int));
                    return Err(MintedError::NoNodeKey(i));
                },
            }
        }
        assert(!node_lacks(*t, *resolved, i as int));
        i += 1;
    }
    Ok(())
}

#[verifier::loop_isolation(false)]
fn minted_link_fields(t: &MeshConfig, resolved: &ResolvedSecrets, out: &mut Minted)
    requires
        old(out).link_obfuscation@.len() == 0,
    ensures
        final(out).link_obfuscation@ == minted_links(*t, *resolved, t.mesh.links@.len() as int),
        text::texts(final(out).names@) == text::texts(old(out).names@) + link_routes(
            *t,
            *resolved,
            t.mesh.links@.len() as int,
        ),
        final(out).node_keys == old(out).node_keys,
        final(out).pools == old(out).pools,
{
    let ghost before = text::texts(out.names@);
    let mut i: usize = 0;
    assert(out.link_obfuscation@ =~= minted_links(*t, *resolved, 0));
    assert(text::texts(out.names@) =~= before + link_routes(*t, *resolved, 0));
    while i < t.mesh.links.len()
        invariant
            i <= t.mesh.links@.len(),
            out.link_obfuscation@ == minted_links(*t, *resolved, i as int),
            text::texts(out.names@) == before + link_routes(*t, *resolved, i as int),
            out.node_keys == old(out).node_keys,
            out.pools == old(out).pools,
        decreases t.mesh.links@.len() - i,
    {
        let link = &t.mesh.links[i];
        let mut generated: Option<GeneratedObfuscation> = None;
        if !link.plain {
            let key = secrets::link_key(&link.pair);
            if let Some(o) = assoc::lookup(&resolved.mesh_link_obfuscation, key.as_str()) {
                generated = GeneratedObfuscation::of(o, &link.obfuscation, &t.obfuscation);
            }
        }
        assert(generated == link_generated(*t, *resolved, i as int));
        if let Some(g) = generated {
            out.link_obfuscation.push((i, g));
            secrets::push_text(&mut out.names, secrets::route_of_link(link));
            assert(text::texts(out.names@) =~= before + link_routes(*t, *resolved, i + 1));
        }
        i += 1;
    }
}

#[verifier::loop_isolation(false)]
fn minted_pool_fields(t: &MeshConfig, resolved: &ResolvedSecrets, out: &mut Minted) -> (r: Result<
    (),
    MintedError,
>)
    requires
        old(out).pools@.len() == 0,
    ensures
        match r {
            Ok(_) => {
                &&& forall|i: int| 0 <= i < t.roadwarriors@.len() ==> !#[trigger] pool_lacks(
                    *t,
                    *resolved,
                    i,
                )
                &&& are_pools_minted(*t, *resolved, t.roadwarriors@.len() as int, final(out).pools@)
                &&& text::texts(final(out).names@) == text::texts(old(out).names@) + pool_routes(
                    *t,
                    *resolved,
                    t.roadwarriors@.len() as int,
                )
            },
            Err(e) => {
                &&& e is NoPoolKey
                &&& e->NoPoolKey_0 < t.roadwarriors@.len()
                &&& pool_lacks(*t, *resolved, e->NoPoolKey_0 as int)
                &&& forall|i: int| 0 <= i < e->NoPoolKey_0 ==> !#[trigger] pool_lacks(
                    *t,
                    *resolved,
                    i,
                )
            },
        },
        final(out).node_keys == old(out).node_keys,
        final(out).link_obfuscation == old(out).link_obfuscation,
{
    let ghost before = text::texts(out.names@);
    let mut i: usize = 0;
    assert(text::texts(out.names@) =~= before + pool_routes(*t, *resolved, 0));
    while i < t.roadwarriors.len()
        invariant
            i <= t.roadwarriors@.len(),
            forall|k: int| 0 <= k < i ==> !#[trigger] pool_lacks(*t, *resolved, k),
            are_pools_minted(*t, *resolved, i as int, out.pools@),
            text::texts(out.names@) == before + pool_routes(*t, *resolved, i as int),
            out.node_keys == old(out).node_keys,
            out.link_obfuscation == old(out).link_obfuscation,
        decreases t.roadwarriors@.len() - i,
    {
        let pool = &t.roadwarriors[i];
        let mut private_key: Option<String> = None;
        if pool.private_key.is_none() {
            match assoc::lookup(&resolved.roadwarrior_private_keys, pool.name.as_str()) {
                Some(key) => {
                    private_key = Some(key.clone());
                    secrets::push_text(&mut out.names, secrets::route_of_pool_key(pool));
                },
                None => {
                    assert(pool_lacks(*t, *resolved, i as int));
                    return Err(MintedError::NoPoolKey(i));
                },
            }
        }
        assert(!pool_lacks(*t, *resolved, i as int));
        let mut generated: Option<GeneratedObfuscation> = None;
        if !pool.plain {
            if let Some(o) = assoc::lookup(
                &resolved.roadwarrior_obfuscation,
                pool.name.as_str(),
            ) {
                generated = GeneratedObfuscation::of(o, &pool.obfuscation, &t.obfuscation);
            }
        }
        assert(generated == pool_generated(*t, *resolved, i as int));
        assert(private_key == minted_pool_key(*t, *resolved, i as int));
        if generated.is_some() {
            secrets::push_text(&mut out.names, secrets::route_of_pool_obfuscation(pool));
        }
        assert(text::texts(out.names@) =~= before + pool_routes(*t, *resolved, i + 1));
        if private_key.is_some() || generated.is_some() {
            out.pools.push(
                PoolMinted { name: pool.name.clone(), private_key, obfuscation: generated },
            );
        }
        i += 1;
    }
    Ok(())
}

/// What `resolved` holds that `topology` leaves unset.
pub fn minted(topology: &MeshConfig, resolved: &ResolvedSecrets) -> (r: Result<
    Minted,
    MintedError,
>)
    ensures
        match r {
            Ok(m) => {
                &&& forall|i: int| 0 <= i < topology.nodes@.len() ==> !#[trigger] node_lacks(
                    *topology,
                    *resolved,
                    i,
                )
                &&& forall|i: int| 0 <= i < topology.roadwarriors@.len() ==> !#[trigger] pool_lacks(
                    *topology,
                    *resolved,
                    i,
                )
                &&& is_minted(*topology, *resolved, m)
            },
            Err(MintedError::NoNodeKey(n)) => {
                &&& n < topology.nodes@.len()
                &&& node_lacks(*topology, *resolved, n as int)
                &&& forall|i: int| 0 <= i < n ==> !#[trigger] node_lacks(*topology, *resolved, i)
            },
            Err(MintedError::NoPoolKey(n)) => {
                &&& forall|i: int| 0 <= i < topology.nodes@.len() ==> !#[trigger] node_lacks(
                    *topology,
                    *resolved,
                    i,
                )
                &&& n < topology.roadwarriors@.len()
                &&& pool_lacks(*topology, *resolved, n as int)
                &&& forall|i: int| 0 <= i < n ==> !#[trigger] pool_lacks(*topology, *resolved, i)
            },
        },
{
    let mut out = Minted {
        node_keys: Vec::new(),
        link_obfuscation: Vec::new(),
        pools: Vec::new(),
        names: Vec::new(),
    };
    match minted_nodes(topology, resolved, &mut out) {
        Ok(_) => {},
        Err(e) => {
            return Err(e);
        },
    }
    minted_link_fields(topology, resolved, &mut out);
    match minted_pool_fields(topology, resolved, &mut out) {
        Ok(_) => Ok(out),
        Err(e) => Err(e),
    }
}

impl Minted {
    /// Whether nothing was minted.
    pub fn is_empty(&self) -> (r: bool)
        ensures
            r == (self.names@.len() == 0),
    {
        self.names.len() == 0
    }

    /// Where each value goes, the way a message names it.
    pub fn routes(&self) -> (r: Vec<String>)
        ensures
            text::texts(r@) == text::texts(self.names@),
    {
        text::clone_texts(&self.names)
    }
}

/// Law: of what was resolved, a field counts as generated exactly where neither the entry nor the
/// topology sets it, and it is generated as it was resolved.
pub proof fn generated_is_what_neither_layer_sets(
    resolved: Obfuscation,
    own: Obfuscation,
    global: Obfuscation,
)
    ensures
        generated_of(resolved, own, global).jc == (if own.jc is Some || global.jc is Some {
            None
        } else {
            resolved.jc
        }),
        generated_of(resolved, own, global).jmin == (if own.jmin is Some || global.jmin is Some {
            None
        } else {
            resolved.jmin
        }),
        generated_of(resolved, own, global).jmax == (if own.jmax is Some || global.jmax is Some {
            None
        } else {
            resolved.jmax
        }),
        generated_of(resolved, own, global).s1 == (if own.s1 is Some || global.s1 is Some {
            None
        } else {
            resolved.s1
        }),
        generated_of(resolved, own, global).s2 == (if own.s2 is Some || global.s2 is Some {
            None
        } else {
            resolved.s2
        }),
        generated_of(resolved, own, global).h1 == (if own.h1 is Some || global.h1 is Some {
            None
        } else {
            resolved.h1
        }),
        generated_of(resolved, own, global).h2 == (if own.h2 is Some || global.h2 is Some {
            None
        } else {
            resolved.h2
        }),
        generated_of(resolved, own, global).h3 == (if own.h3 is Some || global.h3 is Some {
            None
        } else {
            resolved.h3
        }),
        generated_of(resolved, own, global).h4 == (if own.h4 is Some || global.h4 is Some {
            None
        } else {
            resolved.h4
        }),
{
}

/// Law: filling in takes each field that is given and leaves the others.
pub proof fn filling_takes_what_is_given(a: GeneratedObfuscation, b: GeneratedObfuscation)
    ensures
        filled(a, b).jc == (if b.jc is Some {
            b.jc
        } else {
            a.jc
        }),
        filled(a, b).jmin == (if b.jmin is Some {
            b.jmin
        } else {
            a.jmin
        }),
        filled(a, b).jmax == (if b.jmax is Some {
            b.jmax
        } else {
            a.jmax
        }),
        filled(a, b).s1 == (if b.s1 is Some {
            b.s1
        } else {
            a.s1
        }),
        filled(a, b).s2 == (if b.s2 is Some {
            b.s2
        } else {
            a.s2
        }),
        filled(a, b).h1 == (if b.h1 is Some {
            b.h1
        } else {
            a.h1
        }),
        filled(a, b).h2 == (if b.h2 is Some {
            b.h2
        } else {
            a.h2
        }),
        filled(a, b).h3 == (if b.h3 is Some {
            b.h3
        } else {
            a.h3
        }),
        filled(a, b).h4 == (if b.h4 is Some {
            b.h4
        } else {
            a.h4
        }),
{
}

} // verus!
