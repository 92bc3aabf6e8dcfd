//! The topology's secrets: every node's mesh private key, every link's and pool's obfuscation,
//! every pool's private key. Each is the value that the topology sets, else a freshly generated
//! one, and what was generated comes back as [`Minted`], to be written into the field it belongs
//! to: the next run finds it there and generates nothing.
//!
//! They are resolved once for the whole topology. Both ends of a link must agree on its
//! obfuscation, and each end needs the other's public key.

use crate::common::keys;
use crate::common::obfuscation;
use crate::common::obfuscation::Obfuscation;
use crate::patches::mesh_config::MeshConfig;
use crate::patches::mesh_config::MeshLink;
use crate::patches::mesh_config::NodeEntry;
use crate::patches::mesh_config::RoadwarriorPool;
use crate::taloscfg::obfuscation_gen;
use crate::text;
use vstd::prelude::*;

verus! {

/// By node name, by link key, by pool name.
#[derive(Debug, PartialEq)]
pub struct ResolvedSecrets {
    pub mesh_private_keys: Vec<(String, String)>,
    pub mesh_link_obfuscation: Vec<(String, Obfuscation)>,
    pub roadwarrior_private_keys: Vec<(String, String)>,
    pub roadwarrior_obfuscation: Vec<(String, Obfuscation)>,
}

/// The key of a link: its two names in ascending order, with `|` between them.
pub open spec fn key_of_link(a: Seq<char>, b: Seq<char>) -> Seq<char> {
    if text::lex_lt(b, a) {
        b + "|"@ + a
    } else {
        a + "|"@ + b
    }
}

/// The key of a link, whichever end is named first.
pub fn link_key(pair: &[String; 2]) -> (r: String)
    ensures
        r@ == key_of_link(pair@[0]@, pair@[1]@),
{
    let a = pair[0].as_str();
    let b = pair[1].as_str();
    if text::str_lt(b, a) {
        text::join3(b, "|", a)
    } else {
        text::join3(a, "|", b)
    }
}

/// Law: the key of a link does not depend on the order in which its ends are named.
pub proof fn link_key_ignores_order(a: Seq<char>, b: Seq<char>)
    ensures
        key_of_link(a, b) == key_of_link(b, a),
{
    text::lemma_lex_total(a, b);
}

/// Two texts parted by the first `|` are told apart.
proof fn lemma_parted(a: Seq<char>, b: Seq<char>, c: Seq<char>, d: Seq<char>)
    requires
        !a.contains('|'),
        !c.contains('|'),
        a + "|"@ + b == c + "|"@ + d,
    ensures
        a == c,
        b == d,
{
    reveal_strlit("|");
    let s = a + "|"@ + b;
    assert(s[a.len() as int] == '|');
    assert((c + "|"@ + d)[c.len() as int] == '|');
    if a.len() < c.len() {
        assert(s[a.len() as int] == c[a.len() as int]);
    }
    if c.len() < a.len() {
        assert(s[c.len() as int] == a[c.len() as int]);
    }
    assert(a =~= s.take(a.len() as int));
    assert(c =~= s.take(a.len() as int));
    assert(b =~= s.skip(a.len() as int + 1));
    assert(d =~= s.skip(a.len() as int + 1));
}

/// Law: two links have the same key only where they join the same two nodes. The names must not hold
/// the `|` that parts them.
pub proof fn link_key_tells_pairs_apart(a: Seq<char>, b: Seq<char>, c: Seq<char>, d: Seq<char>)
    requires
        !a.contains('|'),
        !b.contains('|'),
        !c.contains('|'),
        !d.contains('|'),
        key_of_link(a, b) == key_of_link(c, d),
    ensures
        (a == c && b == d) || (a == d && b == c),
{
    let (p, q) = if text::lex_lt(b, a) {
        (b, a)
    } else {
        (a, b)
    };
    let (r, s) = if text::lex_lt(d, c) {
        (d, c)
    } else {
        (c, d)
    };
    lemma_parted(p, q, r, s);
}

/// What a run generated, by the entry it belongs to.
#[derive(Debug, PartialEq)]
pub struct Minted {
    /// By the node's position in `nodes`.
    pub node_keys: Vec<(usize, String)>,
    /// By the link's position in `mesh.links`; only the fields that were generated.
    pub link_obfuscation: Vec<(usize, Obfuscation)>,
    pub pools: Vec<PoolMinted>,
    /// How a message names each value.
    pub names: Vec<String>,
}

#[derive(Debug, PartialEq)]
pub struct PoolMinted {
    pub name: String,
    pub private_key: Option<String>,
    /// Only the fields that were generated.
    pub obfuscation: Option<Obfuscation>,
}

impl Minted {
    /// Whether nothing was generated.
    pub fn is_empty(&self) -> (r: bool)
        ensures
            r == (self.names@.len() == 0),
    {
        self.names.len() == 0
    }

    /// Where each value goes, the way a message names it.
    pub fn routes(&self) -> (r: &Vec<String>)
        ensures
            *r == self.names,
    {
        &self.names
    }
}

/// Fresh values, one for each place in a topology that can need one.
#[derive(Debug, PartialEq)]
pub struct Fresh {
    pub node_keys: Vec<String>,
    pub links: Vec<Obfuscation>,
    pub pool_keys: Vec<String>,
    pub pools: Vec<Obfuscation>,
}

/// There is a value for every node, link and pool.
pub open spec fn fits(t: MeshConfig, f: Fresh) -> bool {
    &&& f.node_keys@.len() == t.nodes@.len()
    &&& f.links@.len() == t.mesh.links@.len()
    &&& f.pool_keys@.len() == t.roadwarriors@.len()
    &&& f.pools@.len() == t.roadwarriors@.len()
}

/// The values are what the generators give: valid keys, and parameters in their ranges.
pub open spec fn is_drawn(t: MeshConfig, f: Fresh) -> bool {
    &&& fits(t, f)
    &&& forall|i: int|
        0 <= i < f.node_keys@.len() ==> keys::key_of((#[trigger] f.node_keys@[i])@) is Ok
    &&& forall|i: int|
        0 <= i < f.pool_keys@.len() ==> keys::key_of((#[trigger] f.pool_keys@[i])@) is Ok
    &&& forall|i: int|
        0 <= i < f.links@.len() ==> obfuscation_gen::is_generated(#[trigger] f.links@[i])
    &&& forall|i: int|
        0 <= i < f.pools@.len() ==> obfuscation_gen::is_generated(#[trigger] f.pools@[i])
}

fn draw_keys(n: usize) -> (r: Vec<String>)
    ensures
        r@.len() == n,
        forall|i: int| 0 <= i < n ==> keys::key_of((#[trigger] r@[i])@) is Ok,
{
    let mut r: Vec<String> = Vec::new();
    let mut i: usize = 0;
    while i < n
        invariant
            i <= n,
            r@.len() == i,
            forall|k: int| 0 <= k < i ==> keys::key_of((#[trigger] r@[k])@) is Ok,
        decreases n - i,
    {
        r.push(keys::generate_private_key());
        i += 1;
    }
    r
}

fn draw_obfuscation(n: usize) -> (r: Vec<Obfuscation>)
    ensures
        r@.len() == n,
        forall|i: int| 0 <= i < n ==> obfuscation_gen::is_generated(#[trigger] r@[i]),
{
    let mut r: Vec<Obfuscation> = Vec::new();
    let mut i: usize = 0;
    while i < n
        invariant
            i <= n,
            r@.len() == i,
            forall|k: int| 0 <= k < i ==> obfuscation_gen::is_generated(#[trigger] r@[k]),
        decreases n - i,
    {
        r.push(obfuscation_gen::generate());
        i += 1;
    }
    r
}

/// Draws a fresh value for every place in a topology that can need one.
pub fn draw(t: &MeshConfig) -> (f: Fresh)
    ensures
        is_drawn(*t, f),
{
    Fresh {
        node_keys: draw_keys(t.nodes.len()),
        links: draw_obfuscation(t.mesh.links.len()),
        pool_keys: draw_keys(t.roadwarriors.len()),
        pools: draw_obfuscation(t.roadwarriors.len()),
    }
}

/// The key that is set, else the fresh one.
pub open spec fn settled_key(own: Option<String>, fresh: String) -> Seq<char> {
    match own {
        Some(k) => k@,
        None => fresh@,
    }
}

/// Nothing at all for a plain entry; else its own parameters over the topology's over fresh ones.
pub open spec fn settled_obfuscation(
    plain: bool,
    own: Obfuscation,
    global: Obfuscation,
    fresh: Obfuscation,
) -> Obfuscation {
    if plain {
        obfuscation::unset()
    } else {
        obfuscation::over(obfuscation::over(own, global), fresh)
    }
}

/// The parameters that come from the fresh ones: none for a plain entry.
pub open spec fn minted_obfuscation(
    plain: bool,
    own: Obfuscation,
    global: Obfuscation,
    fresh: Obfuscation,
) -> Option<Obfuscation> {
    let g = obfuscation::beyond(obfuscation::over(own, global), fresh);
    if plain || g == obfuscation::unset() {
        None
    } else {
        Some(g)
    }
}

/// `specific`, else the fresh key, which is also returned as the one that was generated.
fn resolve_key(specific: &Option<String>, fresh: &String) -> (r: (String, Option<String>))
    ensures
        r.0@ == settled_key(*specific, *fresh),
        r.1 == (if *specific is Some {
            None::<String>
        } else {
            Some(*fresh)
        }),
{
    match specific {
        Some(key) => (key.clone(), None),
        None => (fresh.clone(), Some(fresh.clone())),
    }
}

/// Layers `specific` over `global`, and takes whatever is still unset from `fresh`. Returns the
/// result and, apart, the parameters that came from `fresh`.
pub fn settle_obfuscation(
    specific: &Obfuscation,
    global: &Obfuscation,
    fresh: &Obfuscation,
) -> (r: (Obfuscation, Obfuscation))
    ensures
        r.0 == obfuscation::over(obfuscation::over(*specific, *global), *fresh),
        r.1 == obfuscation::beyond(obfuscation::over(*specific, *global), *fresh),
{
    let set = obfuscation::layer(specific, global);
    (obfuscation::layer(&set, fresh), obfuscation::remainder(&set, fresh))
}

/// Layers `specific` over `global` and generates whatever is still unset. Returns the result and,
/// apart, the parameters that were generated.
pub fn resolve_obfuscation(specific: &Obfuscation, global: &Obfuscation) -> (r: (
    Obfuscation,
    Obfuscation,
))
    ensures
        exists|fresh: Obfuscation| #[trigger]
            obfuscation_gen::is_generated(fresh) && r.0 == obfuscation::over(
                obfuscation::over(*specific, *global),
                fresh,
            ) && r.1 == obfuscation::beyond(obfuscation::over(*specific, *global), fresh),
{
    let fresh = obfuscation_gen::generate();
    settle_obfuscation(specific, global, &fresh)
}

/// Plain links and pools take no parameters at all: filling in what they leave unset would turn
/// stock WireGuard into something else.
fn resolve_unless_plain(
    plain: bool,
    specific: &Obfuscation,
    global: &Obfuscation,
    fresh: &Obfuscation,
) -> (r: (Obfuscation, Option<Obfuscation>))
    ensures
        r.0 == settled_obfuscation(plain, *specific, *global, *fresh),
        r.1 == minted_obfuscation(plain, *specific, *global, *fresh),
{
    if plain {
        return (Obfuscation::default(), None);
    }
    let (resolved, generated) = settle_obfuscation(specific, global, fresh);
    if obfuscation::is_unset(&generated) {
        (resolved, None)
    } else {
        (resolved, Some(generated))
    }
}

pub open spec fn node_route(node: NodeEntry) -> Seq<char> {
    "nodes["@ + node.name@ + "].mesh_private_key"@
}

pub open spec fn link_route(link: MeshLink) -> Seq<char> {
    "mesh.links["@ + key_of_link(link.pair@[0]@, link.pair@[1]@) + "].obfuscation"@
}

pub open spec fn pool_key_route(pool: RoadwarriorPool) -> Seq<char> {
    "roadwarriors["@ + pool.name@ + "].private_key"@
}

pub open spec fn pool_obfuscation_route(pool: RoadwarriorPool) -> Seq<char> {
    "roadwarriors["@ + pool.name@ + "].obfuscation"@
}

pub fn route_of_node(node: &NodeEntry) -> (r: String)
    ensures
        r@ == node_route(*node),
{
    text::join3("nodes[", node.name.as_str(), "].mesh_private_key")
}

pub fn route_of_link(link: &MeshLink) -> (r: String)
    ensures
        r@ == link_route(*link),
{
    let key = link_key(&link.pair);
    text::join3("mesh.links[", key.as_str(), "].obfuscation")
}

pub fn route_of_pool_key(pool: &RoadwarriorPool) -> (r: String)
    ensures
        r@ == pool_key_route(*pool),
{
    text::join3("roadwarriors[", pool.name.as_str(), "].private_key")
}

pub fn route_of_pool_obfuscation(pool: &RoadwarriorPool) -> (r: String)
    ensures
        r@ == pool_obfuscation_route(*pool),
{
    text::join3("roadwarriors[", pool.name.as_str(), "].obfuscation")
}

/// The obfuscation that link `i` gets.
pub open spec fn link_settled(t: MeshConfig, f: Fresh, i: int) -> Obfuscation {
    let link = t.mesh.links@[i];
    settled_obfuscation(link.plain, link.obfuscation, t.obfuscation, f.links@[i])
}

/// What is generated for link `i`.
pub open spec fn link_minted(t: MeshConfig, f: Fresh, i: int) -> Option<Obfuscation> {
    let link = t.mesh.links@[i];
    minted_obfuscation(link.plain, link.obfuscation, t.obfuscation, f.links@[i])
}

/// The obfuscation that pool `i` gets.
pub open spec fn pool_settled(t: MeshConfig, f: Fresh, i: int) -> Obfuscation {
    let pool = t.roadwarriors@[i];
    settled_obfuscation(pool.plain, pool.obfuscation, t.obfuscation, f.pools@[i])
}

/// What is generated for pool `i`.
pub open spec fn pool_minted(t: MeshConfig, f: Fresh, i: int) -> Option<Obfuscation> {
    let pool = t.roadwarriors@[i];
    minted_obfuscation(pool.plain, pool.obfuscation, t.obfuscation, f.pools@[i])
}

/// The keys of the first `n` nodes, by name.
pub open spec fn are_node_keys(t: MeshConfig, f: Fresh, n: int, v: Seq<(String, String)>) -> bool {
    &&& v.len() == n
    &&& forall|i: int|
        0 <= i < n ==> (#[trigger] v[i]).0@ == t.nodes@[i].name@ && v[i].1@ == settled_key(
            t.nodes@[i].mesh_private_key,
            f.node_keys@[i],
        )
}

/// The obfuscation of the first `n` links, by link key.
pub open spec fn are_links(t: MeshConfig, f: Fresh, n: int, v: Seq<(String, Obfuscation)>) -> bool {
    &&& v.len() == n
    &&& forall|i: int|
        0 <= i < n ==> (#[trigger] v[i]).0@ == key_of_link(
            t.mesh.links@[i].pair@[0]@,
            t.mesh.links@[i].pair@[1]@,
        ) && v[i].1 == link_settled(t, f, i)
}

/// The keys of the first `n` pools, by name.
pub open spec fn are_pool_keys(t: MeshConfig, f: Fresh, n: int, v: Seq<(String, String)>) -> bool {
    &&& v.len() == n
    &&& forall|i: int|
        0 <= i < n ==> (#[trigger] v[i]).0@ == t.roadwarriors@[i].name@ && v[i].1@ == settled_key(
            t.roadwarriors@[i].private_key,
            f.pool_keys@[i],
        )
}

/// The obfuscation of the first `n` pools, by name.
pub open spec fn are_pools(t: MeshConfig, f: Fresh, n: int, v: Seq<(String, Obfuscation)>) -> bool {
    &&& v.len() == n
    &&& forall|i: int|
        0 <= i < n ==> (#[trigger] v[i]).0@ == t.roadwarriors@[i].name@ && v[i].1 == pool_settled(
            t,
            f,
            i,
        )
}

/// Everything a topology's configs need: what it sets, and fresh values for the rest.
pub open spec fn is_settled(t: MeshConfig, f: Fresh, r: ResolvedSecrets) -> bool {
    &&& are_node_keys(t, f, t.nodes@.len() as int, r.mesh_private_keys@)
    &&& are_links(t, f, t.mesh.links@.len() as int, r.mesh_link_obfuscation@)
    &&& are_pool_keys(t, f, t.roadwarriors@.len() as int, r.roadwarrior_private_keys@)
    &&& are_pools(t, f, t.roadwarriors@.len() as int, r.roadwarrior_obfuscation@)
}

/// The fresh keys that the first `n` nodes take, with their positions.
pub open spec fn fresh_node_keys(t: MeshConfig, f: Fresh, n: int) -> Seq<(usize, String)>
    decreases n,
{
    if n <= 0 {
        Seq::empty()
    } else if t.nodes@[n - 1].mesh_private_key is None {
        fresh_node_keys(t, f, n - 1).push(((n - 1) as usize, f.node_keys@[n - 1]))
    } else {
        fresh_node_keys(t, f, n - 1)
    }
}

pub open spec fn node_routes(t: MeshConfig, n: int) -> Seq<Seq<char>>
    decreases n,
{
    if n <= 0 {
        Seq::empty()
    } else if t.nodes@[n - 1].mesh_private_key is None {
        node_routes(t, n - 1).push(node_route(t.nodes@[n - 1]))
    } else {
        node_routes(t, n - 1)
    }
}

/// The fresh parameters that the first `n` links take, with their positions.
pub open spec fn fresh_links(t: MeshConfig, f: Fresh, n: int) -> Seq<(usize, Obfuscation)>
    decreases n,
{
    if n <= 0 {
        Seq::empty()
    } else if link_minted(t, f, n - 1) is Some {
        fresh_links(t, f, n - 1).push(((n - 1) as usize, link_minted(t, f, n - 1)->0))
    } else {
        fresh_links(t, f, n - 1)
    }
}

pub open spec fn link_routes(t: MeshConfig, f: Fresh, n: int) -> Seq<Seq<char>>
    decreases n,
{
    if n <= 0 {
        Seq::empty()
    } else if link_minted(t, f, n - 1) is Some {
        link_routes(t, f, n - 1).push(link_route(t.mesh.links@[n - 1]))
    } else {
        link_routes(t, f, n - 1)
    }
}

/// The fresh key that pool `i` takes.
pub open spec fn fresh_pool_key(t: MeshConfig, f: Fresh, i: int) -> Option<String> {
    if t.roadwarriors@[i].private_key is None {
        Some(f.pool_keys@[i])
    } else {
        None
    }
}

/// The positions of those among the first `n` pools that take anything fresh.
pub open spec fn fresh_pools(t: MeshConfig, f: Fresh, n: int) -> Seq<int>
    decreases n,
{
    if n <= 0 {
        Seq::empty()
    } else if fresh_pool_key(t, f, n - 1) is Some || pool_minted(t, f, n - 1) is Some {
        fresh_pools(t, f, n - 1).push(n - 1)
    } else {
        fresh_pools(t, f, n - 1)
    }
}

/// What pool `i` takes.
pub open spec fn is_pool_minted(t: MeshConfig, f: Fresh, i: int, p: PoolMinted) -> bool {
    &&& p.name@ == t.roadwarriors@[i].name@
    &&& p.private_key == fresh_pool_key(t, f, i)
    &&& p.obfuscation == pool_minted(t, f, i)
}

pub open spec fn are_pools_minted(
    t: MeshConfig,
    f: Fresh,
    n: int,
    v: Seq<PoolMinted>,
) -> bool {
    &&& v.len() == fresh_pools(t, f, n).len()
    &&& forall|k: int|
        0 <= k < v.len() ==> is_pool_minted(t, f, fresh_pools(t, f, n)[k], #[trigger] v[k])
}

pub open spec fn pool_routes(t: MeshConfig, f: Fresh, n: int) -> Seq<Seq<char>>
    decreases n,
{
    if n <= 0 {
        Seq::empty()
    } else {
        let a = pool_routes(t, f, n - 1);
        let b = if fresh_pool_key(t, f, n - 1) is Some {
            a.push(pool_key_route(t.roadwarriors@[n - 1]))
        } else {
            a
        };
        if pool_minted(t, f, n - 1) is Some {
            b.push(pool_obfuscation_route(t.roadwarriors@[n - 1]))
        } else {
            b
        }
    }
}

/// How messages name everything that a topology takes from fresh values.
pub open spec fn routes(t: MeshConfig, f: Fresh) -> Seq<Seq<char>> {
    node_routes(t, t.nodes@.len() as int) + link_routes(t, f, t.mesh.links@.len() as int)
        + pool_routes(t, f, t.roadwarriors@.len() as int)
}

/// Exactly what a topology takes from fresh values.
pub open spec fn is_minted(t: MeshConfig, f: Fresh, m: Minted) -> bool {
    &&& m.node_keys@ == fresh_node_keys(t, f, t.nodes@.len() as int)
    &&& m.link_obfuscation@ == fresh_links(t, f, t.mesh.links@.len() as int)
    &&& are_pools_minted(t, f, t.roadwarriors@.len() as int, m.pools@)
    &&& text::texts(m.names@) == routes(t, f)
}

/// Adds a text to the end of a list.
pub fn push_text(v: &mut Vec<String>, s: String)
    ensures
        text::texts(final(v)@) == text::texts(old(v)@).push(s@),
{
    let ghost prev = v@;
    v.push(s);
    assert(text::texts(v@) =~= text::texts(prev).push(s@));
}

#[verifier::loop_isolation(false)]
fn resolve_nodes(t: &MeshConfig, f: &Fresh, minted: &mut Minted) -> (r: Vec<(String, String)>)
    requires
        fits(*t, *f),
        old(minted).node_keys@.len() == 0,
        old(minted).names@.len() == 0,
    ensures
        are_node_keys(*t, *f, t.nodes@.len() as int, r@),
        final(minted).node_keys@ == fresh_node_keys(*t, *f, t.nodes@.len() as int),
        text::texts(final(minted).names@) == node_routes(*t, t.nodes@.len() as int),
        final(minted).link_obfuscation == old(minted).link_obfuscation,
        final(minted).pools == old(minted).pools,
{
    let mut out: Vec<(String, String)> = Vec::new();
    let mut i: usize = 0;
    assert(minted.node_keys@ =~= fresh_node_keys(*t, *f, 0));
    assert(text::texts(minted.names@) =~= node_routes(*t, 0));
    while i < t.nodes.len()
        invariant
            i <= t.nodes@.len(),
            are_node_keys(*t, *f, i as int, out@),
            minted.node_keys@ == fresh_node_keys(*t, *f, i as int),
            text::texts(minted.names@) == node_routes(*t, i as int),
            minted.link_obfuscation == old(minted).link_obfuscation,
            minted.pools == old(minted).pools,
        decreases t.nodes@.len() - i,
    {
        let node = &t.nodes[i];
        let (key, generated) = resolve_key(&node.mesh_private_key, &f.node_keys[i]);
        if let Some(generated) = generated {
            minted.node_keys.push((i, generated));
            push_text(&mut minted.names, route_of_node(node));
        }
        out.push((node.name.clone(), key));
        i += 1;
    }
    out
}

#[verifier::loop_isolation(false)]
fn resolve_links(t: &MeshConfig, f: &Fresh, minted: &mut Minted) -> (r: Vec<(String, Obfuscation)>)
    requires
        fits(*t, *f),
        old(minted).link_obfuscation@.len() == 0,
    ensures
        are_links(*t, *f, t.mesh.links@.len() as int, r@),
        final(minted).link_obfuscation@ == fresh_links(*t, *f, t.mesh.links@.len() as int),
        text::texts(final(minted).names@) == text::texts(old(minted).names@) + link_routes(
            *t,
            *f,
            t.mesh.links@.len() as int,
        ),
        final(minted).node_keys == old(minted).node_keys,
        final(minted).pools == old(minted).pools,
{
    let ghost before = text::texts(minted.names@);
    let mut out: Vec<(String, Obfuscation)> = Vec::new();
    let mut i: usize = 0;
    assert(minted.link_obfuscation@ =~= fresh_links(*t, *f, 0));
    assert(text::texts(minted.names@) =~= before + link_routes(*t, *f, 0));
    while i < t.mesh.links.len()
        invariant
            i <= t.mesh.links@.len(),
            are_links(*t, *f, i as int, out@),
            minted.link_obfuscation@ == fresh_links(*t, *f, i as int),
            text::texts(minted.names@) == before + link_routes(*t, *f, i as int),
            minted.node_keys == old(minted).node_keys,
            minted.pools == old(minted).pools,
        decreases t.mesh.links@.len() - i,
    {
        let link = &t.mesh.links[i];
        let (resolved, generated) = resolve_unless_plain(
            link.plain,
            &link.obfuscation,
            &t.obfuscation,
            &f.links[i],
        );
        if let Some(generated) = generated {
            minted.link_obfuscation.push((i, generated));
            push_text(&mut minted.names, route_of_link(link));
            assert(text::texts(minted.names@) =~= before + link_routes(*t, *f, i + 1));
        }
        out.push((link_key(&link.pair), resolved));
        i += 1;
    }
    out
}

#[verifier::loop_isolation(false)]
fn resolve_pools(t: &MeshConfig, f: &Fresh, minted: &mut Minted) -> (r: (
    Vec<(String, String)>,
    Vec<(String, Obfuscation)>,
))
    requires
        fits(*t, *f),
        old(minted).pools@.len() == 0,
    ensures
        are_pool_keys(*t, *f, t.roadwarriors@.len() as int, r.0@),
        are_pools(*t, *f, t.roadwarriors@.len() as int, r.1@),
        are_pools_minted(*t, *f, t.roadwarriors@.len() as int, final(minted).pools@),
        text::texts(final(minted).names@) == text::texts(old(minted).names@) + pool_routes(
            *t,
            *f,
            t.roadwarriors@.len() as int,
        ),
        final(minted).node_keys == old(minted).node_keys,
        final(minted).link_obfuscation == old(minted).link_obfuscation,
{
    let ghost before = text::texts(minted.names@);
    let mut out_keys: Vec<(String, String)> = Vec::new();
    let mut out: Vec<(String, Obfuscation)> = Vec::new();
    let mut i: usize = 0;
    assert(text::texts(minted.names@) =~= before + pool_routes(*t, *f, 0));
    while i < t.roadwarriors.len()
        invariant
            i <= t.roadwarriors@.len(),
            are_pool_keys(*t, *f, i as int, out_keys@),
            are_pools(*t, *f, i as int, out@),
            are_pools_minted(*t, *f, i as int, minted.pools@),
            text::texts(minted.names@) == before + pool_routes(*t, *f, i as int),
            minted.node_keys == old(minted).node_keys,
            minted.link_obfuscation == old(minted).link_obfuscation,
        decreases t.roadwarriors@.len() - i,
    {
        let pool = &t.roadwarriors[i];
        let (key, private_key) = resolve_key(&pool.private_key, &f.pool_keys[i]);
        let (resolved, generated) = resolve_unless_plain(
            pool.plain,
            &pool.obfuscation,
            &t.obfuscation,
            &f.pools[i],
        );
        if private_key.is_some() {
            push_text(&mut minted.names, route_of_pool_key(pool));
        }
        if generated.is_some() {
            push_text(&mut minted.names, route_of_pool_obfuscation(pool));
        }
        assert(text::texts(minted.names@) =~= before + pool_routes(*t, *f, i + 1));
        if private_key.is_some() || generated.is_some() {
            minted.pools.push(
                PoolMinted { name: pool.name.clone(), private_key, obfuscation: generated },
            );
        }
        out_keys.push((pool.name.clone(), key));
        out.push((pool.name.clone(), resolved));
        i += 1;
    }
    (out_keys, out)
}

/// Resolves a topology's secrets, with `fresh` for what it leaves unset.
pub fn resolve_with(t: &MeshConfig, fresh: &Fresh) -> (r: (ResolvedSecrets, Minted))
    requires
        fits(*t, *fresh),
    ensures
        is_settled(*t, *fresh, r.0),
        is_minted(*t, *fresh, r.1),
{
    let mut minted = Minted {
        node_keys: Vec::new(),
        link_obfuscation: Vec::new(),
        pools: Vec::new(),
        names: Vec::new(),
    };
    let mesh_private_keys = resolve_nodes(t, fresh, &mut minted);
    let mesh_link_obfuscation = resolve_links(t, fresh, &mut minted);
    let (roadwarrior_private_keys, roadwarrior_obfuscation) = resolve_pools(t, fresh, &mut minted);
    let resolved = ResolvedSecrets {
        mesh_private_keys,
        mesh_link_obfuscation,
        roadwarrior_private_keys,
        roadwarrior_obfuscation,
    };
    (resolved, minted)
}

/// Resolves a topology's secrets, generating what it leaves unset.
pub fn resolve(topology: &MeshConfig) -> (r: (ResolvedSecrets, Minted))
    ensures
        exists|f: Fresh| #[trigger]
            is_drawn(*topology, f) && is_settled(*topology, f, r.0) && is_minted(
                *topology,
                f,
                r.1,
            ),
{
    let fresh = draw(topology);
    resolve_with(topology, &fresh)
}

/// `t2` is `t` with everything that was generated written into the field it belongs to.
pub open spec fn is_recorded(t: MeshConfig, f: Fresh, t2: MeshConfig) -> bool {
    &&& t2.obfuscation == t.obfuscation
    &&& t2.nodes@.len() == t.nodes@.len()
    &&& forall|i: int|
        0 <= i < t.nodes@.len() ==> (#[trigger] t2.nodes@[i]).mesh_private_key is Some
            && t2.nodes@[i].mesh_private_key->0@ == settled_key(
            t.nodes@[i].mesh_private_key,
            f.node_keys@[i],
        )
    &&& t2.mesh.links@.len() == t.mesh.links@.len()
    &&& forall|i: int|
        0 <= i < t.mesh.links@.len() ==> (#[trigger] t2.mesh.links@[i]).plain
            == t.mesh.links@[i].plain && t2.mesh.links@[i].obfuscation == recorded_obfuscation(
            t.mesh.links@[i].obfuscation,
            link_minted(t, f, i),
        )
    &&& t2.roadwarriors@.len() == t.roadwarriors@.len()
    &&& forall|i: int|
        0 <= i < t.roadwarriors@.len() ==> (#[trigger] t2.roadwarriors@[i]).plain
            == t.roadwarriors@[i].plain && t2.roadwarriors@[i].private_key is Some
            && t2.roadwarriors@[i].private_key->0@ == settled_key(
            t.roadwarriors@[i].private_key,
            f.pool_keys@[i],
        ) && t2.roadwarriors@[i].obfuscation == recorded_obfuscation(
            t.roadwarriors@[i].obfuscation,
            pool_minted(t, f, i),
        )
}

/// An entry's own parameters once what was generated for it has been written in.
pub open spec fn recorded_obfuscation(
    own: Obfuscation,
    generated: Option<Obfuscation>,
) -> Obfuscation {
    match generated {
        Some(g) => obfuscation::over(own, g),
        None => own,
    }
}

proof fn lemma_over_unset(a: Obfuscation)
    ensures
        obfuscation::over(a, obfuscation::unset()) == a,
{
    let x = obfuscation::over(a, obfuscation::unset());
    let y = a;
    assert(x.jc == y.jc);
    assert(x.jmin == y.jmin);
    assert(x.jmax == y.jmax);
    assert(x.s1 == y.s1);
    assert(x.s2 == y.s2);
    assert(x.s3 == y.s3);
    assert(x.s4 == y.s4);
    assert(x.h1 == y.h1);
    assert(x.h2 == y.h2);
    assert(x.h3 == y.h3);
    assert(x.h4 == y.h4);
    assert(x.i1 == y.i1);
    assert(x.i2 == y.i2);
    assert(x.i3 == y.i3);
    assert(x.i4 == y.i4);
    assert(x.i5 == y.i5);
    assert(x.header_protection_key == y.header_protection_key);
    assert(x.content_padding_addition == y.content_padding_addition);
    assert(x.rekey_after_time == y.rekey_after_time);
    assert(x.rekey_timeout == y.rekey_timeout);
    assert(x.reject_after_time == y.reject_after_time);
    assert(x.keepalive_timeout == y.keepalive_timeout);
    assert(x.max_handshake_attempts == y.max_handshake_attempts);
    assert(x.random_trailers == y.random_trailers);
    assert(x.disable_cookies == y.disable_cookies);
}

/// Once recorded, an entry takes nothing from fresh values and comes out as before.
proof fn lemma_recorded(
    own: Obfuscation,
    global: Obfuscation,
    fresh: Obfuscation,
    again: Obfuscation,
)
    requires
        obfuscation_gen::is_generated(fresh),
        obfuscation_gen::is_generated(again),
    ensures
        ({
            let own2 = recorded_obfuscation(own, minted_obfuscation(false, own, global, fresh));
            &&& minted_obfuscation(false, own2, global, again) is None
            &&& settled_obfuscation(false, own2, global, again) == settled_obfuscation(
                false,
                own,
                global,
                fresh,
            )
        }),
{
    let b = obfuscation::beyond(obfuscation::over(own, global), fresh);
    let own2 = obfuscation::over(own, b);
    if b == obfuscation::unset() {
        lemma_over_unset(own);
    }
    assert(own2 == recorded_obfuscation(own, minted_obfuscation(false, own, global, fresh)));
    let x = obfuscation::over(obfuscation::over(own2, global), again);
    let y = obfuscation::over(obfuscation::over(own, global), fresh);
    assert(x.jc == y.jc);
    assert(x.jmin == y.jmin);
    assert(x.jmax == y.jmax);
    assert(x.s1 == y.s1);
    assert(x.s2 == y.s2);
    assert(x.s3 == y.s3);
    assert(x.s4 == y.s4);
    assert(x.h1 == y.h1);
    assert(x.h2 == y.h2);
    assert(x.h3 == y.h3);
    assert(x.h4 == y.h4);
    assert(x.i1 == y.i1);
    assert(x.i2 == y.i2);
    assert(x.i3 == y.i3);
    assert(x.i4 == y.i4);
    assert(x.i5 == y.i5);
    assert(x.header_protection_key == y.header_protection_key);
    assert(x.content_padding_addition == y.content_padding_addition);
    assert(x.rekey_after_time == y.rekey_after_time);
    assert(x.rekey_timeout == y.rekey_timeout);
    assert(x.reject_after_time == y.reject_after_time);
    assert(x.keepalive_timeout == y.keepalive_timeout);
    assert(x.max_handshake_attempts == y.max_handshake_attempts);
    assert(x.random_trailers == y.random_trailers);
    assert(x.disable_cookies == y.disable_cookies);
    let g = obfuscation::beyond(obfuscation::over(own2, global), again);
    let u = obfuscation::unset();
    assert(g.jc == u.jc);
    assert(g.jmin == u.jmin);
    assert(g.jmax == u.jmax);
    assert(g.s1 == u.s1);
    assert(g.s2 == u.s2);
    assert(g.s3 == u.s3);
    assert(g.s4 == u.s4);
    assert(g.h1 == u.h1);
    assert(g.h2 == u.h2);
    assert(g.h3 == u.h3);
    assert(g.h4 == u.h4);
    assert(g.i1 == u.i1);
    assert(g.i2 == u.i2);
    assert(g.i3 == u.i3);
    assert(g.i4 == u.i4);
    assert(g.i5 == u.i5);
    assert(g.header_protection_key == u.header_protection_key);
    assert(g.content_padding_addition == u.content_padding_addition);
    assert(g.rekey_after_time == u.rekey_after_time);
    assert(g.rekey_timeout == u.rekey_timeout);
    assert(g.reject_after_time == u.reject_after_time);
    assert(g.keepalive_timeout == u.keepalive_timeout);
    assert(g.max_handshake_attempts == u.max_handshake_attempts);
    assert(g.random_trailers == u.random_trailers);
    assert(g.disable_cookies == u.disable_cookies);
    assert(x == y);
    assert(g == u);
}

proof fn lemma_no_routes(t: MeshConfig, f: Fresh, n: int, l: int, p: int)
    requires
        0 <= n <= t.nodes@.len(),
        0 <= l <= t.mesh.links@.len(),
        0 <= p <= t.roadwarriors@.len(),
        forall|i: int| 0 <= i < n ==> (#[trigger] t.nodes@[i]).mesh_private_key is Some,
        forall|i: int| 0 <= i < l ==> #[trigger] link_minted(t, f, i) is None,
        forall|i: int|
            0 <= i < p ==> (#[trigger] t.roadwarriors@[i]).private_key is Some && pool_minted(
                t,
                f,
                i,
            ) is None,
    ensures
        node_routes(t, n).len() == 0,
        link_routes(t, f, l).len() == 0,
        pool_routes(t, f, p).len() == 0,
    decreases n + l + p,
{
    if n > 0 {
        assert(t.nodes@[n - 1].mesh_private_key is Some);
        lemma_no_routes(t, f, n - 1, l, p);
    }
    if l > 0 {
        assert(link_minted(t, f, l - 1) is None);
        lemma_no_routes(t, f, n, l - 1, p);
    }
    if p > 0 {
        assert(t.roadwarriors@[p - 1].private_key is Some);
        lemma_no_routes(t, f, n, l, p - 1);
    }
}

/// Law: once what a run generated has been recorded, the next run generates nothing, and resolves
/// every secret to the same value.
pub proof fn second_run_mints_nothing(t: MeshConfig, f: Fresh, t2: MeshConfig, f2: Fresh)
    requires
        is_drawn(t, f),
        is_recorded(t, f, t2),
        is_drawn(t2, f2),
    ensures
        routes(t2, f2).len() == 0,
        forall|i: int|
            0 <= i < t.nodes@.len() ==> settled_key(
                (#[trigger] t2.nodes@[i]).mesh_private_key,
                f2.node_keys@[i],
            ) == settled_key(t.nodes@[i].mesh_private_key, f.node_keys@[i]),
        forall|i: int|
            0 <= i < t.mesh.links@.len() ==> #[trigger] link_settled(t2, f2, i) == link_settled(
                t,
                f,
                i,
            ),
        forall|i: int|
            0 <= i < t.roadwarriors@.len() ==> settled_key(
                (#[trigger] t2.roadwarriors@[i]).private_key,
                f2.pool_keys@[i],
            ) == settled_key(t.roadwarriors@[i].private_key, f.pool_keys@[i]),
        forall|i: int|
            0 <= i < t.roadwarriors@.len() ==> #[trigger] pool_settled(t2, f2, i) == pool_settled(
                t,
                f,
                i,
            ),
{
    assert forall|i: int| 0 <= i < t.mesh.links@.len() implies #[trigger] link_minted(
        t2,
        f2,
        i,
    ) is None && link_settled(t2, f2, i) == link_settled(t, f, i) by {
        let link = t2.mesh.links@[i];
        assert(obfuscation_gen::is_generated(f.links@[i]));
        assert(obfuscation_gen::is_generated(f2.links@[i]));
        if !link.plain {
            lemma_recorded(
                t.mesh.links@[i].obfuscation,
                t.obfuscation,
                f.links@[i],
                f2.links@[i],
            );
        }
    }
    assert forall|i: int| 0 <= i < t.roadwarriors@.len() implies #[trigger] pool_minted(
        t2,
        f2,
        i,
    ) is None && pool_settled(t2, f2, i) == pool_settled(t, f, i) by {
        let pool = t2.roadwarriors@[i];
        assert(obfuscation_gen::is_generated(f.pools@[i]));
        assert(obfuscation_gen::is_generated(f2.pools@[i]));
        if !pool.plain {
            lemma_recorded(
                t.roadwarriors@[i].obfuscation,
                t.obfuscation,
                f.pools@[i],
                f2.pools@[i],
            );
        }
    }
    assert forall|i: int| 0 <= i < t.mesh.links@.len() implies #[trigger] link_settled(t2, f2, i)
        == link_settled(t, f, i) by {
        assert(link_minted(t2, f2, i) is None);
    }
    assert forall|i: int| 0 <= i < t.roadwarriors@.len() implies #[trigger] pool_settled(t2, f2, i)
        == pool_settled(t, f, i) by {
        assert(pool_minted(t2, f2, i) is None);
    }
    lemma_no_routes(
        t2,
        f2,
        t2.nodes@.len() as int,
        t2.mesh.links@.len() as int,
        t2.roadwarriors@.len() as int,
    );
}

/// Law: what an entry sets itself, and what the topology sets where the entry does not, comes
/// through resolution unchanged; a plain entry has no parameters and is given none.
pub proof fn settings_come_through(own: Obfuscation, global: Obfuscation, fresh: Obfuscation)
    ensures
        ({
            let r = settled_obfuscation(false, own, global, fresh);
            obfuscation::over(obfuscation::over(own, global), r) == r
        }),
        settled_obfuscation(true, own, global, fresh) == obfuscation::unset(),
        minted_obfuscation(true, own, global, fresh) is None,
{
    assert({
        let r = settled_obfuscation(false, own, global, fresh);
        obfuscation::over(obfuscation::over(own, global), r) == r
    }) by {
        let y = settled_obfuscation(false, own, global, fresh);
        let x = obfuscation::over(obfuscation::over(own, global), y);
        assert(x.jc == y.jc);
        assert(x.jmin == y.jmin);
        assert(x.jmax == y.jmax);
        assert(x.s1 == y.s1);
        assert(x.s2 == y.s2);
        assert(x.s3 == y.s3);
        assert(x.s4 == y.s4);
        assert(x.h1 == y.h1);
        assert(x.h2 == y.h2);
        assert(x.h3 == y.h3);
        assert(x.h4 == y.h4);
        assert(x.i1 == y.i1);
        assert(x.i2 == y.i2);
        assert(x.i3 == y.i3);
        assert(x.i4 == y.i4);
        assert(x.i5 == y.i5);
        assert(x.header_protection_key == y.header_protection_key);
        assert(x.content_padding_addition == y.content_padding_addition);
        assert(x.rekey_after_time == y.rekey_after_time);
        assert(x.rekey_timeout == y.rekey_timeout);
        assert(x.reject_after_time == y.reject_after_time);
        assert(x.keepalive_timeout == y.keepalive_timeout);
        assert(x.max_handshake_attempts == y.max_handshake_attempts);
        assert(x.random_trailers == y.random_trailers);
        assert(x.disable_cookies == y.disable_cookies);
    }
}

/// Law: what is resolved for a node, a link or a pool is what it sets itself; a key that it leaves
/// unset is the one drawn for it, and no other's. A plain link or pool has no obfuscation at all.
pub proof fn own_values_are_kept(t: MeshConfig, f: Fresh, r: ResolvedSecrets, i: int)
    requires
        is_settled(t, f, r),
    ensures
        0 <= i < t.nodes@.len() ==> {
            &&& r.mesh_private_keys@.len() == t.nodes@.len()
            &&& r.mesh_private_keys@[i].0@ == t.nodes@[i].name@
            &&& t.nodes@[i].mesh_private_key is Some ==> r.mesh_private_keys@[i].1@
                == t.nodes@[i].mesh_private_key->0@
            &&& t.nodes@[i].mesh_private_key is None ==> r.mesh_private_keys@[i].1@
                == f.node_keys@[i]@
        },
        0 <= i < t.roadwarriors@.len() ==> {
            &&& r.roadwarrior_private_keys@.len() == t.roadwarriors@.len()
            &&& r.roadwarrior_obfuscation@.len() == t.roadwarriors@.len()
            &&& r.roadwarrior_private_keys@[i].0@ == t.roadwarriors@[i].name@
            &&& r.roadwarrior_obfuscation@[i].0@ == t.roadwarriors@[i].name@
            &&& t.roadwarriors@[i].private_key is Some ==> r.roadwarrior_private_keys@[i].1@
                == t.roadwarriors@[i].private_key->0@
            &&& t.roadwarriors@[i].private_key is None ==> r.roadwarrior_private_keys@[i].1@
                == f.pool_keys@[i]@
            &&& t.roadwarriors@[i].plain ==> r.roadwarrior_obfuscation@[i].1
                == obfuscation::unset()
        },
        0 <= i < t.mesh.links@.len() ==> {
            &&& r.mesh_link_obfuscation@.len() == t.mesh.links@.len()
            &&& r.mesh_link_obfuscation@[i].0@ == key_of_link(
                t.mesh.links@[i].pair@[0]@,
                t.mesh.links@[i].pair@[1]@,
            )
            &&& t.mesh.links@[i].plain ==> r.mesh_link_obfuscation@[i].1 == obfuscation::unset()
        },
{
    if 0 <= i < t.nodes@.len() {
        assert(r.mesh_private_keys@[i].0@ == t.nodes@[i].name@);
    }
    if 0 <= i < t.roadwarriors@.len() {
        assert(r.roadwarrior_private_keys@[i].0@ == t.roadwarriors@[i].name@);
        assert(r.roadwarrior_obfuscation@[i].0@ == t.roadwarriors@[i].name@);
    }
    if 0 <= i < t.mesh.links@.len() {
        assert(r.mesh_link_obfuscation@[i].0@ == key_of_link(
            t.mesh.links@[i].pair@[0]@,
            t.mesh.links@[i].pair@[1]@,
        ));
    }
}

/// Law: for a link or a pool that is not plain, each junk and header parameter is its own, or else
/// the topology's, or else the one drawn for it.
pub proof fn parameters_come_from_the_nearest(
    own: Obfuscation,
    global: Obfuscation,
    fresh: Obfuscation,
)
    ensures
        settled_obfuscation(false, own, global, fresh).jc == (if own.jc is Some {
            own.jc
        } else if global.jc is Some {
            global.jc
        } else {
            fresh.jc
        }),
        settled_obfuscation(false, own, global, fresh).jmin == (if own.jmin is Some {
            own.jmin
        } else if global.jmin is Some {
            global.jmin
        } else {
            fresh.jmin
        }),
        settled_obfuscation(false, own, global, fresh).jmax == (if own.jmax is Some {
            own.jmax
        } else if global.jmax is Some {
            global.jmax
        } else {
            fresh.jmax
        }),
        settled_obfuscation(false, own, global, fresh).s1 == (if own.s1 is Some {
            own.s1
        } else if global.s1 is Some {
            global.s1
        } else {
            fresh.s1
        }),
        settled_obfuscation(false, own, global, fresh).s2 == (if own.s2 is Some {
            own.s2
        } else if global.s2 is Some {
            global.s2
        } else {
            fresh.s2
        }),
        settled_obfuscation(false, own, global, fresh).s3 == (if own.s3 is Some {
            own.s3
        } else if global.s3 is Some {
            global.s3
        } else {
            fresh.s3
        }),
        settled_obfuscation(false, own, global, fresh).s4 == (if own.s4 is Some {
            own.s4
        } else if global.s4 is Some {
            global.s4
        } else {
            fresh.s4
        }),
        settled_obfuscation(false, own, global, fresh).h1 == (if own.h1 is Some {
            own.h1
        } else if global.h1 is Some {
            global.h1
        } else {
            fresh.h1
        }),
        settled_obfuscation(false, own, global, fresh).h2 == (if own.h2 is Some {
            own.h2
        } else if global.h2 is Some {
            global.h2
        } else {
            fresh.h2
        }),
        settled_obfuscation(false, own, global, fresh).h3 == (if own.h3 is Some {
            own.h3
        } else if global.h3 is Some {
            global.h3
        } else {
            fresh.h3
        }),
        settled_obfuscation(false, own, global, fresh).h4 == (if own.h4 is Some {
            own.h4
        } else if global.h4 is Some {
            global.h4
        } else {
            fresh.h4
        }),
{
}

/// Law: a key is generated for a node if and only if the node has none, and it is the one drawn for
/// that node.
pub proof fn node_key_is_minted_iff_unset(t: MeshConfig, f: Fresh, n: int, i: usize, key: String)
    requires
        0 <= n <= t.nodes@.len() <= usize::MAX,
    ensures
        fresh_node_keys(t, f, n).contains((i, key)) <==> i < n && t.nodes@[i as int].mesh_private_key
            is None && key == f.node_keys@[i as int],
    decreases n,
{
    if n > 0 {
        node_key_is_minted_iff_unset(t, f, n - 1, i, key);
        let before = fresh_node_keys(t, f, n - 1);
        let now = fresh_node_keys(t, f, n);
        if before.contains((i, key)) {
            let k = choose|k: int| 0 <= k < before.len() && before[k] == (i, key);
            assert(now[k] == (i, key));
        }
        if now.len() > before.len() {
            assert(now[before.len() as int] == ((n - 1) as usize, f.node_keys@[n - 1]));
        }
        if now.contains((i, key)) {
            let k = choose|k: int| 0 <= k < now.len() && now[k] == (i, key);
            if k < before.len() {
                assert(before[k] == (i, key));
            }
        }
    }
}

/// Law: parameters are generated for a link if and only if it is not plain and something is left
/// unset by it and by the topology. They are what was drawn for that link and is left unset.
pub proof fn link_is_minted_iff_unset(
    t: MeshConfig,
    f: Fresh,
    n: int,
    i: usize,
    o: Obfuscation,
)
    requires
        0 <= n <= t.mesh.links@.len() <= usize::MAX,
    ensures
        fresh_links(t, f, n).contains((i, o)) <==> i < n && !t.mesh.links@[i as int].plain && o
            != obfuscation::unset() && o == obfuscation::beyond(
            obfuscation::over(t.mesh.links@[i as int].obfuscation, t.obfuscation),
            f.links@[i as int],
        ),
    decreases n,
{
    if n > 0 {
        link_is_minted_iff_unset(t, f, n - 1, i, o);
        let before = fresh_links(t, f, n - 1);
        let now = fresh_links(t, f, n);
        if before.contains((i, o)) {
            let k = choose|k: int| 0 <= k < before.len() && before[k] == (i, o);
            assert(now[k] == (i, o));
        }
        if now.len() > before.len() {
            assert(now[before.len() as int] == (
                (n - 1) as usize,
                link_minted(t, f, n - 1)->0,
            ));
        }
        if now.contains((i, o)) {
            let k = choose|k: int| 0 <= k < now.len() && now[k] == (i, o);
            if k < before.len() {
                assert(before[k] == (i, o));
            }
        }
    }
}

/// The place of pool `i` among those that take anything fresh.
proof fn lemma_fresh_pool(t: MeshConfig, f: Fresh, n: int, i: int) -> (k: int)
    requires
        0 <= i < n <= t.roadwarriors@.len(),
        fresh_pool_key(t, f, i) is Some || pool_minted(t, f, i) is Some,
    ensures
        0 <= k < fresh_pools(t, f, n).len(),
        fresh_pools(t, f, n)[k] == i,
    decreases n,
{
    if i == n - 1 {
        fresh_pools(t, f, n - 1).len() as int
    } else {
        lemma_fresh_pool(t, f, n - 1, i)
    }
}

proof fn lemma_fresh_pools(t: MeshConfig, f: Fresh, n: int, k: int)
    requires
        n <= t.roadwarriors@.len(),
        0 <= k < fresh_pools(t, f, n).len(),
    ensures
        0 <= fresh_pools(t, f, n)[k] < n,
        fresh_pool_key(t, f, fresh_pools(t, f, n)[k]) is Some || pool_minted(
            t,
            f,
            fresh_pools(t, f, n)[k],
        ) is Some,
    decreases n,
{
    if n > 0 && k < fresh_pools(t, f, n - 1).len() {
        lemma_fresh_pools(t, f, n - 1, k);
    }
}

/// Law: a pool without a key gets the one drawn for it, and what is generated names the pool that it
/// is for. Nothing is generated for a pool that has a key and lacks no parameter.
pub proof fn pool_is_minted_iff_unset(t: MeshConfig, f: Fresh, m: Minted, i: int)
    requires
        is_minted(t, f, m),
        0 <= i < t.roadwarriors@.len(),
    ensures
        t.roadwarriors@[i].private_key is None ==> exists|k: int|
            0 <= k < m.pools@.len() && (#[trigger] m.pools@[k]).name@ == t.roadwarriors@[i].name@
                && m.pools@[k].private_key == Some(f.pool_keys@[i]),
        forall|k: int|
            0 <= k < m.pools@.len() ==> (#[trigger] m.pools@[k]).private_key is Some
                || m.pools@[k].obfuscation is Some,
{
    let n = t.roadwarriors@.len() as int;
    if t.roadwarriors@[i].private_key is None {
        let k = lemma_fresh_pool(t, f, n, i);
        assert(is_pool_minted(t, f, i, m.pools@[k]));
    }
    assert forall|k: int| 0 <= k < m.pools@.len() implies (#[trigger] m.pools@[k]).private_key
        is Some || m.pools@[k].obfuscation is Some by {
        lemma_fresh_pools(t, f, n, k);
        assert(is_pool_minted(t, f, fresh_pools(t, f, n)[k], m.pools@[k]));
    }
}

} // verus!
