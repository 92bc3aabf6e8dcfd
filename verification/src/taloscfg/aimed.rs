//! Which documents of a file reach a host, and what becomes of them there.

use crate::assoc;
use crate::common::obfuscation::Obfuscation;
use crate::patches::mesh_config::MeshConfig;
use crate::taloscfg::document;
use crate::taloscfg::generate;
use crate::taloscfg::minted;
use crate::taloscfg::minted::GeneratedObfuscation;
use crate::taloscfg::minted::Minted;
use crate::taloscfg::secrets;
use crate::taloscfg::secrets::ResolvedSecrets;
use crate::taloscfg::slipmesh_file;
use crate::taloscfg::slipmesh_file::Document;
use crate::taloscfg::slipmesh_file::IdentityModel;
use crate::taloscfg::slipmesh_file::Kind;
use crate::taloscfg::slipmesh_file::Reached;
use crate::taloscfg::slipmesh_file::SlipmeshFile;
use crate::text;
use crate::value::Tree;
use vstd::prelude::*;

verus! {

/// Law: the documents of a kind are those of that kind, each once and in file order.
pub proof fn kinds_are_told_apart(docs: Seq<Document>, kind: Kind, n: int, i: int)
    requires
        0 <= n <= docs.len(),
    ensures
        slipmesh_file::of_kind(docs, kind, n).contains(i) <==> 0 <= i < n && docs[i].meta.kind
            == kind,
        forall|a: int, b: int|
            0 <= a < b < slipmesh_file::of_kind(docs, kind, n).len() ==> (
            #[trigger] slipmesh_file::of_kind(docs, kind, n)[a]) < (
            #[trigger] slipmesh_file::of_kind(docs, kind, n)[b]),
        forall|a: int|
            0 <= a < slipmesh_file::of_kind(docs, kind, n).len() ==> 0 <= (
            #[trigger] slipmesh_file::of_kind(docs, kind, n)[a]) < n,
    decreases n,
{
    if n > 0 {
        kinds_are_told_apart(docs, kind, n - 1, i);
        let before = slipmesh_file::of_kind(docs, kind, n - 1);
        let now = slipmesh_file::of_kind(docs, kind, n);
        if before.contains(i) {
            let k = choose|k: int| 0 <= k < before.len() && before[k] == i;
            assert(now[k] == i);
        }
        if now.len() > before.len() {
            assert(now[before.len() as int] == n - 1);
        }
        if now.contains(i) {
            let k = choose|k: int| 0 <= k < now.len() && now[k] == i;
            if k < before.len() {
                assert(before[k] == i);
            }
        }
    }
}

/// Law: a document reaches a host if and only if its list of hosts, where it has one, names the host,
/// and its list of exceptions does not. Those that reach it are taken in file order.
pub proof fn reaching_is_by_the_lists(
    docs: Seq<Document>,
    at: Seq<int>,
    host: Seq<char>,
    n: int,
    k: int,
)
    requires
        0 <= n <= at.len(),
    ensures
        slipmesh_file::reaching(docs, at, host, n).contains(k) <==> 0 <= k < n && (
        docs[at[k]].meta.include_hosts is None || text::texts(
            docs[at[k]].meta.include_hosts->0@,
        ).contains(host)) && (docs[at[k]].meta.exclude_hosts is None || !text::texts(
            docs[at[k]].meta.exclude_hosts->0@,
        ).contains(host)),
        forall|a: int, b: int|
            0 <= a < b < slipmesh_file::reaching(docs, at, host, n).len() ==> (
            #[trigger] slipmesh_file::reaching(docs, at, host, n)[a]) < (
            #[trigger] slipmesh_file::reaching(docs, at, host, n)[b]),
        forall|a: int|
            0 <= a < slipmesh_file::reaching(docs, at, host, n).len() ==> 0 <= (
            #[trigger] slipmesh_file::reaching(docs, at, host, n)[a]) < n,
    decreases n,
{
    if n > 0 {
        reaching_is_by_the_lists(docs, at, host, n - 1, k);
        let before = slipmesh_file::reaching(docs, at, host, n - 1);
        let now = slipmesh_file::reaching(docs, at, host, n);
        if before.contains(k) {
            let q = choose|q: int| 0 <= q < before.len() && before[q] == k;
            assert(now[q] == k);
        }
        if now.len() > before.len() {
            assert(now[before.len() as int] == n - 1);
        }
        if now.contains(k) {
            let q = choose|q: int| 0 <= q < now.len() && now[q] == k;
            if q < before.len() {
                assert(before[q] == k);
            }
        }
    }
}

/// Law: a host gets a ruleset if and only if one reaches it, and it is the first that does.
pub proof fn ruleset_is_the_one_that_reaches(f: SlipmeshFile, host: Seq<char>, k: int)
    requires
        0 <= k < f.rulesets@.len(),
        ({
            let d = f.documents@[f.rulesets@[k] as int];
            &&& d.meta.include_hosts is None || text::texts(d.meta.include_hosts->0@).contains(host)
            &&& d.meta.exclude_hosts is None || !text::texts(d.meta.exclude_hosts->0@).contains(
                host,
            )
        }),
        forall|j: int|
            0 <= j < k ==> {
                let d = f.documents@[#[trigger] f.rulesets@[j] as int];
                ||| d.meta.include_hosts is Some && !text::texts(
                    d.meta.include_hosts->0@,
                ).contains(host)
                ||| d.meta.exclude_hosts is Some && text::texts(d.meta.exclude_hosts->0@).contains(
                    host,
                )
            },
    ensures
        generate::ruleset_for(f, host) == Some(f.ruleset_texts@[k].ruleset@),
{
    let at = document::ints(f.rulesets@);
    let n = at.len() as int;
    let r = slipmesh_file::reaching(f.documents@, at, host, n);
    assert(at[k] == f.rulesets@[k]);
    reaching_is_by_the_lists(f.documents@, at, host, n, k);
    let q = choose|q: int| 0 <= q < r.len() && r[q] == k;
    let first = r[0];
    reaching_is_by_the_lists(f.documents@, at, host, n, first);
    assert(r.contains(first));
    if first < k {
        assert(at[first] == f.rulesets@[first]);
        assert(false);
    }
    if q > 0 {
        assert(r[0] < r[q]);
    }
}

/// The patches of an identity that name the host, or do not.
proof fn lemma_sources(v: Seq<Reached>, id: IdentityModel, aimed: bool, n: int, t: Tree)
    requires
        0 <= n <= v.len(),
    ensures
        slipmesh_file::sources(v, id, aimed, n).contains(t) <==> exists|i: int|
            0 <= i < n && (#[trigger] v[i]).0 == aimed && v[i].1 == t && slipmesh_file::identity_of(
                v[i].1,
            ) == id,
    decreases n,
{
    if n > 0 {
        lemma_sources(v, id, aimed, n - 1, t);
        let before = slipmesh_file::sources(v, id, aimed, n - 1);
        let now = slipmesh_file::sources(v, id, aimed, n);
        assert(v[n - 1].0 == v[n - 1].0);
        if before.contains(t) {
            let k = choose|k: int| 0 <= k < before.len() && before[k] == t;
            assert(now[k] == t);
        }
        if now.len() > before.len() {
            assert(now[before.len() as int] == v[n - 1].1);
        }
        if now.contains(t) {
            let k = choose|k: int| 0 <= k < now.len() && now[k] == t;
            if k < before.len() {
                assert(before[k] == t);
            }
        }
    }
}

/// Law: what is merged for an identity is every patch of that identity that reaches the host, and
/// nothing else. Those that name the host come behind those that do not.
pub proof fn every_patch_is_merged(v: Seq<Reached>, id: IdentityModel, t: Tree)
    ensures
        slipmesh_file::all_sources(v, id).contains(t) <==> exists|i: int|
            0 <= i < v.len() && (#[trigger] v[i]).1 == t && slipmesh_file::identity_of(t) == id,
        ({
            let first = slipmesh_file::sources(v, id, false, v.len() as int);
            let all = slipmesh_file::all_sources(v, id);
            &&& forall|k: int|
                0 <= k < first.len() ==> exists|i: int|
                    0 <= i < v.len() && !(#[trigger] v[i]).0 && v[i].1 == #[trigger] all[k]
            &&& forall|k: int|
                first.len() <= k < all.len() ==> exists|i: int|
                    0 <= i < v.len() && (#[trigger] v[i]).0 && v[i].1 == #[trigger] all[k]
        }),
{
    let n = v.len() as int;
    let a = slipmesh_file::sources(v, id, false, n);
    let b = slipmesh_file::sources(v, id, true, n);
    let all = slipmesh_file::all_sources(v, id);
    lemma_sources(v, id, false, n, t);
    lemma_sources(v, id, true, n, t);
    if all.contains(t) {
        let k = choose|k: int| 0 <= k < all.len() && all[k] == t;
        if k < a.len() {
            assert(a[k] == t);
        } else {
            assert(b[k - a.len()] == t);
        }
    }
    if a.contains(t) {
        let k = choose|k: int| 0 <= k < a.len() && a[k] == t;
        assert(all[k] == t);
    }
    if b.contains(t) {
        let k = choose|k: int| 0 <= k < b.len() && b[k] == t;
        assert(all[a.len() + k] == t);
    }
    if exists|i: int|
        0 <= i < v.len() && (#[trigger] v[i]).1 == t && slipmesh_file::identity_of(t) == id {
        let i = choose|i: int|
            0 <= i < v.len() && (#[trigger] v[i]).1 == t && slipmesh_file::identity_of(t) == id;
        assert(v[i].0 || !v[i].0);
    }
    assert forall|k: int| 0 <= k < a.len() implies exists|i: int|
        0 <= i < v.len() && !(#[trigger] v[i]).0 && v[i].1 == #[trigger] all[k] by {
        assert(a[k] == all[k]);
        assert(a.contains(all[k]));
        lemma_sources(v, id, false, n, all[k]);
    }
    assert forall|k: int| a.len() <= k < all.len() implies exists|i: int|
        0 <= i < v.len() && (#[trigger] v[i]).0 && v[i].1 == #[trigger] all[k] by {
        assert(b[k - a.len()] == all[k]);
        assert(b.contains(all[k]));
        lemma_sources(v, id, true, n, all[k]);
    }
}

/// Law: a host's file has one document for each identity among the patches that reach it.
pub proof fn one_document_for_each_identity(v: Seq<Reached>, n: int, k: int)
    requires
        0 <= n <= v.len(),
        0 <= k < n,
    ensures
        exists|q: int|
            0 <= q < slipmesh_file::firsts(v, n).len() && 0 <= (#[trigger] slipmesh_file::firsts(
                v,
                n,
            )[q]) < n && slipmesh_file::identity_of(v[slipmesh_file::firsts(v, n)[q]].1)
                == slipmesh_file::identity_of(v[k].1),
        forall|a: int, b: int|
            0 <= a < b < slipmesh_file::firsts(v, n).len() ==> 0 <= (
            #[trigger] slipmesh_file::firsts(v, n)[a]) < (#[trigger] slipmesh_file::firsts(v, n)[b])
                < n && slipmesh_file::identity_of(v[slipmesh_file::firsts(v, n)[a]].1)
                != slipmesh_file::identity_of(v[slipmesh_file::firsts(v, n)[b]].1),
    decreases n,
{
    lemma_firsts(v, n);
    lemma_first_of(v, n, k);
}

proof fn lemma_firsts(v: Seq<Reached>, n: int)
    requires
        0 <= n <= v.len(),
    ensures
        forall|a: int|
            0 <= a < slipmesh_file::firsts(v, n).len() ==> 0 <= (#[trigger] slipmesh_file::firsts(
                v,
                n,
            )[a]) < n,
        forall|a: int, b: int|
            0 <= a < b < slipmesh_file::firsts(v, n).len() ==> (#[trigger] slipmesh_file::firsts(
                v,
                n,
            )[a]) < (#[trigger] slipmesh_file::firsts(v, n)[b]) && slipmesh_file::identity_of(
                v[slipmesh_file::firsts(v, n)[a]].1,
            ) != slipmesh_file::identity_of(v[slipmesh_file::firsts(v, n)[b]].1),
    decreases n,
{
    if n > 0 {
        lemma_firsts(v, n - 1);
        let before = slipmesh_file::firsts(v, n - 1);
        let now = slipmesh_file::firsts(v, n);
        assert forall|a: int, b: int| 0 <= a < b < now.len() implies (#[trigger] now[a]) < (
        #[trigger] now[b]) && slipmesh_file::identity_of(v[now[a]].1)
            != slipmesh_file::identity_of(v[now[b]].1) by {
            if b < before.len() {
                assert(now[a] == before[a] && now[b] == before[b]);
            } else {
                assert(now[a] == before[a]);
                assert(now[b] == n - 1);
                assert(slipmesh_file::identity_of(v[before[a]].1) != slipmesh_file::identity_of(
                    v[n - 1].1,
                ));
            }
        }
    }
}

proof fn lemma_first_of(v: Seq<Reached>, n: int, k: int)
    requires
        0 <= k < n <= v.len(),
    ensures
        exists|q: int|
            0 <= q < slipmesh_file::firsts(v, n).len() && 0 <= (#[trigger] slipmesh_file::firsts(
                v,
                n,
            )[q]) < n && slipmesh_file::identity_of(v[slipmesh_file::firsts(v, n)[q]].1)
                == slipmesh_file::identity_of(v[k].1),
    decreases n,
{
    let before = slipmesh_file::firsts(v, n - 1);
    let now = slipmesh_file::firsts(v, n);
    if k < n - 1 {
        lemma_first_of(v, n - 1, k);
        let q = choose|q: int|
            0 <= q < before.len() && 0 <= (#[trigger] before[q]) < n - 1
                && slipmesh_file::identity_of(v[before[q]].1) == slipmesh_file::identity_of(v[k].1);
        assert(now[q] == before[q]);
    } else if slipmesh_file::is_first(v, k) {
        assert(now[before.len() as int] == k);
    } else {
        let j = choose|j: int|
            0 <= j < k && slipmesh_file::identity_of((#[trigger] v[j]).1)
                == slipmesh_file::identity_of(v[k].1);
        lemma_first_of(v, n - 1, j);
        let q = choose|q: int|
            0 <= q < before.len() && 0 <= (#[trigger] before[q]) < n - 1
                && slipmesh_file::identity_of(v[before[q]].1) == slipmesh_file::identity_of(v[j].1);
        assert(now[q] == before[q]);
    }
}

/// Law: a key is recorded for a node if and only if the node sets none, and it is the one that was
/// resolved for it.
pub proof fn node_key_is_recorded_iff_unset(
    t: MeshConfig,
    r: ResolvedSecrets,
    n: int,
    i: usize,
    key: String,
)
    requires
        0 <= n <= t.nodes@.len() <= usize::MAX,
    ensures
        minted::minted_node_keys(t, r, n).contains((i, key)) <==> i < n
            && t.nodes@[i as int].mesh_private_key is None && key == minted::node_key(
            t,
            r,
            i as int,
        )->0,
    decreases n,
{
    if n > 0 {
        node_key_is_recorded_iff_unset(t, r, n - 1, i, key);
        let before = minted::minted_node_keys(t, r, n - 1);
        let now = minted::minted_node_keys(t, r, n);
        if before.contains((i, key)) {
            let k = choose|k: int| 0 <= k < before.len() && before[k] == (i, key);
            assert(now[k] == (i, key));
        }
        if now.len() > before.len() {
            assert(now[before.len() as int] == (
                (n - 1) as usize,
                minted::node_key(t, r, n - 1)->0,
            ));
        }
        if now.contains((i, key)) {
            let k = choose|k: int| 0 <= k < now.len() && now[k] == (i, key);
            if k < before.len() {
                assert(before[k] == (i, key));
            }
        }
    }
}

/// Law: parameters are recorded for a link if and only if it is not plain and something was resolved
/// for it that neither it nor the topology sets. They are those fields.
pub proof fn link_is_recorded_iff_unset(
    t: MeshConfig,
    r: ResolvedSecrets,
    n: int,
    i: usize,
    g: GeneratedObfuscation,
)
    requires
        0 <= n <= t.mesh.links@.len() <= usize::MAX,
    ensures
        minted::minted_links(t, r, n).contains((i, g)) <==> {
            let link = t.mesh.links@[i as int];
            let resolved = assoc::value_of(
                r.mesh_link_obfuscation@,
                secrets::key_of_link(link.pair@[0]@, link.pair@[1]@),
            );
            &&& i < n
            &&& !link.plain
            &&& resolved is Some
            &&& g == minted::generated_of(resolved->0, link.obfuscation, t.obfuscation)
            &&& g != minted::no_fields()
        },
    decreases n,
{
    if n > 0 {
        link_is_recorded_iff_unset(t, r, n - 1, i, g);
        let before = minted::minted_links(t, r, n - 1);
        let now = minted::minted_links(t, r, n);
        if before.contains((i, g)) {
            let k = choose|k: int| 0 <= k < before.len() && before[k] == (i, g);
            assert(now[k] == (i, g));
        }
        if now.len() > before.len() {
            assert(now[before.len() as int] == (
                (n - 1) as usize,
                minted::link_generated(t, r, n - 1)->0,
            ));
        }
        if now.contains((i, g)) {
            let k = choose|k: int| 0 <= k < now.len() && now[k] == (i, g);
            if k < before.len() {
                assert(before[k] == (i, g));
            }
        }
    }
}

/// The place of pool `i` among those that anything is recorded for.
proof fn lemma_recorded_pool(t: MeshConfig, r: ResolvedSecrets, n: int, i: int) -> (k: int)
    requires
        0 <= i < n <= t.roadwarriors@.len(),
        minted::minted_pool_key(t, r, i) is Some || minted::pool_generated(t, r, i) is Some,
    ensures
        0 <= k < minted::minted_pools(t, r, n).len(),
        minted::minted_pools(t, r, n)[k] == i,
    decreases n,
{
    if i == n - 1 {
        minted::minted_pools(t, r, n - 1).len() as int
    } else {
        lemma_recorded_pool(t, r, n - 1, i)
    }
}

/// Law: for a pool that sets no key, the key that was resolved for it is recorded under its name, and
/// with it those parameters that neither it nor the topology sets.
pub proof fn pool_is_recorded_where_unset(
    t: MeshConfig,
    r: ResolvedSecrets,
    m: Minted,
    i: int,
    o: Obfuscation,
)
    requires
        minted::is_minted(t, r, m),
        0 <= i < t.roadwarriors@.len(),
        t.roadwarriors@[i].private_key is None,
        assoc::value_of(r.roadwarrior_private_keys@, t.roadwarriors@[i].name@) is Some,
        assoc::value_of(r.roadwarrior_obfuscation@, t.roadwarriors@[i].name@) == Some(o),
    ensures
        exists|k: int|
            {
                let p = #[trigger] m.pools@[k];
                let pool = t.roadwarriors@[i];
                let g = minted::generated_of(o, pool.obfuscation, t.obfuscation);
                &&& 0 <= k < m.pools@.len()
                &&& p.name@ == pool.name@
                &&& p.private_key == assoc::value_of(r.roadwarrior_private_keys@, pool.name@)
                &&& p.obfuscation is Some <==> !pool.plain && g != minted::no_fields()
                &&& p.obfuscation is Some ==> p.obfuscation->0 == g
            },
{
    let k = lemma_recorded_pool(t, r, t.roadwarriors@.len() as int, i);
    assert(minted::is_pool_minted(t, r, i, m.pools@[k]));
}

/// Law: each kind of document is told by its name, and by no other.
pub proof fn kinds_have_their_names(k: Kind, s: Seq<char>)
    ensures
        slipmesh_file::kind_named(slipmesh_file::kind_name(k)) == Some(k),
        slipmesh_file::kind_named(s) == Some(k) ==> s == slipmesh_file::kind_name(k),
        slipmesh_file::kind_name(Kind::Network) == "network"@,
        slipmesh_file::kind_name(Kind::Roadwarriors) == "roadwarriors"@,
        slipmesh_file::kind_name(Kind::Nftables) == "nftables"@,
        slipmesh_file::kind_name(Kind::Patch) == "patch"@,
{
    reveal_strlit("network");
    reveal_strlit("roadwarriors");
    reveal_strlit("nftables");
    reveal_strlit("patch");
    assert("network"@.len() == 7 && "roadwarriors"@.len() == 12 && "nftables"@.len() == 8
        && "patch"@.len() == 5);
}

} // verus!
