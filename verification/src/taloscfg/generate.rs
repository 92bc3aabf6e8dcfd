//! What the generator does with a file that has been read: settles its secrets, renders every
//! host's configs, and puts patch files together.

use crate::assoc;
use crate::awg::config as awg_config;
use crate::awg::config::AwgConfig;
use crate::nftables::config as nftables_config;
use crate::nftables::config::NftablesConfig;
use crate::nftables::template;
use crate::offset;
use crate::patches::mesh_config;
use crate::patches::mesh_config::MeshConfig;
use crate::patches::render;
use crate::patches::render::ExistingState;
use crate::patches::render::NothingStored;
use crate::patches::render::RenderError;
use crate::router::config as router_config;
use crate::router::config::RouterConfig;
use crate::taloscfg::document;
use crate::taloscfg::emit::EmitError;
use crate::taloscfg::minted;
use crate::taloscfg::minted::Minted;
use crate::taloscfg::record;
use crate::taloscfg::secrets;
use crate::taloscfg::secrets::Fresh;
use crate::taloscfg::secrets::ResolvedSecrets;
use crate::taloscfg::segments;
use crate::taloscfg::slipmesh_file;
use crate::taloscfg::slipmesh_file::Document;
use crate::taloscfg::slipmesh_file::FileError;
use crate::taloscfg::slipmesh_file::HostDocument;
use crate::taloscfg::slipmesh_file::SlipmeshFile;
use crate::text;
use crate::value;
use crate::value::Tree;
use crate::value::Value;
use crate::yaml;
use vstd::prelude::*;

verus! {

/// Why nothing is generated.
#[derive(Debug, PartialEq)]
pub enum GenerateError {
    /// The node asked for is not in the file.
    UnknownNode,
    File(FileError),
    Render(RenderError),
    /// The rendered config of the interface daemon is refused by the daemon.
    InvalidAwg(awg_config::ConfigError),
    /// The rendered config of the routing daemon is refused by the daemon.
    InvalidRouter(router_config::ConfigError),
    /// The ruleset refers to placeholders that nothing fills in.
    InvalidRuleset,
    /// Secrets are missing, and a dry run writes none down: these would be minted.
    Unminted(Vec<String>),
}

/// The hosts to generate for: the one asked for, else all of them in order.
pub fn targets(file: &SlipmeshFile, node: Option<&str>) -> (r: Result<Vec<String>, GenerateError>)
    ensures
        match (node, r) {
            (Some(n), Ok(v)) => mesh_config::known(file.topology.nodes@, n@) && text::texts(v@)
                == seq![n@],
            (Some(n), Err(e)) => e is UnknownNode && !mesh_config::known(
                file.topology.nodes@,
                n@,
            ),
            (None, Ok(v)) => text::texts(v@) == Seq::new(
                file.topology.nodes@.len(),
                |i: int| file.topology.nodes@[i].name@,
            ),
            (None, Err(_)) => false,
        },
{
    let mut out: Vec<String> = Vec::new();
    match node {
        Some(n) => {
            if !mesh_config::is_known(&file.topology.nodes, n) {
                return Err(GenerateError::UnknownNode);
            }
            out.push(n.to_owned());
            assert(text::texts(out@) =~= seq![n@]);
        },
        None => {
            let nodes = &file.topology.nodes;
            let mut i: usize = 0;
            while i < nodes.len()
                invariant
                    i <= nodes@.len(),
                    out@.len() == i,
                    forall|k: int| 0 <= k < i ==> (#[trigger] out@[k])@ == nodes@[k].name@,
                decreases nodes@.len() - i,
            {
                out.push(nodes[i].name.clone());
                i += 1;
            }
            assert(text::texts(out@) =~= Seq::new(nodes@.len(), |i: int| nodes@[i].name@));
        },
    }
    Ok(out)
}

/// What settling comes to, given fresh values: the resolved secrets and what was minted.
pub open spec fn is_settlement(
    t: MeshConfig,
    fresh: Fresh,
    resolved: ResolvedSecrets,
    m: Minted,
) -> bool {
    render::resolves(t, NothingStored, fresh, resolved) && minted::is_minted(t, resolved, m)
}

/// What settling can come to.
pub open spec fn can_settle(t: MeshConfig, resolved: ResolvedSecrets, m: Minted) -> bool {
    exists|f: Fresh| secrets::is_drawn(t, f) && #[trigger] is_settlement(t, f, resolved, m)
}

/// What settling can mint, by how messages name it.
pub open spec fn can_mint(t: MeshConfig, routes: Seq<Seq<char>>) -> bool {
    exists|resolved: ResolvedSecrets, m: Minted| #[trigger]
        can_settle(t, resolved, m) && routes == text::texts(m.names@)
}

/// Everything that a topology leaves unset is resolved.
pub proof fn lemma_nothing_lacks<E: ExistingState>(
    t: MeshConfig,
    had: E,
    fresh: Fresh,
    r: ResolvedSecrets,
)
    requires
        render::resolves(t, had, fresh, r),
    ensures
        forall|i: int| 0 <= i < t.nodes@.len() ==> !#[trigger] minted::node_lacks(t, r, i),
        forall|i: int| 0 <= i < t.roadwarriors@.len() ==> !#[trigger] minted::pool_lacks(t, r, i),
{
    let back = choose|back: Fresh| #[trigger]
        render::falls_back(t, had, fresh, back) && secrets::is_settled(t, back, r);
    assert forall|i: int| 0 <= i < t.nodes@.len() implies !#[trigger] minted::node_lacks(
        t,
        r,
        i,
    ) by {
        assert(r.mesh_private_keys@[i].0@ == t.nodes@[i].name@);
        assoc::lemma_has_value(r.mesh_private_keys@, i);
    }
    assert forall|i: int| 0 <= i < t.roadwarriors@.len() implies !#[trigger] minted::pool_lacks(
        t,
        r,
        i,
    ) by {
        assert(r.roadwarrior_private_keys@[i].0@ == t.roadwarriors@[i].name@);
        assoc::lemma_has_value(r.roadwarrior_private_keys@, i);
    }
}

/// Settles the secrets of a topology. On a dry run, needing to mint anything is an error: a value
/// that is never written down would differ on the next run.
pub fn settle_secrets(topology: &MeshConfig, dry_run: bool) -> (r: Result<
    (ResolvedSecrets, Minted),
    GenerateError,
>)
    ensures
        r matches Ok((resolved, m)) ==> can_settle(*topology, resolved, m) && (dry_run
            ==> m.names@.len() == 0),
        r is Err ==> dry_run && r->Err_0 is Unminted,
        r matches Err(GenerateError::Unminted(routes)) ==> dry_run && routes@.len() > 0 && can_mint(
            *topology,
            text::texts(routes@),
        ),
{
    let fresh = secrets::draw(topology);
    let resolved = render::resolve_secrets_with(topology, &NothingStored, &fresh);
    assert(render::resolves(*topology, NothingStored, fresh, resolved));
    proof {
        lemma_nothing_lacks(*topology, NothingStored, fresh, resolved);
    }
    match minted::minted(topology, &resolved) {
        Err(_) => {
            assert(false);
            Err(GenerateError::Unminted(Vec::new()))
        },
        Ok(m) => {
            assert(is_settlement(*topology, fresh, resolved, m));
            assert(can_settle(*topology, resolved, m));
            if dry_run && !m.is_empty() {
                let routes = m.routes();
                assert(text::texts(routes@).len() == routes@.len());
                assert(text::texts(m.names@).len() == m.names@.len());
                assert(can_mint(*topology, text::texts(routes@)));
                return Err(GenerateError::Unminted(routes));
            }
            Ok((resolved, m))
        },
    }
}

/// Why what was minted cannot be written into the file.
#[derive(Clone, Copy, Debug, PartialEq, Eq, Structural)]
pub enum RecordFileError {
    /// A pool is in no document.
    NoPoolDocument,
    /// A document does not take a value.
    NotAdded(EmitError),
    /// The documents do not lie in the file one after the other.
    Misplaced,
}

/// The first pool, from `k` on, among those that anything was minted for, whose document is at `i`.
pub open spec fn minted_at(f: SlipmeshFile, pools: Seq<minted::PoolMinted>, i: int, k: int) -> Option<
    minted::PoolMinted,
>
    decreases pools.len() - k,
{
    if k >= pools.len() {
        None
    } else if slipmesh_file::pool_at(
        f.documents@,
        document::ints(f.pools@),
        pools[k].name@,
        0,
    ) == Some(i) {
        Some(pools[k])
    } else {
        minted_at(f, pools, i, k + 1)
    }
}

/// Document `i` with what was minted for it written in.
pub open spec fn document_recorded(raw: Seq<char>, f: SlipmeshFile, m: Minted, i: int) -> Result<
    Seq<char>,
    EmitError,
> {
    let span = f.documents@[i].span;
    let body = offset::part(raw, span.start as int, span.end as int);
    if i == f.network {
        record::network_recorded(body, m)
    } else {
        match minted_at(f, m.pools@, i, 0) {
            Some(p) => record::pool_recorded(body, p),
            None => Ok(body),
        }
    }
}

/// A document lies in the file, between characters.
#[verifier::opaque]
pub open spec fn is_placed(raw: Seq<char>, d: Document) -> bool {
    d.span.start <= d.span.end && offset::is_boundary(raw, d.span.start as int)
        && offset::is_boundary(raw, d.span.end as int)
}

/// Document `i` comes after the one ahead of it.
pub open spec fn follows(docs: Seq<Document>, i: int) -> bool {
    docs[i - 1].span.end <= docs[i].span.start
}

/// The documents lie in the file one after the other.
pub open spec fn in_order(raw: Seq<char>, docs: Seq<Document>) -> bool {
    &&& forall|i: int| 0 <= i < docs.len() ==> is_placed(raw, #[trigger] docs[i])
    &&& forall|i: int| 1 <= i < docs.len() ==> #[trigger] follows(docs, i)
}

/// The file up to the end of document `n - 1`, with what was minted written in.
pub open spec fn recorded_up_to(raw: Seq<char>, f: SlipmeshFile, m: Minted, n: int) -> Result<
    Seq<char>,
    EmitError,
>
    decreases n,
{
    if n <= 0 {
        Ok(Seq::empty())
    } else {
        let from = if n == 1 {
            0
        } else {
            f.documents@[n - 2].span.end as int
        };
        match (recorded_up_to(raw, f, m, n - 1), document_recorded(raw, f, m, n - 1)) {
            (Err(e), _) => Err(e),
            (_, Err(e)) => Err(e),
            (Ok(head), Ok(d)) => Ok(
                head + offset::part(raw, from, f.documents@[n - 1].span.start as int) + d,
            ),
        }
    }
}

/// The file with everything that was minted written in, each document where it was.
pub open spec fn file_recorded(raw: Seq<char>, f: SlipmeshFile, m: Minted) -> Result<
    Seq<char>,
    RecordFileError,
> {
    if exists|k: int|
        0 <= k < m.pools@.len() && slipmesh_file::pool_at(
            f.documents@,
            document::ints(f.pools@),
            (#[trigger] m.pools@[k]).name@,
            0,
        ) is None {
        Err(RecordFileError::NoPoolDocument)
    } else if !in_order(raw, f.documents@) {
        Err(RecordFileError::Misplaced)
    } else {
        let n = f.documents@.len() as int;
        match recorded_up_to(raw, f, m, n) {
            Err(e) => Err(RecordFileError::NotAdded(e)),
            Ok(s) => Ok(
                s + offset::part(
                    raw,
                    if n == 0 {
                        0
                    } else {
                        f.documents@[n - 1].span.end as int
                    },
                    offset::size(raw),
                ),
            ),
        }
    }
}

fn find_minted<'a>(f: &SlipmeshFile, pools: &'a Vec<minted::PoolMinted>, i: usize) -> (r: Option<
    &'a minted::PoolMinted,
>)
    requires
        slipmesh_file::file_wf(*f),
    ensures
        match r {
            Some(p) => minted_at(*f, pools@, i as int, 0) == Some(*p),
            None => minted_at(*f, pools@, i as int, 0) is None,
        },
{
    let mut k: usize = 0;
    while k < pools.len()
        invariant
            k <= pools@.len(),
            slipmesh_file::file_wf(*f),
            minted_at(*f, pools@, i as int, 0) == minted_at(*f, pools@, i as int, k as int),
        decreases pools@.len() - k,
    {
        if let Some(at) = f.find_pool(pools[k].name.as_str()) {
            if at == i {
                return Some(&pools[k]);
            }
        }
        k += 1;
    }
    None
}

fn has_all_pools(f: &SlipmeshFile, pools: &Vec<minted::PoolMinted>) -> (r: bool)
    requires
        slipmesh_file::file_wf(*f),
    ensures
        r == !exists|k: int|
            0 <= k < pools@.len() && slipmesh_file::pool_at(
                f.documents@,
                document::ints(f.pools@),
                (#[trigger] pools@[k]).name@,
                0,
            ) is None,
{
    let mut k: usize = 0;
    while k < pools.len()
        invariant
            k <= pools@.len(),
            slipmesh_file::file_wf(*f),
            forall|j: int|
                0 <= j < k ==> slipmesh_file::pool_at(
                    f.documents@,
                    document::ints(f.pools@),
                    (#[trigger] pools@[j]).name@,
                    0,
                ) is Some,
        decreases pools@.len() - k,
    {
        if f.find_pool(pools[k].name.as_str()).is_none() {
            return false;
        }
        k += 1;
    }
    true
}

fn lies_in(v: &Vec<char>, d: &Document) -> (r: bool)
    ensures
        r == is_placed(v@, *d),
{
    proof {
        reveal(is_placed);
    }
    let (a, b): (usize, usize) = (d.span.start, d.span.end);
    a <= b && offset::find_position(v.as_slice(), a).is_some() && offset::find_position(
        v.as_slice(),
        b,
    ).is_some()
}

fn are_in_order(v: &Vec<char>, docs: &Vec<Document>) -> (r: bool)
    ensures
        r == in_order(v@, docs@),
{
    let mut i: usize = 0;
    while i < docs.len()
        invariant
            i <= docs@.len(),
            forall|k: int| 0 <= k < i ==> is_placed(v@, #[trigger] docs@[k]),
            forall|k: int| 1 <= k < i ==> #[trigger] follows(docs@, k),
        decreases docs@.len() - i,
    {
        if !lies_in(v, &docs[i]) {
            return false;
        }
        if i > 0 && docs[i - 1].span.end > docs[i].span.start {
            assert(!follows(docs@, i as int));
            return false;
        }
        i += 1;
    }
    true
}

/// The text ahead of a document, from the end of the one before it, and the document's own.
fn cut_document(v: &Vec<char>, from: usize, d: &Document) -> (r: (String, String))
    requires
        is_placed(v@, *d),
        offset::is_boundary(v@, from as int),
        from <= d.span.start,
    ensures
        r.0@ == offset::part(v@, from as int, d.span.start as int),
        r.1@ == offset::part(v@, d.span.start as int, d.span.end as int),
        offset::is_boundary(v@, d.span.end as int),
{
    proof {
        reveal(is_placed);
    }
    (
        document::cut_bytes(v, from, d.span.start),
        document::cut_bytes(v, d.span.start, d.span.end),
    )
}

/// What is left of a text from an offset on.
fn cut_rest(raw: &str, v: &Vec<char>, from: usize) -> (r: String)
    requires
        v@ == raw@,
        offset::is_boundary(raw@, from as int),
    ensures
        r@ == offset::part(raw@, from as int, offset::size(raw@)),
{
    let end: usize = offset::byte_len(raw);
    proof {
        offset::lemma_ends(raw@);
        offset::lemma_increasing(raw@, offset::position(raw@, from as int), raw@.len() as int);
    }
    document::cut_bytes(v, from, end)
}

fn record_document(body: &str, f: &SlipmeshFile, m: &Minted, i: usize) -> (r: Result<
    String,
    EmitError,
>)
    requires
        slipmesh_file::file_wf(*f),
        i < f.documents@.len(),
    ensures
        match r {
            Ok(s) => (if i == f.network {
                record::network_recorded(body@, *m)
            } else {
                match minted_at(*f, m.pools@, i as int, 0) {
                    Some(p) => record::pool_recorded(body@, p),
                    None => Ok(body@),
                }
            }) == Ok::<Seq<char>, EmitError>(s@),
            Err(e) => (if i == f.network {
                record::network_recorded(body@, *m)
            } else {
                match minted_at(*f, m.pools@, i as int, 0) {
                    Some(p) => record::pool_recorded(body@, p),
                    None => Ok(body@),
                }
            }) == Err::<Seq<char>, EmitError>(e),
        },
{
    if i == f.network {
        return record::record_network(body, m);
    }
    match find_minted(f, &m.pools, i) {
        Some(p) => record::record_pool(body, p),
        None => Ok(body.to_owned()),
    }
}

proof fn lemma_recorded_err(
    raw: Seq<char>,
    f: SlipmeshFile,
    m: Minted,
    n: int,
    to: int,
    e: EmitError,
)
    requires
        n <= to,
        recorded_up_to(raw, f, m, n) == Err::<Seq<char>, EmitError>(e),
    ensures
        recorded_up_to(raw, f, m, to) == Err::<Seq<char>, EmitError>(e),
    decreases to - n,
{
    if n < to {
        lemma_recorded_err(raw, f, m, n, to - 1, e);
    }
}

fn record_documents(raw: &str, v: &Vec<char>, f: &SlipmeshFile, m: &Minted) -> (r: Result<
    (String, usize),
    EmitError,
>)
    requires
        slipmesh_file::file_wf(*f),
        v@ == raw@,
        in_order(raw@, f.documents@),
    ensures
        match r {
            Ok((s, end)) => {
                &&& recorded_up_to(raw@, *f, *m, f.documents@.len() as int) == Ok::<
                    Seq<char>,
                    EmitError,
                >(s@)
                &&& end == f.documents@[f.documents@.len() - 1].span.end
                &&& offset::is_boundary(raw@, end as int)
            },
            Err(e) => recorded_up_to(raw@, *f, *m, f.documents@.len() as int) == Err::<
                Seq<char>,
                EmitError,
            >(e),
        },
{
    let mut out = String::new();
    let mut cursor: usize = 0;
    let mut i: usize = 0;
    proof {
        offset::lemma_ends(raw@);
    }
    assert(out@ =~= Seq::empty());
    while i < f.documents.len()
        invariant
            slipmesh_file::file_wf(*f),
            v@ == raw@,
            in_order(raw@, f.documents@),
            i <= f.documents@.len(),
            i == 0 ==> cursor == 0,
            i > 0 ==> cursor == f.documents@[i - 1].span.end,
            offset::is_boundary(raw@, cursor as int),
            recorded_up_to(raw@, *f, *m, i as int) == Ok::<Seq<char>, EmitError>(out@),
        decreases f.documents@.len() - i,
    {
        let d = &f.documents[i];
        assert(is_placed(raw@, f.documents@[i as int]));
        if i > 0 {
            assert(follows(f.documents@, i as int));
        }
        let (between, body) = cut_document(v, cursor, d);
        match record_document(body.as_str(), f, m, i) {
            Ok(s) => {
                out.push_str(between.as_str());
                out.push_str(s.as_str());
            },
            Err(e) => {
                proof {
                    assert(recorded_up_to(raw@, *f, *m, i + 1) == Err::<Seq<char>, EmitError>(e));
                    lemma_recorded_err(raw@, *f, *m, i + 1, f.documents@.len() as int, e);
                }
                return Err(e);
            },
        }
        cursor = d.span.end;
        i += 1;
    }
    Ok((out, cursor))
}

/// Writes everything that was minted into the fields of the file that it belongs to.
pub fn record_file(raw: &str, f: &SlipmeshFile, m: &Minted) -> (r: Result<String, RecordFileError>)
    requires
        slipmesh_file::file_wf(*f),
    ensures
        match r {
            Ok(s) => file_recorded(raw@, *f, *m) == Ok::<Seq<char>, RecordFileError>(s@),
            Err(e) => file_recorded(raw@, *f, *m) == Err::<Seq<char>, RecordFileError>(e),
        },
{
    if !has_all_pools(f, &m.pools) {
        return Err(RecordFileError::NoPoolDocument);
    }
    let v = text::chars_of(raw);
    if !are_in_order(&v, &f.documents) {
        return Err(RecordFileError::Misplaced);
    }
    match record_documents(raw, &v, f, m) {
        Ok((s, end)) => {
            let mut out = s;
            let tail = cut_rest(raw, &v, end);
            out.push_str(tail.as_str());
            Ok(out)
        },
        Err(e) => Err(RecordFileError::NotAdded(e)),
    }
}

/// The configs of one host, found valid, and the documents that go ahead of them.
#[derive(Debug, PartialEq)]
pub struct HostPlan {
    pub awg: AwgConfig,
    pub router: RouterConfig,
    pub nftables: Option<NftablesConfig>,
    pub patches: Vec<HostDocument>,
}

/// The ruleset aimed at a host.
pub open spec fn ruleset_for(f: SlipmeshFile, host: Seq<char>) -> Option<Seq<char>> {
    let at = slipmesh_file::reaching(
        f.documents@,
        document::ints(f.rulesets@),
        host,
        f.rulesets@.len() as int,
    );
    if at.len() > 0 {
        Some(f.ruleset_texts@[at[0]].ruleset@)
    } else {
        None
    }
}

/// Every placeholder of a ruleset can be filled in.
pub open spec fn is_fillable(ruleset: Seq<char>) -> bool {
    forall|t: Seq<char>| template::refers_to(ruleset, t) ==> template::is_known(t)
}

/// A ruleset as a daemon's config.
pub open spec fn is_ruleset(n: Option<NftablesConfig>, ruleset: Option<Seq<char>>) -> bool {
    match (n, ruleset) {
        (Some(n), Some(s)) => n.ruleset@ == s,
        (None, None) => true,
        _ => false,
    }
}

/// A host's configs, each found valid by the daemon that it is for.
pub open spec fn is_plan(
    f: SlipmeshFile,
    resolved: ResolvedSecrets,
    host: Seq<char>,
    p: HostPlan,
) -> bool {
    let v = slipmesh_file::reached(f.documents@, document::ints(f.patches@), host);
    &&& render::is_awg_config(f.topology, host, resolved, p.awg)
    &&& awg_config::config_error(p.awg) is None
    &&& render::is_router_config(f.topology, host, p.router)
    &&& router_config::config_error(p.router) is None
    &&& is_ruleset(p.nftables, ruleset_for(f, host))
    &&& p.nftables is Some ==> is_fillable(p.nftables->0.ruleset@)
    &&& slipmesh_file::are_host_documents(v, v.len() as int, p.patches@)
}

/// Why a host's configs cannot be rendered. Where a daemon refuses a config, it is one that was
/// rendered for the host.
pub open spec fn is_refused(
    f: SlipmeshFile,
    resolved: ResolvedSecrets,
    host: Seq<char>,
    e: GenerateError,
) -> bool {
    match e {
        GenerateError::File(FileError::NotAHost) => !mesh_config::known(f.topology.nodes@, host),
        GenerateError::File(FileError::NotWritten) => !slipmesh_file::all_written(
            slipmesh_file::reached(f.documents@, document::ints(f.patches@), host),
        ),
        GenerateError::Render(e) => render::mesh_interfaces_error(f.topology, resolved, host)
            == Some(e) || (render::mesh_interfaces_error(f.topology, resolved, host) is None
            && render::router_error(f.topology, host) == Some(e)),
        GenerateError::InvalidAwg(e) => exists|c: AwgConfig| #[trigger]
            render::is_awg_config(f.topology, host, resolved, c) && awg_config::config_error(c)
                == Some(e),
        GenerateError::InvalidRouter(e) => exists|c: RouterConfig| #[trigger]
            render::is_router_config(f.topology, host, c) && router_config::config_error(c) == Some(
                e,
            ),
        GenerateError::InvalidRuleset => ruleset_for(f, host) is Some && !is_fillable(
            ruleset_for(f, host)->0,
        ),
        _ => false,
    }
}

/// Renders and validates everything that one host's patch file is made of.
pub fn render_host(file: &SlipmeshFile, resolved: &ResolvedSecrets, host: &str) -> (r: Result<
    HostPlan,
    GenerateError,
>)
    requires
        slipmesh_file::file_wf(*file),
    ensures
        match r {
            Ok(p) => mesh_config::known(file.topology.nodes@, host@) && is_plan(
                *file,
                *resolved,
                host@,
                p,
            ),
            Err(e) => is_refused(*file, *resolved, host@, e),
        },
{
    let model = match file.effective_for(host) {
        Ok(x) => x,
        Err(e) => {
            return Err(GenerateError::File(e));
        },
    };
    let awg = match render::render_awg_config(model.topology, host, resolved) {
        Ok(c) => c,
        Err(e) => {
            return Err(GenerateError::Render(e));
        },
    };
    match awg_config::validate(&awg) {
        Ok(_) => {},
        Err(e) => {
            return Err(GenerateError::InvalidAwg(e));
        },
    }
    let router = match render::render_router_config(model.topology, host) {
        Ok(c) => c,
        Err(e) => {
            return Err(GenerateError::Render(e));
        },
    };
    match router_config::validate(&router) {
        Ok(_) => {},
        Err(e) => {
            return Err(GenerateError::InvalidRouter(e));
        },
    }
    let nftables: Option<NftablesConfig> = match model.nftables {
        Some(n) => Some(NftablesConfig { ruleset: n.ruleset.clone() }),
        None => None,
    };
    assert(is_ruleset(nftables, ruleset_for(*file, host@)));
    if let Some(c) = &nftables {
        match nftables_config::validate(c) {
            Ok(_) => {},
            Err(e) => {
                proof {
                    let t = text::texts(e.names@)[0];
                    assert(text::texts(e.names@).contains(t));
                    assert(template::refers_to(c.ruleset@, t) && !template::is_known(t));
                }
                return Err(GenerateError::InvalidRuleset);
            },
        }
    }
    let patches = match file.patches_for(host) {
        Ok(v) => v,
        Err(e) => {
            return Err(GenerateError::File(e));
        },
    };
    Ok(HostPlan { awg, router, nftables, patches })
}

/// A host's file can be rendered.
pub open spec fn is_renderable(f: SlipmeshFile, resolved: ResolvedSecrets, host: Seq<char>) -> bool {
    exists|p: HostPlan| is_plan(f, resolved, host, p)
}

/// Renders every host in turn: all of them, before any is written, so that a host that fails leaves
/// the patch files as a set. An error comes with the position of the first host that it is about.
pub fn render_hosts(
    file: &SlipmeshFile,
    resolved: &ResolvedSecrets,
    hosts: &Vec<String>,
) -> (r: Result<Vec<HostPlan>, (usize, GenerateError)>)
    requires
        slipmesh_file::file_wf(*file),
    ensures
        match r {
            Ok(v) => {
                &&& v@.len() == hosts@.len()
                &&& forall|i: int|
                    0 <= i < v@.len() ==> is_plan(*file, *resolved, hosts@[i]@, #[trigger] v@[i])
            },
            Err((n, e)) => {
                &&& n < hosts@.len()
                &&& is_refused(*file, *resolved, hosts@[n as int]@, e)
                &&& forall|i: int|
                    0 <= i < n ==> is_renderable(*file, *resolved, (#[trigger] hosts@[i])@)
            },
        },
{
    let mut out: Vec<HostPlan> = Vec::new();
    let mut i: usize = 0;
    while i < hosts.len()
        invariant
            i <= hosts@.len(),
            out@.len() == i,
            slipmesh_file::file_wf(*file),
            forall|k: int|
                0 <= k < i ==> is_plan(*file, *resolved, hosts@[k]@, #[trigger] out@[k]),
        decreases hosts@.len() - i,
    {
        match render_host(file, resolved, hosts[i].as_str()) {
            Ok(p) => out.push(p),
            Err(e) => {
                proof {
                    assert forall|k: int| 0 <= k < i implies is_renderable(
                        *file,
                        *resolved,
                        (#[trigger] hosts@[k])@,
                    ) by {
                        assert(is_plan(*file, *resolved, hosts@[k]@, out@[k]));
                    }
                }
                return Err((i, e));
            },
        }
        i += 1;
    }
    Ok(out)
}

/// What one owned document says: where the daemon reads its config, and the config.
pub open spec fn extension_tree(name: Seq<char>, mount_path: Seq<char>, inner: Seq<char>) -> Tree {
    Tree::Mapping(
        seq![
            (Tree::Text("apiVersion"@), Tree::Text("v1alpha1"@)),
            (Tree::Text("kind"@), Tree::Text("ExtensionServiceConfig"@)),
            (Tree::Text("name"@), Tree::Text(name)),
            (
                Tree::Text("configFiles"@),
                Tree::Sequence(
                    seq![
                        Tree::Mapping(
                            seq![
                                (Tree::Text("mountPath"@), Tree::Text(mount_path)),
                                (Tree::Text("content"@), Tree::Text(inner)),
                            ],
                        ),
                    ],
                ),
            ),
        ],
    )
}

fn pair(key: &str, s: &str) -> (r: (Value, Value))
    ensures
        value::tree(r.0) == Tree::Text(key@),
        value::tree(r.1) == Tree::Text(s@),
{
    (Value::Text(key.to_owned()), Value::Text(s.to_owned()))
}

/// Renders one owned document around a daemon's serialized config. `None` where it cannot be
/// written as YAML.
pub fn render_extension_service_document(name: &str, mount_path: &str, inner_yaml: &str) -> (r:
    Option<String>)
    ensures
        text::text_opt(r) == yaml::yaml_text(extension_tree(name@, mount_path@, inner_yaml@)),
{
    let mut file: Vec<(Value, Value)> = Vec::new();
    file.push(pair("mountPath", mount_path));
    file.push(pair("content", inner_yaml));
    let file_value = Value::Mapping(file);
    proof {
        value::lemma_tree(file_value);
        assert(value::pairs(file@) =~= seq![
            (Tree::Text("mountPath"@), Tree::Text(mount_path@)),
            (Tree::Text("content"@), Tree::Text(inner_yaml@)),
        ]);
    }
    let mut files: Vec<Value> = Vec::new();
    files.push(file_value);
    let list = Value::Sequence(files);
    proof {
        value::lemma_tree(list);
        assert(value::trees(files@) =~= seq![value::tree(file_value)]);
    }
    let mut entries: Vec<(Value, Value)> = Vec::new();
    entries.push(pair("apiVersion", "v1alpha1"));
    entries.push(pair("kind", "ExtensionServiceConfig"));
    entries.push(pair("name", name));
    entries.push((Value::Text("configFiles".to_owned()), list));
    let document = Value::Mapping(entries);
    proof {
        value::lemma_tree(document);
        assert(value::pairs(entries@) =~= extension_tree(
            name@,
            mount_path@,
            inner_yaml@,
        )->Mapping_0);
    }
    yaml::format(&document)
}

/// What opens every patch file.
pub const HEADER: &'static str =
    "# Generated by slipmesh-taloscfg from slipmesh.yaml - edit that file, not this one.\n";

/// A host's patch file: what opens it, the documents aimed at the host, then the generated ones.
pub fn host_file(patches: &Vec<HostDocument>, generated: &Vec<String>) -> (r: String)
    ensures
        r@ == HEADER@ + (segments::joined(
            Seq::new(patches@.len(), |i: int| patches@[i].text@) + text::texts(generated@),
        ) + seq!['\n']),
{
    let mut texts: Vec<String> = Vec::new();
    let mut i: usize = 0;
    while i < patches.len()
        invariant
            i <= patches@.len(),
            texts@.len() == i,
            forall|k: int| 0 <= k < i ==> (#[trigger] texts@[k])@ == patches@[k].text@,
        decreases patches@.len() - i,
    {
        texts.push(patches[i].text.clone());
        i += 1;
    }
    assert(text::texts(texts@) =~= Seq::new(patches@.len(), |i: int| patches@[i].text@));
    let body = segments::render_file(&texts, generated);
    text::join2(HEADER, body.as_str())
}

/// What a line of a diff is.
#[derive(Clone, Copy, Debug, PartialEq, Eq, Structural)]
pub enum ChangeTag {
    Delete,
    Insert,
    Equal,
}

/// What goes ahead of a line of a diff, and what goes after it to end its colour.
pub fn colored_prefix(tag: ChangeTag, use_color: bool) -> (r: (&'static str, &'static str))
    ensures
        r.0@ == (match (tag, use_color) {
            (ChangeTag::Delete, false) => "-"@,
            (ChangeTag::Insert, false) => "+"@,
            (ChangeTag::Delete, true) => "\x1b[31m-"@,
            (ChangeTag::Insert, true) => "\x1b[32m+"@,
            (ChangeTag::Equal, _) => " "@,
        }),
        r.1@ == (if use_color && tag != ChangeTag::Equal {
            "\x1b[0m"@
        } else {
            ""@
        }),
{
    match (tag, use_color) {
        (ChangeTag::Delete, false) => ("-", ""),
        (ChangeTag::Insert, false) => ("+", ""),
        (ChangeTag::Delete, true) => ("\x1b[31m-", "\x1b[0m"),
        (ChangeTag::Insert, true) => ("\x1b[32m+", "\x1b[0m"),
        (ChangeTag::Equal, _) => (" ", ""),
    }
}

} // verus!
