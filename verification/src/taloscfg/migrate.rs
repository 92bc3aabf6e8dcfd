//! The one-shot move from a single-document topology and hand-edited patch files to one file of
//! many documents.
//!
//! It carries today's behaviour over and fixes nothing on the way, so that what is generated from
//! its output reproduces the patch files that it was given.

use crate::assoc;
use crate::common::obfuscation;
use crate::common::obfuscation::Obfuscation;
use crate::offset;
use crate::patches::mesh_config::MeshConfig;
use crate::patches::render;
use crate::patches::render::ExistingState;
use crate::taloscfg::document;
use crate::taloscfg::document::DocumentError;
use crate::taloscfg::generate;
use crate::taloscfg::generate::RecordFileError;
use crate::taloscfg::locate;
use crate::taloscfg::locate::Found;
use crate::taloscfg::locate::Step;
use crate::taloscfg::locate::StepModel;
use crate::taloscfg::minted;
use crate::taloscfg::minted::GeneratedObfuscation;
use crate::taloscfg::secrets;
use crate::taloscfg::secrets::Fresh;
use crate::taloscfg::secrets::ResolvedSecrets;
use crate::taloscfg::segments;
use crate::taloscfg::slipmesh_file;
use crate::taloscfg::slipmesh_file::SlipmeshFile;
use crate::text;
use vstd::prelude::*;

verus! {

/// What a migration comes to.
#[derive(Debug, PartialEq)]
pub struct Migration {
    pub slipmesh: String,
    /// Secrets that were found nowhere and minted: a new identity for a node or a pool that already
    /// had one would show up here.
    pub minted: Vec<String>,
}

/// Why a topology cannot be migrated.
#[derive(Clone, Copy, Debug, PartialEq, Eq, Structural)]
pub enum MigrateError {
    /// The file could not be taken apart.
    Document(DocumentError),
    /// A section that the topology has was not found in the file.
    NotLocated,
}

/// How many of a text's characters come ahead of anything but whitespace.
pub open spec fn leading(line: Seq<char>) -> int {
    line.len() - text::trimmed_start(line).len()
}

/// How many spaces open a line.
pub open spec fn leading_spaces(line: Seq<char>) -> int
    decreases line.len(),
{
    if line.len() > 0 && line[0] == ' ' {
        1 + leading_spaces(line.skip(1))
    } else {
        0
    }
}

/// A line that belongs to a block at `indent`.
pub open spec fn belongs(line: Seq<char>, indent: int) -> bool {
    text::trimmed(line).len() > 0 && leading(line) >= indent
}

/// How many of the first `n` lines are left once those that close the block without belonging to it
/// are dropped. The first line always stays.
pub open spec fn kept_lines(lines: Seq<Seq<char>>, indent: int, n: int) -> int
    decreases n,
{
    if n <= 1 || belongs(lines[n - 1], indent) {
        n
    } else {
        kept_lines(lines, indent, n - 1)
    }
}

/// A line moved left by up to `indent` columns.
pub open spec fn dedented(line: Seq<char>, indent: int) -> Seq<char> {
    let k = leading_spaces(line);
    line.skip(
        if k < indent {
            k
        } else {
            indent
        },
    )
}

/// The first `n` lines of a block as text that stands on its own: all but the first moved left.
pub open spec fn block_text(lines: Seq<Seq<char>>, indent: int, n: int) -> Seq<char>
    decreases n,
{
    if n <= 0 {
        Seq::empty()
    } else {
        let line = if n == 1 {
            lines[0]
        } else {
            dedented(lines[n - 1], indent)
        };
        block_text(lines, indent, n - 1) + line + "\n"@
    }
}

/// The block at a place in a text, as text that stands on its own at the left edge.
pub open spec fn block_in(source: Seq<char>, at: Found) -> Option<Seq<char>> {
    match at {
        Found::At(_, start, end) => if offset::is_boundary(source, start as int)
            && offset::is_boundary(source, end as int) && start <= end {
            let from = offset::position(source, start as int);
            let to = offset::position(source, end as int);
            let indent = from - document::line_start(source, from);
            let lines = text::lines(source.subrange(from, to));
            Some(block_text(lines, indent, kept_lines(lines, indent, lines.len() as int)))
        } else {
            None
        },
        _ => None,
    }
}

fn belongs_to(line: &Vec<char>, indent: usize) -> (r: bool)
    ensures
        r == belongs(line@, indent as int),
{
    let t = text::trim_chars(line.as_slice());
    if t.len() == 0 {
        return false;
    }
    let s = text::trim_start_chars(line.as_slice());
    proof {
        lemma_trimmed_shorter(line@);
    }
    line.len() - s.len() >= indent
}

proof fn lemma_trimmed_shorter(s: Seq<char>)
    ensures
        text::trimmed_start(s).len() <= s.len(),
    decreases s.len(),
{
    if s.len() > 0 && text::is_space(s[0]) {
        lemma_trimmed_shorter(s.skip(1));
    }
}

/// Appends a line moved left by up to `indent` columns.
fn push_dedented(out: &mut String, line: &Vec<char>, indent: usize)
    ensures
        final(out)@ == old(out)@ + dedented(line@, indent as int),
{
    let mut k: usize = 0;
    assert(line@.skip(0) =~= line@);
    while k < line.len() && k < indent && line[k] == ' '
        invariant
            k <= line@.len(),
            k <= indent,
            leading_spaces(line@) == k + leading_spaces(line@.skip(k as int)),
        decreases line@.len() - k,
    {
        assert(line@.skip(k as int).skip(1) =~= line@.skip(k + 1));
        k += 1;
    }
    proof {
        lemma_spaces_nonneg(line@.skip(k as int));
    }
    let rest = offset::cut(line.as_slice(), k, line.len());
    assert(rest@ =~= dedented(line@, indent as int));
    out.push_str(rest.as_str());
}

proof fn lemma_spaces_nonneg(s: Seq<char>)
    ensures
        leading_spaces(s) >= 0,
        leading_spaces(s) == 0 <==> !(s.len() > 0 && s[0] == ' '),
    decreases s.len(),
{
    if s.len() > 0 && s[0] == ' ' {
        lemma_spaces_nonneg(s.skip(1));
    }
}

/// The block at a place in a text, as text that stands on its own: its lines moved left by the
/// column it starts at, so that relative indentation is what it was. Blank lines and comments at an
/// outer indentation that it ends with belong to what follows it, and are left out.
#[verifier::loop_isolation(false)]
pub fn block_at(source: &str, at: Found) -> (r: Option<String>)
    ensures
        text::text_opt(r) == block_in(source@, at),
{
    let (start, end) = match at {
        Found::At(_, start, end) => (start, end),
        _ => {
            return None;
        },
    };
    if start > end {
        return None;
    }
    let v = text::chars_of(source);
    let (from, to): (usize, usize) = match (
        offset::find_position(v.as_slice(), start),
        offset::find_position(v.as_slice(), end),
    ) {
        (Some(a), Some(b)) => (a, b),
        _ => {
            return None;
        },
    };
    proof {
        offset::lemma_position_order(source@, start as int, end as int);
    }
    let mut first: usize = from;
    while first > 0 && v[first - 1] != '\n'
        invariant
            first <= from <= v@.len(),
            document::line_start(v@, from as int) == document::line_start(v@, first as int),
        decreases first,
    {
        first -= 1;
    }
    let indent: usize = from - first;
    let body = text::copy(v.as_slice(), from, to);
    let lines = text::lines_of(body.as_slice());
    let ghost t = text::lines(body@);
    let mut n: usize = lines.len();
    assert(text::pieces(lines@).len() == lines@.len());
    while n > 1 && !belongs_to(&lines[n - 1], indent)
        invariant
            n <= lines@.len(),
            kept_lines(t, indent as int, t.len() as int) == kept_lines(t, indent as int, n as int),
        decreases n,
    {
        assert(t[n - 1] == lines@[n - 1]@);
        n -= 1;
    }
    if n > 1 {
        assert(t[n - 1] == lines@[n - 1]@);
    }
    let mut out = String::new();
    let mut i: usize = 0;
    assert(out@ =~= block_text(t, indent as int, 0));
    while i < n
        invariant
            i <= n <= lines@.len(),
            out@ == block_text(t, indent as int, i as int),
        decreases n - i,
    {
        assert(t[i as int] == lines@[i as int]@);
        let ghost prev = out@;
        if i == 0 {
            let s = text::string_of(lines[0].as_slice());
            out.push_str(s.as_str());
        } else {
            push_dedented(&mut out, &lines[i], indent);
        }
        out.push_str("\n");
        i += 1;
    }
    Some(out)
}

/// A text without the whitespace that closes it, and one line break.
pub open spec fn closed(s: Seq<char>) -> Seq<char> {
    text::trimmed_end(s) + "\n"@
}

/// Documents with markers between them.
pub open spec fn joined(v: Seq<Seq<char>>) -> Seq<char>
    decreases v.len(),
{
    if v.len() == 0 {
        Seq::empty()
    } else if v.len() == 1 {
        closed(v[0])
    } else {
        joined(v.drop_last()) + "---\n"@ + closed(v.last())
    }
}

fn push_closed(out: &mut String, s: &str)
    ensures
        final(out)@ == old(out)@ + closed(s@),
{
    let ghost start = out@;
    let v = text::chars_of(s);
    let mut n: usize = v.len();
    assert(v@.take(n as int) =~= v@);
    while n > 0 && text::is_whitespace(v[n - 1])
        invariant
            n <= v@.len(),
            text::trimmed_end(v@) == text::trimmed_end(v@.take(n as int)),
        decreases n,
    {
        assert(v@.take(n as int).drop_last() =~= v@.take(n - 1));
        assert(v@.take(n as int).last() == v@[n - 1]);
        n -= 1;
    }
    if n > 0 {
        assert(v@.take(n as int).last() == v@[n - 1]);
    }
    let body = offset::cut(v.as_slice(), 0, n);
    assert(body@ =~= v@.take(n as int));
    out.push_str(body.as_str());
    out.push_str("\n");
    assert(out@ =~= start + closed(s@));
}

fn join(v: &Vec<String>) -> (r: String)
    ensures
        r@ == joined(text::texts(v@)),
{
    let ghost t = text::texts(v@);
    let mut out = String::new();
    let mut i: usize = 0;
    assert(t.take(0) =~= Seq::empty());
    assert(out@ =~= joined(t.take(0)));
    while i < v.len()
        invariant
            i <= v@.len(),
            t == text::texts(v@),
            out@ == joined(t.take(i as int)),
        decreases v@.len() - i,
    {
        assert(t.take(i + 1).drop_last() =~= t.take(i as int));
        assert(t.take(i + 1).last() == v@[i as int]@);
        if i > 0 {
            out.push_str("---\n");
        }
        push_closed(&mut out, v[i].as_str());
        assert(out@ =~= joined(t.take(i + 1)));
        i += 1;
    }
    assert(t.take(i as int) =~= t);
    out
}

/// The network document: the topology without its pools and its ruleset.
pub open spec fn network_part(mesh_yaml: Seq<char>) -> Result<Seq<char>, DocumentError> {
    match document::key_block(mesh_yaml, "roadwarriors"@) {
        Err(e) => Err(e),
        Ok(b) => {
            let rest = document::without_block(mesh_yaml, b);
            match document::key_block(rest, "nftables"@) {
                Err(e) => Err(e),
                Ok(c) => Ok("slipmesh:\n  kind: network\n"@ + document::without_block(rest, c)),
            }
        },
    }
}

pub open spec fn pool_place(mesh_yaml: Seq<char>, i: int) -> Found {
    locate::place(
        mesh_yaml,
        seq![StepModel::Key("roadwarriors"@), StepModel::Index(i)],
    )
}

/// The documents of the first `n` pools.
pub open spec fn pool_parts(mesh_yaml: Seq<char>, n: int) -> Option<Seq<Seq<char>>>
    decreases n,
{
    if n <= 0 {
        Some(Seq::empty())
    } else {
        match (pool_parts(mesh_yaml, n - 1), block_in(mesh_yaml, pool_place(mesh_yaml, n - 1))) {
            (Some(v), Some(b)) => Some(v.push("slipmesh:\n  kind: roadwarriors\n"@ + b)),
            _ => None,
        }
    }
}

/// The document of the ruleset, where there is one.
pub open spec fn ruleset_part(mesh: MeshConfig, mesh_yaml: Seq<char>) -> Option<Seq<Seq<char>>> {
    if mesh.nftables is None {
        Some(Seq::empty())
    } else {
        match block_in(
            mesh_yaml,
            locate::place(mesh_yaml, seq![StepModel::Key("nftables"@)]),
        ) {
            Some(b) => Some(seq!["slipmesh:\n  kind: nftables\n"@ + b]),
            None => None,
        }
    }
}

/// A segment of a node's patch file as a document that only that node gets.
pub open spec fn patch_part(node: Seq<char>, segment: Seq<char>) -> Seq<char> {
    "slipmesh:\n  kind: patch\n  include: ["@ + node + "]\n"@ + segment
}

pub open spec fn node_parts(node: Seq<char>, segments: Seq<Seq<char>>) -> Seq<Seq<char>> {
    Seq::new(segments.len(), |i: int| patch_part(node, segments[i]))
}

/// The documents of the first `n` nodes' patch files that were not generated.
pub open spec fn patch_parts(mesh: MeshConfig, files: Seq<Option<String>>, n: int) -> Seq<Seq<char>>
    decreases n,
{
    if n <= 0 {
        Seq::empty()
    } else {
        let before = patch_parts(mesh, files, n - 1);
        match files[n - 1] {
            Some(raw) => before + node_parts(
                mesh.nodes@[n - 1].name@,
                segments::foreign(segments::segments_of(raw@)),
            ),
            None => before,
        }
    }
}

/// The file of many documents that a topology and its patch files become.
pub open spec fn migrated(
    mesh_yaml: Seq<char>,
    mesh: MeshConfig,
    files: Seq<Option<String>>,
) -> Result<Seq<char>, MigrateError> {
    match network_part(mesh_yaml) {
        Err(e) => Err(MigrateError::Document(e)),
        Ok(network) => match (
            pool_parts(mesh_yaml, mesh.roadwarriors@.len() as int),
            ruleset_part(mesh, mesh_yaml),
        ) {
            (Some(pools), Some(ruleset)) => Ok(
                joined(
                    seq![network] + pools + ruleset + patch_parts(
                        mesh,
                        files,
                        mesh.nodes@.len() as int,
                    ),
                ),
            ),
            _ => Err(MigrateError::NotLocated),
        },
    }
}

proof fn lemma_pools_none(mesh_yaml: Seq<char>, n: int, m: int)
    requires
        n <= m,
        pool_parts(mesh_yaml, n) is None,
    ensures
        pool_parts(mesh_yaml, m) is None,
    decreases m - n,
{
    if n < m {
        lemma_pools_none(mesh_yaml, n, m - 1);
    }
}

fn migrate_network(mesh_yaml: &str) -> (r: Result<String, DocumentError>)
    ensures
        match r {
            Ok(s) => network_part(mesh_yaml@) == Ok::<Seq<char>, DocumentError>(s@),
            Err(e) => network_part(mesh_yaml@) == Err::<Seq<char>, DocumentError>(e),
        },
{
    let rest = match document::remove_key(mesh_yaml, "roadwarriors") {
        Ok(s) => s,
        Err(e) => {
            return Err(e);
        },
    };
    let network = match document::remove_key(rest.as_str(), "nftables") {
        Ok(s) => s,
        Err(e) => {
            return Err(e);
        },
    };
    Ok(text::join2("slipmesh:\n  kind: network\n", network.as_str()))
}

fn migrate_pools(mesh_yaml: &str, n: usize) -> (r: Option<Vec<String>>)
    ensures
        match r {
            Some(v) => pool_parts(mesh_yaml@, n as int) == Some(text::texts(v@)),
            None => pool_parts(mesh_yaml@, n as int) is None,
        },
{
    let mut out: Vec<String> = Vec::new();
    let mut i: usize = 0;
    assert(text::texts(out@) =~= Seq::empty());
    while i < n
        invariant
            i <= n,
            pool_parts(mesh_yaml@, i as int) == Some(text::texts(out@)),
        decreases n - i,
    {
        let mut route: Vec<Step> = Vec::new();
        route.push(Step::Key("roadwarriors".to_owned()));
        route.push(Step::Index(i));
        assert(locate::route_model(route@) =~= seq![
            StepModel::Key("roadwarriors"@),
            StepModel::Index(i as int),
        ]);
        match block_at(mesh_yaml, locate::find(mesh_yaml, &route)) {
            Some(b) => {
                secrets::push_text(
                    &mut out,
                    text::join2("slipmesh:\n  kind: roadwarriors\n", b.as_str()),
                );
            },
            None => {
                proof {
                    lemma_pools_none(mesh_yaml@, i + 1, n as int);
                }
                return None;
            },
        }
        i += 1;
    }
    Some(out)
}

fn push_patches(out: &mut Vec<String>, node: &str, raw: &str)
    ensures
        text::texts(final(out)@) == text::texts(old(out)@) + node_parts(
            node@,
            segments::foreign(segments::segments_of(raw@)),
        ),
{
    let v = segments::foreign_segments(raw);
    let ghost t = text::texts(v@);
    let ghost start = text::texts(out@);
    let ghost parts = node_parts(node@, t);
    let mut i: usize = 0;
    assert(start + parts.take(0) =~= start);
    while i < v.len()
        invariant
            i <= v@.len(),
            t == text::texts(v@),
            parts == node_parts(node@, t),
            text::texts(out@) == start + parts.take(i as int),
        decreases v@.len() - i,
    {
        let mut s = text::join3("slipmesh:\n  kind: patch\n  include: [", node, "]\n");
        s.push_str(v[i].as_str());
        let ghost before = text::texts(out@);
        assert(parts[i as int] == s@);
        secrets::push_text(out, s);
        assert(text::texts(out@) =~= start + parts.take(i + 1));
        i += 1;
    }
    assert(parts.take(i as int) =~= parts);
}

/// Builds the file of many documents from a single-document topology and the patch files of its
/// nodes, where there are any. The secrets that the patch files carry are not in it yet.
#[verifier::loop_isolation(false)]
pub fn migrate(mesh_yaml: &str, mesh: &MeshConfig, files: &Vec<Option<String>>) -> (r: Result<
    String,
    MigrateError,
>)
    requires
        files@.len() == mesh.nodes@.len(),
    ensures
        match r {
            Ok(s) => migrated(mesh_yaml@, *mesh, files@) == Ok::<Seq<char>, MigrateError>(s@),
            Err(e) => migrated(mesh_yaml@, *mesh, files@) == Err::<Seq<char>, MigrateError>(e),
        },
{
    let network = match migrate_network(mesh_yaml) {
        Ok(s) => s,
        Err(e) => {
            return Err(MigrateError::Document(e));
        },
    };
    let pools = match migrate_pools(mesh_yaml, mesh.roadwarriors.len()) {
        Some(v) => v,
        None => {
            return Err(MigrateError::NotLocated);
        },
    };
    let mut out: Vec<String> = Vec::new();
    secrets::push_text(&mut out, network);
    assert(text::texts(out@) =~= seq![network@]);
    let ghost start = text::texts(out@);
    let ghost p = text::texts(pools@);
    let mut i: usize = 0;
    assert(start + p.take(0) =~= start);
    while i < pools.len()
        invariant
            i <= pools@.len(),
            text::texts(out@) == start + p.take(i as int),
        decreases pools@.len() - i,
    {
        secrets::push_text(&mut out, pools[i].clone());
        assert(p[i as int] == pools@[i as int]@);
        assert(text::texts(out@) =~= start + p.take(i + 1));
        i += 1;
    }
    assert(p.take(i as int) =~= p);
    let ghost ruleset = ruleset_part(*mesh, mesh_yaml@);
    if mesh.nftables.is_some() {
        let mut route: Vec<Step> = Vec::new();
        route.push(Step::Key("nftables".to_owned()));
        assert(locate::route_model(route@) =~= seq![StepModel::Key("nftables"@)]);
        match block_at(mesh_yaml, locate::find(mesh_yaml, &route)) {
            Some(b) => {
                let ghost before = text::texts(out@);
                secrets::push_text(
                    &mut out,
                    text::join2("slipmesh:\n  kind: nftables\n", b.as_str()),
                );
                assert(text::texts(out@) =~= before + ruleset->0);
            },
            None => {
                return Err(MigrateError::NotLocated);
            },
        }
    } else {
        assert(text::texts(out@) =~= start + p + ruleset->0);
    }
    let ghost head = text::texts(out@);
    let mut j: usize = 0;
    assert(head + patch_parts(*mesh, files@, 0) =~= head);
    while j < files.len()
        invariant
            j <= files@.len(),
            text::texts(out@) == head + patch_parts(*mesh, files@, j as int),
        decreases files@.len() - j,
    {
        if let Some(raw) = &files[j] {
            push_patches(&mut out, mesh.nodes[j].name.as_str(), raw.as_str());
            assert(text::texts(out@) =~= head + patch_parts(*mesh, files@, j + 1));
        }
        j += 1;
    }
    Ok(join(&out))
}

/// The parameters that neither an entry, nor the topology, nor what was there before sets.
pub open spec fn newly_generated(
    resolved: Option<Obfuscation>,
    own: Obfuscation,
    global: Obfuscation,
    had: Option<Obfuscation>,
) -> bool {
    match resolved {
        Some(r) => minted::generated_of(
            r,
            obfuscation::over(own, global),
            render::or_unset(had),
        ) != minted::no_fields(),
        None => false,
    }
}

fn is_newly_generated(
    resolved: Option<&Obfuscation>,
    own: &Obfuscation,
    global: &Obfuscation,
    had: Option<Obfuscation>,
) -> (r: bool)
    ensures
        r == newly_generated(
            match resolved {
                Some(o) => Some(*o),
                None => None,
            },
            *own,
            *global,
            had,
        ),
{
    match resolved {
        None => false,
        Some(o) => {
            let layers = obfuscation::layer(own, global);
            let before = match had {
                Some(h) => h,
                None => Obfuscation::default(),
            };
            GeneratedObfuscation::of(o, &layers, &before).is_some()
        },
    }
}

/// How messages name the keys of the first `n` nodes that were found nowhere.
pub open spec fn fresh_nodes<E: ExistingState>(t: MeshConfig, had: E, n: int) -> Seq<Seq<char>>
    decreases n,
{
    if n <= 0 {
        Seq::empty()
    } else {
        let node = t.nodes@[n - 1];
        let before = fresh_nodes(t, had, n - 1);
        if node.mesh_private_key is None && had.stored_mesh_key(node.name@) is None {
            before.push(secrets::node_route(node))
        } else {
            before
        }
    }
}

/// How messages name the obfuscation of the first `n` links that was found nowhere.
pub open spec fn fresh_links<E: ExistingState>(
    t: MeshConfig,
    had: E,
    r: ResolvedSecrets,
    n: int,
) -> Seq<Seq<char>>
    decreases n,
{
    if n <= 0 {
        Seq::empty()
    } else {
        let link = t.mesh.links@[n - 1];
        let before = fresh_links(t, had, r, n - 1);
        let (a, b) = (link.pair@[0]@, link.pair@[1]@);
        if !link.plain && newly_generated(
            assoc::value_of(r.mesh_link_obfuscation@, secrets::key_of_link(a, b)),
            link.obfuscation,
            t.obfuscation,
            had.stored_link(a, b),
        ) {
            before.push(secrets::link_route(link))
        } else {
            before
        }
    }
}

/// How messages name what of the first `n` pools was found nowhere.
pub open spec fn fresh_pools<E: ExistingState>(
    t: MeshConfig,
    had: E,
    r: ResolvedSecrets,
    n: int,
) -> Seq<Seq<char>>
    decreases n,
{
    if n <= 0 {
        Seq::empty()
    } else {
        let pool = t.roadwarriors@[n - 1];
        let before = fresh_pools(t, had, r, n - 1);
        let keyed = if pool.private_key is None && had.stored_pool_key(pool.name@) is None {
            before.push(secrets::pool_key_route(pool))
        } else {
            before
        };
        if !pool.plain && newly_generated(
            assoc::value_of(r.roadwarrior_obfuscation@, pool.name@),
            pool.obfuscation,
            t.obfuscation,
            had.stored_pool(pool.name@),
        ) {
            keyed.push(secrets::pool_obfuscation_route(pool))
        } else {
            keyed
        }
    }
}

/// Names what had to be generated because neither the topology nor what was there before had it.
#[verifier::loop_isolation(false)]
pub fn fresh<E: ExistingState>(topology: &MeshConfig, had: &E, resolved: &ResolvedSecrets) -> (r:
    Vec<String>)
    ensures
        text::texts(r@) == fresh_nodes(*topology, *had, topology.nodes@.len() as int)
            + fresh_links(*topology, *had, *resolved, topology.mesh.links@.len() as int)
            + fresh_pools(*topology, *had, *resolved, topology.roadwarriors@.len() as int),
{
    let mut out: Vec<String> = Vec::new();
    let mut i: usize = 0;
    assert(text::texts(out@) =~= Seq::empty());
    while i < topology.nodes.len()
        invariant
            i <= topology.nodes@.len(),
            text::texts(out@) == fresh_nodes(*topology, *had, i as int),
        decreases topology.nodes@.len() - i,
    {
        let node = &topology.nodes[i];
        let stored = had.mesh_private_key(node.name.as_str());
        if node.mesh_private_key.is_none() && stored.is_none() {
            secrets::push_text(&mut out, secrets::route_of_node(node));
        }
        i += 1;
    }
    let ghost nodes = text::texts(out@);
    let mut j: usize = 0;
    assert(nodes + fresh_links(*topology, *had, *resolved, 0) =~= nodes);
    while j < topology.mesh.links.len()
        invariant
            j <= topology.mesh.links@.len(),
            text::texts(out@) == nodes + fresh_links(*topology, *had, *resolved, j as int),
        decreases topology.mesh.links@.len() - j,
    {
        let link = &topology.mesh.links[j];
        if !link.plain {
            let key = secrets::link_key(&link.pair);
            if is_newly_generated(
                assoc::lookup(&resolved.mesh_link_obfuscation, key.as_str()),
                &link.obfuscation,
                &topology.obfuscation,
                had.mesh_link_obfuscation(&link.pair),
            ) {
                secrets::push_text(&mut out, secrets::route_of_link(link));
                assert(text::texts(out@) =~= nodes + fresh_links(
                    *topology,
                    *had,
                    *resolved,
                    j + 1,
                ));
            }
        }
        j += 1;
    }
    let ghost links = text::texts(out@);
    let mut k: usize = 0;
    assert(links + fresh_pools(*topology, *had, *resolved, 0) =~= links);
    while k < topology.roadwarriors.len()
        invariant
            k <= topology.roadwarriors@.len(),
            text::texts(out@) == links + fresh_pools(*topology, *had, *resolved, k as int),
        decreases topology.roadwarriors@.len() - k,
    {
        let pool = &topology.roadwarriors[k];
        let stored = had.roadwarrior_private_key(pool.name.as_str());
        if pool.private_key.is_none() && stored.is_none() {
            secrets::push_text(&mut out, secrets::route_of_pool_key(pool));
        }
        if !pool.plain && is_newly_generated(
            assoc::lookup(&resolved.roadwarrior_obfuscation, pool.name.as_str()),
            &pool.obfuscation,
            &topology.obfuscation,
            had.roadwarrior_obfuscation(pool.name.as_str()),
        ) {
            secrets::push_text(&mut out, secrets::route_of_pool_obfuscation(pool));
        }
        assert(text::texts(out@) =~= links + fresh_pools(*topology, *had, *resolved, k + 1));
        k += 1;
    }
    out
}

/// What the migrated file comes to once its secrets are settled: whatever it lacks is written into
/// it, and what neither it nor the patch files had is named.
pub open spec fn is_settled<E: ExistingState>(
    raw: Seq<char>,
    f: SlipmeshFile,
    had: E,
    drawn: Fresh,
    resolved: ResolvedSecrets,
    m: minted::Minted,
    r: Result<Migration, RecordFileError>,
) -> bool {
    let t = f.topology;
    &&& render::resolves(t, had, drawn, resolved)
    &&& minted::is_minted(t, resolved, m)
    &&& match r {
        Ok(x) => {
            &&& generate::file_recorded(raw, f, m) == Ok::<Seq<char>, RecordFileError>(x.slipmesh@)
            &&& text::texts(x.minted@) == fresh_nodes(t, had, t.nodes@.len() as int) + fresh_links(
                t,
                had,
                resolved,
                t.mesh.links@.len() as int,
            ) + fresh_pools(t, had, resolved, t.roadwarriors@.len() as int)
        },
        Err(e) => generate::file_recorded(raw, f, m) == Err::<Seq<char>, RecordFileError>(e),
    }
}

/// Settles the secrets of a migrated file, from what the patch files had as far as they had it.
pub fn settle<E: ExistingState>(raw: &str, file: &SlipmeshFile, had: &E) -> (r: Result<
    Migration,
    RecordFileError,
>)
    requires
        slipmesh_file::file_wf(*file),
    ensures
        exists|drawn: Fresh, resolved: ResolvedSecrets, m: minted::Minted|
            secrets::is_drawn(file.topology, drawn) && #[trigger] is_settled(
                raw@,
                *file,
                *had,
                drawn,
                resolved,
                m,
                r,
            ),
{
    let topology = &file.topology;
    let drawn = secrets::draw(topology);
    let resolved = render::resolve_secrets_with(topology, had, &drawn);
    proof {
        generate::lemma_nothing_lacks(*topology, *had, drawn, resolved);
    }
    let names = fresh(topology, had, &resolved);
    match minted::minted(topology, &resolved) {
        Err(_) => {
            assert(false);
            Err(RecordFileError::Misplaced)
        },
        Ok(m) => {
            let r = match generate::record_file(raw, file, &m) {
                Ok(slipmesh) => Ok(Migration { slipmesh, minted: names }),
                Err(e) => Err(e),
            };
            assert(is_settled(raw@, *file, *had, drawn, resolved, m, r));
            r
        },
    }
}

/// The place of a node's segment among the documents of the first `n` nodes.
proof fn lemma_patch_place(
    mesh: MeshConfig,
    files: Seq<Option<String>>,
    n: int,
    i: int,
    j: int,
) -> (k: int)
    requires
        0 <= i < n,
        files[i] is Some,
        0 <= j < segments::foreign(segments::segments_of(files[i]->0@)).len(),
    ensures
        0 <= k < patch_parts(mesh, files, n).len(),
        patch_parts(mesh, files, n)[k] == patch_part(
            mesh.nodes@[i].name@,
            segments::foreign(segments::segments_of(files[i]->0@))[j],
        ),
    decreases n,
{
    let before = patch_parts(mesh, files, n - 1);
    if i == n - 1 {
        before.len() + j
    } else {
        let k = lemma_patch_place(mesh, files, n - 1, i, j);
        assert(patch_parts(mesh, files, n)[k] == before[k]);
        k
    }
}

/// The node and the segment that a document comes from.
proof fn lemma_patch_from(mesh: MeshConfig, files: Seq<Option<String>>, n: int, k: int) -> (r: (
    int,
    int,
))
    requires
        0 <= k < patch_parts(mesh, files, n).len(),
    ensures
        0 <= r.0 < n,
        files[r.0] is Some,
        0 <= r.1 < segments::foreign(segments::segments_of(files[r.0]->0@)).len(),
        patch_parts(mesh, files, n)[k] == patch_part(
            mesh.nodes@[r.0].name@,
            segments::foreign(segments::segments_of(files[r.0]->0@))[r.1],
        ),
    decreases n,
{
    let before = patch_parts(mesh, files, n - 1);
    if n > 0 && k >= before.len() {
        (n - 1, k - before.len())
    } else {
        lemma_patch_from(mesh, files, n - 1, k)
    }
}

/// Law: every segment of a node's patch file that was not generated becomes a patch document that
/// only that node gets, with the segment's text unchanged.
pub proof fn foreign_segment_becomes_a_patch(
    mesh: MeshConfig,
    files: Seq<Option<String>>,
    i: int,
    j: int,
)
    requires
        0 <= i < mesh.nodes@.len(),
        files[i] is Some,
        0 <= j < segments::foreign(segments::segments_of(files[i]->0@)).len(),
    ensures
        patch_parts(mesh, files, mesh.nodes@.len() as int).contains(
            "slipmesh:\n  kind: patch\n  include: ["@ + mesh.nodes@[i].name@ + "]\n"@
                + segments::foreign(segments::segments_of(files[i]->0@))[j],
        ),
{
    let n = mesh.nodes@.len() as int;
    let k = lemma_patch_place(mesh, files, n, i, j);
    assert(patch_parts(mesh, files, n)[k] == "slipmesh:\n  kind: patch\n  include: ["@
        + mesh.nodes@[i].name@ + "]\n"@ + segments::foreign(
        segments::segments_of(files[i]->0@),
    )[j]);
}

/// Law: every patch document of a migrated file comes from a segment of a node's patch file that was
/// not generated, and is aimed at that node.
pub proof fn patch_comes_from_a_foreign_segment(
    mesh: MeshConfig,
    files: Seq<Option<String>>,
    k: int,
)
    requires
        0 <= k < patch_parts(mesh, files, mesh.nodes@.len() as int).len(),
    ensures
        exists|i: int, j: int|
            {
                &&& 0 <= i < mesh.nodes@.len()
                &&& files[i] is Some
                &&& 0 <= j < segments::foreign(segments::segments_of(files[i]->0@)).len()
                &&& patch_parts(mesh, files, mesh.nodes@.len() as int)[k]
                    == "slipmesh:\n  kind: patch\n  include: ["@ + mesh.nodes@[i].name@ + "]\n"@ + (
                #[trigger] segments::foreign(segments::segments_of(files[i]->0@))[j])
            },
{
    let (i, j) = lemma_patch_from(mesh, files, mesh.nodes@.len() as int, k);
    assert(patch_part(
        mesh.nodes@[i].name@,
        segments::foreign(segments::segments_of(files[i]->0@))[j],
    ) == "slipmesh:\n  kind: patch\n  include: ["@ + mesh.nodes@[i].name@ + "]\n"@
        + segments::foreign(segments::segments_of(files[i]->0@))[j]);
}

/// Law: there is one document for each pool, in order: the pool's own block, under a heading that
/// says what it is.
pub proof fn every_pool_becomes_a_document(mesh_yaml: Seq<char>, n: int, i: int)
    requires
        0 <= i < n,
        pool_parts(mesh_yaml, n) is Some,
    ensures
        pool_parts(mesh_yaml, n)->0.len() == n,
        block_in(mesh_yaml, pool_place(mesh_yaml, i)) is Some,
        pool_parts(mesh_yaml, n)->0[i] == "slipmesh:\n  kind: roadwarriors\n"@ + block_in(
            mesh_yaml,
            pool_place(mesh_yaml, i),
        )->0,
    decreases n,
{
    lemma_pool_parts_len(mesh_yaml, n - 1);
    if i < n - 1 {
        every_pool_becomes_a_document(mesh_yaml, n - 1, i);
    }
}

proof fn lemma_pool_parts_len(mesh_yaml: Seq<char>, n: int)
    requires
        0 <= n,
        pool_parts(mesh_yaml, n) is Some,
    ensures
        pool_parts(mesh_yaml, n)->0.len() == n,
    decreases n,
{
    if n > 0 {
        lemma_pool_parts_len(mesh_yaml, n - 1);
    }
}

/// Law: moving a line left takes nothing off it but spaces, and no more of them than asked for. It
/// takes all of those unless the line has fewer.
pub proof fn dedenting_takes_only_spaces(line: Seq<char>, indent: int)
    requires
        0 <= indent,
    ensures
        ({
            let k = line.len() - dedented(line, indent).len();
            &&& 0 <= k <= indent
            &&& k <= line.len()
            &&& dedented(line, indent) == line.skip(k)
            &&& forall|i: int| 0 <= i < k ==> #[trigger] line[i] == ' '
            &&& k < indent && k < line.len() ==> line[k] != ' '
        }),
{
    lemma_leading_spaces(line);
}

proof fn lemma_leading_spaces(line: Seq<char>)
    ensures
        0 <= leading_spaces(line) <= line.len(),
        forall|i: int| 0 <= i < leading_spaces(line) ==> #[trigger] line[i] == ' ',
        leading_spaces(line) < line.len() ==> line[leading_spaces(line)] != ' ',
    decreases line.len(),
{
    if line.len() > 0 && line[0] == ' ' {
        let rest = line.skip(1);
        lemma_leading_spaces(rest);
        assert forall|i: int| 0 <= i < leading_spaces(line) implies #[trigger] line[i] == ' ' by {
            if i > 0 {
                assert(rest[i - 1] == line[i]);
            }
        }
    }
}

} // verus!
