//! Byte-level access to the documents of a multi-document YAML file.
//!
//! Everything above this module works on a single document, and hands the result back here to be
//! put in place. Where a document begins comes from the YAML grammar, not from a search for `---`:
//! a search cannot tell a document marker from the same three characters inside a block scalar.

use crate::offset;
use crate::taloscfg::locate;
use crate::taloscfg::locate::Extent;
use crate::text;
use crate::value::Value;
use std::ops::Range;
use vstd::prelude::*;

verus! {

/// The generator's own top-level block in every document: what the document is for and which hosts
/// it reaches. It never reaches a patch file.
pub const META_KEY: &'static str = "slipmesh";

/// A piece of a file, as the grammar names it.
#[derive(Debug, PartialEq)]
pub struct Token {
    pub kind: String,
    pub start: usize,
    pub end: usize,
}

/// A piece of a file with the pieces directly inside it.
#[derive(Debug, PartialEq)]
pub struct Node {
    pub token: Token,
    pub children: Vec<Token>,
}

/// A file as the grammar reads it, two levels deep.
#[derive(Debug, PartialEq)]
pub struct Syntax {
    /// The grammar could not read all of it.
    pub has_error: bool,
    pub nodes: Vec<Node>,
}

/// What a piece is, and where.
pub struct TokenModel {
    pub kind: Seq<char>,
    pub start: int,
    pub end: int,
}

pub struct NodeModel {
    pub token: TokenModel,
    pub children: Seq<TokenModel>,
}

pub struct SyntaxModel {
    pub has_error: bool,
    pub nodes: Seq<NodeModel>,
}

pub open spec fn token_model(t: Token) -> TokenModel {
    TokenModel { kind: t.kind@, start: t.start as int, end: t.end as int }
}

pub open spec fn token_models(v: Seq<Token>) -> Seq<TokenModel> {
    Seq::new(v.len(), |i: int| token_model(v[i]))
}

pub open spec fn node_model(n: Node) -> NodeModel {
    NodeModel { token: token_model(n.token), children: token_models(n.children@) }
}

pub open spec fn node_models(v: Seq<Node>) -> Seq<NodeModel> {
    Seq::new(v.len(), |i: int| node_model(v[i]))
}

pub open spec fn syntax_model(s: Syntax) -> SyntaxModel {
    SyntaxModel { has_error: s.has_error, nodes: node_models(s.nodes@) }
}

/// How the YAML grammar reads a file.
pub uninterp spec fn yaml_syntax(s: Seq<char>) -> Option<SyntaxModel>;

/// `tree_sitter::Parser::parse` with the grammar of `tree_sitter_yaml`: the children of the root
/// and their children, each with its kind and its byte range. What it gives depends on the text
/// alone. Nothing more is said of how YAML is read.
#[verifier::external_body]
fn parse_syntax(raw: &str) -> (r: Option<Syntax>)
    ensures
        match r {
            Some(t) => yaml_syntax(raw@) == Some(syntax_model(t)),
            None => yaml_syntax(raw@) is None,
        },
{
    let mut parser = tree_sitter::Parser::new();
    parser.set_language(&tree_sitter_yaml::LANGUAGE.into()).ok()?;
    let tree = parser.parse(raw, None)?;
    let root = tree.root_node();
    let token = |n: tree_sitter::Node<'_>| Token {
        kind: n.kind().to_owned(),
        start: n.start_byte(),
        end: n.end_byte(),
    };
    let node = |n: tree_sitter::Node<'_>| Node {
        token: token(n),
        children: n.children(&mut n.walk()).map(token).collect(),
    };
    let nodes = root.children(&mut root.walk()).map(node).collect();
    Some(Syntax { has_error: root.has_error(), nodes })
}

/// Why a file cannot be taken apart.
#[derive(Clone, Copy, Debug, PartialEq, Eq, Structural)]
pub enum DocumentError {
    /// Not valid YAML: it is not rewritten.
    NotYaml,
    /// A key's place in a document could not be made out.
    NotLocated,
    /// A patch could not be applied.
    NotPatched,
}

/// The text ends with a given one.
pub open spec fn ends_with(s: Seq<char>, suffix: Seq<char>) -> bool {
    s.len() >= suffix.len() && s.skip(s.len() - suffix.len()) == suffix
}

fn has_suffix(s: &str, suffix: &str) -> (r: bool)
    ensures
        r == ends_with(s@, suffix@),
{
    let v = text::chars_of(s);
    let w = text::chars_of(suffix);
    if v.len() < w.len() {
        return false;
    }
    let tail = text::copy(v.as_slice(), v.len() - w.len(), v.len());
    assert(tail@ =~= s@.skip(s@.len() - suffix@.len()));
    text::chars_eq(tail.as_slice(), w.as_slice())
}

/// The documents among the first `n` pieces of a file, by where each starts.
pub open spec fn document_starts(nodes: Seq<NodeModel>, n: int) -> Seq<int>
    decreases n,
{
    if n <= 0 {
        Seq::empty()
    } else if nodes[n - 1].token.kind == "document"@ {
        document_starts(nodes, n - 1).push(nodes[n - 1].token.start)
    } else {
        document_starts(nodes, n - 1)
    }
}

/// Where each document starts. What precedes the first belongs to it, and a file of only comments
/// is one document.
pub open spec fn starts_of(nodes: Seq<NodeModel>) -> Seq<int> {
    let v = document_starts(nodes, nodes.len() as int);
    if v.len() == 0 {
        seq![0int]
    } else {
        v.update(0, 0)
    }
}

/// Piece `i` is a document marker that is not needed to end a directive.
pub open spec fn is_marker(children: Seq<TokenModel>, i: int) -> bool {
    let kind = children[i].kind;
    (kind == "---"@ || kind == "..."@) && !(kind == "---"@ && i > 0 && ends_with(
        children[i - 1].kind,
        "_directive"@,
    ))
}

/// The bytes of marker `i`, up to whatever comes next.
pub open spec fn marker_range(children: Seq<TokenModel>, i: int) -> (int, int) {
    (
        children[i].start,
        if i + 1 < children.len() {
            children[i + 1].start
        } else {
            children[i].end
        },
    )
}

/// The markers among the first `n` pieces of a document.
pub open spec fn markers_in(children: Seq<TokenModel>, n: int) -> Seq<(int, int)>
    decreases n,
{
    if n <= 0 {
        Seq::empty()
    } else if is_marker(children, n - 1) {
        markers_in(children, n - 1).push(marker_range(children, n - 1))
    } else {
        markers_in(children, n - 1)
    }
}

/// The markers inside the documents among the first `n` pieces of a file.
pub open spec fn markers_of(nodes: Seq<NodeModel>, n: int) -> Seq<(int, int)>
    decreases n,
{
    if n <= 0 {
        Seq::empty()
    } else if nodes[n - 1].token.kind == "document"@ {
        markers_of(nodes, n - 1) + markers_in(
            nodes[n - 1].children,
            nodes[n - 1].children.len() as int,
        )
    } else {
        markers_of(nodes, n - 1)
    }
}

/// The documents cut the text in order, between characters.
pub open spec fn starts_placed(s: Seq<char>, starts: Seq<int>) -> bool {
    &&& forall|i: int| 0 <= i < starts.len() ==> offset::is_boundary(s, #[trigger] starts[i])
    &&& forall|i: int| 1 <= i < starts.len() ==> starts[i - 1] <= #[trigger] starts[i]
}

/// The markers lie in order, between characters.
pub open spec fn markers_placed(s: Seq<char>, markers: Seq<(int, int)>) -> bool {
    &&& forall|i: int|
        0 <= i < markers.len() ==> offset::is_boundary(s, (#[trigger] markers[i]).0)
            && offset::is_boundary(s, markers[i].1) && markers[i].0 <= markers[i].1
    &&& forall|i: int| 1 <= i < markers.len() ==> markers[i - 1].1 <= (#[trigger] markers[i]).0
}

/// Where each document starts, and where the markers inside them are.
pub struct CutsModel {
    pub starts: Seq<int>,
    pub markers: Seq<(int, int)>,
}

/// The cuts of a file: none where the grammar does not read it, or not as pieces of the text in
/// order.
pub open spec fn cuts_in(s: Seq<char>, syntax: Option<SyntaxModel>) -> Option<CutsModel> {
    match syntax {
        None => None,
        Some(t) => {
            let starts = starts_of(t.nodes);
            let markers = markers_of(t.nodes, t.nodes.len() as int);
            if t.has_error || !starts_placed(s, starts) || !markers_placed(s, markers) {
                None
            } else {
                Some(CutsModel { starts, markers })
            }
        },
    }
}

/// The cuts of a file.
pub open spec fn cuts(s: Seq<char>) -> Option<CutsModel> {
    cuts_in(s, yaml_syntax(s))
}

/// Where each document starts, and where the markers inside them are.
#[derive(Debug, PartialEq)]
pub struct Cuts {
    pub starts: Vec<usize>,
    pub markers: Vec<(usize, usize)>,
}

pub open spec fn ints(v: Seq<usize>) -> Seq<int> {
    Seq::new(v.len(), |i: int| v[i] as int)
}

pub open spec fn int_pairs(v: Seq<(usize, usize)>) -> Seq<(int, int)> {
    Seq::new(v.len(), |i: int| (v[i].0 as int, v[i].1 as int))
}

pub open spec fn cuts_model(c: Cuts) -> CutsModel {
    CutsModel { starts: ints(c.starts@), markers: int_pairs(c.markers@) }
}

fn find_marker(children: &Vec<Token>, i: usize) -> (r: Option<(usize, usize)>)
    requires
        i < children@.len(),
    ensures
        match r {
            Some(m) => is_marker(token_models(children@), i as int) && (m.0 as int, m.1 as int)
                == marker_range(token_models(children@), i as int),
            None => !is_marker(token_models(children@), i as int),
        },
{
    let ghost m = token_models(children@);
    let kind = children[i].kind.as_str();
    let dashes = text::str_eq(kind, "---");
    assert(m[i as int].kind == kind@);
    if !dashes && !text::str_eq(kind, "...") {
        return None;
    }
    if dashes && i > 0 {
        assert(m[i - 1].kind == children@[i - 1].kind@);
        if has_suffix(children[i - 1].kind.as_str(), "_directive") {
            return None;
        }
    }
    if children.len() - i > 1 {
        assert(m[i + 1].start == children@[i + 1].start);
        Some((children[i].start, children[i + 1].start))
    } else {
        Some((children[i].start, children[i].end))
    }
}

fn is_placed(v: &Vec<char>, starts: &Vec<usize>) -> (r: bool)
    ensures
        r == starts_placed(v@, ints(starts@)),
{
    let ghost m = ints(starts@);
    let mut i: usize = 0;
    while i < starts.len()
        invariant
            i <= starts@.len(),
            m == ints(starts@),
            forall|k: int| 0 <= k < i ==> offset::is_boundary(v@, #[trigger] m[k]),
            forall|k: int| 1 <= k < i ==> m[k - 1] <= #[trigger] m[k],
        decreases starts@.len() - i,
    {
        assert(m[i as int] == starts@[i as int]);
        if offset::find_position(v.as_slice(), starts[i]).is_none() {
            return false;
        }
        if i > 0 {
            assert(m[i - 1] == starts@[i - 1]);
            if starts[i - 1] > starts[i] {
                return false;
            }
        }
        i += 1;
    }
    true
}

fn are_placed(v: &Vec<char>, markers: &Vec<(usize, usize)>) -> (r: bool)
    ensures
        r == markers_placed(v@, int_pairs(markers@)),
{
    let ghost m = int_pairs(markers@);
    let mut i: usize = 0;
    while i < markers.len()
        invariant
            i <= markers@.len(),
            m == int_pairs(markers@),
            forall|k: int|
                0 <= k < i ==> offset::is_boundary(v@, (#[trigger] m[k]).0) && offset::is_boundary(
                    v@,
                    m[k].1,
                ) && m[k].0 <= m[k].1,
            forall|k: int| 1 <= k < i ==> m[k - 1].1 <= (#[trigger] m[k]).0,
        decreases markers@.len() - i,
    {
        let (a, b) = markers[i];
        assert(m[i as int] == (a as int, b as int));
        if offset::find_position(v.as_slice(), a).is_none() || offset::find_position(
            v.as_slice(),
            b,
        ).is_none() || a > b {
            return false;
        }
        if i > 0 {
            assert(m[i - 1].1 == markers@[i - 1].1);
            if markers[i - 1].1 > a {
                return false;
            }
        }
        i += 1;
    }
    true
}

/// The cuts of a file, given how the grammar reads it.
#[verifier::loop_isolation(false)]
pub fn cut_up(raw: &str, syntax: &Syntax) -> (r: Result<Cuts, DocumentError>)
    ensures
        match r {
            Ok(c) => cuts_in(raw@, Some(syntax_model(*syntax))) == Some(cuts_model(c)),
            Err(e) => e == DocumentError::NotYaml && cuts_in(
                raw@,
                Some(syntax_model(*syntax)),
            ) is None,
        },
{
    if syntax.has_error {
        return Err(DocumentError::NotYaml);
    }
    let ghost nodes = node_models(syntax.nodes@);
    let mut starts: Vec<usize> = Vec::new();
    let mut markers: Vec<(usize, usize)> = Vec::new();
    let mut i: usize = 0;
    assert(ints(starts@) =~= document_starts(nodes, 0));
    assert(int_pairs(markers@) =~= markers_of(nodes, 0));
    while i < syntax.nodes.len()
        invariant
            i <= syntax.nodes@.len(),
            ints(starts@) == document_starts(nodes, i as int),
            int_pairs(markers@) == markers_of(nodes, i as int),
        decreases syntax.nodes@.len() - i,
    {
        let node = &syntax.nodes[i];
        assert(nodes[i as int] == node_model(*node));
        if text::str_eq(node.token.kind.as_str(), "document") {
            let ghost before = ints(starts@);
            starts.push(node.token.start);
            assert(ints(starts@) =~= before.push(node.token.start as int));
            let ghost found = int_pairs(markers@);
            let ghost children = token_models(node.children@);
            let mut j: usize = 0;
            assert(int_pairs(markers@) =~= found + markers_in(children, 0));
            while j < node.children.len()
                invariant
                    j <= node.children@.len(),
                    int_pairs(markers@) == found + markers_in(children, j as int),
                decreases node.children@.len() - j,
            {
                if let Some(m) = find_marker(&node.children, j) {
                    let ghost so_far = int_pairs(markers@);
                    markers.push(m);
                    assert(int_pairs(markers@) =~= so_far.push((m.0 as int, m.1 as int)));
                    assert(found + markers_in(children, j + 1) =~= (found + markers_in(
                        children,
                        j as int,
                    )).push(marker_range(children, j as int)));
                }
                j += 1;
            }
        }
        i += 1;
    }
    let ghost all = ints(starts@);
    if starts.len() == 0 {
        starts.push(0);
        assert(ints(starts@) =~= starts_of(nodes));
    } else {
        starts.set(0, 0);
        assert(ints(starts@) =~= starts_of(nodes));
    }
    let v = text::chars_of(raw);
    if !is_placed(&v, &starts) || !are_placed(&v, &markers) {
        return Err(DocumentError::NotYaml);
    }
    Ok(Cuts { starts, markers })
}

/// The cuts of a file.
fn scan(raw: &str) -> (r: Result<Cuts, DocumentError>)
    ensures
        match r {
            Ok(c) => cuts(raw@) == Some(cuts_model(c)),
            Err(e) => e == DocumentError::NotYaml && cuts(raw@) is None,
        },
{
    match parse_syntax(raw) {
        Some(syntax) => cut_up(raw, &syntax),
        None => Err(DocumentError::NotYaml),
    }
}

/// The bytes of document `i`: up to where the next one starts.
pub open spec fn span(s: Seq<char>, starts: Seq<int>, i: int) -> (int, int) {
    (
        starts[i],
        if i + 1 < starts.len() {
            starts[i + 1]
        } else {
            offset::size(s)
        },
    )
}

pub open spec fn ranges(v: Seq<Range<usize>>) -> Seq<(int, int)> {
    Seq::new(v.len(), |i: int| (v[i].start as int, v[i].end as int))
}

pub open spec fn spans_of(s: Seq<char>, starts: Seq<int>) -> Seq<(int, int)> {
    Seq::new(starts.len(), |i: int| span(s, starts, i))
}

/// The ranges follow on each other from the start of the text to its end, between characters.
pub open spec fn tiles(s: Seq<char>, v: Seq<(int, int)>) -> bool {
    &&& v.len() > 0
    &&& v[0].0 == 0
    &&& v.last().1 == offset::size(s)
    &&& forall|i: int|
        0 <= i < v.len() ==> (#[trigger] v[i]).0 <= v[i].1 && offset::is_boundary(s, v[i].0)
            && offset::is_boundary(s, v[i].1)
    &&& forall|i: int| 1 <= i < v.len() ==> v[i - 1].1 == (#[trigger] v[i]).0
}

proof fn lemma_offset_bound(s: Seq<char>, byte: int)
    requires
        offset::is_boundary(s, byte),
    ensures
        byte <= offset::size(s),
{
    offset::lemma_increasing(s, offset::position(s, byte), s.len() as int);
}

/// Law: the documents of a file cover it without gap or overlap.
pub proof fn documents_tile_the_file(s: Seq<char>)
    requires
        cuts(s) is Some,
    ensures
        tiles(s, spans_of(s, cuts(s)->0.starts)),
{
    let starts = cuts(s)->0.starts;
    let v = spans_of(s, starts);
    offset::lemma_ends(s);
    assert(starts[0] == 0);
    assert forall|i: int| 0 <= i < v.len() implies (#[trigger] v[i]).0 <= v[i].1
        && offset::is_boundary(s, v[i].0) && offset::is_boundary(s, v[i].1) by {
        assert(offset::is_boundary(s, starts[i]));
        if i + 1 < starts.len() {
            assert(starts[i + 1 - 1] <= starts[i + 1]);
            assert(offset::is_boundary(s, starts[i + 1]));
        } else {
            lemma_offset_bound(s, starts[i]);
        }
    }
}

/// Ranges of a text put together.
pub open spec fn rejoined(s: Seq<char>, v: Seq<(int, int)>) -> Seq<char>
    decreases v.len(),
{
    if v.len() == 0 {
        Seq::empty()
    } else {
        rejoined(s, v.drop_last()) + offset::part(s, v.last().0, v.last().1)
    }
}

proof fn lemma_rejoined(s: Seq<char>, v: Seq<(int, int)>, n: int)
    requires
        tiles(s, v),
        1 <= n <= v.len(),
    ensures
        rejoined(s, v.take(n)) == offset::part(s, 0, v[n - 1].1),
    decreases n,
{
    offset::lemma_ends(s);
    assert(v.take(n).drop_last() =~= v.take(n - 1));
    assert(v.take(n).last() == v[n - 1]);
    if n == 1 {
        assert(v.take(0) =~= Seq::empty());
        assert(rejoined(s, v.take(0)) =~= Seq::empty());
        assert(rejoined(s, v.take(1)) =~= offset::part(s, 0, v[0].1));
    } else {
        lemma_rejoined(s, v, n - 1);
        assert(v[n - 1 - 1].1 == v[n - 1].0);
        assert(v[n - 1].0 <= v[n - 1].1);
        assert(v[n - 2].0 <= v[n - 2].1);
        let at = v[n - 2].1;
        assert(offset::is_boundary(s, at));
        offset::lemma_increasing(s, 0, offset::position(s, at));
        offset::lemma_part_concat(s, 0, at, v[n - 1].1);
    }
}

/// Law: ranges that tile a text make it up again.
pub proof fn tiles_rebuild_the_file(s: Seq<char>, v: Seq<(int, int)>)
    requires
        tiles(s, v),
    ensures
        rejoined(s, v) == s,
{
    lemma_rejoined(s, v, v.len() as int);
    assert(v.take(v.len() as int) =~= v);
    offset::lemma_ends(s);
    assert(offset::part(s, 0, offset::size(s)) =~= s);
}

/// Byte ranges of the documents of a file, in order. They tile it: nothing is trimmed and no
/// marker is dropped. An empty file has no documents.
pub fn spans(raw: &str) -> (r: Result<Vec<Range<usize>>, DocumentError>)
    ensures
        match r {
            Ok(v) => if raw@.len() == 0 {
                v@.len() == 0
            } else {
                cuts(raw@) is Some && ranges(v@) == spans_of(raw@, cuts(raw@)->0.starts) && tiles(
                    raw@,
                    ranges(v@),
                )
            },
            Err(e) => e == DocumentError::NotYaml && raw@.len() > 0 && cuts(raw@) is None,
        },
{
    if raw.is_empty() {
        return Ok(Vec::new());
    }
    let c = match scan(raw) {
        Ok(c) => c,
        Err(e) => {
            return Err(e);
        },
    };
    let end: usize = offset::byte_len(raw);
    let mut out: Vec<Range<usize>> = Vec::new();
    let mut i: usize = 0;
    let ghost starts = ints(c.starts@);
    while i < c.starts.len()
        invariant
            i <= c.starts@.len(),
            end == offset::size(raw@),
            starts == ints(c.starts@),
            out@.len() == i,
            forall|k: int| 0 <= k < i ==> #[trigger] ranges(out@)[k] == span(raw@, starts, k),
        decreases c.starts@.len() - i,
    {
        let ghost prev = out@;
        let to: usize = if i + 1 < c.starts.len() {
            c.starts[i + 1]
        } else {
            end
        };
        out.push(Range { start: c.starts[i], end: to });
        assert forall|k: int| 0 <= k < i + 1 implies #[trigger] ranges(out@)[k] == span(
            raw@,
            starts,
            k,
        ) by {
            if k < i {
                assert(ranges(prev)[k] == span(raw@, starts, k));
            }
        }
        i += 1;
    }
    assert(ranges(out@) =~= spans_of(raw@, starts));
    proof {
        documents_tile_the_file(raw@);
    }
    Ok(out)
}

/// A text with the bytes of a range replaced: one document swapped for its edited version, every
/// other byte carried over.
pub fn splice(raw: &str, span: Range<usize>, replacement: &str) -> (r: String)
    requires
        offset::is_boundary(raw@, span.start as int),
        offset::is_boundary(raw@, span.end as int),
        span.start <= span.end,
    ensures
        r@ == offset::part(raw@, 0, span.start as int) + replacement@ + offset::part(
            raw@,
            span.end as int,
            offset::size(raw@),
        ),
{
    let v = text::chars_of(raw);
    let mut out = String::new();
    proof {
        offset::lemma_ends(raw@);
    }
    if let (Some(a), Some(b)) = (
        offset::find_position(v.as_slice(), span.start),
        offset::find_position(v.as_slice(), span.end),
    ) {
        let head = offset::cut(v.as_slice(), 0, a);
        let tail = offset::cut(v.as_slice(), b, v.len());
        out.push_str(head.as_str());
        out.push_str(replacement);
        out.push_str(tail.as_str());
        assert(out@ =~= head@ + replacement@ + tail@);
    }
    out
}

/// Law: splicing a range's own text back in changes nothing.
pub proof fn splicing_back_changes_nothing(s: Seq<char>, from: int, to: int)
    requires
        offset::is_boundary(s, from),
        offset::is_boundary(s, to),
        0 <= from <= to,
    ensures
        offset::part(s, 0, from) + offset::part(s, from, to) + offset::part(
            s,
            to,
            offset::size(s),
        ) == s,
{
    offset::lemma_ends(s);
    lemma_offset_bound(s, to);
    offset::lemma_part_concat(s, 0, from, to);
    offset::lemma_part_concat(s, 0, to, offset::size(s));
    assert(offset::part(s, 0, offset::size(s)) =~= s);
}

/// What is left of a range once the markers from `k` on that lie in the segment are taken out.
pub open spec fn kept(
    s: Seq<char>,
    segment: (int, int),
    markers: Seq<(int, int)>,
    from: int,
    k: int,
) -> Seq<char>
    decreases markers.len() - k,
{
    if k >= markers.len() {
        offset::part(s, from, segment.1)
    } else if markers[k].0 >= segment.0 && markers[k].1 <= segment.1 {
        offset::part(s, from, markers[k].0) + kept(s, segment, markers, markers[k].1, k + 1)
    } else {
        kept(s, segment, markers, from, k + 1)
    }
}

/// A document's text: without its markers and the whitespace around it.
#[verifier::opaque]
pub open spec fn document_text(s: Seq<char>, c: CutsModel, i: int) -> Seq<char> {
    let seg = span(s, c.starts, i);
    text::trimmed(kept(s, seg, c.markers, seg.0, 0))
}

/// The text between two offsets.
pub fn cut_bytes(v: &Vec<char>, from: usize, to: usize) -> (r: String)
    requires
        offset::is_boundary(v@, from as int),
        offset::is_boundary(v@, to as int),
        from <= to,
    ensures
        r@ == offset::part(v@, from as int, to as int),
{
    proof {
        offset::lemma_position_order(v@, from as int, to as int);
    }
    match (
        offset::find_position(v.as_slice(), from),
        offset::find_position(v.as_slice(), to),
    ) {
        (Some(a), Some(b)) => offset::cut(v.as_slice(), a, b),
        _ => String::new(),
    }
}

/// The text of a segment without the markers inside it, and without the whitespace around it.
#[verifier::loop_isolation(false)]
fn without_markers(v: &Vec<char>, start: usize, end: usize, markers: &Vec<(usize, usize)>) -> (r:
    String)
    requires
        offset::is_boundary(v@, start as int),
        offset::is_boundary(v@, end as int),
        start <= end,
        markers_placed(v@, int_pairs(markers@)),
    ensures
        r@ == text::trimmed(
            kept(v@, (start as int, end as int), int_pairs(markers@), start as int, 0),
        ),
{
    let ghost m = int_pairs(markers@);
    let ghost seg = (start as int, end as int);
    let mut out = String::new();
    let mut cursor: usize = start;
    let mut k: usize = 0;
    assert(out@ + kept(v@, seg, m, start as int, 0) =~= kept(v@, seg, m, start as int, 0));
    while k < markers.len()
        invariant
            k <= markers@.len(),
            start <= cursor <= end,
            offset::is_boundary(v@, cursor as int),
            cursor == start || (k > 0 && cursor <= m[k - 1].1),
            out@ + kept(v@, seg, m, cursor as int, k as int) == kept(
                v@,
                seg,
                m,
                start as int,
                0,
            ),
        decreases markers@.len() - k,
    {
        let (a, b) = markers[k];
        assert(m[k as int] == (a as int, b as int));
        assert(offset::is_boundary(v@, m[k as int].0) && offset::is_boundary(v@, m[k as int].1));
        if k > 0 {
            assert(m[k - 1].1 <= m[k as int].0);
        }
        if a >= start && b <= end {
            let piece = cut_bytes(v, cursor, a);
            let ghost prev = out@;
            out.push_str(piece.as_str());
            assert(out@ + kept(v@, seg, m, b as int, k + 1) =~= prev + (offset::part(
                v@,
                cursor as int,
                a as int,
            ) + kept(v@, seg, m, b as int, k + 1)));
            cursor = b;
        }
        k += 1;
    }
    let piece = cut_bytes(v, cursor, end);
    out.push_str(piece.as_str());
    text::trim(out.as_str())
}

/// Those of the first `n` documents that have anything in them, by position.
pub open spec fn filled(s: Seq<char>, c: CutsModel, n: int) -> Seq<int>
    decreases n,
{
    if n <= 0 {
        Seq::empty()
    } else if document_text(s, c, n - 1).len() > 0 {
        filled(s, c, n - 1).push(n - 1)
    } else {
        filled(s, c, n - 1)
    }
}

/// The ranges and texts of those of the first `n` documents that have anything in them.
pub open spec fn are_documents(
    s: Seq<char>,
    c: CutsModel,
    n: int,
    v: Seq<(Range<usize>, String)>,
) -> bool {
    let at = filled(s, c, n);
    &&& v.len() == at.len()
    &&& forall|k: int|
        0 <= k < v.len() ==> ((#[trigger] v[k]).0.start as int, v[k].0.end as int) == span(
            s,
            c.starts,
            at[k],
        ) && v[k].1@ == document_text(s, c, at[k])
}

/// The range and the text of document `i`.
fn document_at(v: &Vec<char>, c: &Cuts, end: usize, i: usize) -> (r: (Range<usize>, String))
    requires
        i < c.starts@.len(),
        end == offset::size(v@),
        starts_placed(v@, ints(c.starts@)),
        markers_placed(v@, int_pairs(c.markers@)),
    ensures
        (r.0.start as int, r.0.end as int) == span(v@, cuts_model(*c).starts, i as int),
        r.1@ == document_text(v@, cuts_model(*c), i as int),
{
    let ghost starts = ints(c.starts@);
    proof {
        reveal(document_text);
        offset::lemma_ends(v@);
        assert(offset::is_boundary(v@, starts[i as int]));
        lemma_offset_bound(v@, starts[i as int]);
    }
    let from: usize = c.starts[i];
    let to: usize = if c.starts.len() - i > 1 {
        assert(offset::is_boundary(v@, starts[i + 1]));
        assert(starts[i + 1 - 1] <= starts[i + 1]);
        c.starts[i + 1]
    } else {
        end
    };
    let body = without_markers(v, from, to, &c.markers);
    (Range { start: from, end: to }, body)
}

/// Positions, ranges and texts of those of the first `n` documents that have anything in them.
pub open spec fn are_indexed(
    s: Seq<char>,
    c: CutsModel,
    n: int,
    v: Seq<(usize, Range<usize>, String)>,
) -> bool {
    let at = filled(s, c, n);
    &&& v.len() == at.len()
    &&& forall|k: int|
        0 <= k < v.len() ==> (#[trigger] v[k]).0 == at[k] && (
            v[k].1.start as int,
            v[k].1.end as int,
        ) == span(s, c.starts, at[k]) && v[k].2@ == document_text(s, c, at[k])
}

/// Every document that has anything in it: its position in the file, the byte range it occupies,
/// and its text without markers and without the whitespace around it.
pub fn indexed_documents(raw: &str) -> (r: Result<
    Vec<(usize, Range<usize>, String)>,
    DocumentError,
>)
    ensures
        match r {
            Ok(v) => cuts(raw@) is Some && are_indexed(
                raw@,
                cuts(raw@)->0,
                cuts(raw@)->0.starts.len() as int,
                v@,
            ),
            Err(e) => e == DocumentError::NotYaml && cuts(raw@) is None,
        },
{
    let c = match scan(raw) {
        Ok(c) => c,
        Err(e) => {
            return Err(e);
        },
    };
    let ghost m = cuts_model(c);
    let v = text::chars_of(raw);
    let end: usize = offset::byte_len(raw);
    let mut out: Vec<(usize, Range<usize>, String)> = Vec::new();
    let mut i: usize = 0;
    while i < c.starts.len()
        invariant
            i <= c.starts@.len(),
            v@ == raw@,
            end == offset::size(raw@),
            m == cuts_model(c),
            starts_placed(raw@, m.starts),
            markers_placed(raw@, m.markers),
            are_indexed(raw@, m, i as int, out@),
        decreases c.starts@.len() - i,
    {
        let d = document_at(&v, &c, end, i);
        if !d.1.as_str().is_empty() {
            out.push((i, d.0, d.1));
        }
        i += 1;
    }
    Ok(out)
}

/// Every document that has anything in it: the byte range it occupies, and its text without markers
/// and without the whitespace around it.
pub fn documents(raw: &str) -> (r: Result<Vec<(Range<usize>, String)>, DocumentError>)
    ensures
        match r {
            Ok(v) => cuts(raw@) is Some && are_documents(
                raw@,
                cuts(raw@)->0,
                cuts(raw@)->0.starts.len() as int,
                v@,
            ),
            Err(e) => e == DocumentError::NotYaml && cuts(raw@) is None,
        },
{
    let found = match indexed_documents(raw) {
        Ok(v) => v,
        Err(e) => {
            return Err(e);
        },
    };
    let mut out: Vec<(Range<usize>, String)> = Vec::new();
    let mut i: usize = 0;
    while i < found.len()
        invariant
            i <= found@.len(),
            out@.len() == i,
            forall|k: int|
                0 <= k < i ==> (#[trigger] out@[k]).0 == found@[k].1 && out@[k].1@ == found@[k].2@,
        decreases found@.len() - i,
    {
        let range = Range { start: found[i].1.start, end: found[i].1.end };
        out.push((range, found[i].2.clone()));
        i += 1;
    }
    Ok(out)
}

/// The texts of the documents of a file that have anything in them.
pub open spec fn segment_texts(s: Seq<char>) -> Seq<Seq<char>> {
    let c = cuts(s)->0;
    let at = filled(s, c, c.starts.len() as int);
    Seq::new(at.len(), |k: int| document_text(s, c, at[k]))
}

/// Splits a file into the trimmed texts of its documents, in order. What each drops is its markers
/// and the whitespace around it.
pub fn split(raw: &str) -> (r: Result<Vec<String>, DocumentError>)
    ensures
        match r {
            Ok(v) => cuts(raw@) is Some && text::texts(v@) == segment_texts(raw@),
            Err(e) => e == DocumentError::NotYaml && cuts(raw@) is None,
        },
{
    let docs = match documents(raw) {
        Ok(v) => v,
        Err(e) => {
            return Err(e);
        },
    };
    let mut out: Vec<String> = Vec::new();
    let mut i: usize = 0;
    while i < docs.len()
        invariant
            i <= docs@.len(),
            out@.len() == i,
            forall|k: int| 0 <= k < i ==> #[trigger] out@[k]@ == docs@[k].1@,
        decreases docs@.len() - i,
    {
        out.push(docs[i].1.clone());
        i += 1;
    }
    assert(text::texts(out@) =~= segment_texts(raw@));
    Ok(out)
}

/// Where the line of position `i` begins.
pub open spec fn line_start(s: Seq<char>, i: int) -> int
    decreases i,
{
    if i <= 0 || s[i - 1] == '\n' {
        i
    } else {
        line_start(s, i - 1)
    }
}

/// Where the line of position `i` ends, with its line break.
pub open spec fn line_end(s: Seq<char>, i: int) -> int
    decreases s.len() - i,
{
    if i >= s.len() {
        s.len() as int
    } else if s[i] == '\n' {
        i + 1
    } else {
        line_end(s, i + 1)
    }
}

/// `to` without the line break ahead of it.
pub open spec fn before_break(s: Seq<char>, from: int, to: int) -> int {
    let a = if to > from && s[to - 1] == '\n' {
        to - 1
    } else {
        to
    };
    if a > from && s[a - 1] == '\r' {
        a - 1
    } else {
        a
    }
}

/// Where the last line of a block begins; `from - 1` where the block has only its first line.
pub open spec fn last_line(s: Seq<char>, from: int, to: int) -> int
    decreases to - from,
{
    if to <= from {
        from - 1
    } else if s[to - 1] == '\n' {
        to
    } else {
        last_line(s, from, to - 1)
    }
}

/// A line that does not belong to the block above it: a comment at the left edge, or a blank line.
pub open spec fn is_outside(line: Seq<char>) -> bool {
    (line.len() > 0 && line[0] == '#') || text::trimmed(line).len() == 0
}

/// The end of a block cut back to end before any comment lines at the left edge and blank lines it
/// closes with: such a comment speaks to the document, and a blank line separates the block from
/// what comes next.
pub open spec fn block_end(s: Seq<char>, from: int, to: int) -> int
    decreases to,
{
    let end = before_break(s, from, to);
    let line = last_line(s, from, end);
    if from < 0 || line < from || line >= to {
        to
    } else if is_outside(s.subrange(line, end)) {
        block_end(s, from, line)
    } else {
        to
    }
}

fn find_last_line(v: &Vec<char>, from: usize, to: usize) -> (r: Option<usize>)
    requires
        from <= to <= v@.len(),
    ensures
        match r {
            Some(i) => from < i <= to && last_line(v@, from as int, to as int) == i,
            None => last_line(v@, from as int, to as int) == from - 1,
        },
{
    let mut i: usize = to;
    while i > from
        invariant
            from <= i <= to <= v@.len(),
            last_line(v@, from as int, to as int) == last_line(v@, from as int, i as int),
        decreases i,
    {
        if v[i - 1] == '\n' {
            return Some(i);
        }
        i -= 1;
    }
    None
}

fn is_outside_line(v: &Vec<char>, from: usize, to: usize) -> (r: bool)
    requires
        from <= to <= v@.len(),
    ensures
        r == is_outside(v@.subrange(from as int, to as int)),
{
    let line = text::copy(v.as_slice(), from, to);
    if line.len() > 0 && line[0] == '#' {
        return true;
    }
    let t = text::trim_chars(line.as_slice());
    t.len() == 0
}

/// Cuts the end of a block back.
fn without_trailing_comments_and_blank_lines(v: &Vec<char>, from: usize, to: usize) -> (r: usize)
    requires
        from <= to <= v@.len(),
    ensures
        r == block_end(v@, from as int, to as int),
        from <= r <= to,
{
    let mut end: usize = to;
    while end > from
        invariant_except_break
            from <= end <= to <= v@.len(),
            block_end(v@, from as int, to as int) == block_end(v@, from as int, end as int),
        ensures
            from <= end <= to,
            block_end(v@, from as int, to as int) == end,
        decreases end,
    {
        let mut body: usize = end;
        if body > from && v[body - 1] == '\n' {
            body -= 1;
        }
        if body > from && v[body - 1] == '\r' {
            body -= 1;
        }
        assert(body == before_break(v@, from as int, end as int));
        match find_last_line(v, from, body) {
            Some(line) => {
                if line >= end || !is_outside_line(v, line, body) {
                    break;
                }
                end = line;
            },
            None => {
                break;
            },
        }
    }
    end
}

/// The positions that a top-level key and its block take up, given where a query found them: whole
/// lines, without what closes the block at the left edge.
pub open spec fn block_in(document: Seq<char>, at: Extent) -> Result<
    Option<(int, int)>,
    DocumentError,
> {
    match at {
        Extent::Invalid => Err(DocumentError::NotYaml),
        Extent::Absent => Ok(None),
        Extent::At(a, b) => if !offset::is_boundary(document, a as int) || !offset::is_boundary(
            document,
            b as int,
        ) || a > b {
            Err(DocumentError::NotLocated)
        } else {
            let from = line_start(document, offset::position(document, a as int));
            let last = offset::position(document, b as int);
            let to = if last > from && document[last - 1] == '\n' {
                last
            } else {
                line_end(document, last)
            };
            Ok(Some((from, block_end(document, from, to))))
        },
    }
}

/// The positions that a top-level key and its block take up, given where a query found them.
pub fn find_block(v: &Vec<char>, at: Extent) -> (r: Result<Option<(usize, usize)>, DocumentError>)
    ensures
        match r {
            Ok(Some((a, b))) => block_in(v@, at) == Ok::<Option<(int, int)>, DocumentError>(
                Some((a as int, b as int)),
            ) && a <= b <= v@.len(),
            Ok(None) => block_in(v@, at) == Ok::<Option<(int, int)>, DocumentError>(None),
            Err(e) => block_in(v@, at) == Err::<Option<(int, int)>, DocumentError>(e),
        },
{
    let (start, end) = match at {
        Extent::Invalid => {
            return Err(DocumentError::NotYaml);
        },
        Extent::Absent => {
            return Ok(None);
        },
        Extent::At(a, b) => (a, b),
    };
    match (
        offset::find_position(v.as_slice(), start),
        offset::find_position(v.as_slice(), end),
    ) {
        (Some(first), Some(last)) => {
            if start > end {
                return Err(DocumentError::NotLocated);
            }
            proof {
                offset::lemma_position_order(v@, start as int, end as int);
            }
            let mut from: usize = first;
            while from > 0 && v[from - 1] != '\n'
                invariant
                    from <= first <= v@.len(),
                    line_start(v@, first as int) == line_start(v@, from as int),
                decreases from,
            {
                from -= 1;
            }
            let mut to: usize = last;
            if !(last > from && v[last - 1] == '\n') {
                while to < v.len() && v[to] != '\n'
                    invariant
                        last <= to <= v@.len(),
                        line_end(v@, last as int) == line_end(v@, to as int),
                    decreases v@.len() - to,
                {
                    to += 1;
                }
                if to < v.len() {
                    to += 1;
                }
            }
            let end = without_trailing_comments_and_blank_lines(v, from, to);
            Ok(Some((from, end)))
        },
        _ => Err(DocumentError::NotLocated),
    }
}

/// The route to a top-level key.
pub open spec fn key_route(key: Seq<char>) -> Seq<locate::StepModel> {
    seq![locate::StepModel::Key(key)]
}

/// The positions that a top-level key and its block take up, if the document has it.
pub open spec fn key_block(document: Seq<char>, key: Seq<char>) -> Result<
    Option<(int, int)>,
    DocumentError,
> {
    block_in(document, locate::pretty_place(document, key_route(key)))
}

fn key_span(document: &str, v: &Vec<char>, key: &str) -> (r: Result<
    Option<(usize, usize)>,
    DocumentError,
>)
    requires
        v@ == document@,
    ensures
        match r {
            Ok(Some((a, b))) => key_block(document@, key@) == Ok::<
                Option<(int, int)>,
                DocumentError,
            >(Some((a as int, b as int))) && a <= b <= v@.len(),
            Ok(None) => key_block(document@, key@) == Ok::<Option<(int, int)>, DocumentError>(None),
            Err(e) => key_block(document@, key@) == Err::<Option<(int, int)>, DocumentError>(e),
        },
{
    let mut route: Vec<locate::Step> = Vec::new();
    route.push(locate::Step::Key(key.to_owned()));
    assert(locate::route_model(route@) =~= key_route(key@));
    find_block(v, locate::find_pretty(document, &route))
}

/// The document without a block.
pub open spec fn without_block(document: Seq<char>, block: Option<(int, int)>) -> Seq<char> {
    match block {
        Some((a, b)) => document.take(a) + document.skip(b),
        None => document,
    }
}

/// How many line breaks a text has.
pub open spec fn breaks(s: Seq<char>) -> nat
    decreases s.len(),
{
    if s.len() == 0 {
        0
    } else {
        breaks(s.drop_last()) + (if s.last() == '\n' {
            1nat
        } else {
            0
        })
    }
}

/// The document with a block replaced by as many line breaks as it has.
pub open spec fn blanked(document: Seq<char>, block: Option<(int, int)>) -> Seq<char> {
    match block {
        Some((a, b)) => document.take(a) + Seq::new(
            breaks(document.subrange(a, b)),
            |i: int| '\n',
        ) + document.skip(b),
        None => document,
    }
}

/// The document without its top-level `key` and everything under it. A document without that key
/// comes back unchanged.
pub fn remove_key(document: &str, key: &str) -> (r: Result<String, DocumentError>)
    ensures
        match r {
            Ok(s) => key_block(document@, key@) is Ok && s@ == without_block(
                document@,
                key_block(document@, key@)->Ok_0,
            ),
            Err(e) => key_block(document@, key@) == Err::<Option<(int, int)>, DocumentError>(e),
        },
{
    let v = text::chars_of(document);
    match key_span(document, &v, key) {
        Err(e) => Err(e),
        Ok(None) => Ok(document.to_owned()),
        Ok(Some((a, b))) => {
            let mut out = offset::cut(v.as_slice(), 0, a);
            let tail = offset::cut(v.as_slice(), b, v.len());
            out.push_str(tail.as_str());
            assert(out@ =~= document@.take(a as int) + document@.skip(b as int));
            Ok(out)
        },
    }
}

/// The document with its top-level `key` and everything under it replaced by as many empty lines
/// as it took up: gone for a parser, while every other line keeps its number.
pub fn blank_key(document: &str, key: &str) -> (r: Result<String, DocumentError>)
    ensures
        match r {
            Ok(s) => key_block(document@, key@) is Ok && s@ == blanked(
                document@,
                key_block(document@, key@)->Ok_0,
            ),
            Err(e) => key_block(document@, key@) == Err::<Option<(int, int)>, DocumentError>(e),
        },
{
    let v = text::chars_of(document);
    match key_span(document, &v, key) {
        Err(e) => Err(e),
        Ok(None) => Ok(document.to_owned()),
        Ok(Some((a, b))) => {
            let mut out = offset::cut(v.as_slice(), 0, a);
            let ghost head = out@;
            let mut i: usize = a;
            assert(v@.subrange(a as int, a as int) =~= Seq::empty());
            assert(out@ =~= head + Seq::new(0, |k: int| '\n'));
            while i < b
                invariant
                    a <= i <= b <= v@.len(),
                    out@ == head + Seq::new(
                        breaks(v@.subrange(a as int, i as int)),
                        |k: int| '\n',
                    ),
                decreases b - i,
            {
                assert(v@.subrange(a as int, i + 1).drop_last() =~= v@.subrange(
                    a as int,
                    i as int,
                ));
                if v[i] == '\n' {
                    out.push('\n');
                    assert(out@ =~= head + Seq::new(
                        breaks(v@.subrange(a as int, i + 1)),
                        |k: int| '\n',
                    ));
                }
                i += 1;
            }
            let tail = offset::cut(v.as_slice(), b, v.len());
            out.push_str(tail.as_str());
            assert(out@ =~= blanked(document@, Some((a as int, b as int))));
            Ok(out)
        },
    }
}

/// The document without the generator's own block: what goes into a patch file.
pub fn strip_meta(document: &str) -> (r: Result<String, DocumentError>)
    ensures
        match r {
            Ok(s) => key_block(document@, META_KEY@) is Ok && s@ == without_block(
                document@,
                key_block(document@, META_KEY@)->Ok_0,
            ),
            Err(e) => key_block(document@, META_KEY@) == Err::<
                Option<(int, int)>,
                DocumentError,
            >(e),
        },
{
    remove_key(document, META_KEY)
}

proof fn lemma_breaks_concat(a: Seq<char>, b: Seq<char>)
    ensures
        breaks(a + b) == breaks(a) + breaks(b),
    decreases b.len(),
{
    if b.len() == 0 {
        assert(a + b =~= a);
    } else {
        assert((a + b).drop_last() =~= a + b.drop_last());
        lemma_breaks_concat(a, b.drop_last());
    }
}

proof fn lemma_only_breaks(n: nat)
    ensures
        breaks(Seq::new(n, |i: int| '\n')) == n,
    decreases n,
{
    let s = Seq::new(n, |i: int| '\n');
    if n > 0 {
        assert(s.drop_last() =~= Seq::new((n - 1) as nat, |i: int| '\n'));
        lemma_only_breaks((n - 1) as nat);
    }
}

/// Law: blanking a key leaves the document with as many lines as it had.
pub proof fn blanking_keeps_the_line_count(document: Seq<char>, from: int, to: int)
    requires
        0 <= from <= to <= document.len(),
    ensures
        breaks(blanked(document, Some((from, to)))) == breaks(document),
{
    let head = document.take(from);
    let body = document.subrange(from, to);
    let tail = document.skip(to);
    let blank = Seq::new(breaks(body), |i: int| '\n');
    lemma_only_breaks(breaks(body));
    lemma_breaks_concat(head, blank);
    lemma_breaks_concat(head + blank, tail);
    lemma_breaks_concat(head, body);
    lemma_breaks_concat(head + body, tail);
    assert(document =~= head + body + tail);
}

/// A change to one document.
#[derive(Debug, PartialEq)]
pub enum Patch {
    /// Entries for a mapping.
    Add(Vec<locate::Step>, Vec<(String, Value)>),
    /// A node to take out, with the key that holds it and the lines that they stand on.
    Remove(Vec<locate::Step>),
}

/// A document after one change.
pub open spec fn changed(document: Seq<char>, p: Patch) -> Option<Seq<char>> {
    match p {
        Patch::Add(route, entries) => locate::with_added(
            document,
            locate::route_model(route@),
            locate::entry_models(entries@),
        ),
        Patch::Remove(route) => locate::with_lines_removed(
            document,
            locate::route_model(route@),
        ),
    }
}

/// A document after the first `n` changes, one after the other.
pub open spec fn all_changed(document: Seq<char>, patches: Seq<Patch>, n: int) -> Option<Seq<char>>
    decreases n,
{
    if n <= 0 {
        Some(document)
    } else {
        match all_changed(document, patches, n - 1) {
            Some(d) => changed(d, patches[n - 1]),
            None => None,
        }
    }
}

proof fn lemma_all_changed_none(document: Seq<char>, patches: Seq<Patch>, n: int, m: int)
    requires
        n <= m,
        all_changed(document, patches, n) is None,
    ensures
        all_changed(document, patches, m) is None,
    decreases m - n,
{
    if n < m {
        lemma_all_changed_none(document, patches, n, m - 1);
    }
}

/// Applies changes to the single document at a range, and returns the whole file with that
/// document replaced: every byte outside the range is carried over. There is at least one change.
pub fn patch_document(raw: &str, span: Range<usize>, patches: &Vec<Patch>) -> (r: Result<
    String,
    DocumentError,
>)
    requires
        offset::is_boundary(raw@, span.start as int),
        offset::is_boundary(raw@, span.end as int),
        span.start <= span.end,
    ensures
        ({
            let document = offset::part(raw@, span.start as int, span.end as int);
            let after = all_changed(document, patches@, patches@.len() as int);
            match r {
                Ok(s) => patches@.len() > 0 && after is Some && s@ == offset::part(
                    raw@,
                    0,
                    span.start as int,
                ) + after->0 + offset::part(raw@, span.end as int, offset::size(raw@)),
                Err(e) => e == DocumentError::NotPatched && (patches@.len() == 0 || after is None),
            }
        }),
{
    if patches.len() == 0 {
        return Err(DocumentError::NotPatched);
    }
    let v = text::chars_of(raw);
    let mut current = cut_bytes(&v, span.start, span.end);
    let ghost document = current@;
    let mut i: usize = 0;
    while i < patches.len()
        invariant
            i <= patches@.len(),
            document == offset::part(raw@, span.start as int, span.end as int),
            all_changed(document, patches@, i as int) == Some(current@),
        decreases patches@.len() - i,
    {
        let next = match &patches[i] {
            Patch::Add(route, entries) => locate::add_entries(current.as_str(), route, entries),
            Patch::Remove(route) => locate::remove_lines(current.as_str(), route),
        };
        match next {
            Some(s) => {
                current = s;
            },
            None => {
                proof {
                    lemma_all_changed_none(
                        document,
                        patches@,
                        i + 1,
                        patches@.len() as int,
                    );
                }
                return Err(DocumentError::NotPatched);
            },
        }
        i += 1;
    }
    Ok(splice(raw, span, current.as_str()))
}

} // verus!
