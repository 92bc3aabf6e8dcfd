//! Where things are in a YAML document, and small changes to it: what the path query and patch
//! libraries are called for.

use crate::offset;
use crate::taloscfg::weight;
use crate::text;
use crate::value;
use crate::value::Tree;
use crate::value::Value;
use crate::yaml;
use vstd::prelude::*;

verus! {

/// One step on the way to a node.
#[derive(Debug, PartialEq)]
pub enum Step {
    Key(String),
    Index(usize),
}

/// A step as a mathematical value.
pub enum StepModel {
    Key(Seq<char>),
    Index(int),
}

pub open spec fn step_model(s: Step) -> StepModel {
    match s {
        Step::Key(k) => StepModel::Key(k@),
        Step::Index(i) => StepModel::Index(i as int),
    }
}

/// A way to a node: steps from the top of the document.
pub open spec fn route_model(route: Seq<Step>) -> Seq<StepModel> {
    Seq::new(route.len(), |i: int| step_model(route[i]))
}

/// What a node is.
#[derive(Clone, Copy, Debug, PartialEq, Eq, Structural)]
pub enum NodeKind {
    BlockMapping,
    BlockSequence,
    FlowMapping,
    FlowSequence,
    Scalar,
}

/// What a query found.
#[derive(Clone, Copy, Debug, PartialEq, Eq, Structural)]
pub enum Found {
    /// The document is not valid, or too large.
    Invalid,
    /// Nothing is there.
    Absent,
    /// A key without a value is there.
    Empty,
    /// A node that does not open with its content is there: what it is cannot be told.
    Prefixed,
    /// A node is there, at this byte range.
    At(NodeKind, usize, usize),
}

/// Where a query found a node and the key that holds it.
#[derive(Clone, Copy, Debug, PartialEq, Eq, Structural)]
pub enum Extent {
    /// The document is not valid, or too large.
    Invalid,
    /// Nothing is there.
    Absent,
    /// A byte range.
    At(usize, usize),
}

/// A document that the query library can take: its index of lines counts bytes in 32 bits, and it
/// does not return on a document that has more.
pub open spec fn fits(document: Seq<char>) -> bool {
    offset::size(document) < 0xffff_ffff
}

/// Whether the query library can take a document.
fn does_fit(document: &str) -> (r: bool)
    ensures
        r == fits(document@),
{
    offset::byte_len(document) < 0xffff_ffff
}

/// What `query_pretty` gives: where a node is, with the key that holds it.
pub uninterp spec fn queried_pretty(document: Seq<char>, route: Seq<StepModel>) -> Extent;

/// What `query_key_only` gives: where the key is that holds a node.
pub uninterp spec fn queried_key(document: Seq<char>, route: Seq<StepModel>) -> Extent;

/// The range that `query_exact` gives: that of a node itself.
pub uninterp spec fn queried_span(document: Seq<char>, route: Seq<StepModel>) -> Extent;

/// What `query_exact` gives, with its kind: what a node is, and where.
pub uninterp spec fn queried_exact(document: Seq<char>, route: Seq<StepModel>) -> Found;

/// Where a node is, with the key that holds it.
pub open spec fn pretty_place(document: Seq<char>, route: Seq<StepModel>) -> Extent {
    if fits(document) {
        queried_pretty(document, route)
    } else {
        Extent::Invalid
    }
}

/// Where the key is that holds a node.
pub open spec fn key_place(document: Seq<char>, route: Seq<StepModel>) -> Extent {
    if fits(document) {
        queried_key(document, route)
    } else {
        Extent::Invalid
    }
}

/// The byte range of a node itself.
pub open spec fn exact_span(document: Seq<char>, route: Seq<StepModel>) -> Extent {
    if fits(document) {
        queried_span(document, route)
    } else {
        Extent::Invalid
    }
}

/// What a node is, and where.
pub open spec fn exact_place(document: Seq<char>, route: Seq<StepModel>) -> Found {
    if fits(document) {
        queried_exact(document, route)
    } else {
        Found::Invalid
    }
}

/// What `Op::Add` makes of a document: an entry is added to a mapping.
pub uninterp spec fn patched_in(
    document: Seq<char>,
    route: Seq<StepModel>,
    key: Seq<char>,
    t: Tree,
) -> Option<Seq<char>>;

/// A route as the query library takes it.
#[verifier::external_type_specification]
#[verifier::external_body]
pub struct ExRoute<'a>(yamlpath::Route<'a>);

/// Steps as a `yamlpath::Route`, one component each.
#[verifier::external_body]
fn outside_route<'a>(route: &'a Vec<Step>) -> yamlpath::Route<'a> {
    yamlpath::Route::default().with_keys(
        route.iter().map(
            |s| match s {
                Step::Key(k) => yamlpath::Component::from(k.as_str()),
                Step::Index(i) => yamlpath::Component::from(*i),
            },
        ),
    )
}

/// `yamlpath::Document::query_pretty`: the byte range of a node together with the key that holds
/// it. What it gives depends on the document and the route alone.
#[verifier::external_body]
fn query_pretty(document: &str, route: &Vec<Step>) -> (r: Extent)
    requires
        fits(document@),
    ensures
        r == queried_pretty(document@, route_model(route@)),
{
    match yamlpath::Document::new(document) {
        Err(_) => Extent::Invalid,
        Ok(parsed) => match parsed.query_pretty(&outside_route(route)) {
            Err(_) => Extent::Absent,
            Ok(f) => Extent::At(f.location.byte_span.0, f.location.byte_span.1),
        },
    }
}

/// `yamlpath::Document::query_key_only`: the byte range of the key that holds a node. What it gives
/// depends on the document and the route alone.
#[verifier::external_body]
fn query_key(document: &str, route: &Vec<Step>) -> (r: Extent)
    requires
        fits(document@),
    ensures
        r == queried_key(document@, route_model(route@)),
{
    let Ok(parsed) = yamlpath::Document::new(document) else { return Extent::Invalid };
    match parsed.query_key_only(&outside_route(route)) {
        Ok(f) => Extent::At(f.location.byte_span.0, f.location.byte_span.1),
        Err(_) => Extent::Absent,
    }
}

/// `yamlpath::Document::query_exact`: the byte range of a node itself. What it gives depends on the
/// document and the route alone.
#[verifier::external_body]
fn query_span(document: &str, route: &Vec<Step>) -> (r: Extent)
    requires
        fits(document@),
    ensures
        r == queried_span(document@, route_model(route@)),
{
    let Ok(parsed) = yamlpath::Document::new(document) else { return Extent::Invalid };
    match parsed.query_exact(&outside_route(route)) {
        Ok(Some(f)) => Extent::At(f.location.byte_span.0, f.location.byte_span.1),
        _ => Extent::Absent,
    }
}

/// Looks up where a node is, with the key that holds it.
pub(crate) fn find_pretty(document: &str, route: &Vec<Step>) -> (r: Extent)
    ensures
        r == pretty_place(document@, route_model(route@)),
{
    if does_fit(document) {
        query_pretty(document, route)
    } else {
        Extent::Invalid
    }
}

/// Looks up where the key is that holds a node.
pub(crate) fn find_key(document: &str, route: &Vec<Step>) -> (r: Extent)
    ensures
        r == key_place(document@, route_model(route@)),
{
    if does_fit(document) {
        query_key(document, route)
    } else {
        Extent::Invalid
    }
}

/// Looks up where a node itself is.
fn find_span(document: &str, route: &Vec<Step>) -> (r: Extent)
    ensures
        r == exact_span(document@, route_model(route@)),
{
    if does_fit(document) {
        query_span(document, route)
    } else {
        Extent::Invalid
    }
}

/// The character that a range opens with.
pub open spec fn first_char(document: Seq<char>, e: Extent) -> Option<char> {
    match e {
        Extent::At(start, _) => {
            let i = offset::position(document, start as int);
            if offset::is_boundary(document, start as int) && i < document.len() {
                Some(document[i])
            } else {
                None
            }
        },
        _ => None,
    }
}

/// A character that can open a node's content. A tag, a comment, an anchor and an alias open with
/// the others.
pub open spec fn opens_content(c: Option<char>) -> bool {
    c is Some && c != Some('!') && c != Some('#') && c != Some('&') && c != Some('*')
}

/// There is a node, and it does not open with its content.
pub open spec fn is_prefixed(document: Seq<char>, route: Seq<StepModel>) -> bool {
    exact_span(document, route) is At && !opens_content(
        first_char(document, exact_span(document, route)),
    )
}

fn opens_with_content(document: &str, e: Extent) -> (r: bool)
    ensures
        r == opens_content(first_char(document@, e)),
{
    match e {
        Extent::At(start, _) => {
            let v = text::chars_of(document);
            match offset::find_position(v.as_slice(), start) {
                Some(i) => i < v.len() && v[i] != '!' && v[i] != '#' && v[i] != '&' && v[i] != '*',
                None => false,
            }
        },
        _ => false,
    }
}

/// `yamlpath::Document::query_exact` and `yamlpath::Feature::kind`: the kind and the byte range of a
/// node itself. What it gives depends on the document and the route alone. `kind` looks at the
/// first part of a node, and does not return where that is a tag, a comment, an anchor or an alias,
/// so that nodes which open with one of these are left out.
#[verifier::external_body]
fn query_exact(document: &str, route: &Vec<Step>) -> (r: Found)
    requires
        fits(document@),
        !is_prefixed(document@, route_model(route@)),
    ensures
        r == queried_exact(document@, route_model(route@)),
{
    let Ok(parsed) = yamlpath::Document::new(document) else { return Found::Invalid };
    let Ok(found) = parsed.query_exact(&outside_route(route)) else { return Found::Absent };
    let Some(f) = found else { return Found::Empty };
    let kind = match f.kind() {
        yamlpath::FeatureKind::BlockMapping => NodeKind::BlockMapping,
        yamlpath::FeatureKind::BlockSequence => NodeKind::BlockSequence,
        yamlpath::FeatureKind::FlowMapping => NodeKind::FlowMapping,
        yamlpath::FeatureKind::FlowSequence => NodeKind::FlowSequence,
        yamlpath::FeatureKind::Scalar => NodeKind::Scalar,
    };
    Found::At(kind, f.location.byte_span.0, f.location.byte_span.1)
}

/// What is at a route.
pub open spec fn place(document: Seq<char>, route: Seq<StepModel>) -> Found {
    if is_prefixed(document, route) {
        Found::Prefixed
    } else {
        exact_place(document, route)
    }
}

/// Looks up what is at a route.
pub(crate) fn find(document: &str, route: &Vec<Step>) -> (r: Found)
    ensures
        r == place(document@, route_model(route@)),
{
    let span = find_span(document, route);
    let there = match span {
        Extent::At(_, _) => true,
        _ => false,
    };
    if there && !opens_with_content(document, span) {
        Found::Prefixed
    } else if does_fit(document) {
        query_exact(document, route)
    } else {
        Found::Invalid
    }
}

/// Where the line that holds position `i` starts.
pub open spec fn line_start(s: Seq<char>, i: int) -> int
    decreases i,
{
    if i <= 0 {
        0
    } else if s[i - 1] == '\n' {
        i
    } else {
        line_start(s, i - 1)
    }
}

/// Where the line that holds position `i` ends, its line break included.
pub open spec fn line_end(s: Seq<char>, i: int) -> int
    decreases s.len() - i,
{
    if i >= s.len() {
        s.len() as int
    } else if s[i] == '\n' {
        i + 1
    } else {
        line_end(s, i + 1)
    }
}

/// How many spaces there are from `i` on, until something else comes.
pub open spec fn space_run(s: Seq<char>, i: int) -> int
    decreases s.len() - i,
{
    if 0 <= i < s.len() && s[i] == ' ' {
        1 + space_run(s, i + 1)
    } else {
        0
    }
}

/// The column, at `i` or behind it, of the first entry on a line, past the dashes of the lists that
/// it is an item of. `dash` says that a dash would be one of those; after one, a space comes
/// first. One column past the line where there is nothing else on it.
pub open spec fn entry_column(line: Seq<char>, i: int, dash: bool) -> int
    decreases line.len() - i,
{
    if i >= line.len() {
        line.len() as int + 1
    } else if line[i] == ' ' {
        entry_column(line, i + 1, true)
    } else if line[i] == '-' && dash {
        entry_column(line, i + 1, false)
    } else if dash {
        i
    } else {
        i - 1
    }
}

/// The line that holds position `i`, without what trails it.
pub open spec fn line_of(s: Seq<char>, i: int) -> Seq<char> {
    text::trimmed_end(s.subrange(line_start(s, i), line_end(s, i)))
}

/// A line has content: it is neither blank nor a comment.
pub open spec fn has_content(line: Seq<char>) -> bool {
    text::trimmed(line).len() > 0 && text::trimmed(line)[0] != '#'
}

/// Where a line starts, or `from` where the line starts ahead of that.
pub open spec fn piece_start(s: Seq<char>, from: int, i: int) -> int {
    if line_start(s, i) < from {
        from
    } else {
        line_start(s, i)
    }
}

/// Where the last line of content between two positions ends; nothing where no line has content.
pub open spec fn content_to(s: Seq<char>, from: int, to: int) -> Option<int>
    decreases to - from,
{
    if from < 0 || to <= from || to > s.len() {
        None
    } else {
        let start = piece_start(s, from, to - 1);
        if has_content(s.subrange(start, to)) {
            Some(to)
        } else if start < to {
            content_to(s, from, start)
        } else {
            None
        }
    }
}

/// The column at which further entries of a block stand.
#[verifier::opaque]
pub open spec fn block_column(document: Seq<char>, route: Seq<StepModel>) -> Option<usize> {
    match exact_span(document, route) {
        Extent::At(start, _) => {
            let i = offset::position(document, start as int);
            Some(entry_column(line_of(document, i), 0, true) as usize)
        },
        _ => None,
    }
}

/// How many spaces open the line on which a node starts.
#[verifier::opaque]
pub open spec fn leading_spaces(document: Seq<char>, route: Seq<StepModel>) -> Option<usize> {
    match exact_span(document, route) {
        Extent::At(start, _) => {
            let i = offset::position(document, start as int);
            Some(space_run(document, line_start(document, i)) as usize)
        },
        _ => None,
    }
}

/// The byte at which the last line of content of a node ends, or at which the node ends where it
/// has none.
#[verifier::opaque]
pub open spec fn content_end(document: Seq<char>, route: Seq<StepModel>) -> Option<usize> {
    match exact_span(document, route) {
        Extent::At(start, end) => {
            let from = offset::position(document, start as int);
            let to = offset::position(document, end as int);
            match content_to(document, from, to) {
                Some(at) => Some(offset::offset(document, at) as usize),
                None => Some(end),
            }
        },
        _ => None,
    }
}

/// `yamlpatch::extract_leading_indentation_for_block_item`: the column at which the entries of a
/// block stand, read off the line on which it starts.
#[verifier::external_body]
fn outside_block_column(document: &str, route: &Vec<Step>) -> (r: Option<usize>)
    requires
        fits(document@),
    ensures
        r == block_column(document@, route_model(route@)),
{
    let parsed = yamlpath::Document::new(document).ok()?;
    let f = parsed.query_exact(&outside_route(route)).ok()??;
    Some(yamlpatch::extract_leading_indentation_for_block_item(&parsed, &f))
}

/// `yamlpatch::extract_leading_whitespace`: the spaces that open the line on which a node starts.
#[verifier::external_body]
fn outside_leading_spaces(document: &str, route: &Vec<Step>) -> (r: Option<usize>)
    requires
        fits(document@),
    ensures
        r == leading_spaces(document@, route_model(route@)),
{
    let parsed = yamlpath::Document::new(document).ok()?;
    let f = parsed.query_exact(&outside_route(route)).ok()??;
    Some(yamlpatch::extract_leading_whitespace(&parsed, &f).len())
}

/// `yamlpatch::find_content_end`: the byte at which the last line of a node that is neither blank
/// nor a comment ends.
#[verifier::external_body]
fn outside_content_end(document: &str, route: &Vec<Step>) -> (r: Option<usize>)
    requires
        fits(document@),
    ensures
        r == content_end(document@, route_model(route@)),
{
    let parsed = yamlpath::Document::new(document).ok()?;
    let f = parsed.query_exact(&outside_route(route)).ok()??;
    Some(yamlpatch::find_content_end(&f, &parsed))
}

/// Looks up the column at which further entries of a block stand.
pub(crate) fn find_block_column(document: &str, route: &Vec<Step>) -> (r: Option<usize>)
    ensures
        r == block_column(document@, route_model(route@)),
{
    if does_fit(document) {
        outside_block_column(document, route)
    } else {
        proof {
            reveal(block_column);
        }
        None
    }
}

/// Counts the spaces that open the line on which a node starts.
pub(crate) fn find_leading_spaces(document: &str, route: &Vec<Step>) -> (r: Option<usize>)
    ensures
        r == leading_spaces(document@, route_model(route@)),
{
    if does_fit(document) {
        outside_leading_spaces(document, route)
    } else {
        proof {
            reveal(leading_spaces);
        }
        None
    }
}

/// Looks up the byte at which the content of a node ends.
pub(crate) fn find_content_end(document: &str, route: &Vec<Step>) -> (r: Option<usize>)
    ensures
        r == content_end(document@, route_model(route@)),
{
    if does_fit(document) {
        outside_content_end(document, route)
    } else {
        proof {
            reveal(content_end);
        }
        None
    }
}

/// What entries hold: keys and contents.
pub open spec fn entry_models(entries: Seq<(String, Value)>) -> Seq<(Seq<char>, Tree)> {
    Seq::new(entries.len(), |i: int| (entries[i].0@, value::tree(entries[i].1)))
}

/// Entries can be added at a route: there is a mapping, and the document opens with its content
/// where the mapping is all of it.
pub open spec fn takes_entries(document: Seq<char>, route: Seq<StepModel>) -> bool {
    &&& place(document, route) matches Found::At(kind, _, _) && (kind == NodeKind::BlockMapping
        || kind == NodeKind::FlowMapping)
    &&& route.len() == 0 ==> opens_content(first_char(document, pretty_place(document, route)))
}

/// Whether entries can be added at a route.
pub(crate) fn can_take_entries(document: &str, route: &Vec<Step>) -> (r: bool)
    ensures
        r == takes_entries(document@, route_model(route@)),
{
    let mapping = match find(document, route) {
        Found::At(NodeKind::BlockMapping, _, _) => true,
        Found::At(NodeKind::FlowMapping, _, _) => true,
        _ => false,
    };
    mapping && (route.len() > 0 || opens_with_content(document, find_pretty(document, route)))
}

/// There may be an alias in a byte range.
pub open spec fn may_alias(document: Seq<char>, start: usize, end: usize) -> bool {
    !offset::is_boundary(document, start as int) || !offset::is_boundary(document, end as int)
        || exists|i: int|
        offset::position(document, start as int) <= i < offset::position(document, end as int)
            && #[trigger] document[i] == '*'
}

/// How many bytes a mapping in braces can come to when it is read and written anew: each byte comes
/// to twelve at most, where an alias does not stand for much more. Reading stops once a hundred
/// aliases have been followed for every byte.
pub open spec fn rewritten_size(document: Seq<char>, start: usize, end: usize) -> int {
    let n = if start <= end {
        end - start + 8
    } else {
        8
    };
    if may_alias(document, start, end) {
        12 * (n * (1 + 100 * n))
    } else {
        12 * n
    }
}

/// How many bytes the mapping at a route can come to, if it is rewritten.
pub open spec fn rewriting(document: Seq<char>, route: Seq<StepModel>) -> int {
    match place(document, route) {
        Found::At(NodeKind::FlowMapping, start, end) => rewritten_size(document, start, end),
        _ => 0,
    }
}

/// What a part of an entry costs at most, in bytes, once its lines are indented to a column.
pub open spec fn part_cost(column: Option<usize>) -> int {
    64 + 4 * (match column {
        Some(column) => column as int,
        None => 0,
    })
}

/// The document still fits with an entry added.
pub open spec fn has_room(
    document: Seq<char>,
    route: Seq<StepModel>,
    key: Seq<char>,
    t: Tree,
) -> bool {
    offset::size(document) + rewriting(document, route) + weight::weight(
        Tree::Tagged(key, Box::new(t)),
        part_cost(block_column(document, route)),
    ) < 0xffff_ffff
}

fn has_alias(document: &str, start: usize, end: usize) -> (r: bool)
    ensures
        r == may_alias(document@, start, end),
{
    let v = text::chars_of(document);
    match (
        offset::find_position(v.as_slice(), start),
        offset::find_position(v.as_slice(), end),
    ) {
        (Some(from), Some(to)) => {
            let mut i: usize = from;
            while i < to
                invariant
                    v@ == document@,
                    from <= i,
                    to <= v@.len(),
                    from == offset::position(document@, start as int),
                    to == offset::position(document@, end as int),
                    offset::is_boundary(document@, start as int),
                    offset::is_boundary(document@, end as int),
                    forall|k: int| from <= k < i ==> document@[k] != '*',
                decreases to - i,
            {
                if v[i] == '*' {
                    assert(document@[i as int] == '*');
                    return true;
                }
                i += 1;
            }
            false
        },
        _ => true,
    }
}

/// Looks up how many bytes the mapping at a route can come to; nothing where that does not fit.
fn find_rewriting(document: &str, route: &Vec<Step>) -> (r: Option<u64>)
    ensures
        match r {
            Some(n) => n == rewriting(document@, route_model(route@)) && n < 0xffff_ffff,
            None => rewriting(document@, route_model(route@)) >= 0xffff_ffff,
        },
{
    match find(document, route) {
        Found::At(NodeKind::FlowMapping, start, end) => {
            let n: u128 = if start <= end {
                (end - start) as u128 + 8
            } else {
                8
            };
            if n >= 0xffff_ffff {
                proof {
                    assert(n * (1 + 100 * n) >= n) by (nonlinear_arith)
                        requires
                            n >= 0,
                    ;
                }
                return None;
            }
            proof {
                assert(n * (1 + 100 * n) <= 0xffff_ffff * (1 + 100 * 0xffff_ffff)) by (
                nonlinear_arith)
                    requires
                        0 <= n < 0xffff_ffff,
                ;
            }
            let size: u128 = if has_alias(document, start, end) {
                12 * (n * (1 + 100 * n))
            } else {
                12 * n
            };
            if size < 0xffff_ffff {
                Some(size as u64)
            } else {
                None
            }
        },
        _ => Some(0),
    }
}

proof fn lemma_rewriting(document: Seq<char>, route: Seq<StepModel>)
    ensures
        0 <= rewriting(document, route),
{
    if let Found::At(NodeKind::FlowMapping, start, end) = place(document, route) {
        let n = if start <= end {
            end - start + 8
        } else {
            8
        };
        assert(0 <= n * (1 + 100 * n)) by (nonlinear_arith)
            requires
                0 <= n,
        ;
    }
}

/// Whether the document still fits with an entry added.
fn leaves_room(document: &str, route: &Vec<Step>, key: &str, value: &Value) -> (r: bool)
    ensures
        r == has_room(document@, route_model(route@), key@, value::tree(*value)),
{
    let ghost t = value::tree(*value);
    let column: u128 = match find_block_column(document, route) {
        Some(column) => column as u128,
        None => 0,
    };
    let cost: u128 = 64 + 4 * column;
    proof {
        offset::lemma_size(document@);
        weight::lemma_weight(Tree::Tagged(key@, Box::new(t)), cost as int);
        lemma_rewriting(document@, route_model(route@));
    }
    if cost >= 0xffff_ffff || !does_fit(document) {
        return false;
    }
    match find_rewriting(document, route) {
        Some(rewritten) => {
            let w: u64 = weight::weigh_entry(key, value, cost as u64);
            (offset::byte_len(document) as u64) + rewritten + w < 0xffff_ffff
        },
        None => false,
    }
}

/// `yamlpatch::apply_yaml_patches` with one `Op::Add`: the document with an entry added to a
/// mapping. What it gives depends on its arguments alone. Nothing more is said of how the document
/// is changed. It asks for the kind of the node, and of the whole document where the node is all of
/// it, and for the first byte of a scalar, so that whatever is no mapping is left out; it does not
/// return where the document outgrows `fits`, so that there has to be room for the entry.
#[verifier::external_body]
fn outside_addition(document: &str, route: &Vec<Step>, key: &str, value: &Value) -> (r: Option<
    String,
>)
    requires
        takes_entries(document@, route_model(route@)),
        has_room(document@, route_model(route@), key@, value::tree(*value)),
    ensures
        text::text_opt(r) == patched_in(
            document@,
            route_model(route@),
            key@,
            value::tree(*value),
        ),
{
    let parsed = yamlpath::Document::new(document).ok()?;
    let patch = yamlpatch::Patch {
        route: outside_route(route),
        operation: yamlpatch::Op::Add { key: key.to_owned(), value: yaml::outside(value) },
    };
    yamlpatch::apply_yaml_patches(&parsed, &[patch]).ok().map(|d| d.source().to_owned())
}

/// The document with one entry added. Nothing where there is no mapping to take it, no room, or the
/// mapping has the key already.
pub open spec fn with_one(
    document: Seq<char>,
    route: Seq<StepModel>,
    key: Seq<char>,
    t: Tree,
) -> Option<Seq<char>> {
    if takes_entries(document, route) && has_room(document, route, key, t) {
        patched_in(document, route, key, t)
    } else {
        None
    }
}

/// The document with the first `n` of some entries added, one after the other.
pub open spec fn with_first(
    document: Seq<char>,
    route: Seq<StepModel>,
    entries: Seq<(Seq<char>, Tree)>,
    n: int,
) -> Option<Seq<char>>
    decreases n,
{
    if n <= 0 {
        Some(document)
    } else {
        match with_first(document, route, entries, n - 1) {
            Some(d) => with_one(d, route, entries[n - 1].0, entries[n - 1].1),
            None => None,
        }
    }
}

/// The document with entries added, of which there is at least one.
pub open spec fn with_added(
    document: Seq<char>,
    route: Seq<StepModel>,
    entries: Seq<(Seq<char>, Tree)>,
) -> Option<Seq<char>> {
    if entries.len() == 0 {
        None
    } else {
        with_first(document, route, entries, entries.len() as int)
    }
}

proof fn lemma_with_first_none(
    document: Seq<char>,
    route: Seq<StepModel>,
    entries: Seq<(Seq<char>, Tree)>,
    n: int,
    m: int,
)
    requires
        n <= m,
        with_first(document, route, entries, n) is None,
    ensures
        with_first(document, route, entries, m) is None,
    decreases m - n,
{
    if n < m {
        lemma_with_first_none(document, route, entries, n, m - 1);
    }
}

/// Adds entries to a mapping, one after the other.
pub(crate) fn add_entries(
    document: &str,
    route: &Vec<Step>,
    entries: &Vec<(String, Value)>,
) -> (r: Option<String>)
    ensures
        text::text_opt(r) == with_added(
            document@,
            route_model(route@),
            entry_models(entries@),
        ),
{
    if entries.len() == 0 {
        return None;
    }
    let ghost own = route_model(route@);
    let ghost models = entry_models(entries@);
    let mut current = document.to_owned();
    let mut i: usize = 0;
    while i < entries.len()
        invariant
            i <= entries@.len(),
            own == route_model(route@),
            models == entry_models(entries@),
            with_first(document@, own, models, i as int) == Some(current@),
        decreases entries@.len() - i,
    {
        assert(models[i as int] == (entries@[i as int].0@, value::tree(entries@[i as int].1)));
        let key = entries[i].0.as_str();
        let next = if can_take_entries(current.as_str(), route) && leaves_room(
            current.as_str(),
            route,
            key,
            &entries[i].1,
        ) {
            outside_addition(current.as_str(), route, key, &entries[i].1)
        } else {
            None
        };
        match next {
            Some(s) => {
                current = s;
            },
            None => {
                proof {
                    lemma_with_first_none(document@, own, models, i + 1, entries@.len() as int);
                }
                return None;
            },
        }
        i += 1;
    }
    Some(current)
}

/// A text that ends in a line break.
pub open spec fn closed(s: Seq<char>) -> Seq<char> {
    if s.len() > 0 && s.last() == '\n' {
        s
    } else {
        s.push('\n')
    }
}

/// The document without the lines that a node and the key that holds it stand on, from the line
/// that they start on to the line that they end on. Nothing where there is no such node, where it is
/// the whole document, or where what is left is not a document.
pub open spec fn with_lines_removed(document: Seq<char>, route: Seq<StepModel>) -> Option<
    Seq<char>,
> {
    match pretty_place(document, route) {
        Extent::At(start, end) => {
            let from = line_start(document, offset::position(document, start as int));
            let to = line_end(document, offset::position(document, end as int));
            let left = closed(document.take(from) + document.skip(to));
            if route.len() > 0 && !(pretty_place(left, Seq::empty()) is Invalid) {
                Some(left)
            } else {
                None
            }
        },
        _ => None,
    }
}

/// `yamlpatch::apply_yaml_patches` with one `Op::Remove`: the document without the lines of a node
/// and of the key that holds it, and of whatever else stands on them.
#[verifier::external_body]
fn outside_removal(document: &str, route: &Vec<Step>) -> (r: Option<String>)
    requires
        fits(document@),
    ensures
        match r {
            Some(s) => with_lines_removed(document@, route_model(route@)) == Some(s@),
            None => with_lines_removed(document@, route_model(route@)) is None,
        },
{
    let parsed = yamlpath::Document::new(document).ok()?;
    let patch = yamlpatch::Patch {
        route: outside_route(route),
        operation: yamlpatch::Op::Remove,
    };
    yamlpatch::apply_yaml_patches(&parsed, &[patch]).ok().map(|d| d.source().to_owned())
}

/// Removes the lines of a node and of the key that holds it.
pub(crate) fn remove_lines(document: &str, route: &Vec<Step>) -> (r: Option<String>)
    ensures
        match r {
            Some(s) => with_lines_removed(document@, route_model(route@)) == Some(s@),
            None => with_lines_removed(document@, route_model(route@)) is None,
        },
{
    if does_fit(document) {
        outside_removal(document, route)
    } else {
        None
    }
}

} // verus!
