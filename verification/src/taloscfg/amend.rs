//! Small changes to the topology file: a field set, an item added to a list or taken out of it.
//! Everything else in the file stays as the operator wrote it, comments and layout included.
//!
//! What is added to a block goes on lines of its own, in the layout of `emit`. What is added inside
//! braces or brackets goes in there, with every string in double quotes.

use crate::offset;
use crate::taloscfg::emit;
use crate::taloscfg::emit::EmitError;
use crate::taloscfg::locate;
use crate::taloscfg::locate::Extent;
use crate::taloscfg::locate::Found;
use crate::taloscfg::locate::NodeKind;
use crate::taloscfg::locate::Step;
use crate::taloscfg::locate::StepModel;
use crate::text;
use crate::value;
use crate::value::Tree;
use crate::value::Value;
use crate::yaml;
use vstd::prelude::*;

verus! {

fn find_line_start(v: &Vec<char>, i: usize) -> (r: usize)
    requires
        i <= v@.len(),
    ensures
        r == locate::line_start(v@, i as int),
        r <= i,
{
    let mut k: usize = i;
    while k > 0 && v[k - 1] != '\n'
        invariant
            k <= i <= v@.len(),
            locate::line_start(v@, i as int) == locate::line_start(v@, k as int),
        decreases k,
    {
        k -= 1;
    }
    k
}

fn find_line_end(v: &Vec<char>, i: usize) -> (r: usize)
    requires
        i <= v@.len(),
    ensures
        r == locate::line_end(v@, i as int),
        i <= r <= v@.len(),
{
    let mut k: usize = i;
    while k < v.len() && v[k] != '\n'
        invariant
            i <= k <= v@.len(),
            locate::line_end(v@, i as int) == locate::line_end(v@, k as int),
        decreases v@.len() - k,
    {
        k += 1;
    }
    if k < v.len() {
        k + 1
    } else {
        k
    }
}

/// The first position, from `i` on, that does not hold a space.
pub open spec fn past_spaces(s: Seq<char>, i: int) -> int
    decreases s.len() - i,
{
    if 0 <= i < s.len() && s[i] == ' ' {
        past_spaces(s, i + 1)
    } else {
        i
    }
}

fn skip_spaces(v: &Vec<char>, i: usize) -> (r: usize)
    requires
        i <= v@.len(),
    ensures
        r == past_spaces(v@, i as int),
        i <= r <= v@.len(),
{
    let mut k: usize = i;
    while k < v.len() && v[k] == ' '
        invariant
            i <= k <= v@.len(),
            past_spaces(v@, i as int) == past_spaces(v@, k as int),
        decreases v@.len() - k,
    {
        k += 1;
    }
    k
}

/// The first position, from `i` on, that does not hold whitespace.
pub open spec fn past_blank(s: Seq<char>, i: int) -> int
    decreases s.len() - i,
{
    if 0 <= i < s.len() && text::is_space(s[i]) {
        past_blank(s, i + 1)
    } else {
        i
    }
}

fn skip_blank(v: &Vec<char>, i: usize) -> (r: usize)
    requires
        i <= v@.len(),
    ensures
        r == past_blank(v@, i as int),
        i <= r <= v@.len(),
{
    let mut k: usize = i;
    while k < v.len() && text::is_whitespace(v[k])
        invariant
            i <= k <= v@.len(),
            past_blank(v@, i as int) == past_blank(v@, k as int),
        decreases v@.len() - k,
    {
        k += 1;
    }
    k
}

/// Where the text up to `i` ends, without the whitespace that closes it.
pub open spec fn before_blank(s: Seq<char>, i: int) -> int
    decreases i,
{
    if 0 < i <= s.len() && text::is_space(s[i - 1]) {
        before_blank(s, i - 1)
    } else {
        i
    }
}

fn unskip_blank(v: &Vec<char>, i: usize) -> (r: usize)
    requires
        i <= v@.len(),
    ensures
        r == before_blank(v@, i as int),
        r <= i,
{
    let mut k: usize = i;
    while k > 0 && text::is_whitespace(v[k - 1])
        invariant
            k <= i <= v@.len(),
            before_blank(v@, i as int) == before_blank(v@, k as int),
        decreases k,
    {
        k -= 1;
    }
    k
}

/// Nothing but a comment is left of the line from `i` on.
pub open spec fn is_idle(s: Seq<char>, i: int) -> bool {
    let k = past_spaces(s, i);
    k >= s.len() || s[k] == '\n' || s[k] == '\r' || s[k] == '#'
}

fn rest_is_idle(v: &Vec<char>, i: usize) -> (r: bool)
    requires
        i <= v@.len(),
    ensures
        r == is_idle(v@, i as int),
{
    let k: usize = skip_spaces(v, i);
    k >= v.len() || v[k] == '\n' || v[k] == '\r' || v[k] == '#'
}

/// Where lines go that come after `at`: a comment that closes the line stays on it.
pub open spec fn next_line(s: Seq<char>, at: int) -> int {
    if is_idle(s, at) && !(at > 0 && s[at - 1] == '\n') {
        locate::line_end(s, at)
    } else {
        at
    }
}

fn find_next_line(v: &Vec<char>, at: usize) -> (r: usize)
    requires
        at <= v@.len(),
    ensures
        r == next_line(v@, at as int),
        at <= r <= v@.len(),
{
    if rest_is_idle(v, at) && !(at > 0 && v[at - 1] == '\n') {
        find_line_end(v, at)
    } else {
        at
    }
}

/// How a node is written inside braces or brackets. Nothing where a key is not a string, or a node
/// has a tag.
pub open spec fn flow_text(t: Tree) -> Option<Seq<char>>
    decreases t, 1int,
{
    match t {
        Tree::Text(s) => Some(emit::double_quoted(s)),
        Tree::Sequence(items) => match flow_items(items, items.len() as int) {
            Some(s) => Some("["@ + s + "]"@),
            None => None,
        },
        Tree::Mapping(fields) => match flow_fields(fields, fields.len() as int) {
            Some(s) => Some("{"@ + s + "}"@),
            None => None,
        },
        Tree::Tagged(_, _) => None,
        _ => Some(emit::scalar_text(t)),
    }
}

/// What goes ahead of the entry at `i`.
pub open spec fn comma(i: int) -> Seq<char> {
    if i > 0 {
        ", "@
    } else {
        Seq::empty()
    }
}

/// The first `n` items, with commas between them.
pub open spec fn flow_items(items: Seq<Tree>, n: int) -> Option<Seq<char>>
    decreases items, n,
{
    if n <= 0 || n > items.len() {
        Some(Seq::empty())
    } else {
        match (flow_items(items, n - 1), flow_text(items[n - 1])) {
            (Some(before), Some(s)) => Some(before + comma(n - 1) + s),
            _ => None,
        }
    }
}

/// `key: value`, inside braces.
pub open spec fn flow_entry(key: Seq<char>, v: Seq<char>) -> Seq<char> {
    emit::string_text(key) + ": "@ + v
}

/// The first `n` entries, with commas between them.
pub open spec fn flow_fields(fields: Seq<(Tree, Tree)>, n: int) -> Option<Seq<char>>
    decreases fields, n,
{
    if n <= 0 || n > fields.len() {
        Some(Seq::empty())
    } else {
        match (flow_fields(fields, n - 1), fields[n - 1].0, flow_text(fields[n - 1].1)) {
            (Some(before), Tree::Text(key), Some(s)) => Some(
                before + comma(n - 1) + flow_entry(key, s),
            ),
            _ => None,
        }
    }
}

proof fn lemma_flow_items_none(items: Seq<Tree>, n: int, m: int)
    requires
        0 <= n <= m <= items.len(),
        flow_items(items, n) is None,
    ensures
        flow_items(items, m) is None,
    decreases m - n,
{
    if n < m {
        lemma_flow_items_none(items, n, m - 1);
    }
}

proof fn lemma_flow_fields_none(fields: Seq<(Tree, Tree)>, n: int, m: int)
    requires
        0 <= n <= m <= fields.len(),
        flow_fields(fields, n) is None,
    ensures
        flow_fields(fields, m) is None,
    decreases m - n,
{
    if n < m {
        lemma_flow_fields_none(fields, n, m - 1);
    }
}

fn flow(v: &Value) -> (r: Option<String>)
    ensures
        text::text_opt(r) == flow_text(value::tree(*v)),
    decreases v, 1int,
{
    proof {
        value::lemma_tree(*v);
    }
    match v {
        Value::Text(s) => {
            let chars = text::chars_of(s.as_str());
            Some(emit::quote_double(&chars))
        },
        Value::Sequence(items) => match flow_list(items) {
            Some(s) => Some(text::join3("[", s.as_str(), "]")),
            None => None,
        },
        Value::Mapping(fields) => match flow_map(fields) {
            Some(s) => Some(text::join3("{", s.as_str(), "}")),
            None => None,
        },
        Value::Tagged(_, _) => None,
        _ => Some(emit::scalar(v)),
    }
}

#[verifier::loop_isolation(false)]
fn flow_list(items: &Vec<Value>) -> (r: Option<String>)
    ensures
        text::text_opt(r) == flow_items(value::trees(items@), items@.len() as int),
    decreases items, 0int,
{
    let ghost t = value::trees(items@);
    let mut out = String::new();
    let mut i: usize = 0;
    assert(out@ =~= Seq::empty());
    while i < items.len()
        invariant
            i <= items@.len(),
            flow_items(t, i as int) == Some(out@),
        decreases items@.len() - i,
    {
        assert(t[i as int] == value::tree(items@[i as int]));
        match flow(&items[i]) {
            Some(s) => {
                let ghost before = out@;
                if i > 0 {
                    out.push_str(", ");
                }
                assert(out@ =~= before + comma(i as int));
                out.push_str(s.as_str());
            },
            None => {
                proof {
                    assert(flow_items(t, i + 1) is None);
                    lemma_flow_items_none(t, i + 1, items@.len() as int);
                }
                return None;
            },
        }
        i += 1;
    }
    Some(out)
}

#[verifier::loop_isolation(false)]
fn flow_map(fields: &Vec<(Value, Value)>) -> (r: Option<String>)
    ensures
        text::text_opt(r) == flow_fields(value::pairs(fields@), fields@.len() as int),
    decreases fields, 0int,
{
    let ghost t = value::pairs(fields@);
    let mut out = String::new();
    let mut i: usize = 0;
    assert(out@ =~= Seq::empty());
    while i < fields.len()
        invariant
            i <= fields@.len(),
            flow_fields(t, i as int) == Some(out@),
        decreases fields@.len() - i,
    {
        assert(t[i as int] == (value::tree(fields@[i as int].0), value::tree(fields@[i as int].1)));
        proof {
            value::lemma_tree(fields@[i as int].0);
        }
        match (&fields[i].0, flow(&fields[i].1)) {
            (Value::Text(key), Some(s)) => {
                let ghost before = out@;
                if i > 0 {
                    out.push_str(", ");
                }
                assert(out@ =~= before + comma(i as int));
                let quoted = emit::string(key.as_str());
                let entry = text::join3(quoted.as_str(), ": ", s.as_str());
                out.push_str(entry.as_str());
            },
            _ => {
                proof {
                    assert(flow_fields(t, i + 1) is None);
                    lemma_flow_fields_none(t, i + 1, fields@.len() as int);
                }
                return None;
            },
        }
        i += 1;
    }
    Some(out)
}

/// A collection with something in it.
pub open spec fn is_filled(t: Tree) -> bool {
    match t {
        Tree::Mapping(fields) => fields.len() > 0,
        Tree::Sequence(items) => items.len() > 0,
        _ => false,
    }
}

/// The lines of a collection at a column.
pub open spec fn body_lines(t: Tree, column: int) -> Option<Seq<Seq<char>>> {
    match t {
        Tree::Mapping(fields) => emit::field_lines(fields, fields.len() as int, column),
        Tree::Sequence(items) => emit::items_lines(items, items.len() as int, column),
        _ => None,
    }
}

fn body(v: &Value, indent: &Vec<char>) -> (r: Option<Vec<String>>)
    requires
        indent@ == emit::spaces(indent@.len() as int),
    ensures
        match r {
            Some(lines) => body_lines(value::tree(*v), indent@.len() as int) == Some(
                text::texts(lines@),
            ),
            None => body_lines(value::tree(*v), indent@.len() as int) is None,
        },
{
    proof {
        value::lemma_tree(*v);
    }
    match v {
        Value::Mapping(fields) => emit::all_fields(fields, indent).ok(),
        Value::Sequence(items) => emit::all_items(items, indent).ok(),
        _ => None,
    }
}

fn has_items(v: &Value) -> (r: bool)
    ensures
        r == is_filled(value::tree(*v)),
{
    proof {
        value::lemma_tree(*v);
    }
    match v {
        Value::Mapping(fields) => {
            assert(value::pairs(fields@).len() == fields@.len());
            fields.len() > 0
        },
        Value::Sequence(items) => {
            assert(value::trees(items@).len() == items@.len());
            items.len() > 0
        },
        _ => false,
    }
}

/// A byte range as positions; nothing where it does not lie between characters.
pub open spec fn bounds(source: Seq<char>, start: usize, end: usize) -> Option<(int, int)> {
    if offset::is_boundary(source, start as int) && offset::is_boundary(source, end as int) && start
        <= end {
        Some((offset::position(source, start as int), offset::position(source, end as int)))
    } else {
        None
    }
}

fn find_bounds(v: &Vec<char>, start: usize, end: usize) -> (r: Option<(usize, usize)>)
    ensures
        match r {
            Some((a, b)) => bounds(v@, start, end) == Some((a as int, b as int)) && a <= b
                <= v@.len(),
            None => bounds(v@, start, end) is None,
        },
{
    if start > end {
        return None;
    }
    match (
        offset::find_position(v.as_slice(), start),
        offset::find_position(v.as_slice(), end),
    ) {
        (Some(a), Some(b)) => {
            proof {
                offset::lemma_position_order(v@, start as int, end as int);
            }
            Some((a, b))
        },
        _ => None,
    }
}

/// A text with another put in place of what is between two positions.
pub open spec fn replaced(s: Seq<char>, from: int, to: int, by: Seq<char>) -> Seq<char> {
    s.take(from) + by + s.skip(to)
}

fn replace(v: &Vec<char>, from: usize, to: usize, by: &str) -> (r: String)
    requires
        from <= to <= v@.len(),
    ensures
        r@ == replaced(v@, from as int, to as int, by@),
{
    let mut out = offset::cut(v.as_slice(), 0, from);
    let tail = offset::cut(v.as_slice(), to, v.len());
    assert(out@ =~= v@.take(from as int));
    assert(tail@ =~= v@.skip(to as int));
    out.push_str(by);
    out.push_str(tail.as_str());
    out
}

/// What goes ahead of an entry that is added inside brackets: a comma, unless there is one already,
/// or nothing is there to be parted from.
pub open spec fn parting(first: bool, parted: bool, many_lines: bool) -> Seq<char> {
    if first || (parted && many_lines) {
        Seq::empty()
    } else if parted {
        " "@
    } else {
        ", "@
    }
}

fn part(first: bool, parted: bool, many_lines: bool) -> (r: &'static str)
    ensures
        r@ == parting(first, parted, many_lines),
{
    if first || (parted && many_lines) {
        let r = "";
        proof {
            reveal_strlit("");
        }
        assert(r@ =~= Seq::empty());
        r
    } else if parted {
        " "
    } else {
        ", "
    }
}

/// The document with an entry added to what stands in the braces or brackets at a range: behind its
/// last entry, or ahead of the closing bracket where there are several lines. Nothing where the
/// range is not in brackets, or the result is not a document.
pub open spec fn flow_added(
    source: Seq<char>,
    start: usize,
    end: usize,
    entry: Seq<char>,
) -> Option<Seq<char>> {
    match bounds(source, start, end) {
        None => None,
        Some((i, j)) => if j - i < 2 || !(source[j - 1] == ']' || source[j - 1] == '}') {
            None
        } else {
            let p = before_blank(source, j - 1);
            let many_lines = source.subrange(i, j).contains('\n');
            let at = if many_lines {
                j - 1
            } else {
                p
            };
            if p <= i {
                None
            } else {
                let sep = parting(p - 1 == i, source[p - 1] == ',', many_lines);
                let out = replaced(source, at, at, sep + entry);
                if yaml::yaml_tree(out) is Some {
                    Some(out)
                } else {
                    None
                }
            }
        },
    }
}

fn add_flow(source: &str, start: usize, end: usize, entry: &str) -> (r: Option<String>)
    ensures
        text::text_opt(r) == flow_added(source@, start, end, entry@),
{
    let v = text::chars_of(source);
    match find_bounds(&v, start, end) {
        None => None,
        Some((i, j)) => {
            if j - i < 2 || !(v[j - 1] == ']' || v[j - 1] == '}') {
                return None;
            }
            let p: usize = unskip_blank(&v, j - 1);
            if p <= i {
                return None;
            }
            let inner = text::copy(v.as_slice(), i, j);
            let k: usize = text::find(inner.as_slice(), '\n', 0);
            proof {
                text::lemma_find_from(inner@, '\n', 0);
            }
            let many_lines = k < inner.len();
            assert(many_lines == v@.subrange(i as int, j as int).contains('\n'));
            let at: usize = if many_lines {
                j - 1
            } else {
                p
            };
            let sep = part(p - 1 == i, v[p - 1] == ',', many_lines);
            let both = text::join2(sep, entry);
            let out = replace(&v, at, at, both.as_str());
            match yaml::parse(out.as_str()) {
                Some(_) => Some(out),
                None => None,
            }
        },
    }
}

/// Words that stand for no value.
pub open spec fn is_null_word(s: Seq<char>) -> bool {
    s == "~"@ || s == "null"@ || s == "Null"@ || s == "NULL"@
}

/// The position behind a key and its colon, and that of the key.
pub open spec fn behind_key(source: Seq<char>, route: Seq<StepModel>) -> Option<(int, int)> {
    match locate::key_place(source, route) {
        Extent::At(a, b) => match bounds(source, a, b) {
            Some((p, q)) => {
                let c = past_spaces(source, q);
                if c < source.len() && source[c] == ':' {
                    Some((p, c + 1))
                } else {
                    None
                }
            },
            None => None,
        },
        _ => None,
    }
}

fn find_behind_key(v: &Vec<char>, source: &str, route: &Vec<Step>) -> (r: Option<(usize, usize)>)
    requires
        v@ == source@,
    ensures
        match r {
            Some((p, c)) => behind_key(source@, locate::route_model(route@)) == Some(
                (p as int, c as int),
            ) && p <= c <= v@.len(),
            None => behind_key(source@, locate::route_model(route@)) is None,
        },
{
    match locate::find_key(source, route) {
        Extent::At(a, b) => match find_bounds(v, a, b) {
            Some((p, q)) => {
                let c: usize = skip_spaces(v, q);
                if c < v.len() && v[c] == ':' {
                    Some((p, c + 1))
                } else {
                    None
                }
            },
            None => None,
        },
        _ => None,
    }
}

/// Where a value goes that a key lacks: the key's position, and the range that the value takes the
/// place of, an empty one where nothing is written behind the key. A word for no value makes way, and
/// so does an empty list.
pub open spec fn hole(source: Seq<char>, route: Seq<StepModel>) -> Option<(int, int, int)> {
    match (locate::place(source, route), behind_key(source, route)) {
        (Found::Empty, Some((p, c))) => Some((p, c, c)),
        (Found::At(kind, start, end), Some((p, c))) => match (
            bounds(source, start, end),
            emit::written(source, start, end),
        ) {
            (Some((i, j)), Some(w)) => if past_blank(source, c) == i && ((kind == NodeKind::Scalar
                && is_null_word(w)) || (kind == NodeKind::FlowSequence && w == "[]"@)) {
                Some((p, i, j))
            } else {
                None
            },
            _ => None,
        },
        _ => None,
    }
}

fn has_null_word(w: &Vec<char>) -> (r: bool)
    ensures
        r == is_null_word(w@),
{
    let s = text::string_of(w.as_slice());
    text::str_eq(s.as_str(), "~") || text::str_eq(s.as_str(), "null") || text::str_eq(
        s.as_str(),
        "Null",
    ) || text::str_eq(s.as_str(), "NULL")
}

fn find_hole(v: &Vec<char>, source: &str, route: &Vec<Step>) -> (r: Option<(usize, usize, usize)>)
    requires
        v@ == source@,
    ensures
        match r {
            Some((p, i, j)) => hole(source@, locate::route_model(route@)) == Some(
                (p as int, i as int, j as int),
            ) && p <= v@.len() && i <= j <= v@.len(),
            None => hole(source@, locate::route_model(route@)) is None,
        },
{
    match (locate::find(source, route), find_behind_key(v, source, route)) {
        (Found::Empty, Some((p, c))) => Some((p, c, c)),
        (Found::At(kind, start, end), Some((p, c))) => match (
            find_bounds(v, start, end),
            emit::find_written(v, start, end),
        ) {
            (Some((i, j)), Some((_, _, w))) => {
                let empty = text::chars_of("[]");
                let gives_way = (kind == NodeKind::Scalar && has_null_word(&w)) || (kind
                    == NodeKind::FlowSequence && text::chars_eq(w.as_slice(), empty.as_slice()));
                if skip_blank(v, c) == i && gives_way {
                    Some((p, i, j))
                } else {
                    None
                }
            },
            _ => None,
        },
        _ => None,
    }
}

/// The key stands inside braces.
pub open spec fn in_flow(source: Seq<char>, route: Seq<StepModel>) -> bool {
    route.len() > 0 && (locate::place(source, route.drop_last()) matches Found::At(kind, _, _)
        && kind == NodeKind::FlowMapping)
}

fn is_in_flow(source: &str, route: &Vec<Step>) -> (r: bool)
    ensures
        r == in_flow(source@, locate::route_model(route@)),
{
    if route.len() == 0 {
        return false;
    }
    let parent = parent_of(route);
    match locate::find(source, &parent) {
        Found::At(kind, _, _) => kind == NodeKind::FlowMapping,
        _ => false,
    }
}

fn copy_step(s: &Step) -> (r: Step)
    ensures
        locate::step_model(r) == locate::step_model(*s),
{
    match s {
        Step::Key(k) => Step::Key(k.clone()),
        Step::Index(i) => Step::Index(*i),
    }
}

/// The first steps of a route.
fn first_steps(route: &Vec<Step>, n: usize) -> (r: Vec<Step>)
    requires
        n <= route@.len(),
    ensures
        locate::route_model(r@) == locate::route_model(route@).take(n as int),
{
    let mut r: Vec<Step> = Vec::new();
    let mut i: usize = 0;
    while i < n
        invariant
            i <= n <= route@.len(),
            r@.len() == i,
            forall|k: int|
                0 <= k < i ==> locate::step_model(#[trigger] r@[k]) == locate::step_model(
                    route@[k],
                ),
        decreases n - i,
    {
        r.push(copy_step(&route[i]));
        i += 1;
    }
    assert(locate::route_model(r@) =~= locate::route_model(route@).take(n as int));
    r
}

fn parent_of(route: &Vec<Step>) -> (r: Vec<Step>)
    requires
        route@.len() > 0,
    ensures
        locate::route_model(r@) == locate::route_model(route@).drop_last(),
{
    let r = first_steps(route, route.len() - 1);
    assert(locate::route_model(r@) =~= locate::route_model(route@).drop_last());
    r
}

/// A route with one more step.
pub(crate) fn with_step(route: &Vec<Step>, step: Step) -> (r: Vec<Step>)
    ensures
        locate::route_model(r@) == locate::route_model(route@).push(locate::step_model(step)),
{
    let mut r = first_steps(route, route.len());
    assert(locate::route_model(route@).take(route@.len() as int) =~= locate::route_model(route@));
    let ghost before = locate::route_model(r@);
    r.push(step);
    assert(locate::route_model(r@) =~= before.push(locate::step_model(step)));
    r
}

/// The document with a collection on the lines below a key, and nothing behind the key but a
/// comment.
pub open spec fn filled_below(source: Seq<char>, at: (int, int, int), t: Tree) -> Result<
    Seq<char>,
    EmitError,
> {
    let (p, i, j) = at;
    let b = emit::before_spaces(source, i);
    let left = replaced(source, b, j, Seq::empty());
    match body_lines(t, emit::nested(p - locate::line_start(source, p))) {
        None => Err(EmitError::KeyNotText),
        Some(lines) => if is_idle(left, b) {
            Ok(emit::inserted(left, next_line(left, b), lines))
        } else {
            Err(EmitError::NotAdded)
        },
    }
}

/// What is written behind a key on its line.
pub open spec fn beside(t: Tree, flow: bool) -> Option<Seq<char>> {
    if flow {
        flow_text(t)
    } else if t is Tagged {
        None
    } else {
        Some(emit::scalar_text(t))
    }
}

/// The document with a value written where a key lacks one.
pub open spec fn filled(source: Seq<char>, at: (int, int, int), flow: bool, t: Tree) -> Result<
    Seq<char>,
    EmitError,
> {
    let (_, i, j) = at;
    if !flow && is_filled(t) {
        filled_below(source, at, t)
    } else {
        match beside(t, flow) {
            None => Err(EmitError::KeyNotText),
            Some(s) => Ok(
                replaced(
                    source,
                    i,
                    j,
                    (if i == j {
                        " "@
                    } else {
                        Seq::empty()
                    }) + s,
                ),
            ),
        }
    }
}

fn fill_below(v: &Vec<char>, p: usize, i: usize, j: usize, value: &Value) -> (r: Result<
    String,
    EmitError,
>)
    requires
        p <= v@.len(),
        i <= j <= v@.len(),
    ensures
        emit::same_result(r, filled_below(v@, (p as int, i as int, j as int), value::tree(*value))),
{
    let mut b: usize = i;
    while b > 0 && v[b - 1] == ' '
        invariant
            b <= i <= v@.len(),
            emit::before_spaces(v@, i as int) == emit::before_spaces(v@, b as int),
        decreases b,
    {
        b -= 1;
    }
    let column: usize = p - find_line_start(v, p);
    let indent = emit::indentation(column);
    let inner = emit::nest(&indent);
    assert(inner@.len() == emit::nested(column as int));
    match body(value, &inner) {
        None => Err(EmitError::KeyNotText),
        Some(lines) => {
            let empty = String::new();
            let left = replace(v, b, j, empty.as_str());
            assert(left@ =~= replaced(v@, b as int, j as int, Seq::empty()));
            let w = text::chars_of(left.as_str());
            if rest_is_idle(&w, b) {
                let at: usize = find_next_line(&w, b);
                Ok(emit::insert(&w, at, &lines))
            } else {
                Err(EmitError::NotAdded)
            }
        },
    }
}

fn fill(v: &Vec<char>, at: (usize, usize, usize), in_flow: bool, value: &Value) -> (r: Result<
    String,
    EmitError,
>)
    requires
        at.0 <= v@.len(),
        at.1 <= at.2 <= v@.len(),
    ensures
        emit::same_result(
            r,
            filled(
                v@,
                (at.0 as int, at.1 as int, at.2 as int),
                in_flow,
                value::tree(*value),
            ),
        ),
{
    let (p, i, j) = at;
    if !in_flow && has_items(value) {
        return fill_below(v, p, i, j, value);
    }
    proof {
        value::lemma_tree(*value);
    }
    let written = if in_flow {
        flow(value)
    } else {
        match value {
            Value::Tagged(_, _) => None,
            _ => Some(emit::scalar(value)),
        }
    };
    match written {
        None => Err(EmitError::KeyNotText),
        Some(s) => {
            let mut by = String::new();
            if i == j {
                by.push_str(" ");
            }
            assert(by@ =~= (if i == j {
                " "@
            } else {
                Seq::empty()
            }));
            by.push_str(s.as_str());
            Ok(replace(v, i, j, by.as_str()))
        },
    }
}

/// The document with a value written behind a key that has none.
pub open spec fn key_filled(source: Seq<char>, route: Seq<StepModel>, t: Tree) -> Result<
    Seq<char>,
    EmitError,
> {
    match hole(source, route) {
        Some(at) => filled(source, at, in_flow(source, route), t),
        None => Err(EmitError::WrongKind),
    }
}

/// Writes a value behind a key that has none.
pub fn fill_key(source: &str, route: &Vec<Step>, value: &Value) -> (r: Result<String, EmitError>)
    ensures
        emit::same_result(
            r,
            key_filled(source@, locate::route_model(route@), value::tree(*value)),
        ),
{
    let v = text::chars_of(source);
    match find_hole(&v, source, route) {
        Some(at) => fill(&v, at, is_in_flow(source, route), value),
        None => Err(EmitError::WrongKind),
    }
}

/// The document with lines put behind the last line of content of a node, whose end is given. A
/// comment that closes the line stays on it.
pub open spec fn lines_added(
    source: Seq<char>,
    end: Option<usize>,
    lines: Option<Seq<Seq<char>>>,
) -> Result<Seq<char>, EmitError> {
    match (lines, end) {
        (None, _) => Err(EmitError::KeyNotText),
        (Some(lines), Some(end)) => if offset::is_boundary(source, end as int) {
            Ok(
                emit::inserted(
                    source,
                    next_line(source, offset::position(source, end as int)),
                    lines,
                ),
            )
        } else {
            Err(EmitError::NotAdded)
        },
        _ => Err(EmitError::NotAdded),
    }
}

fn add_lines(source: &str, end: Option<usize>, lines: Option<Vec<String>>) -> (r: Result<
    String,
    EmitError,
>)
    ensures
        emit::same_result(
            r,
            lines_added(
                source@,
                end,
                match lines {
                    Some(l) => Some(text::texts(l@)),
                    None => None,
                },
            ),
        ),
{
    match (lines, end) {
        (None, _) => Err(EmitError::KeyNotText),
        (Some(lines), Some(end)) => {
            let v = text::chars_of(source);
            match offset::find_position(v.as_slice(), end) {
                Some(at) => Ok(emit::insert(&v, find_next_line(&v, at), &lines)),
                None => Err(EmitError::NotAdded),
            }
        },
        _ => Err(EmitError::NotAdded),
    }
}

/// One entry, as a mapping of its own.
pub open spec fn single(key: Seq<char>, t: Tree) -> Tree {
    Tree::Mapping(seq![(Tree::Text(key), t)])
}

/// The document with an entry added to the mapping at a route.
pub open spec fn entry_added(
    source: Seq<char>,
    route: Seq<StepModel>,
    key: Seq<char>,
    t: Tree,
) -> Result<Seq<char>, EmitError> {
    match locate::place(source, route) {
        Found::Invalid => Err(EmitError::NotYaml),
        Found::Absent => Err(EmitError::NotFound),
        Found::Prefixed => Err(EmitError::WrongKind),
        Found::At(NodeKind::BlockMapping, _, _) => match locate::block_column(source, route) {
            Some(column) => lines_added(
                source,
                locate::content_end(source, route),
                emit::entry_lines(key, t, column as int),
            ),
            None => Err(EmitError::NotAdded),
        },
        Found::At(NodeKind::FlowMapping, start, end) => match flow_text(t) {
            Some(s) => match flow_added(source, start, end, flow_entry(key, s)) {
                Some(out) => Ok(out),
                None => Err(EmitError::NotAdded),
            },
            None => Err(EmitError::KeyNotText),
        },
        _ => key_filled(source, route, single(key, t)),
    }
}

fn single_value(key: &str, value: &Value) -> (r: Value)
    ensures
        value::tree(r) == single(key@, value::tree(*value)),
{
    let mut fields: Vec<(Value, Value)> = Vec::new();
    fields.push((Value::Text(key.to_owned()), value::copy(value)));
    let r = Value::Mapping(fields);
    proof {
        value::lemma_tree(r);
        assert(value::pairs(fields@) =~= seq![(Tree::Text(key@), value::tree(*value))]);
    }
    r
}

/// Adds an entry to the mapping at a route.
pub fn add_entry(source: &str, route: &Vec<Step>, key: &str, value: &Value) -> (r: Result<
    String,
    EmitError,
>)
    ensures
        emit::same_result(
            r,
            entry_added(source@, locate::route_model(route@), key@, value::tree(*value)),
        ),
{
    match locate::find(source, route) {
        Found::Invalid => Err(EmitError::NotYaml),
        Found::Absent => Err(EmitError::NotFound),
        Found::Prefixed => Err(EmitError::WrongKind),
        Found::At(NodeKind::BlockMapping, _, _) => match locate::find_block_column(source, route) {
            Some(column) => {
                let indent = emit::indentation(column);
                let lines = emit::entry(key, value, &indent).ok();
                add_lines(source, locate::find_content_end(source, route), lines)
            },
            None => Err(EmitError::NotAdded),
        },
        Found::At(NodeKind::FlowMapping, start, end) => match flow(value) {
            Some(s) => {
                let quoted = emit::string(key);
                let entry = text::join3(quoted.as_str(), ": ", s.as_str());
                match add_flow(source, start, end, entry.as_str()) {
                    Some(out) => Ok(out),
                    None => Err(EmitError::NotAdded),
                }
            },
            None => Err(EmitError::KeyNotText),
        },
        _ => {
            let whole = single_value(key, value);
            fill_key(source, route, &whole)
        },
    }
}

/// The document with a field of the mapping at a route set: written behind its key where that has no
/// value, added where there is no such key.
pub open spec fn field_set(
    source: Seq<char>,
    entry: Seq<StepModel>,
    key: Seq<char>,
    t: Tree,
) -> Result<Seq<char>, EmitError> {
    let own = entry.push(StepModel::Key(key));
    match locate::place(source, own) {
        Found::Invalid => Err(EmitError::NotYaml),
        Found::Absent => entry_added(source, entry, key, t),
        _ => key_filled(source, own, t),
    }
}

/// Sets a field, which must not have a value yet, of the mapping at a route.
pub fn set_field(source: &str, entry: &Vec<Step>, key: &str, value: &Value) -> (r: Result<
    String,
    EmitError,
>)
    ensures
        emit::same_result(
            r,
            field_set(source@, locate::route_model(entry@), key@, value::tree(*value)),
        ),
{
    let own = with_step(entry, Step::Key(key.to_owned()));
    match locate::find(source, &own) {
        Found::Invalid => Err(EmitError::NotYaml),
        Found::Absent => add_entry(source, entry, key, value),
        _ => fill_key(source, &own, value),
    }
}

/// The document with an item added to the end of the list at a route.
pub open spec fn item_added(source: Seq<char>, route: Seq<StepModel>, item: Tree) -> Result<
    Seq<char>,
    EmitError,
> {
    match locate::place(source, route) {
        Found::Invalid => Err(EmitError::NotYaml),
        Found::Absent => Err(EmitError::NotFound),
        Found::Prefixed => Err(EmitError::WrongKind),
        Found::At(NodeKind::BlockSequence, _, _) => match locate::leading_spaces(source, route) {
            Some(column) => lines_added(
                source,
                locate::content_end(source, route),
                emit::item_lines(item, column as int),
            ),
            None => Err(EmitError::NotAdded),
        },
        Found::At(NodeKind::FlowSequence, start, end) => if hole(source, route) is Some && !in_flow(
            source,
            route,
        ) {
            key_filled(source, route, Tree::Sequence(seq![item]))
        } else {
            match flow_text(item) {
                Some(s) => match flow_added(source, start, end, s) {
                    Some(out) => Ok(out),
                    None => Err(EmitError::NotAdded),
                },
                None => Err(EmitError::KeyNotText),
            }
        },
        _ => key_filled(source, route, Tree::Sequence(seq![item])),
    }
}

fn list_of(item: &Value) -> (r: Value)
    ensures
        value::tree(r) == Tree::Sequence(seq![value::tree(*item)]),
{
    let mut items: Vec<Value> = Vec::new();
    items.push(value::copy(item));
    let r = Value::Sequence(items);
    proof {
        value::lemma_tree(r);
        assert(value::trees(items@) =~= seq![value::tree(*item)]);
    }
    r
}

/// Adds an item to the end of the list at a route. A block list gets it on lines of its own, a list
/// in brackets inside them; a key without a value, and an empty list, become a block list.
pub fn add_item(source: &str, route: &Vec<Step>, item: &Value) -> (r: Result<String, EmitError>)
    ensures
        emit::same_result(
            r,
            item_added(source@, locate::route_model(route@), value::tree(*item)),
        ),
{
    match locate::find(source, route) {
        Found::Invalid => Err(EmitError::NotYaml),
        Found::Absent => Err(EmitError::NotFound),
        Found::Prefixed => Err(EmitError::WrongKind),
        Found::At(NodeKind::BlockSequence, _, _) => match locate::find_leading_spaces(
            source,
            route,
        ) {
            Some(column) => {
                let indent = emit::indentation(column);
                let lines = emit::sequence_item(item, &indent).ok();
                add_lines(source, locate::find_content_end(source, route), lines)
            },
            None => Err(EmitError::NotAdded),
        },
        Found::At(NodeKind::FlowSequence, start, end) => {
            let v = text::chars_of(source);
            if find_hole(&v, source, route).is_some() && !is_in_flow(source, route) {
                let list = list_of(item);
                return fill_key(source, route, &list);
            }
            match flow(item) {
                Some(s) => match add_flow(source, start, end, s.as_str()) {
                    Some(out) => Ok(out),
                    None => Err(EmitError::NotAdded),
                },
                None => Err(EmitError::KeyNotText),
            }
        },
        _ => {
            let list = list_of(item);
            fill_key(source, route, &list)
        },
    }
}

/// The start of the line, at `i` or above it, that has a dash at this column.
pub open spec fn dash_line(s: Seq<char>, i: int, column: int) -> Option<int>
    decreases i,
{
    let start = locate::line_start(s, i);
    let k = past_spaces(s, start);
    if k < s.len() && s[k] == '-' && k - start == column {
        Some(start)
    } else if start <= 0 || start > i {
        None
    } else {
        dash_line(s, start - 1, column)
    }
}

fn find_dash_line(v: &Vec<char>, i: usize, column: usize) -> (r: Option<usize>)
    requires
        i <= v@.len(),
    ensures
        match r {
            Some(l) => dash_line(v@, i as int, column as int) == Some(l as int) && l <= i,
            None => dash_line(v@, i as int, column as int) is None,
        },
    decreases i,
{
    let start: usize = find_line_start(v, i);
    let k: usize = skip_spaces(v, start);
    if k < v.len() && v[k] == '-' && k - start == column {
        Some(start)
    } else if start == 0 {
        None
    } else {
        find_dash_line(v, start - 1, column)
    }
}

/// Where the lines of a block end that stands between two positions. Comments that close it are not
/// its own.
pub open spec fn lines_end(s: Seq<char>, p: int, q: int) -> int {
    let e = match locate::content_to(s, p, q) {
        Some(e) => e,
        None => q,
    };
    if e > 0 && s[e - 1] == '\n' {
        e
    } else {
        locate::line_end(s, e)
    }
}

fn find_content_to(v: &Vec<char>, from: usize, to: usize) -> (r: Option<usize>)
    requires
        from <= to <= v@.len(),
    ensures
        match r {
            Some(e) => locate::content_to(v@, from as int, to as int) == Some(e as int) && from < e
                <= to,
            None => locate::content_to(v@, from as int, to as int) is None,
        },
{
    let mut e: usize = to;
    while e > from
        invariant
            from <= e <= to <= v@.len(),
            locate::content_to(v@, from as int, to as int) == locate::content_to(
                v@,
                from as int,
                e as int,
            ),
        decreases e,
    {
        let line: usize = find_line_start(v, e - 1);
        let start: usize = if line < from {
            from
        } else {
            line
        };
        let piece = text::copy(v.as_slice(), start, e);
        let trimmed = text::trim_chars(piece.as_slice());
        if trimmed.len() > 0 && trimmed[0] != '#' {
            return Some(e);
        }
        e = start;
    }
    None
}

fn find_lines_end(v: &Vec<char>, p: usize, q: usize) -> (r: usize)
    requires
        p <= q <= v@.len(),
    ensures
        r == lines_end(v@, p as int, q as int),
        p <= r <= v@.len(),
{
    let e: usize = match find_content_to(v, p, q) {
        Some(e) => e,
        None => q,
    };
    if e > 0 && v[e - 1] == '\n' {
        e
    } else {
        find_line_end(v, e)
    }
}

/// What goes with an item that stands at a range inside brackets: the comma behind it and the
/// spaces after that, with the whole line where nothing else is on it; behind the last item there is
/// no comma, and the one ahead of it goes.
pub open spec fn flow_cut(s: Seq<char>, p: int, q: int) -> (int, int) {
    let r = past_blank(s, q);
    if r < s.len() && s[r] == ',' {
        let to = past_spaces(s, r + 1);
        let from = locate::line_start(s, p);
        if past_spaces(s, from) == p && to < s.len() && s[to] == '\n' {
            (from, to + 1)
        } else {
            (p, to)
        }
    } else {
        let w = before_blank(s, p);
        if w > 0 && s[w - 1] == ',' {
            (w - 1, q)
        } else {
            (p, q)
        }
    }
}

fn find_flow_cut(v: &Vec<char>, p: usize, q: usize) -> (c: (usize, usize))
    requires
        p <= q <= v@.len(),
    ensures
        flow_cut(v@, p as int, q as int) == (c.0 as int, c.1 as int),
        c.0 <= p,
        q <= c.1 <= v@.len(),
{
    let r: usize = skip_blank(v, q);
    if r < v.len() && v[r] == ',' {
        let to: usize = skip_spaces(v, r + 1);
        let from: usize = find_line_start(v, p);
        if skip_spaces(v, from) == p && to < v.len() && v[to] == '\n' {
            (from, to + 1)
        } else {
            (p, to)
        }
    } else {
        let w: usize = unskip_blank(v, p);
        if w > 0 && v[w - 1] == ',' {
            (w - 1, q)
        } else {
            (p, q)
        }
    }
}

/// What is cut out of a document with the item of a list: its lines, dash and all, or what belongs
/// to it inside brackets.
pub open spec fn item_cut(source: Seq<char>, route: Seq<StepModel>, index: int) -> Option<
    (int, int),
> {
    match (
        locate::place(source, route),
        locate::pretty_place(source, route.push(StepModel::Index(index))),
    ) {
        (Found::At(kind, _, _), Extent::At(a, b)) => match bounds(source, a, b) {
            None => None,
            Some((p, q)) => if kind == NodeKind::FlowSequence {
                Some(flow_cut(source, p, q))
            } else if kind == NodeKind::BlockSequence {
                match locate::leading_spaces(source, route) {
                    Some(column) => match dash_line(source, p, column as int) {
                        Some(from) => Some((from, lines_end(source, p, q))),
                        None => None,
                    },
                    None => None,
                }
            } else {
                None
            },
        },
        _ => None,
    }
}

/// The document without an item of a list.
pub open spec fn item_removed(source: Seq<char>, route: Seq<StepModel>, index: int) -> Option<
    Seq<char>,
> {
    match item_cut(source, route, index) {
        Some((from, to)) => Some(source.take(from) + source.skip(to)),
        None => None,
    }
}

/// Takes an item out of the list at a route.
pub fn remove_item(source: &str, route: &Vec<Step>, index: usize) -> (r: Option<String>)
    ensures
        text::text_opt(r) == item_removed(source@, locate::route_model(route@), index as int),
{
    let v = text::chars_of(source);
    let own = with_step(route, Step::Index(index));
    let cut: Option<(usize, usize)> = match (
        locate::find(source, route),
        locate::find_pretty(source, &own),
    ) {
        (Found::At(kind, _, _), Extent::At(a, b)) => match find_bounds(&v, a, b) {
            None => None,
            Some((p, q)) => if kind == NodeKind::FlowSequence {
                Some(find_flow_cut(&v, p, q))
            } else if kind == NodeKind::BlockSequence {
                match locate::find_leading_spaces(source, route) {
                    Some(column) => match find_dash_line(&v, p, column) {
                        Some(from) => Some((from, find_lines_end(&v, p, q))),
                        None => None,
                    },
                    None => None,
                }
            } else {
                None
            },
        },
        _ => None,
    };
    match cut {
        Some((from, to)) => {
            let empty = String::new();
            let out = replace(&v, from, to, empty.as_str());
            assert(out@ =~= source@.take(from as int) + source@.skip(to as int));
            Some(out)
        },
        None => None,
    }
}

proof fn lemma_line(s: Seq<char>, i: int)
    requires
        0 <= i <= s.len(),
    ensures
        0 <= locate::line_start(s, i) <= i <= locate::line_end(s, i) <= s.len(),
{
    lemma_line_start(s, i);
    lemma_line_end(s, i);
}

proof fn lemma_line_start(s: Seq<char>, i: int)
    requires
        0 <= i <= s.len(),
    ensures
        0 <= locate::line_start(s, i) <= i,
    decreases i,
{
    if i > 0 && s[i - 1] != '\n' {
        lemma_line_start(s, i - 1);
    }
}

proof fn lemma_line_end(s: Seq<char>, i: int)
    requires
        0 <= i <= s.len(),
    ensures
        i <= locate::line_end(s, i) <= s.len(),
    decreases s.len() - i,
{
    if i < s.len() && s[i] != '\n' {
        lemma_line_end(s, i + 1);
    }
}

proof fn lemma_past(s: Seq<char>, i: int)
    requires
        0 <= i <= s.len(),
    ensures
        i <= past_spaces(s, i) <= s.len(),
        i <= past_blank(s, i) <= s.len(),
    decreases s.len() - i,
{
    if i < s.len() {
        lemma_past(s, i + 1);
    }
}

proof fn lemma_before(s: Seq<char>, i: int)
    requires
        0 <= i <= s.len(),
    ensures
        0 <= before_blank(s, i) <= i,
    decreases i,
{
    if i > 0 {
        lemma_before(s, i - 1);
    }
}

proof fn lemma_dash_line(s: Seq<char>, i: int, column: int)
    requires
        0 <= i <= s.len(),
    ensures
        dash_line(s, i, column) matches Some(l) ==> 0 <= l <= i,
    decreases i,
{
    lemma_line_start(s, i);
    let start = locate::line_start(s, i);
    if start > 0 {
        lemma_dash_line(s, start - 1, column);
    }
}

proof fn lemma_content_to(s: Seq<char>, from: int, to: int)
    requires
        0 <= from <= to <= s.len(),
    ensures
        locate::content_to(s, from, to) matches Some(e) ==> from < e <= to,
    decreases to - from,
{
    if from < to {
        lemma_line_start(s, to - 1);
        let start = locate::piece_start(s, from, to - 1);
        lemma_content_to(s, from, start);
    }
}

/// Law: taking an item out of a list leaves every character outside the cut as it was, and the cut
/// reaches from the item's start, or ahead of it, to the end of its last line of content, or behind
/// that.
pub proof fn removal_keeps_the_rest(source: Seq<char>, route: Seq<StepModel>, index: int)
    requires
        item_cut(source, route, index) is Some,
    ensures
        ({
            let (from, to) = item_cut(source, route, index)->0;
            let s = item_removed(source, route, index)->0;
            let own = locate::pretty_place(source, route.push(StepModel::Index(index)));
            &&& own matches Extent::At(a, b) && bounds(source, a, b) matches Some((p, q)) && from <= p
                <= to && (locate::content_to(source, p, q) matches Some(e) ==> e <= to)
            &&& 0 <= from <= to <= source.len()
            &&& s.take(from) == source.take(from)
            &&& s.skip(from) == source.skip(to)
        }),
{
    let own = locate::pretty_place(source, route.push(StepModel::Index(index)));
    let (a, b) = (own->At_0, own->At_1);
    let (p, q) = bounds(source, a, b)->0;
    offset::lemma_position_range(source, a as int, 0);
    offset::lemma_position_range(source, b as int, 0);
    offset::lemma_position_order(source, a as int, b as int);
    let (from, to) = item_cut(source, route, index)->0;
    lemma_line(source, p);
    lemma_line(source, q);
    lemma_past(source, q);
    lemma_before(source, p);
    let r = past_blank(source, q);
    if r < source.len() {
        lemma_past(source, r + 1);
    }
    if let Some(column) = locate::leading_spaces(source, route) {
        lemma_dash_line(source, p, column as int);
    }
    lemma_content_to(source, p, q);
    if let Some(e) = locate::content_to(source, p, q) {
        lemma_line(source, e);
    }
    let s = item_removed(source, route, index)->0;
    assert(s == source.take(from) + source.skip(to));
    assert(s.take(from) =~= source.take(from));
    assert(s.skip(from) =~= source.skip(to));
}

/// What stands for no value: nothing, or, whitespace aside, a word for it or an empty list.
pub open spec fn gives_way(w: Seq<char>) -> bool {
    w.len() == 0 || is_null_word(text::trimmed(w)) || text::trimmed(w) == "[]"@
}

/// `s` is `source` with what stood for no value from `i` to `j` taken out, with the spaces from `a`
/// on ahead of it, and a text put in at `m`.
pub open spec fn is_addition(
    source: Seq<char>,
    s: Seq<char>,
    a: int,
    i: int,
    j: int,
    m: int,
    by: Seq<char>,
) -> bool {
    &&& 0 <= a <= i <= j <= m <= source.len()
    &&& forall|k: int| a <= k < i ==> source[k] == ' '
    &&& gives_way(source.subrange(i, j))
    &&& s == source.take(a) + source.subrange(j, m) + by + source.skip(m)
}

/// `s` is `source` with one text put in, and nothing taken out but what stood for no value.
pub open spec fn only_adds(source: Seq<char>, s: Seq<char>) -> bool {
    exists|a: int, i: int, j: int, m: int, by: Seq<char>| #[trigger]
        is_addition(source, s, a, i, j, m, by)
}

proof fn lemma_before_spaces(s: Seq<char>, i: int)
    requires
        0 <= i <= s.len(),
    ensures
        0 <= emit::before_spaces(s, i) <= i,
        forall|k: int| emit::before_spaces(s, i) <= k < i ==> s[k] == ' ',
    decreases i,
{
    if i > 0 && s[i - 1] == ' ' {
        lemma_before_spaces(s, i - 1);
    }
}

proof fn lemma_bounds(s: Seq<char>, start: usize, end: usize)
    ensures
        bounds(s, start, end) matches Some((p, q)) ==> 0 <= p <= q <= s.len(),
{
    offset::lemma_position_range(s, start as int, 0);
    offset::lemma_position_range(s, end as int, 0);
    if bounds(s, start, end) is Some {
        offset::lemma_position_order(s, start as int, end as int);
    }
}

proof fn lemma_hole(source: Seq<char>, route: Seq<StepModel>)
    ensures
        hole(source, route) matches Some((p, i, j)) ==> 0 <= p && 0 <= i <= j <= source.len()
            && gives_way(source.subrange(i, j)),
{
    if let Extent::At(a, b) = locate::key_place(source, route) {
        lemma_bounds(source, a, b);
        if let Some((_, q)) = bounds(source, a, b) {
            lemma_past(source, q);
        }
    }
    if let Found::At(_, start, end) = locate::place(source, route) {
        lemma_bounds(source, start, end);
    }
}

proof fn lemma_filling(source: Seq<char>, route: Seq<StepModel>, t: Tree)
    requires
        key_filled(source, route, t) is Ok,
    ensures
        only_adds(source, key_filled(source, route, t)->Ok_0),
{
    lemma_hole(source, route);
    let (p, i, j) = hole(source, route)->0;
    let flow = in_flow(source, route);
    let s = key_filled(source, route, t)->Ok_0;
    if !flow && is_filled(t) {
        let b = emit::before_spaces(source, i);
        lemma_before_spaces(source, i);
        let left = replaced(source, b, j, Seq::empty());
        assert(left =~= source.take(b) + source.skip(j));
        let lines = body_lines(t, emit::nested(p - locate::line_start(source, p)))->0;
        let at = next_line(left, b);
        lemma_line(left, b);
        let m = at - b + j;
        assert(left.take(at) =~= source.take(b) + source.subrange(j, m));
        assert(left.skip(at) =~= source.skip(m));
        let by = if at > 0 && left[at - 1] == '\n' {
            emit::joined(lines) + "\n"@
        } else {
            "\n"@ + emit::joined(lines)
        };
        assert(s =~= source.take(b) + source.subrange(j, m) + by + source.skip(m));
        assert(is_addition(source, s, b, i, j, m, by));
    } else {
        let by = (if i == j {
            " "@
        } else {
            Seq::empty()
        }) + beside(t, flow)->0;
        assert(s =~= source.take(i) + source.subrange(j, j) + by + source.skip(j));
        assert(is_addition(source, s, i, i, j, j, by));
    }
}

/// Text put in at one position, and nothing taken out.
proof fn lemma_put_in(source: Seq<char>, s: Seq<char>, at: int, by: Seq<char>)
    requires
        0 <= at <= source.len(),
        s == source.take(at) + by + source.skip(at),
    ensures
        only_adds(source, s),
{
    assert(s =~= source.take(at) + source.subrange(at, at) + by + source.skip(at));
    assert(is_addition(source, s, at, at, at, at, by));
}

proof fn lemma_lines_added(
    source: Seq<char>,
    end: Option<usize>,
    lines: Option<Seq<Seq<char>>>,
)
    requires
        lines_added(source, end, lines) is Ok,
    ensures
        only_adds(source, lines_added(source, end, lines)->Ok_0),
{
    let p = offset::position(source, end->0 as int);
    offset::lemma_position_range(source, end->0 as int, 0);
    lemma_line(source, p);
    let at = next_line(source, p);
    let s = lines_added(source, end, lines)->Ok_0;
    let text = emit::joined(lines->0);
    if at > 0 && source[at - 1] == '\n' {
        assert(s =~= source.take(at) + (text + "\n"@) + source.skip(at));
        lemma_put_in(source, s, at, text + "\n"@);
    } else {
        assert(s =~= source.take(at) + ("\n"@ + text) + source.skip(at));
        lemma_put_in(source, s, at, "\n"@ + text);
    }
}

proof fn lemma_flow_added(source: Seq<char>, start: usize, end: usize, entry: Seq<char>)
    requires
        flow_added(source, start, end, entry) is Some,
    ensures
        only_adds(source, flow_added(source, start, end, entry)->0),
{
    lemma_bounds(source, start, end);
    let (i, j) = bounds(source, start, end)->0;
    lemma_before(source, j - 1);
    let p = before_blank(source, j - 1);
    let many_lines = source.subrange(i, j).contains('\n');
    let at = if many_lines {
        j - 1
    } else {
        p
    };
    let sep = parting(p - 1 == i, source[p - 1] == ',', many_lines);
    lemma_put_in(source, flow_added(source, start, end, entry)->0, at, sep + entry);
}

proof fn lemma_entry_added(source: Seq<char>, route: Seq<StepModel>, key: Seq<char>, t: Tree)
    requires
        entry_added(source, route, key, t) is Ok,
    ensures
        only_adds(source, entry_added(source, route, key, t)->Ok_0),
{
    match locate::place(source, route) {
        Found::At(NodeKind::BlockMapping, _, _) => {
            let column = locate::block_column(source, route)->0;
            lemma_lines_added(
                source,
                locate::content_end(source, route),
                emit::entry_lines(key, t, column as int),
            );
        },
        Found::At(NodeKind::FlowMapping, start, end) => {
            lemma_flow_added(source, start, end, flow_entry(key, flow_text(t)->0));
        },
        _ => lemma_filling(source, route, single(key, t)),
    }
}

/// Law: setting a field that has no value yet puts in one text, and takes out nothing but what stood
/// for no value, with spaces ahead of it. Every other character of the document stays.
pub proof fn setting_keeps_the_rest(
    source: Seq<char>,
    entry: Seq<StepModel>,
    key: Seq<char>,
    t: Tree,
)
    requires
        field_set(source, entry, key, t) is Ok,
    ensures
        only_adds(source, field_set(source, entry, key, t)->Ok_0),
{
    let own = entry.push(StepModel::Key(key));
    if locate::place(source, own) is Absent {
        lemma_entry_added(source, entry, key, t);
    } else {
        lemma_filling(source, own, t);
    }
}

/// Law: adding an item to a list puts in one text, and takes out nothing but what stood for no list,
/// with spaces ahead of it. Every other character of the document stays.
pub proof fn adding_keeps_the_rest(source: Seq<char>, route: Seq<StepModel>, item: Tree)
    requires
        item_added(source, route, item) is Ok,
    ensures
        only_adds(source, item_added(source, route, item)->Ok_0),
{
    match locate::place(source, route) {
        Found::At(NodeKind::BlockSequence, _, _) => {
            let column = locate::leading_spaces(source, route)->0;
            lemma_lines_added(
                source,
                locate::content_end(source, route),
                emit::item_lines(item, column as int),
            );
        },
        Found::At(NodeKind::FlowSequence, start, end) => {
            if hole(source, route) is Some && !in_flow(source, route) {
                lemma_filling(source, route, Tree::Sequence(seq![item]));
            } else {
                lemma_flow_added(source, start, end, flow_text(item)->0);
            }
        },
        _ => lemma_filling(source, route, Tree::Sequence(seq![item])),
    }
}

} // verus!
