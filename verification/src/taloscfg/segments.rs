//! A patch file as raw segments: those this tool owns, and those it must never touch.
//!
//! Splitting goes by the text, so that a segment that is not this tool's comes through byte for
//! byte: only `kind` and `name` are ever read out of it.

use crate::text;
use crate::value;
use crate::value::Tree;
use crate::value::Value;
use crate::yaml;
use vstd::prelude::*;

verus! {

/// The names of the `ExtensionServiceConfig` documents that this tool writes. A name is unique for
/// its kind, so the pair is the whole identity.
pub const OWNED_NAMES: [&'static str; 3] = ["awg", "router", "nftables"];

pub open spec fn is_owned_name(name: Seq<char>) -> bool {
    name == "awg"@ || name == "router"@ || name == "nftables"@
}

/// Whether a name is one of those.
pub fn has_owned_name(name: &str) -> (r: bool)
    ensures
        r == is_owned_name(name@),
{
    text::str_eq(name, OWNED_NAMES[0]) || text::str_eq(name, OWNED_NAMES[1]) || text::str_eq(
        name,
        OWNED_NAMES[2],
    )
}

/// The name of an `ExtensionServiceConfig` document. `None` for anything else.
pub open spec fn service_name(t: Option<Tree>) -> Option<Seq<char>> {
    match t {
        Some(t) => match (value::text_field(t, "kind"@), value::text_field(t, "name"@)) {
            (Some(kind), Some(name)) => if kind
                == "ExtensionServiceConfig"@ {
                Some(name)
            } else {
                None
            },
            _ => None,
        },
        None => None,
    }
}

/// The name of an `ExtensionServiceConfig` document.
pub fn service_of(v: &Option<Value>) -> (r: Option<String>)
    ensures
        text::text_opt(r) == service_name(
            match *v {
                Some(v) => Some(value::tree(v)),
                None => None,
            },
        ),
{
    match v {
        None => None,
        Some(v) => {
            match (value::get_text(v, "kind"), value::get_text(v, "name")) {
                (Some(kind), Some(name)) => {
                    if text::str_eq(kind.as_str(), "ExtensionServiceConfig") {
                        Some(name.clone())
                    } else {
                        None
                    }
                },
                _ => None,
            }
        },
    }
}

/// This tool wrote the segment.
pub open spec fn owns(segment: Seq<char>) -> bool {
    match service_name(yaml::yaml_tree(segment)) {
        Some(name) => is_owned_name(name),
        None => false,
    }
}

/// Whether this tool wrote a segment.
pub fn is_owned(segment: &str) -> (r: bool)
    ensures
        r == owns(segment@),
{
    match service_of(&yaml::parse(segment)) {
        Some(name) => has_owned_name(name.as_str()),
        None => false,
    }
}

/// What stands between two segments.
pub open spec fn separator() -> Seq<char> {
    seq!['\n', '-', '-', '-', '\n']
}

/// The first place, from `i` on, where a text holds the separator; its length where there is none.
pub open spec fn next_separator(s: Seq<char>, i: int) -> int
    decreases s.len() - i,
{
    if i >= s.len() {
        s.len() as int
    } else if text::holds_at(s, separator(), i) {
        i
    } else {
        next_separator(s, i + 1)
    }
}

/// The pieces of a text between separators.
pub open spec fn cut(s: Seq<char>) -> Seq<Seq<char>>
    decreases s.len(),
{
    let k = next_separator(s, 0);
    if k < 0 || k + 5 > s.len() {
        seq![s]
    } else {
        seq![s.take(k)] + cut(s.skip(k + 5))
    }
}

/// The texts that are not blank, without the whitespace around them.
pub open spec fn filled(pieces: Seq<Seq<char>>) -> Seq<Seq<char>>
    decreases pieces.len(),
{
    if pieces.len() == 0 {
        Seq::empty()
    } else {
        let t = text::trimmed(pieces.last());
        if t.len() > 0 {
            filled(pieces.drop_last()).push(t)
        } else {
            filled(pieces.drop_last())
        }
    }
}

/// A file without the marker that may open it.
pub open spec fn unopened(s: Seq<char>) -> Seq<char> {
    if text::begins_with(s, seq!['-', '-', '-', '\n']) {
        s.skip(4)
    } else {
        s
    }
}

/// The segments of a file, in order.
pub open spec fn segments_of(s: Seq<char>) -> Seq<Seq<char>> {
    filled(cut(unopened(s)))
}

proof fn lemma_next_separator(s: Seq<char>, i: int, k: int)
    requires
        0 <= i <= k <= s.len(),
        k < s.len() ==> text::holds_at(s, separator(), k),
        forall|j: int| i <= j < k ==> !#[trigger] text::holds_at(s, separator(), j),
    ensures
        next_separator(s, i) == k,
    decreases k - i,
{
    if i < k {
        assert(!text::holds_at(s, separator(), i));
        lemma_next_separator(s, i + 1, k);
    }
}

proof fn lemma_filled_front(a: Seq<char>, rest: Seq<Seq<char>>)
    ensures
        filled(seq![a] + rest) == (if text::trimmed(a).len() > 0 {
            seq![text::trimmed(a)] + filled(rest)
        } else {
            filled(rest)
        }),
    decreases rest.len(),
{
    let v = seq![a] + rest;
    if rest.len() == 0 {
        assert(v.drop_last() =~= Seq::empty());
        assert(filled(v.drop_last()) =~= Seq::empty());
        assert(filled(v) =~= (if text::trimmed(a).len() > 0 {
            seq![text::trimmed(a)] + filled(rest)
        } else {
            filled(rest)
        }));
    } else {
        assert(v.drop_last() =~= seq![a] + rest.drop_last());
        lemma_filled_front(a, rest.drop_last());
        assert(filled(v) =~= (if text::trimmed(a).len() > 0 {
            seq![text::trimmed(a)] + filled(rest)
        } else {
            filled(rest)
        }));
    }
}

/// Whether the separator is at a position.
fn is_separator(v: &Vec<char>, i: usize) -> (r: bool)
    requires
        i < v@.len(),
    ensures
        r == text::holds_at(v@, separator(), i as int),
{
    if v.len() - i < 5 {
        return false;
    }
    let piece = text::copy(v.as_slice(), i, i + 5);
    let r = piece[0] == '\n' && piece[1] == '-' && piece[2] == '-' && piece[3] == '-' && piece[4]
        == '\n';
    proof {
        if r {
            assert(piece@ =~= separator());
        } else {
            assert(piece@ != separator()) by {
                if piece@ == separator() {
                    assert(piece@[0] == '\n' && piece@[1] == '-' && piece@[2] == '-' && piece@[3]
                        == '-' && piece@[4] == '\n');
                }
            }
        }
    }
    r
}

/// Adds a piece, unless it is blank.
fn push_filled(out: &mut Vec<String>, v: &Vec<char>, from: usize, to: usize)
    requires
        from <= to <= v@.len(),
    ensures
        text::texts(final(out)@) == text::texts(old(out)@) + filled(
            seq![v@.subrange(from as int, to as int)],
        ),
{
    let ghost start = text::texts(out@);
    let piece = text::copy(v.as_slice(), from, to);
    let t = text::trim_chars(piece.as_slice());
    let ghost p = v@.subrange(from as int, to as int);
    proof {
        lemma_filled_front(p, Seq::empty());
        assert(seq![p] + Seq::<Seq<char>>::empty() =~= seq![p]);
        assert(filled(Seq::empty()) =~= Seq::empty());
    }
    if t.len() > 0 {
        out.push(text::string_of(t.as_slice()));
        assert(text::texts(out@) =~= start.push(t@));
        assert(text::texts(out@) =~= start + filled(seq![p]));
    } else {
        assert(text::texts(out@) =~= start + filled(seq![p]));
    }
}

/// Splits a patch file into its segments, in order, each without the whitespace around it. An
/// empty file has none.
#[verifier::loop_isolation(false)]
pub fn split(raw: &str) -> (r: Vec<String>)
    ensures
        text::texts(r@) == segments_of(raw@),
{
    let all = text::chars_of(raw);
    let mut from: usize = 0;
    if all.len() >= 4 && all[0] == '-' && all[1] == '-' && all[2] == '-' && all[3] == '\n' {
        assert(all@.take(4) =~= seq!['-', '-', '-', '\n']);
        from = 4;
    } else {
        assert(!text::begins_with(raw@, seq!['-', '-', '-', '\n'])) by {
            if text::begins_with(raw@, seq!['-', '-', '-', '\n']) {
                let p = seq!['-', '-', '-', '\n'];
                assert(raw@.take(4)[0] == p[0] && raw@.take(4)[1] == p[1] && raw@.take(4)[2]
                    == p[2] && raw@.take(4)[3] == p[3]);
            }
        }
    }
    let v = text::copy(all.as_slice(), from, all.len());
    assert(v@ =~= unopened(raw@));
    let mut out: Vec<String> = Vec::new();
    let mut at: usize = 0;
    let mut i: usize = 0;
    assert(v@.skip(0) =~= v@);
    assert(text::texts(out@) + filled(cut(v@.skip(0))) =~= filled(cut(v@)));
    while i < v.len()
        invariant
            at <= v@.len(),
            at <= i <= v@.len(),
            forall|j: int| 0 <= j < i - at ==> !#[trigger] text::holds_at(
                v@.skip(at as int),
                separator(),
                j,
            ),
            text::texts(out@) + filled(cut(v@.skip(at as int))) == filled(cut(v@)),
        decreases v@.len() - i,
    {
        let ghost rest = v@.skip(at as int);
        if is_separator(&v, i) {
            let ghost before = text::texts(out@);
            let ghost k = i - at;
            proof {
                assert(v@.subrange(i as int, i + 5) =~= rest.subrange(k, k + 5));
                assert(text::holds_at(rest, separator(), k));
                lemma_next_separator(rest, 0, k);
                assert(rest.take(k) =~= v@.subrange(at as int, i as int));
                assert(rest.skip(k + 5) =~= v@.skip(i + 5));
                lemma_filled_front(rest.take(k), cut(rest.skip(k + 5)));
                lemma_filled_front(rest.take(k), Seq::empty());
                assert(seq![rest.take(k)] + Seq::<Seq<char>>::empty() =~= seq![rest.take(k)]);
                assert(filled(Seq::empty()) =~= Seq::empty());
            }
            push_filled(&mut out, &v, at, i);
            assert(text::texts(out@) + filled(cut(v@.skip(i + 5))) =~= before + filled(cut(rest)));
            i = i + 5;
            at = i;
        } else {
            assert(!text::holds_at(rest, separator(), i - at)) by {
                if text::holds_at(rest, separator(), i - at) {
                    assert(v@.subrange(i as int, i + 5) =~= rest.subrange(i - at, i - at + 5));
                }
            }
            i += 1;
        }
    }
    let ghost rest = v@.skip(at as int);
    proof {
        lemma_next_separator(rest, 0, rest.len() as int);
        assert(cut(rest) == seq![rest]);
        assert(rest =~= v@.subrange(at as int, v@.len() as int));
    }
    push_filled(&mut out, &v, at, v.len());
    out
}

/// Those of a file's segments that this tool did not write.
pub open spec fn foreign(v: Seq<Seq<char>>) -> Seq<Seq<char>>
    decreases v.len(),
{
    if v.len() == 0 {
        Seq::empty()
    } else if owns(v.last()) {
        foreign(v.drop_last())
    } else {
        foreign(v.drop_last()).push(v.last())
    }
}

/// The segments that must be kept as they are, in order.
pub fn foreign_segments(raw: &str) -> (r: Vec<String>)
    ensures
        text::texts(r@) == foreign(segments_of(raw@)),
{
    let v = split(raw);
    let ghost t = text::texts(v@);
    let mut out: Vec<String> = Vec::new();
    let mut i: usize = 0;
    assert(t.take(0) =~= Seq::empty());
    assert(text::texts(out@) =~= foreign(t.take(0)));
    while i < v.len()
        invariant
            i <= v@.len(),
            t == text::texts(v@),
            text::texts(out@) == foreign(t.take(i as int)),
        decreases v@.len() - i,
    {
        assert(t.take(i + 1).drop_last() =~= t.take(i as int));
        assert(t.take(i + 1).last() == v@[i as int]@);
        if !is_owned(v[i].as_str()) {
            let ghost prev = text::texts(out@);
            out.push(v[i].clone());
            assert(text::texts(out@) =~= prev.push(v@[i as int]@));
        }
        i += 1;
    }
    assert(t.take(i as int) =~= t);
    out
}

/// The first segment, from `i` on, that is the `ExtensionServiceConfig` of this name.
pub open spec fn service_segment(v: Seq<Seq<char>>, name: Seq<char>, i: int) -> Option<Seq<char>>
    decreases v.len() - i,
{
    if i >= v.len() {
        None
    } else if service_name(yaml::yaml_tree(v[i])) == Some(name) {
        Some(v[i])
    } else {
        service_segment(v, name, i + 1)
    }
}

/// The segment that holds the `ExtensionServiceConfig` of this name, if there is one.
pub fn owned_segment(raw: &str, name: &str) -> (r: Option<String>)
    ensures
        text::text_opt(r) == service_segment(segments_of(raw@), name@, 0),
{
    let v = split(raw);
    let ghost t = text::texts(v@);
    let mut i: usize = 0;
    while i < v.len()
        invariant
            i <= v@.len(),
            t == text::texts(v@),
            t == segments_of(raw@),
            service_segment(t, name@, 0) == service_segment(t, name@, i as int),
        decreases v@.len() - i,
    {
        assert(t[i as int] == v@[i as int]@);
        if let Some(n) = service_of(&yaml::parse(v[i].as_str())) {
            if text::str_eq(n.as_str(), name) {
                return Some(v[i].clone());
            }
        }
        i += 1;
    }
    None
}

/// Segments with separators between them.
pub open spec fn joined(v: Seq<Seq<char>>) -> Seq<char>
    decreases v.len(),
{
    if v.len() == 0 {
        Seq::empty()
    } else if v.len() == 1 {
        v[0]
    } else {
        v[0] + separator() + joined(v.skip(1))
    }
}

proof fn lemma_joined_push(v: Seq<Seq<char>>, x: Seq<char>)
    requires
        v.len() > 0,
    ensures
        joined(v.push(x)) == joined(v) + separator() + x,
    decreases v.len(),
{
    if v.len() == 1 {
        assert(v.push(x).skip(1) =~= seq![x]);
        assert(joined(seq![x]) == x);
        assert(joined(v.push(x)) =~= joined(v) + separator() + x);
    } else {
        assert(v.push(x).skip(1) =~= v.skip(1).push(x));
        lemma_joined_push(v.skip(1), x);
        assert(joined(v.push(x)) =~= joined(v) + separator() + x);
    }
}

fn push_segment(out: &mut String, first: bool, s: &str)
    ensures
        final(out)@ == (if first {
            old(out)@ + s@
        } else {
            old(out)@ + separator() + s@
        }),
{
    let ghost start = out@;
    if !first {
        out.push('\n');
        out.push('-');
        out.push('-');
        out.push('-');
        out.push('\n');
    }
    out.push_str(s);
    if first {
        assert(out@ =~= start + s@);
    } else {
        assert(out@ =~= start + separator() + s@);
    }
}

/// Rebuilds a patch file: the segments to keep, in their order, then this tool's own, with
/// separators between them and one line break at the end.
pub fn render_file(foreign: &Vec<String>, owned: &Vec<String>) -> (r: String)
    ensures
        r@ == joined(text::texts(foreign@) + text::texts(owned@)) + seq!['\n'],
{
    let ghost f = text::texts(foreign@);
    let ghost o = text::texts(owned@);
    let ghost all = f + o;
    let mut out = String::new();
    let mut i: usize = 0;
    assert(all.take(0) =~= Seq::empty());
    assert(out@ =~= joined(all.take(0)));
    while i < foreign.len()
        invariant
            i <= foreign@.len(),
            f == text::texts(foreign@),
            all == f + o,
            out@ == joined(all.take(i as int)),
        decreases foreign@.len() - i,
    {
        let ghost prev = out@;
        push_segment(&mut out, i == 0, foreign[i].as_str());
        proof {
            assert(all[i as int] == foreign@[i as int]@);
            assert(all.take(i + 1) =~= all.take(i as int).push(all[i as int]));
            if i > 0 {
                lemma_joined_push(all.take(i as int), all[i as int]);
            } else {
                assert(out@ =~= all[0]);
            }
        }
        i += 1;
    }
    let mut j: usize = 0;
    while j < owned.len()
        invariant
            j <= owned@.len(),
            i == foreign@.len(),
            f == text::texts(foreign@),
            o == text::texts(owned@),
            all == f + o,
            out@ == joined(all.take(i + j)),
        decreases owned@.len() - j,
    {
        let ghost k = i + j;
        push_segment(&mut out, i == 0 && j == 0, owned[j].as_str());
        proof {
            assert(all[k] == owned@[j as int]@);
            assert(all.take(k + 1) =~= all.take(k).push(all[k]));
            if k > 0 {
                lemma_joined_push(all.take(k), all[k]);
            } else {
                assert(out@ =~= all[0]);
            }
        }
        j += 1;
    }
    assert(all.take(i + j) =~= all);
    out.push('\n');
    out
}

/// A segment that a file can hold: not blank, without whitespace around it, and without a line
/// that would separate segments.
pub open spec fn is_segment(s: Seq<char>) -> bool {
    &&& s.len() > 0
    &&& text::trimmed(s) == s
    &&& forall|i: int| !#[trigger] text::holds_at(s + seq!['\n'], separator(), i)
}

/// The separator after a segment is the first one.
#[verifier::spinoff_prover]
#[verifier::rlimit(60)]
proof fn lemma_first_separator(s: Seq<char>, rest: Seq<char>)
    requires
        forall|i: int| !#[trigger] text::holds_at(s + seq!['\n'], separator(), i),
    ensures
        next_separator(s + separator() + rest, 0) == s.len(),
{
    let w = s + separator() + rest;
    let n = s.len() as int;
    let line = s + seq!['\n'];
    assert(w.subrange(n, n + 5) =~= separator());
    assert forall|i: int| 0 <= i < n implies !#[trigger] text::holds_at(w, separator(), i) by {
        if text::holds_at(w, separator(), i) {
            let sub = w.subrange(i, i + 5);
            if i + 5 <= n + 1 {
                assert(sub =~= line.subrange(i, i + 5));
                assert(text::holds_at(line, separator(), i));
            } else {
                let d = n - i;
                assert(sub[d] == w[n]);
                assert(w[n] == separator()[0]);
                assert(sub[d] == separator()[d]);
            }
        }
    }
    lemma_next_separator(w, 0, n);
}

proof fn lemma_trim_break(s: Seq<char>)
    requires
        s.len() > 0,
        text::trimmed(s) == s,
    ensures
        text::trimmed(s + seq!['\n']) == s,
{
    let t = s + seq!['\n'];
    assert(!text::is_space(s[0])) by {
        if text::is_space(s[0]) {
            lemma_trim_shortens(s);
        }
    }
    assert(text::trimmed_start(t) == t);
    assert(text::trimmed_start(s) == s);
    assert(t.drop_last() =~= s);
    assert(text::is_space('\n'));
    assert(t.last() == '\n');
}

proof fn lemma_start_shortens(s: Seq<char>)
    ensures
        text::trimmed_start(s).len() <= s.len(),
        text::trimmed_end(s).len() <= s.len(),
    decreases s.len(),
{
    if s.len() > 0 && text::is_space(s[0]) {
        lemma_start_shortens(s.skip(1));
    }
    if s.len() > 0 && text::is_space(s.last()) {
        lemma_start_shortens(s.drop_last());
    }
}

proof fn lemma_trim_shortens(s: Seq<char>)
    requires
        s.len() > 0,
        text::is_space(s[0]),
    ensures
        text::trimmed(s).len() < s.len(),
{
    lemma_start_shortens(s.skip(1));
    lemma_start_shortens(text::trimmed_start(s));
}

proof fn lemma_cut_joined(v: Seq<Seq<char>>)
    requires
        v.len() > 0,
        forall|i: int| 0 <= i < v.len() ==> is_segment(#[trigger] v[i]),
    ensures
        filled(cut(joined(v) + seq!['\n'])) == v,
    decreases v.len(),
{
    assert(is_segment(v[0]));
    if v.len() == 1 {
        let s = v[0] + seq!['\n'];
        assert forall|i: int| 0 <= i < s.len() implies !#[trigger] text::holds_at(
            s,
            separator(),
            i,
        ) by {}
        lemma_next_separator(s, 0, s.len() as int);
        assert(cut(s) == seq![s]);
        lemma_trim_break(v[0]);
        lemma_filled_front(s, Seq::empty());
        assert(seq![s] + Seq::<Seq<char>>::empty() =~= seq![s]);
        assert(filled(Seq::empty()) =~= Seq::empty());
        assert(filled(cut(s)) =~= v);
    } else {
        let tail = v.skip(1);
        assert forall|i: int| 0 <= i < tail.len() implies is_segment(#[trigger] tail[i]) by {
            assert(is_segment(v[i + 1]));
        }
        lemma_cut_joined(tail);
        let rest = joined(tail) + seq!['\n'];
        let s = v[0] + separator() + rest;
        assert(joined(v) + seq!['\n'] =~= s);
        lemma_first_separator(v[0], rest);
        assert(s.take(v[0].len() as int) =~= v[0]);
        assert(s.skip(v[0].len() as int + 5) =~= rest);
        lemma_filled_front(v[0], cut(rest));
        assert(filled(cut(s)) =~= v);
    }
}

/// Law: a patch file splits into the segments that it was rebuilt from, byte for byte. The first of
/// them must not begin with a document marker, which would be taken for the one that may open the
/// file.
pub proof fn rebuilt_file_splits_back(v: Seq<Seq<char>>)
    requires
        forall|i: int| 0 <= i < v.len() ==> is_segment(#[trigger] v[i]),
        !text::begins_with(joined(v) + seq!['\n'], seq!['-', '-', '-', '\n']),
    ensures
        segments_of(joined(v) + seq!['\n']) == v,
{
    if v.len() > 0 {
        lemma_cut_joined(v);
    } else {
        let s = joined(v) + seq!['\n'];
        assert(s =~= seq!['\n']);
        assert(!text::holds_at(s, separator(), 0));
        lemma_next_separator(s, 0, s.len() as int);
        assert(cut(s) == seq![s]);
        assert(text::is_space(s[0]));
        lemma_trim_shortens(s);
        assert(cut(s).drop_last() =~= Seq::empty());
        assert(cut(s).last() == s);
        assert(filled(cut(s).drop_last()) =~= Seq::empty());
        assert(filled(cut(s)) =~= v);
    }
}

/// There is no separator ahead of the first one.
proof fn lemma_none_before(s: Seq<char>, i: int)
    requires
        0 <= i <= s.len(),
    ensures
        i <= next_separator(s, i) <= s.len(),
        next_separator(s, i) < s.len() ==> text::holds_at(s, separator(), next_separator(s, i)),
        forall|j: int|
            i <= j < next_separator(s, i) ==> !#[trigger] text::holds_at(s, separator(), j),
    decreases s.len() - i,
{
    if i < s.len() && !text::holds_at(s, separator(), i) {
        lemma_none_before(s, i + 1);
    }
}

/// A text holds no separator.
spec fn is_whole(s: Seq<char>) -> bool {
    forall|i: int| !#[trigger] text::holds_at(s, separator(), i)
}

/// No part of a text that holds no separator holds one.
proof fn lemma_part_is_whole(s: Seq<char>, from: int, to: int)
    requires
        0 <= from <= to <= s.len(),
        forall|i: int| from <= i && i + 5 <= to ==> !#[trigger] text::holds_at(s, separator(), i),
    ensures
        is_whole(s.subrange(from, to)),
{
    let part = s.subrange(from, to);
    assert forall|i: int| !#[trigger] text::holds_at(part, separator(), i) by {
        if text::holds_at(part, separator(), i) {
            assert(part.subrange(i, i + 5) =~= s.subrange(from + i, from + i + 5));
            assert(text::holds_at(s, separator(), from + i));
        }
    }
}

/// No piece of a text holds a separator.
proof fn lemma_pieces_are_whole(s: Seq<char>)
    ensures
        forall|i: int| 0 <= i < cut(s).len() ==> is_whole(#[trigger] cut(s)[i]),
    decreases s.len(),
{
    let k = next_separator(s, 0);
    lemma_none_before(s, 0);
    if k + 5 > s.len() {
        lemma_part_is_whole(s, 0, s.len() as int);
        assert(s.subrange(0, s.len() as int) =~= s);
    } else {
        lemma_part_is_whole(s, 0, k);
        assert(s.subrange(0, k) =~= s.take(k));
        let rest = cut(s.skip(k + 5));
        lemma_pieces_are_whole(s.skip(k + 5));
        assert forall|i: int| 0 <= i < cut(s).len() implies is_whole(#[trigger] cut(s)[i]) by {
            if i > 0 {
                assert(cut(s)[i] == rest[i - 1]);
            }
        }
    }
}

/// Where a text starts once leading whitespace is gone.
proof fn lemma_start_of(s: Seq<char>) -> (from: int)
    ensures
        0 <= from <= s.len(),
        text::trimmed_start(s) == s.skip(from),
        from < s.len() ==> !text::is_space(s[from]),
    decreases s.len(),
{
    if s.len() > 0 && text::is_space(s[0]) {
        let from = lemma_start_of(s.skip(1));
        assert(s.skip(1).skip(from) =~= s.skip(from + 1));
        from + 1
    } else {
        assert(s.skip(0) =~= s);
        0
    }
}

/// Where a text ends once trailing whitespace is gone.
proof fn lemma_end_of(s: Seq<char>) -> (to: int)
    ensures
        0 <= to <= s.len(),
        text::trimmed_end(s) == s.take(to),
        to > 0 ==> !text::is_space(s[to - 1]),
    decreases s.len(),
{
    if s.len() > 0 && text::is_space(s.last()) {
        let to = lemma_end_of(s.drop_last());
        assert(s.drop_last().take(to) =~= s.take(to));
        to
    } else {
        assert(s.take(s.len() as int) =~= s);
        s.len() as int
    }
}

/// Trimming keeps a text whole, and leaves nothing to trim.
proof fn lemma_trimmed_piece(s: Seq<char>)
    requires
        is_whole(s),
    ensures
        is_whole(text::trimmed(s)),
        text::trimmed(text::trimmed(s)) == text::trimmed(s),
{
    let from = lemma_start_of(s);
    let rest = s.skip(from);
    let to = lemma_end_of(rest);
    assert(rest.take(to) =~= s.subrange(from, from + to));
    lemma_part_is_whole(s, from, from + to);
    let t = text::trimmed(s);
    if t.len() > 0 {
        assert(t[0] == s[from]);
        assert(t.last() == rest[to - 1]);
        assert(text::trimmed_start(t) == t);
        assert(text::trimmed_end(t) == t);
    }
}

/// What is filled is whole and trimmed.
proof fn lemma_filled_pieces(pieces: Seq<Seq<char>>)
    requires
        forall|i: int| 0 <= i < pieces.len() ==> is_whole(#[trigger] pieces[i]),
    ensures
        forall|i: int|
            0 <= i < filled(pieces).len() ==> {
                let s = #[trigger] filled(pieces)[i];
                is_whole(s) && s.len() > 0 && text::trimmed(s) == s
            },
    decreases pieces.len(),
{
    if pieces.len() > 0 {
        let front = pieces.drop_last();
        assert forall|i: int| 0 <= i < front.len() implies is_whole(#[trigger] front[i]) by {
            assert(front[i] == pieces[i]);
        }
        lemma_filled_pieces(front);
        lemma_trimmed_piece(pieces.last());
        let t = text::trimmed(pieces.last());
        assert forall|i: int| 0 <= i < filled(pieces).len() implies ({
            let s = #[trigger] filled(pieces)[i];
            is_whole(s) && s.len() > 0 && text::trimmed(s) == s
        }) by {
            if i < filled(front).len() {
                assert(filled(pieces)[i] == filled(front)[i]);
            } else {
                assert(filled(pieces)[i] == t);
            }
        }
    }
}

/// The last line of a text is a document marker, behind other lines.
pub open spec fn ends_in_marker(s: Seq<char>) -> bool {
    s.len() >= 4 && s.skip(s.len() - 4) == seq!['\n', '-', '-', '-']
}

/// A segment of a file is one that a file can hold again, unless a marker ends it.
proof fn lemma_is_segment(s: Seq<char>)
    requires
        is_whole(s),
        s.len() > 0,
        text::trimmed(s) == s,
        !ends_in_marker(s),
    ensures
        is_segment(s),
{
    let line = s + seq!['\n'];
    assert forall|i: int| !#[trigger] text::holds_at(line, separator(), i) by {
        if text::holds_at(line, separator(), i) {
            let sub = line.subrange(i, i + 5);
            if i + 5 <= s.len() {
                assert(s.subrange(i, i + 5) =~= sub);
                assert(text::holds_at(s, separator(), i));
            } else {
                assert(i == s.len() - 4);
                assert(s.skip(i) =~= sub.take(4));
                assert(separator().take(4) =~= seq!['\n', '-', '-', '-']);
            }
        }
    }
}

/// What is kept is kept again, and what is owned is not.
proof fn lemma_foreign_of(v: Seq<Seq<char>>, owned: Seq<Seq<char>>)
    requires
        forall|i: int| 0 <= i < v.len() ==> !owns(#[trigger] v[i]),
        forall|i: int| 0 <= i < owned.len() ==> owns(#[trigger] owned[i]),
    ensures
        foreign(v + owned) == v,
    decreases v.len() + owned.len(),
{
    let all = v + owned;
    if owned.len() > 0 {
        assert(all.drop_last() =~= v + owned.drop_last());
        assert(all.last() == owned.last());
        lemma_foreign_of(v, owned.drop_last());
    } else if v.len() > 0 {
        assert(all =~= v);
        assert(all.drop_last() =~= v.drop_last() + owned);
        lemma_foreign_of(v.drop_last(), owned);
        assert(v.drop_last().push(v.last()) =~= v);
    } else {
        assert(all =~= v);
    }
}

/// What is kept of some segments is among them, and is not owned.
proof fn lemma_kept(v: Seq<Seq<char>>)
    ensures
        forall|i: int|
            0 <= i < foreign(v).len() ==> v.contains(#[trigger] foreign(v)[i]) && !owns(
                foreign(v)[i],
            ),
    decreases v.len(),
{
    if v.len() > 0 {
        let front = v.drop_last();
        lemma_kept(front);
        assert forall|i: int| 0 <= i < foreign(v).len() implies v.contains(
            #[trigger] foreign(v)[i],
        ) && !owns(foreign(v)[i]) by {
            if i < foreign(front).len() {
                assert(foreign(v)[i] == foreign(front)[i]);
                let k = choose|k: int| 0 <= k < front.len() && front[k] == foreign(front)[i];
                assert(v[k] == foreign(v)[i]);
            } else {
                assert(foreign(v)[i] == v[v.len() - 1]);
            }
        }
    }
}

/// Law: what a patch file holds beside the generated documents survives their regeneration, byte for
/// byte and in its order. A segment that itself ends in a document marker does not, nor one that
/// begins the rebuilt file with one: the marker is then taken for a separator.
pub proof fn regeneration_keeps_what_is_foreign(raw: Seq<char>, owned: Seq<Seq<char>>)
    requires
        forall|i: int| 0 <= i < owned.len() ==> is_segment(#[trigger] owned[i]) && owns(owned[i]),
        forall|i: int|
            0 <= i < segments_of(raw).len() ==> !ends_in_marker(#[trigger] segments_of(raw)[i]),
        !text::begins_with(
            joined(foreign(segments_of(raw)) + owned) + seq!['\n'],
            seq!['-', '-', '-', '\n'],
        ),
    ensures
        foreign(segments_of(joined(foreign(segments_of(raw)) + owned) + seq!['\n'])) == foreign(
            segments_of(raw),
        ),
{
    let found = segments_of(raw);
    let kept = foreign(found);
    let all = kept + owned;
    lemma_pieces_are_whole(unopened(raw));
    lemma_filled_pieces(cut(unopened(raw)));
    lemma_kept(found);
    assert forall|i: int| 0 <= i < all.len() implies is_segment(#[trigger] all[i]) by {
        if i < kept.len() {
            assert(found.contains(kept[i]));
            let k = choose|k: int| 0 <= k < found.len() && found[k] == kept[i];
            assert(!ends_in_marker(found[k]));
            lemma_is_segment(found[k]);
            assert(all[i] == kept[i]);
        } else {
            assert(all[i] == owned[i - kept.len()]);
        }
    }
    rebuilt_file_splits_back(all);
    lemma_foreign_of(kept, owned);
}

} // verus!
