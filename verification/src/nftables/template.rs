//! `{{ name }}` placeholder substitution for a ruleset: values that cannot be known when its text
//! is written.

use crate::text;
use vstd::prelude::*;

verus! {

pub const DEFAULTROUTE_IPV4: &'static str = "defaultroute_interface_ipv4";

pub const DEFAULTROUTE_IPV6: &'static str = "defaultroute_interface_ipv6";

/// Every placeholder name that can be filled in.
pub open spec fn is_known(name: Seq<char>) -> bool {
    name == DEFAULTROUTE_IPV4@ || name == DEFAULTROUTE_IPV6@
}

/// The placeholders of `s` from `from` on: where each starts and ends, braces included. Each
/// reaches from a `{{` to the next `}}`.
pub open spec fn spans_from(s: Seq<char>, from: int) -> Seq<(int, int)>
    decreases s.len() - from,
    via spans_from_decreases
{
    let start = text::find_pair(s, '{', from);
    let close = text::find_pair(s, '}', start + 2);
    if 0 <= from <= s.len() && start < s.len() && close < s.len() {
        seq![(start, close + 2)] + spans_from(s, close + 2)
    } else {
        Seq::empty()
    }
}

#[via_fn]
proof fn spans_from_decreases(s: Seq<char>, from: int) {
    if 0 <= from <= s.len() {
        text::lemma_find_pair(s, '{', from);
        if text::find_pair(s, '{', from) < s.len() {
            text::lemma_find_pair(s, '}', text::find_pair(s, '{', from) + 2);
        }
    }
}

/// The placeholders of `s`.
pub open spec fn spans(s: Seq<char>) -> Seq<(int, int)> {
    spans_from(s, 0)
}

/// The name that a placeholder encloses, without the whitespace around it.
pub open spec fn name_in(s: Seq<char>, span: (int, int)) -> Seq<char> {
    text::trimmed(s.subrange(span.0 + 2, span.1 - 2))
}

/// `s` refers to a placeholder of this name.
pub open spec fn refers_to(s: Seq<char>, name: Seq<char>) -> bool {
    exists|i: int| 0 <= i < spans(s).len() && name_in(s, #[trigger] spans(s)[i]) == name
}

/// Placeholders as numbers.
spec fn int_spans(v: Seq<(usize, usize)>) -> Seq<(int, int)> {
    Seq::new(v.len(), |i: int| (v[i].0 as int, v[i].1 as int))
}

/// Each placeholder lies in the text, behind the one ahead of it.
spec fn in_order(v: Seq<(usize, usize)>, len: int) -> bool {
    &&& forall|i: int| 0 <= i < v.len() ==> (#[trigger] v[i]).0 + 4 <= v[i].1 <= len
    &&& forall|i: int, j: int|
        0 <= i < j < v.len() ==> (#[trigger] v[i]).1 <= (#[trigger] v[j]).0
}

fn placeholder_spans(s: &Vec<char>) -> (r: Vec<(usize, usize)>)
    ensures
        int_spans(r@) == spans(s@),
        in_order(r@, s@.len() as int),
{
    let mut r: Vec<(usize, usize)> = Vec::new();
    let mut from: usize = 0;
    assert(int_spans(r@) + spans_from(s@, 0) =~= spans(s@));
    loop
        invariant_except_break
            from <= s@.len(),
            int_spans(r@) + spans_from(s@, from as int) =~= spans(s@),
            in_order(r@, s@.len() as int),
            forall|i: int| 0 <= i < r@.len() ==> (#[trigger] r@[i]).1 <= from,
        ensures
            int_spans(r@) =~= spans(s@),
            in_order(r@, s@.len() as int),
        decreases s@.len() - from,
    {
        let start: usize = text::pair(s.as_slice(), '{', from);
        if start >= s.len() {
            assert(spans_from(s@, from as int) =~= Seq::empty());
            break;
        }
        let close: usize = text::pair(s.as_slice(), '}', start + 2);
        if close >= s.len() {
            assert(spans_from(s@, from as int) =~= Seq::empty());
            break;
        }
        let ghost prev = r@;
        r.push((start, close + 2));
        proof {
            assert(int_spans(r@) =~= int_spans(prev).push((start as int, close + 2)));
        }
        from = close + 2;
    }
    r
}

fn name_of(s: &Vec<char>, span: (usize, usize)) -> (r: String)
    requires
        span.0 + 4 <= span.1 <= s@.len(),
    ensures
        r@ == name_in(s@, (span.0 as int, span.1 as int)),
{
    let inner = text::copy(s.as_slice(), span.0 + 2, span.1 - 2);
    let t = text::trim_chars(inner.as_slice());
    text::string_of(t.as_slice())
}

/// Every name that `s` refers to, known or not, in ascending order.
pub fn referenced_placeholders(s: &str) -> (r: Vec<String>)
    ensures
        text::ascending(text::texts(r@)),
        forall|t: Seq<char>| #[trigger] text::texts(r@).contains(t) <==> refers_to(s@, t),
{
    let v = text::chars_of(s);
    let found = placeholder_spans(&v);
    let ghost all = spans(s@);
    let mut r: Vec<String> = Vec::new();
    let mut i: usize = 0;
    assert(int_spans(found@).len() == found@.len());
    while i < found.len()
        invariant
            i <= found@.len(),
            v@ == s@,
            all == int_spans(found@),
            in_order(found@, v@.len() as int),
            text::ascending(text::texts(r@)),
            forall|t: Seq<char>| #[trigger]
                text::texts(r@).contains(t) <==> exists|k: int|
                    0 <= k < i && name_in(s@, #[trigger] all[k]) == t,
        decreases found@.len() - i,
    {
        let name = name_of(&v, found[i]);
        let ghost prev = text::texts(r@);
        text::insert_text(&mut r, name.as_str());
        proof {
            assert forall|t: Seq<char>| #[trigger] text::texts(r@).contains(t) <==> exists|k: int|
                0 <= k < i + 1 && name_in(s@, #[trigger] all[k]) == t by {
                assert(all[i as int] == (found@[i as int].0 as int, found@[i as int].1 as int));
                if t == name@ {
                    assert(name_in(s@, all[i as int]) == t);
                }
                if prev.contains(t) {
                    let k = choose|k: int| 0 <= k < i && name_in(s@, #[trigger] all[k]) == t;
                    assert(name_in(s@, all[k]) == t);
                }
                if exists|k: int| 0 <= k < i + 1 && name_in(s@, #[trigger] all[k]) == t {
                    let k = choose|k: int| 0 <= k < i + 1 && name_in(s@, #[trigger] all[k]) == t;
                    if k < i {
                        assert(name_in(s@, all[k]) == t);
                    }
                }
            }
        }
        i += 1;
    }
    proof {
        assert forall|t: Seq<char>| #[trigger] text::texts(r@).contains(t) <==> refers_to(s@, t) by {
            if refers_to(s@, t) {
                let k = choose|k: int| 0 <= k < all.len() && name_in(s@, #[trigger] all[k]) == t;
                assert(name_in(s@, all[k]) == t);
            }
        }
    }
    r
}

/// The names that `s` refers to and that nothing can fill in, in ascending order.
pub fn unknown_placeholders(s: &str) -> (r: Vec<String>)
    ensures
        text::ascending(text::texts(r@)),
        forall|t: Seq<char>| #[trigger]
            text::texts(r@).contains(t) <==> refers_to(s@, t) && !is_known(t),
{
    let all = referenced_placeholders(s);
    let mut r: Vec<String> = Vec::new();
    let mut i: usize = 0;
    while i < all.len()
        invariant
            i <= all@.len(),
            text::ascending(text::texts(r@)),
            forall|t: Seq<char>| #[trigger]
                text::texts(r@).contains(t) <==> text::texts(all@).take(i as int).contains(t)
                    && !is_known(t),
        decreases all@.len() - i,
    {
        let name = all[i].as_str();
        if !text::str_eq(name, DEFAULTROUTE_IPV4) && !text::str_eq(name, DEFAULTROUTE_IPV6) {
            text::insert_text(&mut r, name);
        }
        proof {
            text::lemma_take_contains(text::texts(all@), i as int);
        }
        i += 1;
    }
    assert(text::texts(all@).take(i as int) =~= text::texts(all@));
    r
}

/// The value given for a name.
pub open spec fn value_of(values: Seq<(String, String)>, name: Seq<char>) -> Option<Seq<char>>
    decreases values.len(),
{
    if values.len() == 0 {
        None
    } else if values[0].0@ == name {
        Some(values[0].1@)
    } else {
        value_of(values.skip(1), name)
    }
}

/// What stands in place of a placeholder: its value, or the placeholder itself.
pub open spec fn filled(s: Seq<char>, values: Seq<(String, String)>, span: (int, int)) -> Seq<char> {
    match value_of(values, name_in(s, span)) {
        Some(v) => v,
        None => s.subrange(span.0, span.1),
    }
}

/// `s` up to the end of placeholder `n - 1`, with the placeholders filled in.
pub open spec fn substituted_to(s: Seq<char>, values: Seq<(String, String)>, n: int) -> Seq<char>
    decreases n,
{
    if n <= 0 {
        Seq::empty()
    } else {
        let last = if n >= 2 {
            spans(s)[n - 2].1
        } else {
            0
        };
        let span = spans(s)[n - 1];
        substituted_to(s, values, n - 1) + s.subrange(last, span.0) + filled(s, values, span)
    }
}

/// `s` with every placeholder filled in that has a value.
pub open spec fn substituted(s: Seq<char>, values: Seq<(String, String)>) -> Seq<char> {
    let n = spans(s).len() as int;
    substituted_to(s, values, n) + s.skip(
        if n > 0 {
            spans(s)[n - 1].1
        } else {
            0
        },
    )
}

fn find_value<'a>(values: &'a Vec<(String, String)>, name: &str) -> (r: Option<&'a String>)
    ensures
        match r {
            Some(v) => value_of(values@, name@) == Some(v@),
            None => value_of(values@, name@) is None,
        },
{
    let mut i: usize = 0;
    assert(values@.skip(0) =~= values@);
    while i < values.len()
        invariant
            i <= values@.len(),
            value_of(values@, name@) == value_of(values@.skip(i as int), name@),
        decreases values@.len() - i,
    {
        assert(values@.skip(i as int).skip(1) =~= values@.skip(i + 1));
        if text::str_eq(values[i].0.as_str(), name) {
            return Some(&values[i].1);
        }
        i += 1;
    }
    None
}

/// Replaces every `{{ name }}` whose name has a value; any other is left as it is.
pub fn substitute(s: &str, values: &Vec<(String, String)>) -> (r: String)
    ensures
        r@ == substituted(s@, values@),
{
    let v = text::chars_of(s);
    let found = placeholder_spans(&v);
    let ghost all = spans(s@);
    assert(int_spans(found@).len() == found@.len());
    let mut out: Vec<char> = Vec::new();
    let mut last: usize = 0;
    let mut i: usize = 0;
    assert(out@ =~= substituted_to(s@, values@, 0));
    while i < found.len()
        invariant
            i <= found@.len(),
            v@ == s@,
            all == spans(s@),
            all == int_spans(found@),
            in_order(found@, v@.len() as int),
            last <= v@.len(),
            last == (if i > 0 {
                found@[i - 1].1
            } else {
                0
            }),
            out@ == substituted_to(s@, values@, i as int),
        decreases found@.len() - i,
    {
        let (start, end) = found[i];
        let name = name_of(&v, found[i]);
        let ghost prev = out@;
        let mut between = text::copy(v.as_slice(), last, start);
        out.append(&mut between);
        let mut piece = match find_value(values, name.as_str()) {
            Some(value) => text::chars_of(value.as_str()),
            None => text::copy(v.as_slice(), start, end),
        };
        out.append(&mut piece);
        proof {
            assert(all[i as int] == (start as int, end as int));
            if i >= 1 {
                assert(all[i - 1].1 == last as int);
            }
            assert(out@ =~= substituted_to(s@, values@, i + 1));
        }
        last = end;
        i += 1;
    }
    let mut rest = text::copy(v.as_slice(), last, v.len());
    assert(rest@ =~= s@.skip(last as int));
    out.append(&mut rest);
    assert(out@ =~= substituted(s@, values@));
    text::string_of(out.as_slice())
}

proof fn lemma_spans_in_order(s: Seq<char>, from: int, i: int)
    requires
        0 <= from <= s.len(),
        0 <= i < spans_from(s, from).len(),
    ensures
        from <= spans_from(s, from)[i].0,
        spans_from(s, from)[i].0 + 4 <= spans_from(s, from)[i].1 <= s.len(),
        i > 0 ==> spans_from(s, from)[i - 1].1 <= spans_from(s, from)[i].0,
    decreases s.len() - from,
{
    text::lemma_find_pair(s, '{', from);
    let start = text::find_pair(s, '{', from);
    text::lemma_find_pair(s, '}', start + 2);
    let close = text::find_pair(s, '}', start + 2);
    let rest = spans_from(s, close + 2);
    if i > 0 {
        assert(spans_from(s, from)[i] == rest[i - 1]);
        lemma_spans_in_order(s, close + 2, i - 1);
        if i > 1 {
            assert(spans_from(s, from)[i - 1] == rest[i - 2]);
        }
    }
}

proof fn lemma_unfilled(s: Seq<char>, values: Seq<(String, String)>, n: int)
    requires
        0 <= n <= spans(s).len(),
        forall|i: int|
            0 <= i < spans(s).len() ==> value_of(values, name_in(s, #[trigger] spans(s)[i])) is None,
    ensures
        substituted_to(s, values, n) == s.take(
            if n > 0 {
                spans(s)[n - 1].1
            } else {
                0
            },
        ),
    decreases n,
{
    if n > 0 {
        lemma_unfilled(s, values, n - 1);
        lemma_spans_in_order(s, 0, n - 1);
        if n >= 2 {
            lemma_spans_in_order(s, 0, n - 2);
        }
        assert(value_of(values, name_in(s, spans(s)[n - 1])) is None);
        assert(substituted_to(s, values, n) =~= s.take(spans(s)[n - 1].1));
    } else {
        assert(substituted_to(s, values, n) =~= s.take(0));
    }
}

/// Law: a text none of whose placeholders has a value is left as it is; so is one without
/// placeholders.
pub proof fn unresolved_text_is_unchanged(s: Seq<char>, values: Seq<(String, String)>)
    requires
        forall|i: int|
            0 <= i < spans(s).len() ==> value_of(values, name_in(s, #[trigger] spans(s)[i])) is None,
    ensures
        substituted(s, values) == s,
{
    let n = spans(s).len() as int;
    lemma_unfilled(s, values, n);
    if n > 0 {
        lemma_spans_in_order(s, 0, n - 1);
    }
    assert(substituted(s, values) =~= s);
}

/// No two opening braces stand side by side.
spec fn is_unpaired(s: Seq<char>) -> bool {
    forall|k: int| 0 <= k && k + 1 < s.len() ==> !(#[trigger] s[k] == '{' && s[k + 1] == '{')
}

/// Nor would they if more text came behind.
spec fn is_shut(s: Seq<char>) -> bool {
    is_unpaired(s) && (s.len() > 0 ==> s.last() != '{')
}

proof fn lemma_shut_then(a: Seq<char>, b: Seq<char>)
    requires
        is_shut(a),
        is_unpaired(b),
    ensures
        is_unpaired(a + b),
        is_shut(b) ==> is_shut(a + b),
{
    let s = a + b;
    assert forall|k: int| 0 <= k && k + 1 < s.len() implies !(#[trigger] s[k] == '{' && s[k + 1]
        == '{') by {
        if k + 1 < a.len() {
            assert(a[k] == s[k] && a[k + 1] == s[k + 1]);
        } else if k < a.len() {
            assert(s[k] == a.last());
        } else {
            assert(b[k - a.len()] == s[k] && b[k + 1 - a.len()] == s[k + 1]);
        }
    }
    if b.len() > 0 {
        assert(s.last() == b.last());
    } else {
        assert(s =~= a);
    }
}

/// There is no pair ahead of the first one.
proof fn lemma_no_pair_before(s: Seq<char>, c: char, from: int)
    requires
        0 <= from <= s.len(),
    ensures
        forall|k: int|
            from <= k < text::find_pair(s, c, from) && k + 1 < s.len() ==> !(#[trigger] s[k] == c
                && s[k + 1] == c),
        text::find_pair(s, c, from) < s.len() ==> s[text::find_pair(s, c, from)] == c
            && s[text::find_pair(s, c, from) + 1] == c,
    decreases s.len() - from,
{
    if from + 1 < s.len() && !(s[from] == c && s[from + 1] == c) {
        lemma_no_pair_before(s, c, from + 1);
    }
}

/// The first pair behind a text is that of what comes behind it.
proof fn lemma_pair_shift(a: Seq<char>, b: Seq<char>, c: char, k: int)
    requires
        0 <= k <= b.len(),
    ensures
        text::find_pair(a + b, c, a.len() + k) == a.len() + text::find_pair(b, c, k),
    decreases b.len() - k,
{
    let s = a + b;
    if k + 1 < b.len() {
        assert(s[a.len() + k] == b[k] && s[a.len() + k + 1] == b[k + 1]);
        if !(b[k] == c && b[k + 1] == c) {
            lemma_pair_shift(a, b, c, k + 1);
        }
    }
}

proof fn lemma_pair_skip(s: Seq<char>, c: char, from: int, to: int)
    requires
        0 <= from <= to <= s.len(),
        forall|k: int|
            from <= k < to && k + 1 < s.len() ==> !(#[trigger] s[k] == c && s[k + 1] == c),
    ensures
        text::find_pair(s, c, from) == text::find_pair(s, c, to),
    decreases to - from,
{
    if from < to {
        if from + 1 < s.len() {
            assert(!(s[from] == c && s[from + 1] == c));
            lemma_pair_skip(s, c, from + 1, to);
        }
    }
}

/// Where the search for placeholder `i` starts.
spec fn span_from(s: Seq<char>, from: int, i: int) -> int {
    if i > 0 {
        spans_from(s, from)[i - 1].1
    } else {
        from
    }
}

/// A placeholder starts at the first pair behind the one ahead of it, and there is none behind the
/// last.
proof fn lemma_spans(s: Seq<char>, from: int, i: int)
    requires
        0 <= from <= s.len(),
        0 <= i <= spans_from(s, from).len(),
    ensures
        from <= span_from(s, from, i) <= s.len(),
        i < spans_from(s, from).len() ==> spans_from(s, from)[i].0 == text::find_pair(
            s,
            '{',
            span_from(s, from, i),
        ),
        i == spans_from(s, from).len() ==> spans_from(s, span_from(s, from, i)).len() == 0,
    decreases i,
{
    if i > 0 {
        text::lemma_find_pair(s, '{', from);
        let start = text::find_pair(s, '{', from);
        text::lemma_find_pair(s, '}', start + 2);
        let close = text::find_pair(s, '}', start + 2);
        let rest = spans_from(s, close + 2);
        let all = spans_from(s, from);
        assert(all == seq![(start, close + 2)] + rest);
        lemma_spans(s, close + 2, i - 1);
        if i < all.len() {
            assert(all[i] == rest[i - 1]);
        }
        if i > 1 {
            assert(all[i - 1] == rest[i - 2]);
        }
    }
}

proof fn lemma_filled_is_shut(s: Seq<char>, values: Seq<(String, String)>, n: int)
    requires
        0 <= n <= spans(s).len(),
        forall|i: int|
            0 <= i < spans(s).len() ==> (value_of(values, name_in(s, #[trigger] spans(s)[i]))
                matches Some(v) && !v.contains('{')),
    ensures
        is_shut(substituted_to(s, values, n)),
    decreases n,
{
    if n > 0 {
        lemma_filled_is_shut(s, values, n - 1);
        lemma_spans(s, 0, n - 1);
        lemma_spans_in_order(s, 0, n - 1);
        let last = span_from(s, 0, n - 1);
        let span = spans(s)[n - 1];
        text::lemma_find_pair(s, '{', last);
        lemma_no_pair_before(s, '{', last);
        let between = s.subrange(last, span.0);
        assert forall|k: int| 0 <= k && k + 1 < between.len() implies !(#[trigger] between[k] == '{'
            && between[k + 1] == '{') by {
            assert(between[k] == s[last + k] && between[k + 1] == s[last + k + 1]);
        }
        if between.len() > 0 {
            assert(between.last() == s[span.0 - 1]);
            assert(s[span.0] == '{');
        }
        assert(is_shut(between));
        let v = filled(s, values, span);
        assert(value_of(values, name_in(s, span)) matches Some(v) && !v.contains('{'));
        assert forall|k: int| 0 <= k < v.len() implies v[k] != '{' by {
            assert(v.contains(v[k]));
        }
        assert(is_shut(v));
        let before = substituted_to(s, values, n - 1);
        lemma_shut_then(before, between);
        lemma_shut_then(before + between, v);
        assert(substituted_to(s, values, n) == before + between + v);
    } else {
        assert(substituted_to(s, values, n) =~= Seq::empty());
    }
}

/// Law: where every placeholder of a text has a value, and no value holds an opening brace, the
/// filled-in text refers to no placeholder, and filling it in again changes nothing.
pub proof fn filled_text_refers_to_nothing(s: Seq<char>, values: Seq<(String, String)>)
    requires
        forall|name: Seq<char>| #[trigger]
            refers_to(s, name) ==> (value_of(values, name) matches Some(v) && !v.contains('{')),
    ensures
        forall|name: Seq<char>| !#[trigger] refers_to(substituted(s, values), name),
        substituted(substituted(s, values), values) == substituted(s, values),
{
    let n = spans(s).len() as int;
    assert forall|i: int| 0 <= i < spans(s).len() implies (value_of(
        values,
        name_in(s, #[trigger] spans(s)[i]),
    ) matches Some(v) && !v.contains('{')) by {
        assert(refers_to(s, name_in(s, spans(s)[i])));
    }
    lemma_filled_is_shut(s, values, n);
    lemma_spans(s, 0, n);
    let e = span_from(s, 0, n);
    let a = substituted_to(s, values, n);
    let b = s.skip(e);
    let r = substituted(s, values);
    assert(r == a + b);
    let k = text::find_pair(b, '{', 0);
    text::lemma_find_pair(b, '{', 0);
    lemma_no_pair_before(b, '{', 0);
    assert forall|i: int| 0 <= i < a.len() && i + 1 < r.len() implies !(#[trigger] r[i] == '{' && r[i
        + 1] == '{') by {
        if i + 1 < a.len() {
            assert(r[i] == a[i] && r[i + 1] == a[i + 1]);
        } else {
            assert(r[i] == a.last());
        }
    }
    lemma_pair_skip(r, '{', 0, a.len() as int);
    lemma_pair_shift(a, b, '{', 0);
    assert(text::find_pair(r, '{', 0) == a.len() + k);
    let head = s.take(e);
    assert(head + b =~= s);
    lemma_pair_shift(head, b, '{', 0);
    if k < b.len() {
        lemma_pair_shift(head, b, '}', k + 2);
        lemma_pair_shift(a, b, '}', k + 2);
        text::lemma_find_pair(s, '}', e + k + 2);
        assert(spans_from(s, e).len() == 0);
        assert(text::find_pair(s, '}', e + k + 2) == s.len());
    }
    assert(spans(r) =~= Seq::empty());
    unresolved_text_is_unchanged(r, values);
}

/// A pair is found where it stands, with none of its characters ahead of it.
proof fn lemma_pair_at(s: Seq<char>, c: char, from: int, at: int)
    requires
        0 <= from <= at,
        at + 1 < s.len(),
        s[at] == c,
        s[at + 1] == c,
        forall|k: int| from <= k < at ==> #[trigger] s[k] != c,
    ensures
        text::find_pair(s, c, from) == at,
    decreases at - from,
{
    if from < at {
        assert(s[from] != c);
        lemma_pair_at(s, c, from + 1, at);
    }
}

proof fn lemma_no_pair(s: Seq<char>, c: char, from: int)
    requires
        0 <= from <= s.len(),
        forall|k: int| from <= k < s.len() ==> #[trigger] s[k] != c,
    ensures
        text::find_pair(s, c, from) == s.len(),
    decreases s.len() - from,
{
    if from + 1 < s.len() {
        assert(s[from] != c);
        lemma_no_pair(s, c, from + 1);
    }
}

/// The one placeholder of a text.
proof fn lemma_one_span(a: Seq<char>, name: Seq<char>, b: Seq<char>)
    requires
        !a.contains('{'),
        !name.contains('}'),
        !b.contains('{'),
    ensures
        ({
            let s = a + seq!['{', '{'] + name + seq!['}', '}'] + b;
            let end = a.len() + 2 + name.len() + 2;
            &&& spans(s) == seq![(a.len() as int, end as int)]
            &&& name_in(s, (a.len() as int, end as int)) == text::trimmed(name)
            &&& s.subrange(0, a.len() as int) == a
            &&& s.skip(end as int) == b
        }),
{
    let s = a + seq!['{', '{'] + name + seq!['}', '}'] + b;
    let at = a.len() as int;
    let close = at + 2 + name.len();
    assert forall|k: int| 0 <= k < at implies #[trigger] s[k] != '{' by {
        assert(s[k] == a[k]);
        assert(a.contains(a[k]));
    }
    assert(s[at] == '{' && s[at + 1] == '{');
    lemma_pair_at(s, '{', 0, at);
    assert forall|k: int| at + 2 <= k < close implies #[trigger] s[k] != '}' by {
        assert(s[k] == name[k - at - 2]);
        assert(name.contains(name[k - at - 2]));
    }
    assert(s[close] == '}' && s[close + 1] == '}');
    lemma_pair_at(s, '}', at + 2, close);
    assert forall|k: int| close + 2 <= k < s.len() implies #[trigger] s[k] != '{' by {
        assert(s[k] == b[k - close - 2]);
        assert(b.contains(b[k - close - 2]));
    }
    lemma_no_pair(s, '{', close + 2);
    assert(spans_from(s, close + 2) =~= Seq::empty());
    assert(spans(s) =~= seq![(at, close + 2)]);
    assert(s.subrange(at + 2, close) =~= name);
    assert(s.subrange(0, at) =~= a);
    assert(s.skip(close + 2) =~= b);
}

/// Law: a placeholder is replaced by the value of the name it encloses, whitespace aside, and what
/// stands around it stays. One whose name has no value stays itself.
pub proof fn placeholder_becomes_its_value(
    a: Seq<char>,
    name: Seq<char>,
    b: Seq<char>,
    values: Seq<(String, String)>,
    i: int,
)
    requires
        !a.contains('{'),
        !name.contains('}'),
        !b.contains('{'),
        0 <= i <= values.len(),
        forall|k: int| 0 <= k < i ==> (#[trigger] values[k]).0@ != text::trimmed(name),
        i < values.len() ==> values[i].0@ == text::trimmed(name),
    ensures
        i < values.len() ==> substituted(a + seq!['{', '{'] + name + seq!['}', '}'] + b, values)
            == a + values[i].1@ + b,
        i == values.len() ==> substituted(a + seq!['{', '{'] + name + seq!['}', '}'] + b, values)
            == a + seq!['{', '{'] + name + seq!['}', '}'] + b,
{
    let s = a + seq!['{', '{'] + name + seq!['}', '}'] + b;
    let at = a.len() as int;
    let end = at + 2 + name.len() + 2;
    lemma_one_span(a, name, b);
    lemma_value(values, text::trimmed(name), i);
    let put = filled(s, values, (at, end));
    reveal_with_fuel(substituted_to, 2);
    assert(substituted_to(s, values, 0) =~= Seq::empty());
    assert(substituted_to(s, values, 1) =~= a + put);
    assert(substituted(s, values) =~= a + put + b);
    if i == values.len() {
        assert(a + s.subrange(at, end) + b =~= s);
    }
}

/// The first value of a name, at `i`, or none where `i` is the number of values.
proof fn lemma_value(values: Seq<(String, String)>, name: Seq<char>, i: int)
    requires
        0 <= i <= values.len(),
        forall|k: int| 0 <= k < i ==> (#[trigger] values[k]).0@ != name,
        i < values.len() ==> values[i].0@ == name,
    ensures
        value_of(values, name) == (if i < values.len() {
            Some(values[i].1@)
        } else {
            None
        }),
    decreases i,
{
    if i > 0 {
        assert(values[0].0@ != name);
        let rest = values.skip(1);
        assert forall|k: int| 0 <= k < i - 1 implies (#[trigger] rest[k]).0@ != name by {
            assert(rest[k] == values[k + 1]);
        }
        lemma_value(rest, name, i - 1);
    }
}

} // verus!
