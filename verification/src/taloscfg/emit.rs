//! What is added to the topology file, written in the layout that the encryption tool writes YAML
//! in, so that it does not move again on the next encryption.
//!
//! A collection is nested at the next multiple of four past its parent's column, a mapping that is
//! a list item stands two columns past the dash, and a string is quoted only where a plain one
//! would read back as something else: double quotes for what looks like a number, a boolean or
//! null, single quotes for the rest.

use crate::offset;
use crate::taloscfg::locate;
use crate::taloscfg::locate::Found;
use crate::taloscfg::locate::NodeKind;
use crate::taloscfg::locate::Step;
use crate::taloscfg::locate::StepModel;
use crate::text;
use crate::value;
use crate::value::Tree;
use crate::value::Value;
use crate::yaml;
use vstd::prelude::*;

verus! {

/// Why nothing can be added.
#[derive(Clone, Copy, Debug, PartialEq, Eq, Structural)]
pub enum EmitError {
    /// The document is not valid YAML.
    NotYaml,
    /// Nothing is at the route.
    NotFound,
    /// A key without a value is at the route.
    Empty,
    /// What is at the route does not take what is to be added.
    WrongKind,
    /// What is to be added has a mapping key that is not a string, or a tag.
    KeyNotText,
    /// The place to add at could not be made out, or the addition could not be made.
    NotAdded,
}

/// `n` spaces.
pub open spec fn spaces(n: int) -> Seq<char> {
    Seq::new(n as nat, |i: int| ' ')
}

/// Where a collection nested under a line at `column` starts.
pub open spec fn nested(column: int) -> int {
    (column + 4) / 4 * 4
}

/// Words that YAML 1.1 reads as a boolean or null.
pub open spec fn is_word(s: Seq<char>) -> bool {
    s == "y"@ || s == "Y"@ || s == "yes"@ || s == "Yes"@ || s == "YES"@ || s == "n"@ || s == "N"@
        || s == "no"@ || s == "No"@ || s == "NO"@ || s == "on"@ || s == "On"@ || s == "ON"@ || s
        == "off"@ || s == "Off"@ || s == "OFF"@ || s == "true"@ || s == "True"@ || s == "TRUE"@
        || s == "false"@ || s == "False"@ || s == "FALSE"@ || s == "null"@ || s == "Null"@ || s
        == "NULL"@ || s == "~"@
}

fn find_word(s: &str) -> (r: bool)
    ensures
        r == is_word(s@),
{
    text::str_eq(s, "y") || text::str_eq(s, "Y") || text::str_eq(s, "yes") || text::str_eq(
        s,
        "Yes",
    ) || text::str_eq(s, "YES") || text::str_eq(s, "n") || text::str_eq(s, "N") || text::str_eq(
        s,
        "no",
    ) || text::str_eq(s, "No") || text::str_eq(s, "NO") || text::str_eq(s, "on") || text::str_eq(
        s,
        "On",
    ) || text::str_eq(s, "ON") || text::str_eq(s, "off") || text::str_eq(s, "Off")
        || text::str_eq(s, "OFF") || text::str_eq(s, "true") || text::str_eq(s, "True")
        || text::str_eq(s, "TRUE") || text::str_eq(s, "false") || text::str_eq(s, "False")
        || text::str_eq(s, "FALSE") || text::str_eq(s, "null") || text::str_eq(s, "Null")
        || text::str_eq(s, "NULL") || text::str_eq(s, "~")
}

/// A control character.
pub open spec fn is_control(c: char) -> bool {
    c as u32 <= 0x1f || 0x7f <= c as u32 <= 0x9f
}

/// An upper-case hexadecimal digit.
pub open spec fn hex_digit(d: int) -> char {
    if d < 10 {
        ('0' as int + d) as char
    } else {
        ('A' as int + d - 10) as char
    }
}

/// A character inside double quotes.
pub open spec fn escaped(c: char) -> Seq<char> {
    if c == '"' {
        seq!['\\', '"']
    } else if c == '\\' {
        seq!['\\', '\\']
    } else if c == '\n' {
        seq!['\\', 'n']
    } else if c == '\t' {
        seq!['\\', 't']
    } else if c == '\r' {
        seq!['\\', 'r']
    } else if is_control(c) {
        seq!['\\', 'u', '0', '0', hex_digit(c as int / 16), hex_digit(c as int % 16)]
    } else {
        seq![c]
    }
}

pub open spec fn escaped_all(s: Seq<char>) -> Seq<char>
    decreases s.len(),
{
    if s.len() == 0 {
        Seq::empty()
    } else {
        escaped_all(s.drop_last()) + escaped(s.last())
    }
}

/// A string in double quotes.
pub open spec fn double_quoted(s: Seq<char>) -> Seq<char> {
    seq!['"'] + escaped_all(s) + seq!['"']
}

/// A string with its single quotes doubled.
pub open spec fn doubled(s: Seq<char>) -> Seq<char>
    decreases s.len(),
{
    if s.len() == 0 {
        Seq::empty()
    } else if s.last() == '\'' {
        doubled(s.drop_last()) + seq!['\'', '\'']
    } else {
        doubled(s.drop_last()).push(s.last())
    }
}

/// A string in single quotes.
pub open spec fn single_quoted(s: Seq<char>) -> Seq<char> {
    seq!['\''] + doubled(s) + seq!['\'']
}

pub open spec fn has_control(s: Seq<char>) -> bool {
    exists|i: int| 0 <= i < s.len() && is_control(#[trigger] s[i])
}

/// How a string is written, given what it reads as on its own and as a value.
pub open spec fn string_given(s: Seq<char>, alone: Option<Tree>, as_value: Option<Tree>) -> Seq<
    char,
> {
    if s.len() == 0 || is_word(s) || alone is Some && (alone->0 is Number || alone->0 is Bool) {
        double_quoted(s)
    } else if as_value is Some && value::field(as_value->0, "k"@) == Some(Tree::Text(s)) {
        s
    } else if has_control(s) {
        double_quoted(s)
    } else {
        single_quoted(s)
    }
}

/// How a string is written.
pub open spec fn string_text(s: Seq<char>) -> Seq<char> {
    string_given(s, yaml::yaml_tree(s), yaml::yaml_tree("k: "@ + s))
}

fn push_escaped(out: &mut String, c: char)
    ensures
        final(out)@ == old(out)@ + escaped(c),
{
    let ghost start = out@;
    if c == '"' {
        out.push('\\');
        out.push('"');
    } else if c == '\\' {
        out.push('\\');
        out.push('\\');
    } else if c == '\n' {
        out.push('\\');
        out.push('n');
    } else if c == '\t' {
        out.push('\\');
        out.push('t');
    } else if c == '\r' {
        out.push('\\');
        out.push('r');
    } else {
        let code: u32 = c as u32;
        if code <= 0x1f || (0x7f <= code && code <= 0x9f) {
            out.push('\\');
            out.push('u');
            out.push('0');
            out.push('0');
            out.push(hex_of(code / 16));
            out.push(hex_of(code % 16));
        } else {
            out.push(c);
        }
    }
    assert(out@ =~= start + escaped(c));
}

fn hex_of(d: u32) -> (r: char)
    requires
        d < 16,
    ensures
        r == hex_digit(d as int),
{
    let d: u8 = d as u8;
    if d < 10 {
        (48u8 + d) as char
    } else {
        (55u8 + d) as char
    }
}

pub(crate) fn quote_double(v: &Vec<char>) -> (r: String)
    ensures
        r@ == double_quoted(v@),
{
    let mut out = String::new();
    out.push('"');
    let mut i: usize = 0;
    assert(v@.take(0) =~= Seq::empty());
    assert(out@ =~= seq!['"'] + escaped_all(v@.take(0)));
    while i < v.len()
        invariant
            i <= v@.len(),
            out@ == seq!['"'] + escaped_all(v@.take(i as int)),
        decreases v@.len() - i,
    {
        push_escaped(&mut out, v[i]);
        assert(v@.take(i + 1).drop_last() =~= v@.take(i as int));
        assert(out@ =~= seq!['"'] + escaped_all(v@.take(i + 1)));
        i += 1;
    }
    assert(v@.take(i as int) =~= v@);
    out.push('"');
    assert(out@ =~= double_quoted(v@));
    out
}

fn quote_single(v: &Vec<char>) -> (r: String)
    ensures
        r@ == single_quoted(v@),
{
    let mut out = String::new();
    out.push('\'');
    let mut i: usize = 0;
    assert(v@.take(0) =~= Seq::empty());
    assert(out@ =~= seq!['\''] + doubled(v@.take(0)));
    while i < v.len()
        invariant
            i <= v@.len(),
            out@ == seq!['\''] + doubled(v@.take(i as int)),
        decreases v@.len() - i,
    {
        out.push(v[i]);
        if v[i] == '\'' {
            out.push('\'');
        }
        assert(v@.take(i + 1).drop_last() =~= v@.take(i as int));
        assert(out@ =~= seq!['\''] + doubled(v@.take(i + 1)));
        i += 1;
    }
    assert(v@.take(i as int) =~= v@);
    out.push('\'');
    assert(out@ =~= single_quoted(v@));
    out
}

fn find_control(v: &Vec<char>) -> (r: bool)
    ensures
        r == has_control(v@),
{
    let mut i: usize = 0;
    while i < v.len()
        invariant
            i <= v@.len(),
            forall|k: int| 0 <= k < i ==> !is_control(#[trigger] v@[k]),
        decreases v@.len() - i,
    {
        let code: u32 = v[i] as u32;
        if code <= 0x1f || (0x7f <= code && code <= 0x9f) {
            assert(is_control(v@[i as int]));
            return true;
        }
        i += 1;
    }
    false
}

/// Writes a string, given what it reads as on its own and as a value.
pub fn quote(s: &str, alone: &Option<Value>, as_value: &Option<Value>) -> (r: String)
    ensures
        r@ == string_given(
            s@,
            match *alone {
                Some(v) => Some(value::tree(v)),
                None => None,
            },
            match *as_value {
                Some(v) => Some(value::tree(v)),
                None => None,
            },
        ),
{
    let v = text::chars_of(s);
    let other = match alone {
        Some(Value::Number(_)) => true,
        Some(Value::Bool(_)) => true,
        _ => false,
    };
    if v.len() == 0 || find_word(s) || other {
        return quote_double(&v);
    }
    if let Some(x) = as_value {
        proof {
            value::lemma_field(*x, "k"@);
        }
        if let Some(Value::Text(t)) = value::get(x, "k") {
            if text::str_eq(t.as_str(), s) {
                return s.to_owned();
            }
        }
    }
    if find_control(&v) {
        quote_double(&v)
    } else {
        quote_single(&v)
    }
}

/// Writes a string.
pub(crate) fn string(s: &str) -> (r: String)
    ensures
        r@ == string_text(s@),
{
    let alone = yaml::parse(s);
    let mut entry = "k: ".to_owned();
    entry.push_str(s);
    let as_value = yaml::parse(entry.as_str());
    quote(s, &alone, &as_value)
}

/// How a scalar, or an empty collection, is written.
pub open spec fn scalar_text(t: Tree) -> Seq<char> {
    match t {
        Tree::Null => "null"@,
        Tree::Bool(b) => if b {
            "true"@
        } else {
            "false"@
        },
        Tree::Number(n) => n,
        Tree::Text(s) => string_text(s),
        Tree::Sequence(_) => "[]"@,
        Tree::Mapping(_) => "{}"@,
        Tree::Tagged(_, _) => Seq::empty(),
    }
}

pub(crate) fn scalar(v: &Value) -> (r: String)
    ensures
        r@ == scalar_text(value::tree(*v)),
{
    proof {
        value::lemma_tree(*v);
    }
    match v {
        Value::Null => "null".to_owned(),
        Value::Bool(b) => if *b {
            "true".to_owned()
        } else {
            "false".to_owned()
        },
        Value::Number(n) => n.clone(),
        Value::Text(s) => string(s.as_str()),
        Value::Sequence(_) => "[]".to_owned(),
        Value::Mapping(_) => "{}".to_owned(),
        Value::Tagged(_, _) => String::new(),
    }
}

/// The lines of `key: value` at `column`, a collection on the lines below it. Nothing where a key
/// inside is not a string, or a node has a tag.
pub open spec fn entry_lines(key: Seq<char>, t: Tree, column: int) -> Option<Seq<Seq<char>>>
    decreases t, 1int,
{
    let head = spaces(column) + string_text(key) + ":"@;
    match t {
        Tree::Mapping(fields) => if fields.len() > 0 {
            match field_lines(fields, fields.len() as int, nested(column)) {
                Some(lines) => Some(seq![head] + lines),
                None => None,
            }
        } else {
            Some(seq![head + " "@ + scalar_text(t)])
        },
        Tree::Sequence(items) => if items.len() > 0 {
            match items_lines(items, items.len() as int, nested(column)) {
                Some(lines) => Some(seq![head] + lines),
                None => None,
            }
        } else {
            Some(seq![head + " "@ + scalar_text(t)])
        },
        Tree::Tagged(_, _) => None,
        _ => Some(seq![head + " "@ + scalar_text(t)]),
    }
}

/// The lines of the first `n` entries of a mapping.
pub open spec fn field_lines(fields: Seq<(Tree, Tree)>, n: int, column: int) -> Option<
    Seq<Seq<char>>,
>
    decreases fields, n,
{
    if n <= 0 || n > fields.len() {
        Some(Seq::empty())
    } else {
        match (field_lines(fields, n - 1, column), fields[n - 1].0) {
            (Some(before), Tree::Text(key)) => match entry_lines(key, fields[n - 1].1, column) {
                Some(lines) => Some(before + lines),
                None => None,
            },
            _ => None,
        }
    }
}

/// The lines of the first `n` items of a list.
pub open spec fn items_lines(items: Seq<Tree>, n: int, column: int) -> Option<Seq<Seq<char>>>
    decreases items, n,
{
    if n <= 0 || n > items.len() {
        Some(Seq::empty())
    } else {
        match (items_lines(items, n - 1, column), item_lines(items[n - 1], column)) {
            (Some(before), Some(lines)) => Some(before + lines),
            _ => None,
        }
    }
}

/// A line with a dash at `column`, in place of two spaces.
pub open spec fn dashed(line: Seq<char>, column: int) -> Seq<char> {
    line.take(column) + "- "@ + line.skip(column + 2)
}

/// Lines with a dash on the first.
pub open spec fn dashed_first(lines: Seq<Seq<char>>, column: int) -> Seq<Seq<char>> {
    if lines.len() > 0 {
        lines.update(0, dashed(lines[0], column))
    } else {
        lines
    }
}

/// The lines of one list item, its dash at `column`.
pub open spec fn item_lines(t: Tree, column: int) -> Option<Seq<Seq<char>>>
    decreases t, 1int,
{
    match t {
        Tree::Mapping(fields) => if fields.len() > 0 {
            match field_lines(fields, fields.len() as int, column + 2) {
                Some(lines) => Some(dashed_first(lines, column)),
                None => None,
            }
        } else {
            Some(seq![spaces(column) + "- "@ + scalar_text(t)])
        },
        Tree::Sequence(items) => if items.len() > 0 {
            match items_lines(items, items.len() as int, column + 2) {
                Some(lines) => Some(dashed_first(lines, column)),
                None => None,
            }
        } else {
            Some(seq![spaces(column) + "- "@ + scalar_text(t)])
        },
        Tree::Tagged(_, _) => None,
        _ => Some(seq![spaces(column) + "- "@ + scalar_text(t)]),
    }
}

/// There are lines, and the first reaches past `column`.
pub open spec fn opens_at(lines: Seq<Seq<char>>, column: int) -> bool {
    lines.len() > 0 && lines[0].len() >= column
}

proof fn lemma_entry_opens(key: Seq<char>, t: Tree, column: int)
    requires
        column >= 0,
        entry_lines(key, t, column) is Some,
    ensures
        opens_at(entry_lines(key, t, column)->0, column),
{
    let head = spaces(column) + string_text(key) + ":"@;
    assert(head.len() >= column);
}

proof fn lemma_fields_open(fields: Seq<(Tree, Tree)>, n: int, column: int)
    requires
        column >= 0,
        0 < n <= fields.len(),
        field_lines(fields, n, column) is Some,
    ensures
        opens_at(field_lines(fields, n, column)->0, column),
    decreases n,
{
    let key = fields[n - 1].0->Text_0;
    lemma_entry_opens(key, fields[n - 1].1, column);
    if n > 1 {
        lemma_fields_open(fields, n - 1, column);
    } else {
        assert(field_lines(fields, 0, column) == Some(Seq::<Seq<char>>::empty()));
    }
}

proof fn lemma_item_opens(t: Tree, column: int)
    requires
        column >= 0,
        item_lines(t, column) is Some,
    ensures
        opens_at(item_lines(t, column)->0, column),
    decreases t, 1int,
{
    match t {
        Tree::Mapping(fields) => {
            if fields.len() > 0 {
                lemma_fields_open(fields, fields.len() as int, column + 2);
            }
        },
        Tree::Sequence(items) => {
            if items.len() > 0 {
                lemma_items_open(items, items.len() as int, column + 2);
            }
        },
        _ => {},
    }
}

proof fn lemma_items_open(items: Seq<Tree>, n: int, column: int)
    requires
        column >= 0,
        0 < n <= items.len(),
        items_lines(items, n, column) is Some,
    ensures
        opens_at(items_lines(items, n, column)->0, column),
    decreases items, n,
{
    lemma_item_opens(items[n - 1], column);
    if n > 1 {
        lemma_items_open(items, n - 1, column);
    } else {
        assert(items_lines(items, 0, column) == Some(Seq::<Seq<char>>::empty()));
    }
}

/// A line of spaces that reaches the next multiple of four.
pub(crate) fn nest(indent: &Vec<char>) -> (r: Vec<char>)
    requires
        indent@ == spaces(indent@.len() as int),
    ensures
        r@ == spaces(nested(indent@.len() as int)),
{
    let mut r = text::copy(indent.as_slice(), 0, indent.len());
    let mut k: usize = indent.len() % 4;
    let ghost n = indent@.len() as int;
    assert(r@ =~= spaces(n));
    while k < 4
        invariant
            n >= 0,
            n % 4 <= k <= 4,
            r@ == spaces(n + k - n % 4),
        decreases 4 - k,
    {
        r.push(' ');
        k += 1;
        assert(r@ =~= spaces(n + k - n % 4));
    }
    assert(n + 4 - n % 4 == nested(n));
    r
}

/// Two more spaces.
fn past_dash(indent: &Vec<char>) -> (r: Vec<char>)
    requires
        indent@ == spaces(indent@.len() as int),
    ensures
        r@ == spaces(indent@.len() as int + 2),
{
    let mut r = text::copy(indent.as_slice(), 0, indent.len());
    r.push(' ');
    r.push(' ');
    assert(r@ =~= spaces(indent@.len() as int + 2));
    r
}

fn append(out: &mut Vec<String>, lines: Vec<String>)
    ensures
        text::texts(final(out)@) == text::texts(old(out)@) + text::texts(lines@),
{
    let ghost start = text::texts(out@);
    let mut i: usize = 0;
    assert(start + text::texts(lines@).take(0) =~= start);
    while i < lines.len()
        invariant
            i <= lines@.len(),
            text::texts(out@) == start + text::texts(lines@).take(i as int),
        decreases lines@.len() - i,
    {
        let ghost prev = text::texts(out@);
        out.push(lines[i].clone());
        assert(text::texts(out@) =~= prev.push(lines@[i as int]@));
        assert(text::texts(out@) =~= start + text::texts(lines@).take(i + 1));
        i += 1;
    }
    assert(text::texts(lines@).take(i as int) =~= text::texts(lines@));
}

fn one(line: String) -> (r: Vec<String>)
    ensures
        text::texts(r@) == seq![line@],
{
    let mut r: Vec<String> = Vec::new();
    r.push(line);
    assert(text::texts(r@) =~= seq![line@]);
    r
}

/// `key: value` at a column, a collection on the lines below it.
pub(crate) fn entry(key: &str, v: &Value, indent: &Vec<char>) -> (r: Result<Vec<String>, EmitError>)
    requires
        indent@ == spaces(indent@.len() as int),
    ensures
        match r {
            Ok(lines) => entry_lines(key@, value::tree(*v), indent@.len() as int) == Some(
                text::texts(lines@),
            ),
            Err(e) => e == EmitError::KeyNotText && entry_lines(
                key@,
                value::tree(*v),
                indent@.len() as int,
            ) is None,
        },
    decreases v, 1int,
{
    proof {
        value::lemma_tree(*v);
    }
    let mut head = text::string_of(indent.as_slice());
    let quoted = string(key);
    head.push_str(quoted.as_str());
    head.push_str(":");
    match v {
        Value::Mapping(fields) => if fields.len() > 0 {
            let inner = nest(indent);
            let mut out = one(head);
            match all_fields(fields, &inner) {
                Ok(lines) => {
                    append(&mut out, lines);
                    return Ok(out);
                },
                Err(e) => {
                    return Err(e);
                },
            }
        },
        Value::Sequence(items) => if items.len() > 0 {
            let inner = nest(indent);
            let mut out = one(head);
            match all_items(items, &inner) {
                Ok(lines) => {
                    append(&mut out, lines);
                    return Ok(out);
                },
                Err(e) => {
                    return Err(e);
                },
            }
        },
        Value::Tagged(_, _) => {
            return Err(EmitError::KeyNotText);
        },
        _ => {},
    }
    head.push_str(" ");
    let s = scalar(v);
    head.push_str(s.as_str());
    Ok(one(head))
}

proof fn lemma_fields_none(fields: Seq<(Tree, Tree)>, n: int, m: int, column: int)
    requires
        0 <= n <= m <= fields.len(),
        field_lines(fields, n, column) is None,
    ensures
        field_lines(fields, m, column) is None,
    decreases m - n,
{
    if n < m {
        lemma_fields_none(fields, n, m - 1, column);
    }
}

proof fn lemma_items_none(items: Seq<Tree>, n: int, m: int, column: int)
    requires
        0 <= n <= m <= items.len(),
        items_lines(items, n, column) is None,
    ensures
        items_lines(items, m, column) is None,
    decreases m - n,
{
    if n < m {
        lemma_items_none(items, n, m - 1, column);
    }
}

#[verifier::loop_isolation(false)]
pub(crate) fn all_fields(fields: &Vec<(Value, Value)>, indent: &Vec<char>) -> (r: Result<
    Vec<String>,
    EmitError,
>)
    requires
        indent@ == spaces(indent@.len() as int),
    ensures
        match r {
            Ok(lines) => field_lines(
                value::pairs(fields@),
                fields@.len() as int,
                indent@.len() as int,
            ) == Some(text::texts(lines@)),
            Err(e) => e == EmitError::KeyNotText && field_lines(
                value::pairs(fields@),
                fields@.len() as int,
                indent@.len() as int,
            ) is None,
        },
    decreases fields, 0int,
{
    let ghost t = value::pairs(fields@);
    let ghost column = indent@.len() as int;
    let mut out: Vec<String> = Vec::new();
    let mut i: usize = 0;
    assert(text::texts(out@) =~= Seq::empty());
    while i < fields.len()
        invariant
            i <= fields@.len(),
            field_lines(t, i as int, column) == Some(text::texts(out@)),
        decreases fields@.len() - i,
    {
        assert(t[i as int] == (
            value::tree(fields@[i as int].0),
            value::tree(fields@[i as int].1),
        ));
        let mut failed = true;
        if let Value::Text(key) = &fields[i].0 {
            if let Ok(lines) = entry(key.as_str(), &fields[i].1, indent) {
                append(&mut out, lines);
                failed = false;
            }
        }
        if failed {
            proof {
                value::lemma_tree(fields@[i as int].0);
                assert(field_lines(t, i + 1, column) is None);
                lemma_fields_none(t, i + 1, fields@.len() as int, column);
            }
            return Err(EmitError::KeyNotText);
        }
        i += 1;
    }
    Ok(out)
}

#[verifier::loop_isolation(false)]
pub(crate) fn all_items(items: &Vec<Value>, indent: &Vec<char>) -> (r: Result<Vec<String>, EmitError>)
    requires
        indent@ == spaces(indent@.len() as int),
    ensures
        match r {
            Ok(lines) => items_lines(
                value::trees(items@),
                items@.len() as int,
                indent@.len() as int,
            ) == Some(text::texts(lines@)),
            Err(e) => e == EmitError::KeyNotText && items_lines(
                value::trees(items@),
                items@.len() as int,
                indent@.len() as int,
            ) is None,
        },
    decreases items, 0int,
{
    let ghost t = value::trees(items@);
    let ghost column = indent@.len() as int;
    let mut out: Vec<String> = Vec::new();
    let mut i: usize = 0;
    assert(text::texts(out@) =~= Seq::empty());
    while i < items.len()
        invariant
            i <= items@.len(),
            items_lines(t, i as int, column) == Some(text::texts(out@)),
        decreases items@.len() - i,
    {
        assert(t[i as int] == value::tree(items@[i as int]));
        match sequence_item(&items[i], indent) {
            Ok(lines) => {
                append(&mut out, lines);
            },
            Err(e) => {
                proof {
                    assert(items_lines(t, i + 1, column) is None);
                    lemma_items_none(t, i + 1, items@.len() as int, column);
                }
                return Err(e);
            },
        }
        i += 1;
    }
    Ok(out)
}

/// Puts a dash on the first line.
fn dash_first(lines: Vec<String>, column: usize) -> (r: Vec<String>)
    requires
        opens_at(text::texts(lines@), column + 2),
    ensures
        text::texts(r@) == dashed_first(text::texts(lines@), column as int),
{
    let ghost before = text::texts(lines@);
    let mut lines = lines;
    let v = text::chars_of(lines[0].as_str());
    assert(v@ == before[0]);
    let mut first = offset::cut(v.as_slice(), 0, column);
    first.push_str("- ");
    let end: usize = v.len();
    assert(column + 2 <= end);
    let tail = offset::cut(v.as_slice(), column + 2, end);
    first.push_str(tail.as_str());
    assert(first@ =~= dashed(before[0], column as int));
    lines.set(0, first);
    assert(text::texts(lines@) =~= dashed_first(before, column as int));
    lines
}

/// One list item with its dash at a column. A collection in it starts on the dash's line, two
/// columns past it.
pub(crate) fn sequence_item(v: &Value, indent: &Vec<char>) -> (r: Result<Vec<String>, EmitError>)
    requires
        indent@ == spaces(indent@.len() as int),
    ensures
        match r {
            Ok(lines) => item_lines(value::tree(*v), indent@.len() as int) == Some(
                text::texts(lines@),
            ),
            Err(e) => e == EmitError::KeyNotText && item_lines(
                value::tree(*v),
                indent@.len() as int,
            ) is None,
        },
    decreases v, 1int,
{
    proof {
        value::lemma_tree(*v);
    }
    match v {
        Value::Mapping(fields) => if fields.len() > 0 {
            let inner = past_dash(indent);
            match all_fields(fields, &inner) {
                Ok(lines) => {
                    proof {
                        lemma_fields_open(
                            value::pairs(fields@),
                            fields@.len() as int,
                            indent@.len() as int + 2,
                        );
                    }
                    return Ok(dash_first(lines, indent.len()));
                },
                Err(e) => {
                    return Err(e);
                },
            }
        },
        Value::Sequence(items) => if items.len() > 0 {
            let inner = past_dash(indent);
            match all_items(items, &inner) {
                Ok(lines) => {
                    proof {
                        lemma_items_open(
                            value::trees(items@),
                            items@.len() as int,
                            indent@.len() as int + 2,
                        );
                    }
                    return Ok(dash_first(lines, indent.len()));
                },
                Err(e) => {
                    return Err(e);
                },
            }
        },
        Value::Tagged(_, _) => {
            return Err(EmitError::KeyNotText);
        },
        _ => {},
    }
    let mut line = text::string_of(indent.as_slice());
    line.push_str("- ");
    let s = scalar(v);
    line.push_str(s.as_str());
    Ok(one(line))
}

/// Lines joined by line breaks.
pub open spec fn joined(lines: Seq<Seq<char>>) -> Seq<char>
    decreases lines.len(),
{
    if lines.len() == 0 {
        Seq::empty()
    } else if lines.len() == 1 {
        lines[0]
    } else {
        joined(lines.drop_last()) + "\n"@ + lines.last()
    }
}

fn join(lines: &Vec<String>) -> (r: String)
    ensures
        r@ == joined(text::texts(lines@)),
{
    let ghost t = text::texts(lines@);
    let mut out = String::new();
    let mut i: usize = 0;
    assert(t.take(0) =~= Seq::empty());
    assert(out@ =~= joined(t.take(0)));
    while i < lines.len()
        invariant
            i <= lines@.len(),
            t == text::texts(lines@),
            out@ == joined(t.take(i as int)),
        decreases lines@.len() - i,
    {
        assert(t.take(i + 1).drop_last() =~= t.take(i as int));
        assert(t.take(i + 1).last() == lines@[i as int]@);
        if i > 0 {
            out.push_str("\n");
        }
        out.push_str(lines[i].as_str());
        assert(out@ =~= joined(t.take(i + 1)));
        i += 1;
    }
    assert(t.take(i as int) =~= t);
    out
}

/// Lines put into a text after position `at`, which ends a line of content.
pub open spec fn inserted(source: Seq<char>, at: int, lines: Seq<Seq<char>>) -> Seq<char> {
    if at > 0 && source[at - 1] == '\n' {
        source.take(at) + joined(lines) + "\n"@ + source.skip(at)
    } else {
        source.take(at) + "\n"@ + joined(lines) + source.skip(at)
    }
}

pub(crate) fn insert(v: &Vec<char>, at: usize, lines: &Vec<String>) -> (r: String)
    requires
        at <= v@.len(),
    ensures
        r@ == inserted(v@, at as int, text::texts(lines@)),
{
    let body = join(lines);
    let mut out = offset::cut(v.as_slice(), 0, at);
    let tail = offset::cut(v.as_slice(), at, v.len());
    assert(out@ =~= v@.take(at as int));
    assert(tail@ =~= v@.skip(at as int));
    if at > 0 && v[at - 1] == '\n' {
        out.push_str(body.as_str());
        out.push_str("\n");
    } else {
        out.push_str("\n");
        out.push_str(body.as_str());
    }
    out.push_str(tail.as_str());
    out
}

/// `lines` put after the last line of content of a node, given where that ends.
pub open spec fn after_content(
    source: Seq<char>,
    end: Option<usize>,
    lines: Option<Seq<Seq<char>>>,
) -> Result<Seq<char>, EmitError> {
    match lines {
        None => Err(EmitError::KeyNotText),
        Some(lines) => if end is Some && offset::is_boundary(source, end->0 as int) {
            Ok(inserted(source, offset::position(source, end->0 as int), lines))
        } else {
            Err(EmitError::NotAdded)
        },
    }
}

fn insert_after_content(source: &str, end: Option<usize>, lines: Result<Vec<String>, EmitError>) -> (r:
    Result<String, EmitError>)
    requires
        lines is Err ==> lines->Err_0 == EmitError::KeyNotText,
    ensures
        same_result(
            r,
            after_content(
                source@,
                end,
                match lines {
                    Ok(l) => Some(text::texts(l@)),
                    Err(_) => None,
                },
            ),
        ),
{
    match lines {
        Err(e) => Err(e),
        Ok(lines) => {
            let v = text::chars_of(source);
            match end {
                Some(byte) => match offset::find_position(v.as_slice(), byte) {
                    Some(at) => Ok(insert(&v, at, &lines)),
                    None => Err(EmitError::NotAdded),
                },
                None => Err(EmitError::NotAdded),
            }
        },
    }
}

/// The same text, or the same error.
pub open spec fn same_result(
    r: Result<String, EmitError>,
    s: Result<Seq<char>, EmitError>,
) -> bool {
    match (r, s) {
        (Ok(a), Ok(b)) => a@ == b,
        (Err(a), Err(b)) => a == b,
        _ => false,
    }
}

/// The lines of entries at a column, in order.
pub open spec fn new_entry_lines(entries: Seq<(Seq<char>, Tree)>, n: int, column: int) -> Option<
    Seq<Seq<char>>,
>
    decreases n,
{
    if n <= 0 {
        Some(Seq::empty())
    } else {
        match (
            new_entry_lines(entries, n - 1, column),
            entry_lines(entries[n - 1].0, entries[n - 1].1, column),
        ) {
            (Some(before), Some(lines)) => Some(before + lines),
            _ => None,
        }
    }
}

proof fn lemma_new_entries_none(entries: Seq<(Seq<char>, Tree)>, n: int, m: int, column: int)
    requires
        n <= m,
        new_entry_lines(entries, n, column) is None,
    ensures
        new_entry_lines(entries, m, column) is None,
    decreases m - n,
{
    if n < m {
        lemma_new_entries_none(entries, n, m - 1, column);
    }
}

/// `column` spaces.
pub(crate) fn indentation(column: usize) -> (r: Vec<char>)
    ensures
        r@ == spaces(column as int),
        r@.len() == column,
{
    let mut r: Vec<char> = Vec::new();
    while r.len() < column
        invariant
            r@.len() <= column,
            r@ == spaces(r@.len() as int),
        decreases column - r@.len(),
    {
        let ghost n = r@.len() as int;
        r.push(' ');
        assert(r@ =~= spaces(n + 1));
    }
    r
}

#[verifier::loop_isolation(false)]
fn new_entries(entries: &Vec<(String, Value)>, column: usize) -> (r: Result<
    Vec<String>,
    EmitError,
>)
    ensures
        match r {
            Ok(lines) => new_entry_lines(
                locate::entry_models(entries@),
                entries@.len() as int,
                column as int,
            ) == Some(text::texts(lines@)),
            Err(e) => e == EmitError::KeyNotText && new_entry_lines(
                locate::entry_models(entries@),
                entries@.len() as int,
                column as int,
            ) is None,
        },
{
    let ghost t = locate::entry_models(entries@);
    let indent = indentation(column);
    let mut out: Vec<String> = Vec::new();
    let mut i: usize = 0;
    assert(text::texts(out@) =~= Seq::empty());
    while i < entries.len()
        invariant
            i <= entries@.len(),
            new_entry_lines(t, i as int, column as int) == Some(text::texts(out@)),
        decreases entries@.len() - i,
    {
        assert(t[i as int] == (entries@[i as int].0@, value::tree(entries@[i as int].1)));
        match entry(entries[i].0.as_str(), &entries[i].1, &indent) {
            Ok(lines) => {
                append(&mut out, lines);
            },
            Err(e) => {
                proof {
                    assert(new_entry_lines(t, i + 1, column as int) is None);
                    lemma_new_entries_none(t, i + 1, entries@.len() as int, column as int);
                }
                return Err(e);
            },
        }
        i += 1;
    }
    Ok(out)
}

/// What a node at a range is written as, without the whitespace around it. `None` where the range
/// does not lie between characters.
pub open spec fn written(source: Seq<char>, start: usize, end: usize) -> Option<Seq<char>> {
    if offset::is_boundary(source, start as int) && offset::is_boundary(source, end as int) && start
        <= end {
        Some(text::trimmed(offset::part(source, start as int, end as int)))
    } else {
        None
    }
}

pub(crate) fn find_written(v: &Vec<char>, start: usize, end: usize) -> (r: Option<(usize, usize, Vec<char>)>)
    ensures
        match r {
            Some((a, b, s)) => {
                &&& written(v@, start, end) == Some(s@)
                &&& a == offset::position(v@, start as int)
                &&& b == offset::position(v@, end as int)
                &&& a <= b <= v@.len()
            },
            None => written(v@, start, end) is None,
        },
{
    if start > end {
        return None;
    }
    match (
        offset::find_position(v.as_slice(), start),
        offset::find_position(v.as_slice(), end),
    ) {
        (Some(a), Some(b)) => {
            proof {
                offset::lemma_position_order(v@, start as int, end as int);
            }
            let piece = text::copy(v.as_slice(), a, b);
            Some((a, b, text::trim_chars(piece.as_slice())))
        },
        _ => None,
    }
}

/// `source` with entries added to the end of the mapping at a route.
pub open spec fn mapping_appended(
    source: Seq<char>,
    route: Seq<StepModel>,
    entries: Seq<(Seq<char>, Tree)>,
) -> Result<Seq<char>, EmitError> {
    match locate::place(source, route) {
        Found::Invalid => Err(EmitError::NotYaml),
        Found::Absent => Err(EmitError::NotFound),
        Found::Empty => Err(EmitError::Empty),
        Found::Prefixed => Err(EmitError::WrongKind),
        Found::At(NodeKind::BlockMapping, _, _) => match locate::block_column(source, route) {
            Some(column) => after_content(
                source,
                locate::content_end(source, route),
                new_entry_lines(entries, entries.len() as int, column as int),
            ),
            None => Err(EmitError::NotAdded),
        },
        Found::At(NodeKind::FlowMapping, start, end) => match written(source, start, end) {
            Some(w) => if w.contains('\n') || !locate::takes_entries(source, route) {
                Err(EmitError::WrongKind)
            } else {
                match locate::with_added(source, route, entries) {
                    Some(s) => Ok(s),
                    None => Err(EmitError::NotAdded),
                }
            },
            None => Err(EmitError::NotAdded),
        },
        Found::At(_, _, _) => Err(EmitError::WrongKind),
    }
}

fn has_break(v: &Vec<char>) -> (r: bool)
    ensures
        r == v@.contains('\n'),
{
    let k: usize = text::find(v.as_slice(), '\n', 0);
    proof {
        text::lemma_find_from(v@, '\n', 0);
    }
    k < v.len()
}

/// Adds entries to the end of the mapping at a route, after its last line of content. A flow
/// mapping takes them in its own style.
pub fn append_to_mapping(source: &str, route: &Vec<Step>, entries: &Vec<(String, Value)>) -> (r:
    Result<String, EmitError>)
    ensures
        same_result(
            r,
            mapping_appended(source@, locate::route_model(route@), locate::entry_models(entries@)),
        ),
{
    match locate::find(source, route) {
        Found::Invalid => Err(EmitError::NotYaml),
        Found::Absent => Err(EmitError::NotFound),
        Found::Empty => Err(EmitError::Empty),
        Found::Prefixed => Err(EmitError::WrongKind),
        Found::At(NodeKind::BlockMapping, _, _) => match locate::find_block_column(source, route) {
            Some(column) => insert_after_content(
                source,
                locate::find_content_end(source, route),
                new_entries(entries, column),
            ),
            None => Err(EmitError::NotAdded),
        },
        Found::At(NodeKind::FlowMapping, start, end) => {
            let v = text::chars_of(source);
            match find_written(&v, start, end) {
                Some((_, _, w)) => {
                    if has_break(&w) || !locate::can_take_entries(source, route) {
                        return Err(EmitError::WrongKind);
                    }
                    match locate::add_entries(source, route, entries) {
                        Some(s) => Ok(s),
                        None => Err(EmitError::NotAdded),
                    }
                },
                None => Err(EmitError::NotAdded),
            }
        },
        Found::At(_, _, _) => Err(EmitError::WrongKind),
    }
}

/// Where the text up to `at` ends, without the spaces that close it.
pub open spec fn before_spaces(source: Seq<char>, at: int) -> int
    decreases at,
{
    if at > 0 && source[at - 1] == ' ' {
        before_spaces(source, at - 1)
    } else {
        at
    }
}

/// `source` with an item appended to the list at a route.
pub open spec fn sequence_appended(source: Seq<char>, route: Seq<StepModel>, item: Tree) -> Result<
    Seq<char>,
    EmitError,
> {
    match locate::place(source, route) {
        Found::Invalid => Err(EmitError::NotYaml),
        Found::Absent => Err(EmitError::NotFound),
        Found::Empty => Err(EmitError::Empty),
        Found::Prefixed => Err(EmitError::WrongKind),
        Found::At(NodeKind::BlockSequence, _, _) => match locate::leading_spaces(source, route) {
            Some(column) => after_content(
                source,
                locate::content_end(source, route),
                item_lines(item, column as int),
            ),
            None => Err(EmitError::NotAdded),
        },
        Found::At(NodeKind::FlowSequence, start, end) => match (
            written(source, start, end),
            locate::block_column(source, route),
        ) {
            (None, _) => Err(EmitError::NotAdded),
            (Some(w), column) => if w != "[]"@ {
                Err(EmitError::WrongKind)
            } else {
                match column {
                    None => Err(EmitError::NotAdded),
                    Some(column) => match item_lines(item, nested(column as int)) {
                        None => Err(EmitError::KeyNotText),
                        Some(lines) => Ok(
                            source.take(
                                before_spaces(source, offset::position(source, start as int)),
                            ) + "\n"@ + joined(lines) + source.skip(
                                offset::position(source, end as int),
                            ),
                        ),
                    },
                }
            },
        },
        Found::At(_, _, _) => Err(EmitError::WrongKind),
    }
}

/// Appends an item to the list at a route. An empty flow list, `[]`, becomes a block list that
/// holds the item.
pub fn append_to_sequence(source: &str, route: &Vec<Step>, item: &Value) -> (r: Result<
    String,
    EmitError,
>)
    ensures
        same_result(
            r,
            sequence_appended(source@, locate::route_model(route@), value::tree(*item)),
        ),
{
    match locate::find(source, route) {
        Found::Invalid => Err(EmitError::NotYaml),
        Found::Absent => Err(EmitError::NotFound),
        Found::Empty => Err(EmitError::Empty),
        Found::Prefixed => Err(EmitError::WrongKind),
        Found::At(NodeKind::BlockSequence, _, _) => match locate::find_leading_spaces(
            source,
            route,
        ) {
            Some(column) => {
                let indent = indentation(column);
                insert_after_content(
                    source,
                    locate::find_content_end(source, route),
                    sequence_item(item, &indent),
                )
            },
            None => Err(EmitError::NotAdded),
        },
        Found::At(NodeKind::FlowSequence, start, end) => {
            let v = text::chars_of(source);
            match find_written(&v, start, end) {
                None => Err(EmitError::NotAdded),
                Some((a, b, w)) => {
                    let empty = text::chars_of("[]");
                    if !text::chars_eq(w.as_slice(), empty.as_slice()) {
                        return Err(EmitError::WrongKind);
                    }
                    match locate::find_block_column(source, route) {
                        None => Err(EmitError::NotAdded),
                        Some(column) => {
                            let indent = indentation(column);
                            let inner = nest(&indent);
                            match sequence_item(item, &inner) {
                                Err(e) => Err(e),
                                Ok(lines) => Ok(replace_list(&v, a, b, &lines)),
                            }
                        },
                    }
                },
            }
        },
        Found::At(_, _, _) => Err(EmitError::WrongKind),
    }
}

/// Puts lines in place of the list between two positions. The spaces ahead of it go too, or its
/// key's line would end in them.
fn replace_list(v: &Vec<char>, a: usize, b: usize, lines: &Vec<String>) -> (r: String)
    requires
        a <= b <= v@.len(),
    ensures
        r@ == v@.take(before_spaces(v@, a as int)) + "\n"@ + joined(text::texts(lines@)) + v@.skip(
            b as int,
        ),
{
    let mut at: usize = a;
    while at > 0 && v[at - 1] == ' '
        invariant
            at <= a <= v@.len(),
            before_spaces(v@, a as int) == before_spaces(v@, at as int),
        decreases at,
    {
        at -= 1;
    }
    let body = join(lines);
    let mut out = offset::cut(v.as_slice(), 0, at);
    let tail = offset::cut(v.as_slice(), b, v.len());
    assert(out@ =~= v@.take(at as int));
    assert(tail@ =~= v@.skip(b as int));
    out.push_str("\n");
    out.push_str(body.as_str());
    out.push_str(tail.as_str());
    out
}

/// Law: adding lines leaves every line that was there as it was.
pub proof fn insertion_keeps_the_rest(source: Seq<char>, at: int, lines: Seq<Seq<char>>)
    requires
        0 <= at <= source.len(),
    ensures
        inserted(source, at, lines).take(at) == source.take(at),
        inserted(source, at, lines).skip(
            inserted(source, at, lines).len() - (source.len() - at),
        ) == source.skip(at),
{
    let r = inserted(source, at, lines);
    assert(r.take(at) =~= source.take(at));
    assert(r.skip(r.len() - (source.len() - at)) =~= source.skip(at));
}

} // verus!
