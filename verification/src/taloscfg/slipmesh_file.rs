//! The topology file: what each document in it is, which hosts it reaches, and what one host ends
//! up with.
//!
//! Every document carries a `slipmesh:` block that says what it is for. `network` is the topology,
//! exactly one of it. `roadwarriors` is one pool per document. `nftables` is a ruleset, and `patch`
//! is a Talos document, both aimed at hosts. The block is addressed to this tool and never reaches
//! a patch file.

use crate::offset;
use crate::patches::mesh_config;
use crate::patches::mesh_config::MeshConfig;
use crate::patches::mesh_config::MeshError;
use crate::patches::mesh_config::NftablesTopology;
use crate::patches::mesh_config::NodeEntry;
use crate::patches::mesh_config::RoadwarriorPool;
use crate::taloscfg::document;
use crate::taloscfg::merge;
use crate::taloscfg::segments;
use crate::text;
use crate::value;
use crate::value::Tree;
use crate::value::Value;
use crate::yaml;
use std::ops::Range;
use vstd::prelude::*;

verus! {

/// What a document is for.
#[derive(Clone, Copy, Debug, PartialEq, Eq, Structural)]
pub enum Kind {
    Network,
    Roadwarriors,
    Nftables,
    Patch,
}

/// The name of a kind.
pub open spec fn kind_name(k: Kind) -> Seq<char> {
    match k {
        Kind::Network => "network"@,
        Kind::Roadwarriors => "roadwarriors"@,
        Kind::Nftables => "nftables"@,
        Kind::Patch => "patch"@,
    }
}

/// The kind of this name.
pub open spec fn kind_named(s: Seq<char>) -> Option<Kind> {
    if s == "network"@ {
        Some(Kind::Network)
    } else if s == "roadwarriors"@ {
        Some(Kind::Roadwarriors)
    } else if s == "nftables"@ {
        Some(Kind::Nftables)
    } else if s == "patch"@ {
        Some(Kind::Patch)
    } else {
        None
    }
}

impl Kind {
    pub fn name(self) -> (r: &'static str)
        ensures
            r@ == kind_name(self),
    {
        match self {
            Kind::Network => "network",
            Kind::Roadwarriors => "roadwarriors",
            Kind::Nftables => "nftables",
            Kind::Patch => "patch",
        }
    }
}

fn find_kind(s: &str) -> (r: Option<Kind>)
    ensures
        r == kind_named(s@),
{
    if text::str_eq(s, "network") {
        Some(Kind::Network)
    } else if text::str_eq(s, "roadwarriors") {
        Some(Kind::Roadwarriors)
    } else if text::str_eq(s, "nftables") {
        Some(Kind::Nftables)
    } else if text::str_eq(s, "patch") {
        Some(Kind::Patch)
    } else {
        None
    }
}

/// A document's `slipmesh:` block.
#[derive(Debug, PartialEq)]
pub struct Meta {
    pub kind: Kind,
    /// The hosts to reach; all of them where there is no list.
    pub include_hosts: Option<Vec<String>>,
    /// The hosts to leave out.
    pub exclude_hosts: Option<Vec<String>>,
}

/// Why a document's block is refused.
#[derive(Clone, Copy, Debug, PartialEq, Eq, Structural)]
pub enum MetaError {
    NotAMapping,
    /// The key at this position is not one that a block may have.
    UnknownKey(usize),
    /// The key at this position is there already, under another tag.
    RepeatedKey(usize),
    /// The kind is missing, or neither a string nor a tag on nothing.
    NoKind,
    UnknownKind,
    /// The hosts to reach, or to leave out, are not a list of strings.
    BadHosts,
}

/// A host that a document names, by its position among those to reach or those to leave out.
#[derive(Clone, Copy, Debug, PartialEq, Eq, Structural)]
pub enum Aim {
    Reached(usize),
    LeftOut(usize),
}

/// Why a file is refused. Most say at which line the document in question starts.
#[derive(Clone, Copy, Debug, PartialEq, Eq, Structural)]
pub enum FileError {
    /// The file is not valid YAML.
    NotYaml,
    /// A document is not valid YAML.
    DocumentNotYaml(usize),
    /// A document has no block that says what it is for.
    NoMeta(usize),
    /// A document's block is refused.
    BadMeta(usize, MetaError),
    /// There must be exactly one network document; there are this many.
    NetworkCount(usize),
    /// A document of a kind that is not aimed at hosts is aimed at some.
    Aimed(usize),
    /// A section of the network document that belongs in a document of its own.
    Misplaced(usize, Kind),
    /// A document does not have the fields of its kind.
    Unreadable(usize),
    /// A list of hosts to reach is empty.
    ReachesNoHost(usize),
    /// A document names a host that the network document does not have.
    UnknownHost(usize, Aim),
    /// Two rulesets reach the host at this position.
    TwoRulesets(usize),
    /// A patch has no Talos `kind`.
    NoIdentity(usize),
    /// A patch is one that this tool generates.
    Generated(usize),
    /// The topology is refused.
    Invalid(MeshError),
    /// The host is not in the network document.
    NotAHost,
    /// A document cannot be written as YAML.
    NotWritten,
}

/// The texts of a list. `None` where it is not a list of strings.
pub open spec fn text_list(items: Seq<Tree>) -> Option<Seq<Seq<char>>>
    decreases items.len(),
{
    if items.len() == 0 {
        Some(Seq::empty())
    } else {
        match (text_list(items.drop_last()), value::untagged(items.last())) {
            (Some(v), Tree::Text(s)) => Some(v.push(s)),
            _ => None,
        }
    }
}

/// An optional list of hosts. `None` where it has another shape. A tag on nothing is a list without
/// hosts.
pub open spec fn host_list(t: Option<Tree>) -> Option<Option<Seq<Seq<char>>>> {
    match t {
        None => Some(None),
        Some(Tree::Null) => Some(None),
        Some(t) => match value::untagged(t) {
            Tree::Null => Some(Some(Seq::empty())),
            Tree::Sequence(items) => match text_list(items) {
                Some(v) => Some(Some(v)),
                None => None,
            },
            _ => None,
        },
    }
}

/// A document's block as a mathematical value.
pub struct MetaModel {
    pub kind: Kind,
    pub include_hosts: Option<Seq<Seq<char>>>,
    pub exclude_hosts: Option<Seq<Seq<char>>>,
}

pub open spec fn hosts_model(v: Option<Vec<String>>) -> Option<Seq<Seq<char>>> {
    match v {
        Some(v) => Some(text::texts(v@)),
        None => None,
    }
}

pub open spec fn meta_model(m: Meta) -> MetaModel {
    MetaModel {
        kind: m.kind,
        include_hosts: hosts_model(m.include_hosts),
        exclude_hosts: hosts_model(m.exclude_hosts),
    }
}

/// A key that a block may have.
pub open spec fn is_meta_key(t: Tree) -> bool {
    let key = value::untagged(t);
    key == Tree::Text("kind"@) || key == Tree::Text("include"@) || key == Tree::Text("exclude"@)
}

/// The first key, from `i` on, that a block may not have; the number of keys where there is none. A
/// misspelt key must not make a document reach every host.
pub open spec fn unknown_key(entries: Seq<(Tree, Tree)>, i: int) -> int
    decreases entries.len() - i,
{
    if i >= entries.len() {
        entries.len() as int
    } else if !is_meta_key(entries[i].0) {
        i
    } else {
        unknown_key(entries, i + 1)
    }
}

/// The key at `i` stands ahead of that too, tags aside.
pub open spec fn is_repeated(entries: Seq<(Tree, Tree)>, i: int) -> bool {
    exists|k: int|
        0 <= k < i && value::untagged((#[trigger] entries[k]).0) == value::untagged(entries[i].0)
}

/// The first key, from `i` on, that repeats another; the number of keys where there is none.
pub open spec fn repeated_key(entries: Seq<(Tree, Tree)>, i: int) -> int
    decreases entries.len() - i,
{
    if i >= entries.len() {
        entries.len() as int
    } else if is_repeated(entries, i) {
        i
    } else {
        repeated_key(entries, i + 1)
    }
}

/// The position, from `i` on, of a key, tags aside; the number of keys where it is not there.
pub open spec fn meta_index(entries: Seq<(Tree, Tree)>, key: Seq<char>, i: int) -> int
    decreases entries.len() - i,
{
    if i >= entries.len() {
        entries.len() as int
    } else if value::untagged(entries[i].0) == Tree::Text(key) {
        i
    } else {
        meta_index(entries, key, i + 1)
    }
}

/// What a block holds for a key.
pub open spec fn meta_field(entries: Seq<(Tree, Tree)>, key: Seq<char>) -> Option<Tree> {
    let i = meta_index(entries, key, 0);
    if i < entries.len() {
        Some(entries[i].1)
    } else {
        None
    }
}

/// The name of a kind: a string, or the name of a tag on nothing.
pub open spec fn stated_kind(t: Option<Tree>) -> Option<Seq<char>> {
    match t {
        Some(Tree::Text(s)) => Some(s),
        Some(Tree::Tagged(tag, inner)) => if *inner is Null {
            Some(tag)
        } else {
            None
        },
        _ => None,
    }
}

/// What a block says, or why it is not a valid one.
pub open spec fn meta_of(t: Tree) -> Result<MetaModel, MetaError> {
    let entries = value::entries_of(t);
    if !(value::untagged(t) is Mapping) {
        Err(MetaError::NotAMapping)
    } else if unknown_key(entries, 0) < entries.len() {
        Err(MetaError::UnknownKey(unknown_key(entries, 0) as usize))
    } else if repeated_key(entries, 0) < entries.len() {
        Err(MetaError::RepeatedKey(repeated_key(entries, 0) as usize))
    } else {
        match stated_kind(meta_field(entries, "kind"@)) {
            Some(k) => match kind_named(k) {
                None => Err(MetaError::UnknownKind),
                Some(kind) => match (
                    host_list(meta_field(entries, "include"@)),
                    host_list(meta_field(entries, "exclude"@)),
                ) {
                    (Some(inc), Some(exc)) => Ok(
                        MetaModel { kind, include_hosts: inc, exclude_hosts: exc },
                    ),
                    _ => Err(MetaError::BadHosts),
                },
            },
            None => Err(MetaError::NoKind),
        }
    }
}

fn read_list(items: &Vec<Value>) -> (r: Option<Vec<String>>)
    ensures
        match r {
            Some(v) => text_list(value::trees(items@)) == Some(text::texts(v@)),
            None => text_list(value::trees(items@)) is None,
        },
{
    let ghost t = value::trees(items@);
    let mut out: Vec<String> = Vec::new();
    let mut i: usize = 0;
    assert(t.take(0) =~= Seq::empty());
    assert(text::texts(out@) =~= Seq::empty());
    while i < items.len()
        invariant
            i <= items@.len(),
            t == value::trees(items@),
            text_list(t.take(i as int)) == Some(text::texts(out@)),
        decreases items@.len() - i,
    {
        assert(t.take(i + 1).drop_last() =~= t.take(i as int));
        assert(t.take(i + 1).last() == value::tree(items@[i as int]));
        let ghost prev = text::texts(out@);
        proof {
            value::lemma_untagged(items@[i as int]);
        }
        match value::untag(&items[i]) {
            Value::Text(s) => {
                out.push(s.clone());
                assert(text::texts(out@) =~= prev.push(s@));
            },
            _ => {
                proof {
                    value::lemma_tree(value::bare(items@[i as int]));
                    assert(text_list(t.take(i + 1)) is None);
                    lemma_text_list_none(t, i + 1);
                }
                return None;
            },
        }
        i += 1;
    }
    assert(t.take(i as int) =~= t);
    Some(out)
}

proof fn lemma_text_list_none(t: Seq<Tree>, n: int)
    requires
        0 <= n <= t.len(),
        text_list(t.take(n)) is None,
    ensures
        text_list(t) is None,
    decreases t.len() - n,
{
    if n < t.len() {
        assert(t.take(n + 1).drop_last() =~= t.take(n));
        lemma_text_list_none(t, n + 1);
    } else {
        assert(t.take(n) =~= t);
    }
}

fn read_hosts(v: Option<&Value>) -> (r: Option<Option<Vec<String>>>)
    ensures
        match r {
            Some(h) => host_list(
                match v {
                    Some(v) => Some(value::tree(*v)),
                    None => None,
                },
            ) == Some(hosts_model(h)),
            None => host_list(
                match v {
                    Some(v) => Some(value::tree(*v)),
                    None => None,
                },
            ) is None,
        },
{
    match v {
        None => Some(None),
        Some(v) => {
            proof {
                value::lemma_untagged(*v);
                value::lemma_tree(value::bare(*v));
            }
            if let Value::Null = v {
                return Some(None);
            }
            match value::untag(v) {
                Value::Null => {
                    let none: Vec<String> = Vec::new();
                    assert(text::texts(none@) =~= Seq::empty());
                    Some(Some(none))
                },
                Value::Sequence(items) => match read_list(items) {
                    Some(h) => Some(Some(h)),
                    None => None,
                },
                _ => None,
            }
        },
    }
}

fn find_unknown_key(entries: &Vec<(Value, Value)>) -> (r: usize)
    ensures
        r == unknown_key(value::pairs(entries@), 0),
        r <= entries@.len(),
{
    let ghost p = value::pairs(entries@);
    let mut i: usize = 0;
    while i < entries.len()
        invariant
            i <= entries@.len(),
            p == value::pairs(entries@),
            unknown_key(p, 0) == unknown_key(p, i as int),
        decreases entries@.len() - i,
    {
        assert(p[i as int].0 == value::tree(entries@[i as int].0));
        proof {
            value::lemma_untagged(entries@[i as int].0);
            value::lemma_tree(value::bare(entries@[i as int].0));
        }
        let known = match value::untag(&entries[i].0) {
            Value::Text(s) => text::str_eq(s.as_str(), "kind") || text::str_eq(
                s.as_str(),
                "include",
            ) || text::str_eq(s.as_str(), "exclude"),
            _ => false,
        };
        if !known {
            return i;
        }
        i += 1;
    }
    i
}

fn find_meta(entries: &Vec<(Value, Value)>, key: &str, from: usize) -> (r: usize)
    requires
        from <= entries@.len(),
    ensures
        r == meta_index(value::pairs(entries@), key@, from as int),
        from <= r <= entries@.len(),
{
    let ghost p = value::pairs(entries@);
    let mut i: usize = from;
    while i < entries.len()
        invariant
            from <= i <= entries@.len(),
            p == value::pairs(entries@),
            meta_index(p, key@, from as int) == meta_index(p, key@, i as int),
        decreases entries@.len() - i,
    {
        assert(p[i as int].0 == value::tree(entries@[i as int].0));
        proof {
            value::lemma_untagged(entries@[i as int].0);
            value::lemma_tree(value::bare(entries@[i as int].0));
        }
        if let Value::Text(s) = value::untag(&entries[i].0) {
            if text::str_eq(s.as_str(), key) {
                return i;
            }
        }
        i += 1;
    }
    i
}

fn repeats(entries: &Vec<(Value, Value)>, i: usize) -> (r: bool)
    requires
        i < entries@.len(),
    ensures
        r == is_repeated(value::pairs(entries@), i as int),
{
    let ghost p = value::pairs(entries@);
    let mut k: usize = 0;
    while k < i
        invariant
            k <= i < entries@.len(),
            p == value::pairs(entries@),
            forall|j: int|
                0 <= j < k ==> value::untagged((#[trigger] p[j]).0) != value::untagged(
                    p[i as int].0,
                ),
        decreases i - k,
    {
        assert(p[i as int].0 == value::tree(entries@[i as int].0));
        assert(p[k as int].0 == value::tree(entries@[k as int].0));
        proof {
            value::lemma_untagged(entries@[i as int].0);
            value::lemma_untagged(entries@[k as int].0);
        }
        if value::same(value::untag(&entries[k].0), value::untag(&entries[i].0)) {
            return true;
        }
        k += 1;
    }
    false
}

fn find_repeated_key(entries: &Vec<(Value, Value)>) -> (r: usize)
    ensures
        r == repeated_key(value::pairs(entries@), 0),
        r <= entries@.len(),
{
    let ghost p = value::pairs(entries@);
    let mut i: usize = 0;
    while i < entries.len()
        invariant
            i <= entries@.len(),
            p == value::pairs(entries@),
            repeated_key(p, 0) == repeated_key(p, i as int),
        decreases entries@.len() - i,
    {
        if repeats(entries, i) {
            return i;
        }
        i += 1;
    }
    i
}

fn get_meta<'a>(entries: &'a Vec<(Value, Value)>, key: &str) -> (r: Option<&'a Value>)
    ensures
        meta_field(value::pairs(entries@), key@) == (match r {
            Some(v) => Some(value::tree(*v)),
            None => None,
        }),
{
    let i: usize = find_meta(entries, key, 0);
    if i < entries.len() {
        Some(&entries[i].1)
    } else {
        None
    }
}

fn find_stated_kind<'a>(v: Option<&'a Value>) -> (r: Option<&'a str>)
    ensures
        stated_kind(
            match v {
                Some(v) => Some(value::tree(*v)),
                None => None,
            },
        ) == (match r {
            Some(s) => Some(s@),
            None => None,
        }),
{
    match v {
        Some(Value::Text(s)) => Some(s.as_str()),
        Some(Value::Tagged(tag, inner)) => {
            proof {
                value::lemma_tree(**inner);
            }
            match &**inner {
                Value::Null => Some(tag.as_str()),
                _ => None,
            }
        },
        Some(other) => {
            proof {
                value::lemma_tree(*other);
            }
            None
        },
        None => None,
    }
}

/// Reads a document's block.
pub fn read_meta(v: &Value) -> (r: Result<Meta, MetaError>)
    ensures
        match r {
            Ok(m) => meta_of(value::tree(*v)) == Ok::<MetaModel, MetaError>(meta_model(m)),
            Err(e) => meta_of(value::tree(*v)) == Err::<MetaModel, MetaError>(e),
        },
{
    proof {
        value::lemma_untagged(*v);
        value::lemma_tree(value::bare(*v));
    }
    let entries = match value::untag(v) {
        Value::Mapping(entries) => entries,
        _ => {
            return Err(MetaError::NotAMapping);
        },
    };
    let unknown: usize = find_unknown_key(entries);
    if unknown < entries.len() {
        return Err(MetaError::UnknownKey(unknown));
    }
    let repeated: usize = find_repeated_key(entries);
    if repeated < entries.len() {
        return Err(MetaError::RepeatedKey(repeated));
    }
    let kind = match find_stated_kind(get_meta(entries, "kind")) {
        Some(s) => match find_kind(s) {
            Some(k) => k,
            None => {
                return Err(MetaError::UnknownKind);
            },
        },
        None => {
            return Err(MetaError::NoKind);
        },
    };
    match (read_hosts(get_meta(entries, "include")), read_hosts(get_meta(entries, "exclude"))) {
        (Some(include_hosts), Some(exclude_hosts)) => Ok(
            Meta { kind, include_hosts, exclude_hosts },
        ),
        _ => Err(MetaError::BadHosts),
    }
}

/// One document of the file.
#[derive(Debug, PartialEq)]
pub struct Document {
    /// Its position among the documents of the file, those of only comments included.
    pub index: usize,
    /// The bytes of the file that it takes up.
    pub span: Range<usize>,
    /// The line of the file that it starts at.
    pub line: usize,
    pub meta: Meta,
    /// What it says, without its block.
    pub value: Value,
    /// Its text with its block blanked out, behind as many empty lines as come before it in the
    /// file: an error found in this names the line of the file.
    pub positioned: String,
}

/// A text with nothing in it but comments.
pub open spec fn says_nothing(s: Seq<char>) -> bool {
    let v = text::lines(s);
    forall|i: int|
        0 <= i < v.len() ==> text::trimmed(#[trigger] v[i]).len() == 0 || text::trimmed(v[i])[0]
            == '#'
}

fn is_silent(s: &str) -> (r: bool)
    ensures
        r == says_nothing(s@),
{
    let v = text::chars_of(s);
    let lines = text::lines_of(v.as_slice());
    let ghost t = text::lines(s@);
    let mut i: usize = 0;
    while i < lines.len()
        invariant
            i <= lines@.len(),
            text::pieces(lines@) == t,
            t == text::lines(s@),
            forall|k: int|
                0 <= k < i ==> text::trimmed(#[trigger] t[k]).len() == 0 || text::trimmed(t[k])[0]
                    == '#',
        decreases lines@.len() - i,
    {
        assert(t[i as int] == lines@[i as int]@);
        let line = text::trim_chars(lines[i].as_slice());
        if line.len() > 0 && line[0] != '#' {
            return false;
        }
        i += 1;
    }
    true
}

/// `n` line breaks.
pub open spec fn line_breaks(n: nat) -> Seq<char> {
    Seq::new(n, |i: int| '\n')
}

/// The line of the file that a document starts at.
pub open spec fn line_of(raw: Seq<char>, start: int) -> int {
    document::breaks(offset::part(raw, 0, start)) as int + 1
}

/// What a document says; nothing where it has no valid block.
pub open spec fn document_error(raw: Seq<char>, span: (int, int)) -> Option<FileError> {
    let line = line_of(raw, span.0) as usize;
    let body = offset::part(raw, span.0, span.1);
    match yaml::yaml_tree(body) {
        None => Some(FileError::DocumentNotYaml(line)),
        Some(t) => match value::field(t, document::META_KEY@) {
            None => Some(FileError::NoMeta(line)),
            Some(block) => match meta_of(block) {
                Err(e) => Some(FileError::BadMeta(line, e)),
                Ok(_) => if document::key_block(body, document::META_KEY@) is Err {
                    Some(FileError::DocumentNotYaml(line))
                } else {
                    None
                },
            },
        },
    }
}

/// A document as it stands in the file.
pub open spec fn is_document(raw: Seq<char>, span: (int, int), d: Document) -> bool {
    let body = offset::part(raw, span.0, span.1);
    let t = yaml::yaml_tree(body)->0;
    &&& (d.span.start as int, d.span.end as int) == span
    &&& d.line == line_of(raw, span.0)
    &&& meta_of(value::field(t, document::META_KEY@)->0) == Ok::<MetaModel, MetaError>(
        meta_model(d.meta),
    )
    &&& value::tree(d.value) == value::retagged(
        t,
        Tree::Mapping(merge::removed(value::entries_of(t), Tree::Text(document::META_KEY@))),
    )
    &&& d.positioned@ == line_breaks((d.line - 1) as nat) + document::blanked(
        body,
        document::key_block(body, document::META_KEY@)->Ok_0,
    )
}

fn count_breaks(s: &str) -> (r: usize)
    ensures
        r == document::breaks(s@),
        r <= s@.len(),
{
    let v = text::chars_of(s);
    let mut n: usize = 0;
    let mut i: usize = 0;
    assert(v@.take(0) =~= Seq::empty());
    while i < v.len()
        invariant
            i <= v@.len(),
            n <= i,
            n == document::breaks(v@.take(i as int)),
        decreases v@.len() - i,
    {
        assert(v@.take(i + 1).drop_last() =~= v@.take(i as int));
        if v[i] == '\n' {
            n += 1;
        }
        i += 1;
    }
    assert(v@.take(i as int) =~= v@);
    n
}

fn break_lines(n: usize) -> (r: String)
    ensures
        r@ == line_breaks(n as nat),
{
    let mut r = String::new();
    let mut i: usize = 0;
    assert(r@ =~= line_breaks(0));
    while i < n
        invariant
            i <= n,
            r@ == line_breaks(i as nat),
        decreases n - i,
    {
        r.push('\n');
        assert(r@ =~= line_breaks((i + 1) as nat));
        i += 1;
    }
    r
}

impl Document {
    /// Reads the document at a range of the file.
    pub fn read(raw: &str, index: usize, span: Range<usize>) -> (r: Result<Document, FileError>)
        requires
            raw@.len() < usize::MAX,
            offset::is_boundary(raw@, span.start as int),
            offset::is_boundary(raw@, span.end as int),
            span.start <= span.end,
        ensures
            match r {
                Ok(d) => document_error(raw@, (span.start as int, span.end as int)) is None
                    && is_document(raw@, (span.start as int, span.end as int), d) && d.index
                    == index,
                Err(e) => document_error(raw@, (span.start as int, span.end as int)) == Some(e),
            },
    {
        let v = text::chars_of(raw);
        proof {
            offset::lemma_ends(raw@);
        }
        let head = document::cut_bytes(&v, 0, span.start);
        let before: usize = count_breaks(head.as_str());
        let line: usize = before + 1;
        let body = document::cut_bytes(&v, span.start, span.end);
        let parsed = match yaml::parse(body.as_str()) {
            Some(x) => x,
            None => {
                return Err(FileError::DocumentNotYaml(line));
            },
        };
        proof {
            value::lemma_field(parsed, document::META_KEY@);
            value::lemma_tree(parsed);
        }
        let meta = match value::get(&parsed, document::META_KEY) {
            None => {
                return Err(FileError::NoMeta(line));
            },
            Some(block) => match read_meta(block) {
                Ok(m) => m,
                Err(e) => {
                    return Err(FileError::BadMeta(line, e));
                },
            },
        };
        let blanked = match document::blank_key(body.as_str(), document::META_KEY) {
            Ok(s) => s,
            Err(_) => {
                return Err(FileError::DocumentNotYaml(line));
            },
        };
        let mut entries = value::copy_entries(&parsed);
        let key = Value::Text(document::META_KEY.to_owned());
        merge::remove_entry(&mut entries, &key);
        let inner = Value::Mapping(entries);
        proof {
            value::lemma_tree(inner);
        }
        let rest = value::retag(&parsed, inner);
        let mut positioned = break_lines(before);
        positioned.push_str(blanked.as_str());
        Ok(Document { index, span, line, meta, value: rest, positioned })
    }

    /// How a message names the document.
    pub fn at(&self) -> (r: String)
        ensures
            r@ == "the `kind: "@ + kind_name(self.meta.kind) + "` document at line "@
                + text::decimal(self.line as int),
    {
        let mut r = text::join3("the `kind: ", self.meta.kind.name(), "` document at line ");
        text::push_decimal(&mut r, self.line as u64);
        r
    }
}

/// The documents of the file, among the first `n` that have anything in them, that say anything.
pub open spec fn speaking(raw: Seq<char>, n: int) -> Seq<int>
    decreases n,
{
    let c = document::cuts(raw)->0;
    if n <= 0 {
        Seq::empty()
    } else {
        let at = document::filled(raw, c, c.starts.len() as int)[n - 1];
        if says_nothing(document::document_text(raw, c, at)) {
            speaking(raw, n - 1)
        } else {
            speaking(raw, n - 1).push(at)
        }
    }
}

/// The positions of the documents that say anything.
pub open spec fn all_speaking(raw: Seq<char>) -> Seq<int> {
    let c = document::cuts(raw)->0;
    speaking(raw, document::filled(raw, c, c.starts.len() as int).len() as int)
}

/// The bytes of the document at a position.
pub open spec fn span_at(raw: Seq<char>, i: int) -> (int, int) {
    document::span(raw, document::cuts(raw)->0.starts, i)
}

/// The first reason why one of the documents from `k` on cannot be read.
pub open spec fn documents_error(raw: Seq<char>, at: Seq<int>, k: int) -> Option<FileError>
    decreases at.len() - k,
{
    if k >= at.len() {
        None
    } else if document_error(raw, span_at(raw, at[k])) is Some {
        document_error(raw, span_at(raw, at[k]))
    } else {
        documents_error(raw, at, k + 1)
    }
}

/// Why a file cannot be taken apart into documents.
pub open spec fn parse_error(raw: Seq<char>) -> Option<FileError> {
    if document::cuts(raw) is None {
        Some(FileError::NotYaml)
    } else {
        documents_error(raw, all_speaking(raw), 0)
    }
}

/// The documents of a file that say anything, in order.
pub open spec fn are_documents(raw: Seq<char>, v: Seq<Document>) -> bool {
    let at = all_speaking(raw);
    &&& v.len() == at.len()
    &&& forall|k: int|
        0 <= k < v.len() ==> is_document(raw, span_at(raw, at[k]), #[trigger] v[k]) && v[k].index
            == at[k]
}

proof fn lemma_filled_range(raw: Seq<char>, c: document::CutsModel, n: int, k: int)
    requires
        0 <= n,
        0 <= k < document::filled(raw, c, n).len(),
    ensures
        0 <= document::filled(raw, c, n)[k] < n,
    decreases n,
{
    if n > 0 {
        let rest = document::filled(raw, c, n - 1);
        if k < rest.len() {
            lemma_filled_range(raw, c, n - 1, k);
        }
    }
}

/// A position among the documents is one of a cut that tiles the file.
proof fn lemma_span(raw: Seq<char>, k: int)
    requires
        document::cuts(raw) is Some,
        0 <= k < document::filled(
            raw,
            document::cuts(raw)->0,
            document::cuts(raw)->0.starts.len() as int,
        ).len(),
    ensures
        ({
            let c = document::cuts(raw)->0;
            let s = span_at(raw, document::filled(raw, c, c.starts.len() as int)[k]);
            s.0 <= s.1 && offset::is_boundary(raw, s.0) && offset::is_boundary(raw, s.1)
        }),
{
    let c = document::cuts(raw)->0;
    lemma_filled_range(raw, c, c.starts.len() as int, k);
    document::documents_tile_the_file(raw);
    let i = document::filled(raw, c, c.starts.len() as int)[k];
    assert(document::spans_of(raw, c.starts)[i] == span_at(raw, i));
}

/// Reads the documents of the file, each with what it is for. A document of only comments is none.
pub fn read_documents(raw: &str) -> (r: Result<Vec<Document>, FileError>)
    requires
        raw@.len() < usize::MAX,
    ensures
        match r {
            Ok(v) => parse_error(raw@) is None && are_documents(raw@, v@),
            Err(e) => parse_error(raw@) == Some(e),
        },
{
    let found = match document::indexed_documents(raw) {
        Ok(v) => v,
        Err(_) => {
            return Err(FileError::NotYaml);
        },
    };
    let ghost c = document::cuts(raw@)->0;
    let ghost at = document::filled(raw@, c, c.starts.len() as int);
    let ghost all = all_speaking(raw@);
    let mut out: Vec<Document> = Vec::new();
    let mut i: usize = 0;
    while i < found.len()
        invariant
            raw@.len() < usize::MAX,
            document::cuts(raw@) is Some,
            c == document::cuts(raw@)->0,
            at == document::filled(raw@, c, c.starts.len() as int),
            document::are_indexed(raw@, c, c.starts.len() as int, found@),
            i <= found@.len(),
            out@.len() == speaking(raw@, i as int).len(),
            forall|k: int|
                0 <= k < out@.len() ==> is_document(
                    raw@,
                    span_at(raw@, speaking(raw@, i as int)[k]),
                    #[trigger] out@[k],
                ) && out@[k].index == speaking(raw@, i as int)[k],
            forall|k: int|
                0 <= k < out@.len() ==> document_error(
                    raw@,
                    span_at(raw@, #[trigger] speaking(raw@, i as int)[k]),
                ) is None,
        decreases found@.len() - i,
    {
        let ghost pos = at[i as int];
        let ghost s = span_at(raw@, pos);
        let ghost before = speaking(raw@, i as int);
        proof {
            lemma_span(raw@, i as int);
        }
        assert(found@[i as int].2@ == document::document_text(raw@, c, pos));
        if !is_silent(found[i].2.as_str()) {
            let range = Range { start: found[i].1.start, end: found[i].1.end };
            assert((range.start as int, range.end as int) == s);
            match Document::read(raw, found[i].0, range) {
                Ok(d) => {
                    let ghost prev = out@;
                    out.push(d);
                    assert forall|k: int| 0 <= k < out@.len() implies is_document(
                        raw@,
                        span_at(raw@, speaking(raw@, i + 1)[k]),
                        #[trigger] out@[k],
                    ) && out@[k].index == speaking(raw@, i + 1)[k] by {
                        if k < prev.len() {
                            assert(out@[k] == prev[k]);
                        }
                    }
                    assert forall|k: int| 0 <= k < out@.len() implies document_error(
                        raw@,
                        span_at(raw@, #[trigger] speaking(raw@, i + 1)[k]),
                    ) is None by {
                        if k < prev.len() {
                            assert(speaking(raw@, i + 1)[k] == before[k]);
                        }
                    }
                },
                Err(e) => {
                    proof {
                        lemma_first_error(raw@, i as int, e);
                    }
                    return Err(e);
                },
            }
        }
        i += 1;
    }
    proof {
        lemma_no_error(raw@, all, 0);
    }
    Ok(out)
}

proof fn lemma_no_error(raw: Seq<char>, at: Seq<int>, k: int)
    requires
        0 <= k <= at.len(),
        forall|j: int| 0 <= j < at.len() ==> document_error(
            raw,
            span_at(raw, #[trigger] at[j]),
        ) is None,
    ensures
        documents_error(raw, at, k) is None,
    decreases at.len() - k,
{
    if k < at.len() {
        assert(document_error(raw, span_at(raw, at[k])) is None);
        lemma_no_error(raw, at, k + 1);
    }
}

proof fn lemma_speaking_grows(raw: Seq<char>, n: int, m: int)
    requires
        0 <= n <= m,
    ensures
        speaking(raw, n).len() <= speaking(raw, m).len(),
        speaking(raw, m).take(speaking(raw, n).len() as int) == speaking(raw, n),
    decreases m - n,
{
    if n < m {
        lemma_speaking_grows(raw, n, m - 1);
        let a = speaking(raw, m - 1);
        let b = speaking(raw, m);
        let k = speaking(raw, n).len() as int;
        assert(b.take(k) =~= a.take(k));
    } else {
        assert(speaking(raw, m).take(speaking(raw, n).len() as int) =~= speaking(raw, n));
    }
}

/// The first document that cannot be read is the one that is reported.
proof fn lemma_first_error(raw: Seq<char>, i: int, e: FileError)
    requires
        document::cuts(raw) is Some,
        0 <= i < document::filled(
            raw,
            document::cuts(raw)->0,
            document::cuts(raw)->0.starts.len() as int,
        ).len(),
        speaking(raw, i + 1).len() == speaking(raw, i).len() + 1,
        document_error(raw, span_at(raw, speaking(raw, i + 1).last())) == Some(e),
        forall|k: int|
            0 <= k < speaking(raw, i).len() ==> document_error(
                raw,
                span_at(raw, #[trigger] speaking(raw, i)[k]),
            ) is None,
    ensures
        parse_error(raw) == Some(e),
{
    let c = document::cuts(raw)->0;
    let n = document::filled(raw, c, c.starts.len() as int).len() as int;
    let all = all_speaking(raw);
    lemma_speaking_grows(raw, i + 1, n);
    lemma_speaking_grows(raw, i, i + 1);
    let m = speaking(raw, i).len() as int;
    assert(all[m] == all.take(m + 1)[m]);
    assert forall|k: int| 0 <= k < m implies document_error(
        raw,
        span_at(raw, #[trigger] all[k]),
    ) is None by {
        assert(all[k] == all.take(m + 1)[k]);
        assert(speaking(raw, i + 1)[k] == speaking(raw, i + 1).take(m)[k]);
        assert(speaking(raw, i)[k] == all[k]);
    }
    lemma_error_at(raw, all, 0, m, e);
}

proof fn lemma_error_at(raw: Seq<char>, at: Seq<int>, k: int, m: int, e: FileError)
    requires
        0 <= k <= m < at.len(),
        document_error(raw, span_at(raw, at[m])) == Some(e),
        forall|j: int| 0 <= j < m ==> document_error(raw, span_at(raw, #[trigger] at[j])) is None,
    ensures
        documents_error(raw, at, k) == Some(e),
    decreases m - k,
{
    if k < m {
        assert(document_error(raw, span_at(raw, at[k])) is None);
        lemma_error_at(raw, at, k + 1, m, e);
    }
}

/// What the documents hold beside their blocks, by kind and in file order. `None` stands for one
/// that does not have the fields of its kind.
#[derive(Debug, PartialEq)]
pub struct Bodies {
    /// Of the first network document.
    pub network: Option<MeshConfig>,
    pub pools: Vec<Option<RoadwarriorPool>>,
    pub rulesets: Vec<Option<NftablesTopology>>,
}

/// The positions of the documents of a kind among the first `n`.
pub open spec fn of_kind(docs: Seq<Document>, kind: Kind, n: int) -> Seq<int>
    decreases n,
{
    if n <= 0 {
        Seq::empty()
    } else if docs[n - 1].meta.kind == kind {
        of_kind(docs, kind, n - 1).push(n - 1)
    } else {
        of_kind(docs, kind, n - 1)
    }
}

/// The positions of all documents of a kind.
pub open spec fn all_of(docs: Seq<Document>, kind: Kind) -> Seq<int> {
    of_kind(docs, kind, docs.len() as int)
}

/// There is a body for every pool and every ruleset.
pub open spec fn bodies_fit(docs: Seq<Document>, b: Bodies) -> bool {
    &&& b.pools@.len() == all_of(docs, Kind::Roadwarriors).len()
    &&& b.rulesets@.len() == all_of(docs, Kind::Nftables).len()
}

/// A document that is aimed at hosts.
pub open spec fn is_aimed(d: Document) -> bool {
    d.meta.include_hosts is Some || d.meta.exclude_hosts is Some
}

/// The first, from `k` on, of the documents at these positions that is aimed at hosts.
pub open spec fn aimed_error(docs: Seq<Document>, at: Seq<int>, k: int) -> Option<FileError>
    decreases at.len() - k,
{
    if k >= at.len() {
        None
    } else if is_aimed(docs[at[k]]) {
        Some(FileError::Aimed(docs[at[k]].line))
    } else {
        aimed_error(docs, at, k + 1)
    }
}

/// A section that belongs in a document of its own.
pub open spec fn section_error(d: Document) -> Option<FileError> {
    if value::field(value::tree(d.value), "roadwarriors"@) is Some {
        Some(FileError::Misplaced(d.line, Kind::Roadwarriors))
    } else if value::field(value::tree(d.value), "nftables"@) is Some {
        Some(FileError::Misplaced(d.line, Kind::Nftables))
    } else {
        None
    }
}

/// The hosts of a list; none where there is no list.
pub open spec fn hosts_in(hosts: Option<Vec<String>>) -> Seq<String> {
    match hosts {
        Some(v) => v@,
        None => Seq::empty(),
    }
}

/// The first host, from `i` on, that is not a node; the number of hosts where there is none.
pub open spec fn unknown_host(nodes: Seq<NodeEntry>, hosts: Seq<String>, i: int) -> int
    decreases hosts.len() - i,
{
    if i >= hosts.len() {
        hosts.len() as int
    } else if !mesh_config::known(nodes, hosts[i]@) {
        i
    } else {
        unknown_host(nodes, hosts, i + 1)
    }
}

/// What is wrong with where a document is aimed.
pub open spec fn aim_error(nodes: Seq<NodeEntry>, d: Document) -> Option<FileError> {
    let inc = hosts_in(d.meta.include_hosts);
    let exc = hosts_in(d.meta.exclude_hosts);
    if d.meta.include_hosts is Some && d.meta.include_hosts->0@.len() == 0 {
        Some(FileError::ReachesNoHost(d.line))
    } else if unknown_host(nodes, inc, 0) < inc.len() {
        Some(FileError::UnknownHost(d.line, Aim::Reached(unknown_host(nodes, inc, 0) as usize)))
    } else if unknown_host(nodes, exc, 0) < exc.len() {
        Some(FileError::UnknownHost(d.line, Aim::LeftOut(unknown_host(nodes, exc, 0) as usize)))
    } else {
        None
    }
}

/// The first thing wrong, from `k` on, with where the documents at these positions are aimed.
pub open spec fn aims_error(
    nodes: Seq<NodeEntry>,
    docs: Seq<Document>,
    at: Seq<int>,
    k: int,
) -> Option<FileError>
    decreases at.len() - k,
{
    if k >= at.len() {
        None
    } else if aim_error(nodes, docs[at[k]]) is Some {
        aim_error(nodes, docs[at[k]])
    } else {
        aims_error(nodes, docs, at, k + 1)
    }
}

/// The first, from `k` on, of the documents at these positions that lacks the fields of its kind.
pub open spec fn unreadable<T>(
    docs: Seq<Document>,
    at: Seq<int>,
    bodies: Seq<Option<T>>,
    k: int,
) -> Option<FileError>
    decreases at.len() - k,
{
    if k >= at.len() {
        None
    } else if bodies[k] is None {
        Some(FileError::Unreadable(docs[at[k]].line))
    } else {
        unreadable(docs, at, bodies, k + 1)
    }
}

/// A list has this host.
pub open spec fn lists(hosts: Option<Vec<String>>, host: Seq<char>) -> bool {
    match hosts {
        Some(v) => text::texts(v@).contains(host),
        None => false,
    }
}

/// A document reaches a host: it is listed, or there is no list, and it is not left out.
pub open spec fn reaches(d: Document, host: Seq<char>) -> bool {
    (d.meta.include_hosts is None || lists(d.meta.include_hosts, host)) && !lists(
        d.meta.exclude_hosts,
        host,
    )
}

/// Which of the first `n` documents at these positions reach a host.
pub open spec fn reaching(docs: Seq<Document>, at: Seq<int>, host: Seq<char>, n: int) -> Seq<int>
    decreases n,
{
    if n <= 0 {
        Seq::empty()
    } else if reaches(docs[at[n - 1]], host) {
        reaching(docs, at, host, n - 1).push(n - 1)
    } else {
        reaching(docs, at, host, n - 1)
    }
}

/// The first host, from `k` on, that more than one ruleset reaches.
pub open spec fn rulesets_error(
    nodes: Seq<NodeEntry>,
    docs: Seq<Document>,
    at: Seq<int>,
    k: int,
) -> Option<FileError>
    decreases nodes.len() - k,
{
    if k >= nodes.len() {
        None
    } else if reaching(docs, at, nodes[k].name@, at.len() as int).len() > 1 {
        Some(FileError::TwoRulesets(k as usize))
    } else {
        rulesets_error(nodes, docs, at, k + 1)
    }
}

/// What Talos keys a document by.
pub struct IdentityModel {
    pub api_version: Option<Seq<char>>,
    pub kind: Option<Seq<char>>,
    pub name: Option<Seq<char>>,
}

pub open spec fn identity_of(t: Tree) -> IdentityModel {
    IdentityModel {
        api_version: value::text_field(t, "apiVersion"@),
        kind: value::text_field(t, "kind"@),
        name: value::text_field(t, "name"@),
    }
}

/// What is wrong with a patch.
pub open spec fn patch_error(d: Document) -> Option<FileError> {
    let id = identity_of(value::tree(d.value));
    match (id.kind, id.name) {
        (None, _) => Some(FileError::NoIdentity(d.line)),
        (Some(kind), Some(name)) => if kind == "ExtensionServiceConfig"@ && segments::is_owned_name(
            name,
        ) {
            Some(FileError::Generated(d.line))
        } else {
            None
        },
        _ => None,
    }
}

/// The first thing wrong, from `k` on, with the patches at these positions.
pub open spec fn patches_error(docs: Seq<Document>, at: Seq<int>, k: int) -> Option<FileError>
    decreases at.len() - k,
{
    if k >= at.len() {
        None
    } else if patch_error(docs[at[k]]) is Some {
        patch_error(docs[at[k]])
    } else {
        patches_error(docs, at, k + 1)
    }
}

/// The topology: the network document with every pool, and no ruleset, which differs by host.
pub open spec fn is_topology(network: MeshConfig, pools: Seq<Option<RoadwarriorPool>>, t: MeshConfig) -> bool {
    &&& t.cluster == network.cluster
    &&& t.obfuscation == network.obfuscation
    &&& t.nodes == network.nodes
    &&& t.mesh == network.mesh
    &&& t.bypass == network.bypass
    &&& t.nftables is None
    &&& t.roadwarriors@.len() == pools.len()
    &&& forall|i: int| 0 <= i < pools.len() ==> pools[i] == Some(#[trigger] t.roadwarriors@[i])
}

/// What is wrong with a file before its topology is looked at as a whole.
pub open spec fn shape_error(docs: Seq<Document>, b: Bodies) -> Option<FileError> {
    let networks = all_of(docs, Kind::Network);
    let pools = all_of(docs, Kind::Roadwarriors);
    let rulesets = all_of(docs, Kind::Nftables);
    let patches = all_of(docs, Kind::Patch);
    if networks.len() != 1 {
        Some(FileError::NetworkCount(networks.len() as usize))
    } else {
        let network = docs[networks[0]];
        if is_aimed(network) {
            Some(FileError::Aimed(network.line))
        } else if aimed_error(docs, pools, 0) is Some {
            aimed_error(docs, pools, 0)
        } else if section_error(network) is Some {
            section_error(network)
        } else if b.network is None {
            Some(FileError::Unreadable(network.line))
        } else {
            let nodes = b.network->0.nodes@;
            if aims_error(nodes, docs, rulesets, 0) is Some {
                aims_error(nodes, docs, rulesets, 0)
            } else if aims_error(nodes, docs, patches, 0) is Some {
                aims_error(nodes, docs, patches, 0)
            } else if unreadable(docs, pools, b.pools@, 0) is Some {
                unreadable(docs, pools, b.pools@, 0)
            } else if unreadable(docs, rulesets, b.rulesets@, 0) is Some {
                unreadable(docs, rulesets, b.rulesets@, 0)
            } else if rulesets_error(nodes, docs, rulesets, 0) is Some {
                rulesets_error(nodes, docs, rulesets, 0)
            } else {
                patches_error(docs, patches, 0)
            }
        }
    }
}

fn positions(docs: &Vec<Document>, kind: Kind) -> (r: Vec<usize>)
    ensures
        document::ints(r@) == all_of(docs@, kind),
        forall|i: int| 0 <= i < r@.len() ==> (#[trigger] r@[i]) < docs@.len(),
{
    let mut r: Vec<usize> = Vec::new();
    let mut i: usize = 0;
    assert(document::ints(r@) =~= of_kind(docs@, kind, 0));
    while i < docs.len()
        invariant
            i <= docs@.len(),
            document::ints(r@) == of_kind(docs@, kind, i as int),
            forall|k: int| 0 <= k < r@.len() ==> (#[trigger] r@[k]) < i,
        decreases docs@.len() - i,
    {
        if docs[i].meta.kind == kind {
            let ghost prev = document::ints(r@);
            r.push(i);
            assert(document::ints(r@) =~= prev.push(i as int));
        }
        i += 1;
    }
    r
}

/// The positions are of documents.
pub open spec fn in_range(docs: Seq<Document>, at: Seq<usize>) -> bool {
    forall|i: int| 0 <= i < at.len() ==> (#[trigger] at[i]) < docs.len()
}

fn check_not_aimed(docs: &Vec<Document>, at: &Vec<usize>) -> (r: Option<FileError>)
    requires
        in_range(docs@, at@),
    ensures
        r == aimed_error(docs@, document::ints(at@), 0),
        r is Some ==> !(r->0 is Invalid),
{
    let ghost m = document::ints(at@);
    let mut k: usize = 0;
    while k < at.len()
        invariant
            k <= at@.len(),
            m == document::ints(at@),
            in_range(docs@, at@),
            aimed_error(docs@, m, 0) == aimed_error(docs@, m, k as int),
        decreases at@.len() - k,
    {
        assert(m[k as int] == at@[k as int]);
        let d = &docs[at[k]];
        if d.meta.include_hosts.is_some() || d.meta.exclude_hosts.is_some() {
            return Some(FileError::Aimed(d.line));
        }
        k += 1;
    }
    None
}

fn check_section(d: &Document) -> (r: Option<FileError>)
    ensures
        r == section_error(*d),
        r is Some ==> !(r->0 is Invalid),
{
    proof {
        value::lemma_field(d.value, "roadwarriors"@);
        value::lemma_field(d.value, "nftables"@);
    }
    if value::get(&d.value, "roadwarriors").is_some() {
        return Some(FileError::Misplaced(d.line, Kind::Roadwarriors));
    }
    if value::get(&d.value, "nftables").is_some() {
        return Some(FileError::Misplaced(d.line, Kind::Nftables));
    }
    None
}

fn find_unknown_host(nodes: &Vec<NodeEntry>, hosts: &Option<Vec<String>>) -> (r: Option<usize>)
    ensures
        r == (if unknown_host(nodes@, hosts_in(*hosts), 0) < hosts_in(*hosts).len() {
            Some(unknown_host(nodes@, hosts_in(*hosts), 0) as usize)
        } else {
            None
        }),
{
    match hosts {
        None => None,
        Some(v) => {
            let mut i: usize = 0;
            while i < v.len()
                invariant
                    i <= v@.len(),
                    hosts_in(*hosts) == v@,
                    unknown_host(nodes@, v@, 0) == unknown_host(nodes@, v@, i as int),
                decreases v@.len() - i,
            {
                if !mesh_config::is_known(nodes, v[i].as_str()) {
                    return Some(i);
                }
                i += 1;
            }
            None
        },
    }
}

fn check_aims(nodes: &Vec<NodeEntry>, docs: &Vec<Document>, at: &Vec<usize>) -> (r: Option<
    FileError,
>)
    requires
        in_range(docs@, at@),
    ensures
        r == aims_error(nodes@, docs@, document::ints(at@), 0),
        r is Some ==> !(r->0 is Invalid),
{
    let ghost m = document::ints(at@);
    let mut k: usize = 0;
    while k < at.len()
        invariant
            k <= at@.len(),
            m == document::ints(at@),
            in_range(docs@, at@),
            aims_error(nodes@, docs@, m, 0) == aims_error(nodes@, docs@, m, k as int),
        decreases at@.len() - k,
    {
        assert(m[k as int] == at@[k as int]);
        let d = &docs[at[k]];
        if let Some(v) = &d.meta.include_hosts {
            if v.len() == 0 {
                return Some(FileError::ReachesNoHost(d.line));
            }
        }
        if let Some(i) = find_unknown_host(nodes, &d.meta.include_hosts) {
            return Some(FileError::UnknownHost(d.line, Aim::Reached(i)));
        }
        if let Some(i) = find_unknown_host(nodes, &d.meta.exclude_hosts) {
            return Some(FileError::UnknownHost(d.line, Aim::LeftOut(i)));
        }
        k += 1;
    }
    None
}

fn check_readable<T>(docs: &Vec<Document>, at: &Vec<usize>, bodies: &Vec<Option<T>>) -> (r: Option<
    FileError,
>)
    requires
        in_range(docs@, at@),
        bodies@.len() == at@.len(),
    ensures
        r == unreadable(docs@, document::ints(at@), bodies@, 0),
        r is Some ==> !(r->0 is Invalid),
        r is None ==> forall|i: int| 0 <= i < bodies@.len() ==> #[trigger] bodies@[i] is Some,
{
    let ghost m = document::ints(at@);
    let mut k: usize = 0;
    while k < at.len()
        invariant
            k <= at@.len(),
            m == document::ints(at@),
            in_range(docs@, at@),
            bodies@.len() == at@.len(),
            forall|i: int| 0 <= i < k ==> #[trigger] bodies@[i] is Some,
            unreadable(docs@, m, bodies@, 0) == unreadable(docs@, m, bodies@, k as int),
        decreases at@.len() - k,
    {
        assert(m[k as int] == at@[k as int]);
        if bodies[k].is_none() {
            return Some(FileError::Unreadable(docs[at[k]].line));
        }
        k += 1;
    }
    None
}

impl Document {
    /// Whether the document reaches a host.
    pub fn reaches(&self, host: &str) -> (r: bool)
        ensures
            r == reaches(*self, host@),
    {
        let listed = match &self.meta.include_hosts {
            Some(v) => text::has_text(v, host),
            None => true,
        };
        let left_out = match &self.meta.exclude_hosts {
            Some(v) => text::has_text(v, host),
            None => false,
        };
        listed && !left_out
    }
}

fn find_reaching(docs: &Vec<Document>, at: &Vec<usize>, host: &str) -> (r: Vec<usize>)
    requires
        in_range(docs@, at@),
    ensures
        document::ints(r@) == reaching(docs@, document::ints(at@), host@, at@.len() as int),
        forall|i: int| 0 <= i < r@.len() ==> (#[trigger] r@[i]) < at@.len(),
{
    let ghost m = document::ints(at@);
    let mut r: Vec<usize> = Vec::new();
    let mut k: usize = 0;
    assert(document::ints(r@) =~= reaching(docs@, m, host@, 0));
    while k < at.len()
        invariant
            k <= at@.len(),
            m == document::ints(at@),
            in_range(docs@, at@),
            document::ints(r@) == reaching(docs@, m, host@, k as int),
            forall|i: int| 0 <= i < r@.len() ==> (#[trigger] r@[i]) < k,
        decreases at@.len() - k,
    {
        assert(m[k as int] == at@[k as int]);
        if docs[at[k]].reaches(host) {
            let ghost prev = document::ints(r@);
            r.push(k);
            assert(document::ints(r@) =~= prev.push(k as int));
        }
        k += 1;
    }
    r
}

fn check_rulesets(nodes: &Vec<NodeEntry>, docs: &Vec<Document>, at: &Vec<usize>) -> (r: Option<
    FileError,
>)
    requires
        in_range(docs@, at@),
    ensures
        r == rulesets_error(nodes@, docs@, document::ints(at@), 0),
        r is Some ==> !(r->0 is Invalid),
{
    let ghost m = document::ints(at@);
    let mut k: usize = 0;
    while k < nodes.len()
        invariant
            k <= nodes@.len(),
            m == document::ints(at@),
            in_range(docs@, at@),
            rulesets_error(nodes@, docs@, m, 0) == rulesets_error(nodes@, docs@, m, k as int),
        decreases nodes@.len() - k,
    {
        let v = find_reaching(docs, at, nodes[k].name.as_str());
        assert(document::ints(v@).len() == v@.len());
        if v.len() > 1 {
            return Some(FileError::TwoRulesets(k));
        }
        k += 1;
    }
    None
}

fn check_patches(docs: &Vec<Document>, at: &Vec<usize>) -> (r: Option<FileError>)
    requires
        in_range(docs@, at@),
    ensures
        r == patches_error(docs@, document::ints(at@), 0),
        r is Some ==> !(r->0 is Invalid),
{
    let ghost m = document::ints(at@);
    let mut k: usize = 0;
    while k < at.len()
        invariant
            k <= at@.len(),
            m == document::ints(at@),
            in_range(docs@, at@),
            patches_error(docs@, m, 0) == patches_error(docs@, m, k as int),
        decreases at@.len() - k,
    {
        assert(m[k as int] == at@[k as int]);
        let d = &docs[at[k]];
        match (value::get_text(&d.value, "kind"), value::get_text(&d.value, "name")) {
            (None, _) => {
                return Some(FileError::NoIdentity(d.line));
            },
            (Some(kind), Some(name)) => {
                if text::str_eq(kind.as_str(), "ExtensionServiceConfig")
                    && segments::has_owned_name(name.as_str()) {
                    return Some(FileError::Generated(d.line));
                }
            },
            _ => {},
        }
        k += 1;
    }
    None
}

/// The file, read and found in order.
#[derive(Debug, PartialEq)]
pub struct SlipmeshFile {
    pub documents: Vec<Document>,
    /// Positions among the documents.
    pub network: usize,
    pub pools: Vec<usize>,
    pub rulesets: Vec<usize>,
    pub patches: Vec<usize>,
    /// What the rulesets hold, in the same order.
    pub ruleset_texts: Vec<NftablesTopology>,
    pub topology: MeshConfig,
}

/// What a file holds once it has been read.
pub open spec fn is_file(docs: Seq<Document>, b: Bodies, f: SlipmeshFile) -> bool {
    &&& f.documents@ == docs
    &&& f.network == all_of(docs, Kind::Network)[0]
    &&& document::ints(f.pools@) == all_of(docs, Kind::Roadwarriors)
    &&& document::ints(f.rulesets@) == all_of(docs, Kind::Nftables)
    &&& document::ints(f.patches@) == all_of(docs, Kind::Patch)
    &&& f.ruleset_texts@.len() == b.rulesets@.len()
    &&& forall|i: int|
        0 <= i < b.rulesets@.len() ==> b.rulesets@[i] == Some(#[trigger] f.ruleset_texts@[i])
    &&& is_topology(b.network->0, b.pools@, f.topology)
}

/// The file is in order.
pub open spec fn file_wf(f: SlipmeshFile) -> bool {
    &&& f.network < f.documents@.len()
    &&& in_range(f.documents@, f.pools@)
    &&& in_range(f.documents@, f.rulesets@)
    &&& in_range(f.documents@, f.patches@)
    &&& f.ruleset_texts@.len() == f.rulesets@.len()
    &&& mesh_config::mesh_error(f.topology) is None
}

fn take_all<T>(v: Vec<Option<T>>) -> (r: Vec<T>)
    requires
        forall|i: int| 0 <= i < v@.len() ==> #[trigger] v@[i] is Some,
    ensures
        r@.len() == v@.len(),
        forall|i: int| 0 <= i < v@.len() ==> v@[i] == Some(#[trigger] r@[i]),
{
    let ghost all = v@;
    let mut rest = v;
    let mut r: Vec<T> = Vec::new();
    while rest.len() > 0
        invariant
            r@.len() + rest@.len() == all.len(),
            forall|i: int| 0 <= i < rest@.len() ==> rest@[i] == all[r@.len() + i],
            forall|i: int| 0 <= i < all.len() ==> #[trigger] all[i] is Some,
            forall|i: int| 0 <= i < r@.len() ==> all[i] == Some(#[trigger] r@[i]),
        decreases rest@.len(),
    {
        let ghost n = r@.len() as int;
        assert(rest@[0] == all[n + 0]);
        if let Some(x) = rest.remove(0) {
            r.push(x);
        }
    }
    r
}

impl SlipmeshFile {
    /// Reads the documents of a file, each with what it is for.
    pub fn parse(raw: &str) -> (r: Result<Vec<Document>, FileError>)
        requires
            raw@.len() < usize::MAX,
        ensures
            match r {
                Ok(v) => parse_error(raw@) is None && are_documents(raw@, v@),
                Err(e) => parse_error(raw@) == Some(e),
            },
    {
        read_documents(raw)
    }

    /// Makes a file of its documents and what they hold: what each kind may not have is refused,
    /// and so is a topology that does not hold together.
    pub fn read(documents: Vec<Document>, bodies: Bodies) -> (r: Result<SlipmeshFile, FileError>)
        requires
            bodies_fit(documents@, bodies),
        ensures
            match r {
                Ok(f) => shape_error(documents@, bodies) is None && is_file(
                    documents@,
                    bodies,
                    f,
                ) && file_wf(f),
                Err(FileError::Invalid(e)) => shape_error(documents@, bodies) is None && exists|
                    t: MeshConfig,
                | #[trigger]
                    is_topology(bodies.network->0, bodies.pools@, t) && mesh_config::mesh_error(t)
                        == Some(e),
                Err(e) => shape_error(documents@, bodies) == Some(e),
            },
    {
        let networks = positions(&documents, Kind::Network);
        let pools = positions(&documents, Kind::Roadwarriors);
        let rulesets = positions(&documents, Kind::Nftables);
        let patches = positions(&documents, Kind::Patch);
        assert(document::ints(networks@).len() == networks@.len());
        assert(document::ints(pools@).len() == pools@.len());
        assert(document::ints(rulesets@).len() == rulesets@.len());
        if networks.len() != 1 {
            return Err(FileError::NetworkCount(networks.len()));
        }
        let at: usize = networks[0];
        assert(document::ints(networks@)[0] == at);
        let network = &documents[at];
        if network.meta.include_hosts.is_some() || network.meta.exclude_hosts.is_some() {
            return Err(FileError::Aimed(network.line));
        }
        if let Some(e) = check_not_aimed(&documents, &pools) {
            return Err(e);
        }
        if let Some(e) = check_section(network) {
            return Err(e);
        }
        let cfg = match bodies.network {
            Some(c) => c,
            None => {
                return Err(FileError::Unreadable(network.line));
            },
        };
        if let Some(e) = check_aims(&cfg.nodes, &documents, &rulesets) {
            return Err(e);
        }
        if let Some(e) = check_aims(&cfg.nodes, &documents, &patches) {
            return Err(e);
        }
        if let Some(e) = check_readable(&documents, &pools, &bodies.pools) {
            return Err(e);
        }
        if let Some(e) = check_readable(&documents, &rulesets, &bodies.rulesets) {
            return Err(e);
        }
        if let Some(e) = check_rulesets(&cfg.nodes, &documents, &rulesets) {
            return Err(e);
        }
        if let Some(e) = check_patches(&documents, &patches) {
            return Err(e);
        }
        let topology = MeshConfig {
            cluster: cfg.cluster,
            obfuscation: cfg.obfuscation,
            nodes: cfg.nodes,
            mesh: cfg.mesh,
            roadwarriors: take_all(bodies.pools),
            bypass: cfg.bypass,
            nftables: None,
        };
        assert(is_topology(bodies.network->0, bodies.pools@, topology));
        match mesh_config::validate(&topology) {
            Ok(_) => {},
            Err(e) => {
                return Err(FileError::Invalid(e));
            },
        }
        let f = SlipmeshFile {
            documents,
            network: at,
            pools,
            rulesets,
            patches,
            ruleset_texts: take_all(bodies.rulesets),
            topology,
        };
        Ok(f)
    }
}

/// One Talos document as it goes into one host's patch file. Its comments stay in the topology file.
#[derive(Debug, PartialEq)]
pub struct HostDocument {
    /// `kind`, and `/name` where the document has one.
    pub identity: String,
    pub text: String,
}

/// How a message names an identity.
pub open spec fn identity_text(id: IdentityModel) -> Seq<char> {
    let kind = match id.kind {
        Some(k) => k,
        None => Seq::empty(),
    };
    match id.name {
        Some(n) => kind + "/"@ + n,
        None => kind,
    }
}

/// A patch that reaches a host: whether it names the host, and what it says.
pub type Reached = (bool, Tree);

/// No patch ahead of this one has its identity.
pub open spec fn is_first(v: Seq<Reached>, k: int) -> bool {
    forall|j: int| 0 <= j < k ==> identity_of((#[trigger] v[j]).1) != identity_of(v[k].1)
}

/// Those of the first `n` patches that are the first of their identity.
pub open spec fn firsts(v: Seq<Reached>, n: int) -> Seq<int>
    decreases n,
{
    if n <= 0 {
        Seq::empty()
    } else if is_first(v, n - 1) {
        firsts(v, n - 1).push(n - 1)
    } else {
        firsts(v, n - 1)
    }
}

/// Those of the first `n` patches that have an identity and name the host, or do not.
pub open spec fn sources(v: Seq<Reached>, id: IdentityModel, aimed: bool, n: int) -> Seq<Tree>
    decreases n,
{
    if n <= 0 {
        Seq::empty()
    } else if v[n - 1].0 == aimed && identity_of(v[n - 1].1) == id {
        sources(v, id, aimed, n - 1).push(v[n - 1].1)
    } else {
        sources(v, id, aimed, n - 1)
    }
}

/// The patches of an identity in the order in which they are merged: defaults, then those that name
/// the host, so that the more specific one wins wherever it stands in the file.
pub open spec fn all_sources(v: Seq<Reached>, id: IdentityModel) -> Seq<Tree> {
    sources(v, id, false, v.len() as int) + sources(v, id, true, v.len() as int)
}

/// Documents merged, each over those ahead of it.
pub open spec fn merged_all(v: Seq<Tree>) -> Tree
    decreases v.len(),
{
    if v.len() == 0 {
        Tree::Null
    } else if v.len() == 1 {
        v[0]
    } else {
        merge::merged_document(merged_all(v.drop_last()), v.last())
    }
}

/// A file's contents, as text where they were given as YAML.
pub open spec fn content_text(item: Tree) -> Option<Tree> {
    match value::field(item, "content"@) {
        Some(c) => if value::untagged(c) is Mapping || value::untagged(c) is Sequence {
            match yaml::yaml_text(c) {
                Some(s) => Some(
                    value::retagged(
                        item,
                        Tree::Mapping(
                            merge::inserted(
                                value::entries_of(item),
                                Tree::Text("content"@),
                                Tree::Text(s),
                            ),
                        ),
                    ),
                ),
                None => None,
            }
        } else {
            Some(item)
        },
        None => Some(item),
    }
}

pub open spec fn content_texts(items: Seq<Tree>) -> Option<Seq<Tree>>
    decreases items.len(),
{
    if items.len() == 0 {
        Some(Seq::empty())
    } else {
        match (content_texts(items.drop_last()), content_text(items.last())) {
            (Some(v), Some(t)) => Some(v.push(t)),
            _ => None,
        }
    }
}

/// A document whose files' contents are text: Talos takes nothing else there.
pub open spec fn with_contents(t: Tree) -> Option<Tree> {
    match value::field(t, "configFiles"@) {
        None => Some(t),
        Some(files) => match value::untagged(files) {
            Tree::Sequence(items) => match content_texts(items) {
                Some(v) => Some(
                    value::retagged(
                        t,
                        Tree::Mapping(
                            merge::inserted(
                                value::entries_of(t),
                                Tree::Text("configFiles"@),
                                value::retagged(files, Tree::Sequence(v)),
                            ),
                        ),
                    ),
                ),
                None => None,
            },
            _ => Some(t),
        },
    }
}

/// A text without the line break that closes it: any more belong to a value.
pub open spec fn without_last_break(s: Seq<char>) -> Seq<char> {
    if s.len() > 0 && s.last() == '\n' {
        s.drop_last()
    } else {
        s
    }
}

/// A document as it is written.
pub open spec fn written(t: Tree) -> Option<Seq<char>> {
    match with_contents(t) {
        Some(t) => match yaml::yaml_text(t) {
            Some(s) => Some(without_last_break(s)),
            None => None,
        },
        None => None,
    }
}

/// What the patch at `k`, the first of its identity, becomes in a host's file.
pub open spec fn host_text(v: Seq<Reached>, k: int) -> Option<Seq<char>> {
    written(merged_all(all_sources(v, identity_of(v[k].1))))
}

/// The patches that reach a host, in file order.
pub open spec fn reached(docs: Seq<Document>, at: Seq<int>, host: Seq<char>) -> Seq<Reached> {
    let r = reaching(docs, at, host, at.len() as int);
    Seq::new(
        r.len(),
        |k: int|
            (docs[at[r[k]]].meta.include_hosts is Some, value::tree(docs[at[r[k]]].value)),
    )
}

/// The documents of a host's file: one for each identity, in the order in which identities first
/// appear.
pub open spec fn are_host_documents(v: Seq<Reached>, n: int, out: Seq<HostDocument>) -> bool {
    let at = firsts(v, n);
    &&& out.len() == at.len()
    &&& forall|i: int|
        0 <= i < out.len() ==> (#[trigger] out[i]).identity@ == identity_text(
            identity_of(v[at[i]].1),
        ) && host_text(v, at[i]) == Some(out[i].text@)
}

/// Every document of a host's file can be written.
pub open spec fn all_written(v: Seq<Reached>) -> bool {
    forall|k: int| 0 <= k < v.len() && #[trigger] is_first(v, k) ==> host_text(v, k) is Some
}

/// What Talos keys a document by.
struct Identity {
    api_version: Option<String>,
    kind: Option<String>,
    name: Option<String>,
}

spec fn identity_model(id: Identity) -> IdentityModel {
    IdentityModel {
        api_version: text::text_opt(id.api_version),
        kind: text::text_opt(id.kind),
        name: text::text_opt(id.name),
    }
}

fn copy_field(v: &Value, key: &str) -> (r: Option<String>)
    ensures
        text::text_opt(r) == value::text_field(value::tree(*v), key@),
{
    match value::get_text(v, key) {
        Some(s) => Some(s.clone()),
        None => None,
    }
}

fn find_identity(v: &Value) -> (r: Identity)
    ensures
        identity_model(r) == identity_of(value::tree(*v)),
{
    Identity {
        api_version: copy_field(v, "apiVersion"),
        kind: copy_field(v, "kind"),
        name: copy_field(v, "name"),
    }
}

fn same_identity(a: &Identity, b: &Identity) -> (r: bool)
    ensures
        r == (identity_model(*a) == identity_model(*b)),
{
    text::opt_eq(&a.api_version, &b.api_version) && text::opt_eq(&a.kind, &b.kind) && text::opt_eq(
        &a.name,
        &b.name,
    )
}

fn show_identity(id: &Identity) -> (r: String)
    ensures
        r@ == identity_text(identity_model(*id)),
{
    let mut r = String::new();
    if let Some(kind) = &id.kind {
        r.push_str(kind.as_str());
    }
    let ghost kind = r@;
    assert(kind =~= (match id.kind {
        Some(k) => k@,
        None => Seq::empty(),
    }));
    if let Some(name) = &id.name {
        r.push_str("/");
        r.push_str(name.as_str());
    }
    r
}

fn text_content(item: &Value) -> (r: Option<Value>)
    ensures
        match r {
            Some(v) => content_text(value::tree(*item)) == Some(value::tree(v)),
            None => content_text(value::tree(*item)) is None,
        },
{
    proof {
        value::lemma_field(*item, "content"@);
        value::lemma_tree(*item);
    }
    let content = match value::get(item, "content") {
        Some(c) => c,
        None => {
            return Some(value::copy(item));
        },
    };
    proof {
        value::lemma_untagged(*content);
        value::lemma_tree(value::bare(*content));
    }
    let structured = match value::untag(content) {
        Value::Mapping(_) => true,
        Value::Sequence(_) => true,
        _ => false,
    };
    if !structured {
        return Some(value::copy(item));
    }
    match yaml::format(content) {
        None => None,
        Some(s) => {
            let mut entries = value::copy_entries(item);
            let key = Value::Text("content".to_owned());
            merge::insert_entry(&mut entries, &key, Value::Text(s));
            let inner = Value::Mapping(entries);
            proof {
                value::lemma_tree(inner);
            }
            Some(value::retag(item, inner))
        },
    }
}

proof fn lemma_contents_none(t: Seq<Tree>, n: int)
    requires
        0 <= n <= t.len(),
        content_texts(t.take(n)) is None,
    ensures
        content_texts(t) is None,
    decreases t.len() - n,
{
    if n < t.len() {
        assert(t.take(n + 1).drop_last() =~= t.take(n));
        lemma_contents_none(t, n + 1);
    } else {
        assert(t.take(n) =~= t);
    }
}

fn text_contents(items: &Vec<Value>) -> (r: Option<Vec<Value>>)
    ensures
        match r {
            Some(v) => content_texts(value::trees(items@)) == Some(value::trees(v@)),
            None => content_texts(value::trees(items@)) is None,
        },
{
    let ghost t = value::trees(items@);
    let mut out: Vec<Value> = Vec::new();
    let mut i: usize = 0;
    assert(t.take(0) =~= Seq::empty());
    assert(value::trees(out@) =~= Seq::empty());
    while i < items.len()
        invariant
            i <= items@.len(),
            t == value::trees(items@),
            content_texts(t.take(i as int)) == Some(value::trees(out@)),
        decreases items@.len() - i,
    {
        assert(t.take(i + 1).drop_last() =~= t.take(i as int));
        assert(t.take(i + 1).last() == value::tree(items@[i as int]));
        match text_content(&items[i]) {
            Some(v) => {
                let ghost prev = value::trees(out@);
                out.push(v);
                assert(value::trees(out@) =~= prev.push(value::tree(v)));
            },
            None => {
                proof {
                    lemma_contents_none(t, i + 1);
                }
                return None;
            },
        }
        i += 1;
    }
    assert(t.take(i as int) =~= t);
    Some(out)
}

/// Gives files' contents that were written as YAML as that YAML's text.
fn contents_as_text(document: Value) -> (r: Option<Value>)
    ensures
        match r {
            Some(v) => with_contents(value::tree(document)) == Some(value::tree(v)),
            None => with_contents(value::tree(document)) is None,
        },
{
    proof {
        value::lemma_field(document, "configFiles"@);
        value::lemma_tree(document);
    }
    let files = match value::get(&document, "configFiles") {
        Some(files) => files,
        None => {
            return Some(document);
        },
    };
    proof {
        value::lemma_untagged(*files);
        value::lemma_tree(value::bare(*files));
    }
    let new = match value::untag(files) {
        Value::Sequence(items) => match text_contents(items) {
            Some(v) => Value::Sequence(v),
            None => {
                return None;
            },
        },
        _ => {
            return Some(value::copy(&document));
        },
    };
    proof {
        value::lemma_tree(new);
    }
    let list = value::retag(files, new);
    let mut entries = value::copy_entries(&document);
    let key = Value::Text("configFiles".to_owned());
    merge::insert_entry(&mut entries, &key, list);
    let inner = Value::Mapping(entries);
    proof {
        value::lemma_tree(inner);
    }
    Some(value::retag(&document, inner))
}

/// Writes a document.
fn write_document(document: Value) -> (r: Option<String>)
    ensures
        text::text_opt(r) == written(value::tree(document)),
{
    match contents_as_text(document) {
        None => None,
        Some(v) => match yaml::format(&v) {
            None => None,
            Some(s) => {
                let chars = text::chars_of(s.as_str());
                if chars.len() > 0 && chars[chars.len() - 1] == '\n' {
                    let r = offset::cut(chars.as_slice(), 0, chars.len() - 1);
                    assert(r@ =~= s@.drop_last());
                    Some(r)
                } else {
                    Some(s)
                }
            },
        },
    }
}

/// The documents among `at` that have an identity and name their hosts, or do not: merged over what
/// has been merged so far.
#[verifier::loop_isolation(false)]
fn merge_sources(
    docs: &Vec<Document>,
    at: &Vec<usize>,
    id: &Identity,
    aimed: bool,
    so_far: Option<Value>,
    Ghost(done): Ghost<Seq<Tree>>,
) -> (r: Option<Value>)
    requires
        in_range(docs@, at@),
        so_far is None <==> done.len() == 0,
        so_far is Some ==> value::tree(so_far->0) == merged_all(done),
    ensures
        ({
            let all = done + sources(
                at_reached(docs@, at@),
                identity_model(*id),
                aimed,
                at@.len() as int,
            );
            &&& r is None <==> all.len() == 0
            &&& r is Some ==> value::tree(r->0) == merged_all(all)
        }),
{
    let ghost v = at_reached(docs@, at@);
    let ghost m = identity_model(*id);
    let mut r = so_far;
    let mut k: usize = 0;
    assert(done + sources(v, m, aimed, 0) =~= done);
    while k < at.len()
        invariant
            k <= at@.len(),
            r is None <==> (done + sources(v, m, aimed, k as int)).len() == 0,
            r is Some ==> value::tree(r->0) == merged_all(done + sources(v, m, aimed, k as int)),
        decreases at@.len() - k,
    {
        let d = &docs[at[k]];
        assert(v[k as int] == (d.meta.include_hosts is Some, value::tree(d.value)));
        let other = find_identity(&d.value);
        if d.meta.include_hosts.is_some() == aimed && same_identity(&other, id) {
            let ghost prev = done + sources(v, m, aimed, k as int);
            let ghost next = done + sources(v, m, aimed, k + 1);
            assert(next =~= prev.push(value::tree(d.value)));
            assert(next.drop_last() =~= prev);
            r = Some(
                match r {
                    Some(base) => merge::merge_document(base, &d.value),
                    None => value::copy(&d.value),
                },
            );
        }
        k += 1;
    }
    r
}

/// What the documents at these positions are to a host that they all reach.
pub open spec fn at_reached(docs: Seq<Document>, at: Seq<usize>) -> Seq<Reached> {
    Seq::new(
        at.len(),
        |k: int|
            (docs[at[k] as int].meta.include_hosts is Some, value::tree(docs[at[k] as int].value)),
    )
}

fn find_first(docs: &Vec<Document>, at: &Vec<usize>, k: usize, id: &Identity) -> (r: bool)
    requires
        in_range(docs@, at@),
        k < at@.len(),
        identity_model(*id) == identity_of(at_reached(docs@, at@)[k as int].1),
    ensures
        r == is_first(at_reached(docs@, at@), k as int),
{
    let ghost v = at_reached(docs@, at@);
    let mut j: usize = 0;
    while j < k
        invariant
            j <= k < at@.len(),
            in_range(docs@, at@),
            v == at_reached(docs@, at@),
            identity_model(*id) == identity_of(v[k as int].1),
            forall|i: int|
                0 <= i < j ==> identity_of((#[trigger] v[i]).1) != identity_of(v[k as int].1),
        decreases k - j,
    {
        assert(v[j as int].1 == value::tree(docs@[at@[j as int] as int].value));
        let other = find_identity(&docs[at[j]].value);
        if same_identity(&other, id) {
            return false;
        }
        j += 1;
    }
    true
}

/// The documents of a host's file, given the positions of the patches that reach it.
#[verifier::loop_isolation(false)]
fn host_documents(docs: &Vec<Document>, at: &Vec<usize>) -> (r: Result<
    Vec<HostDocument>,
    FileError,
>)
    requires
        in_range(docs@, at@),
    ensures
        match r {
            Ok(out) => all_written(at_reached(docs@, at@)) && are_host_documents(
                at_reached(docs@, at@),
                at@.len() as int,
                out@,
            ),
            Err(e) => e == FileError::NotWritten && !all_written(at_reached(docs@, at@)),
        },
{
    let ghost v = at_reached(docs@, at@);
    let mut out: Vec<HostDocument> = Vec::new();
    let mut k: usize = 0;
    while k < at.len()
        invariant
            k <= at@.len(),
            are_host_documents(v, k as int, out@),
            forall|j: int|
                0 <= j < k && #[trigger] is_first(v, j) ==> host_text(v, j) is Some,
        decreases at@.len() - k,
    {
        let d = &docs[at[k]];
        assert(v[k as int].1 == value::tree(d.value));
        let id = find_identity(&d.value);
        if find_first(docs, at, k, &id) {
            let ghost m = identity_model(id);
            let base = merge_sources(docs, at, &id, false, None, Ghost(Seq::empty()));
            let ghost defaults = sources(v, m, false, at@.len() as int);
            assert(Seq::<Tree>::empty() + defaults =~= defaults);
            let whole = merge_sources(docs, at, &id, true, base, Ghost(defaults));
            proof {
                lemma_has_source(v, m, k as int, at@.len() as int);
            }
            match whole {
                Some(document) => match write_document(document) {
                    Some(s) => {
                        out.push(HostDocument { identity: show_identity(&id), text: s });
                    },
                    None => {
                        assert(is_first(v, k as int) && host_text(v, k as int) is None);
                        return Err(FileError::NotWritten);
                    },
                },
                None => {},
            }
        }
        k += 1;
    }
    Ok(out)
}

/// How many of the documents at these positions have an identity.
fn count_sources(docs: &Vec<Document>, at: &Vec<usize>, id: &Identity) -> (r: usize)
    requires
        in_range(docs@, at@),
    ensures
        r == all_sources(at_reached(docs@, at@), identity_model(*id)).len(),
{
    let ghost v = at_reached(docs@, at@);
    let ghost m = identity_model(*id);
    let mut r: usize = 0;
    let mut k: usize = 0;
    while k < at.len()
        invariant
            k <= at@.len(),
            in_range(docs@, at@),
            v == at_reached(docs@, at@),
            m == identity_model(*id),
            r <= k,
            r == sources(v, m, false, k as int).len() + sources(v, m, true, k as int).len(),
        decreases at@.len() - k,
    {
        let d = &docs[at[k]];
        assert(v[k as int] == (d.meta.include_hosts is Some, value::tree(d.value)));
        let other = find_identity(&d.value);
        if same_identity(&other, id) {
            r += 1;
        }
        k += 1;
    }
    r
}

/// How many documents go into each document of a host's file.
#[verifier::loop_isolation(false)]
fn count_all_sources(docs: &Vec<Document>, at: &Vec<usize>) -> (r: Vec<usize>)
    requires
        in_range(docs@, at@),
    ensures
        ({
            let v = at_reached(docs@, at@);
            let f = firsts(v, at@.len() as int);
            r@.len() == f.len() && forall|i: int|
                0 <= i < r@.len() ==> #[trigger] r@[i] == all_sources(
                    v,
                    identity_of(v[f[i]].1),
                ).len()
        }),
{
    let ghost v = at_reached(docs@, at@);
    let mut out: Vec<usize> = Vec::new();
    let mut k: usize = 0;
    while k < at.len()
        invariant
            k <= at@.len(),
            out@.len() == firsts(v, k as int).len(),
            forall|i: int|
                0 <= i < out@.len() ==> #[trigger] out@[i] == all_sources(
                    v,
                    identity_of(v[firsts(v, k as int)[i]].1),
                ).len(),
        decreases at@.len() - k,
    {
        let d = &docs[at[k]];
        assert(v[k as int].1 == value::tree(d.value));
        let id = find_identity(&d.value);
        if find_first(docs, at, k, &id) {
            out.push(count_sources(docs, at, &id));
        }
        k += 1;
    }
    out
}

proof fn lemma_has_source(v: Seq<Reached>, id: IdentityModel, k: int, n: int)
    requires
        0 <= k < n <= v.len(),
        identity_of(v[k].1) == id,
    ensures
        sources(v, id, v[k].0, n).len() > 0,
    decreases n,
{
    if k < n - 1 {
        lemma_has_source(v, id, k, n - 1);
    }
}

/// The topology as one host sees it.
#[derive(Debug, PartialEq)]
pub struct Effective<'a> {
    pub topology: &'a MeshConfig,
    /// The ruleset aimed at the host, if any.
    pub nftables: Option<&'a NftablesTopology>,
}

/// The position of the first pool document, from `k` on, of this name.
pub open spec fn pool_at(docs: Seq<Document>, pools: Seq<int>, name: Seq<char>, k: int) -> Option<
    int,
>
    decreases pools.len() - k,
{
    if k >= pools.len() {
        None
    } else if value::text_field(value::tree(docs[pools[k]].value), "name"@) == Some(name) {
        Some(pools[k])
    } else {
        pool_at(docs, pools, name, k + 1)
    }
}

impl SlipmeshFile {
    /// The position of the network document in the file: where an edit to the topology goes.
    pub fn network_document(&self) -> (r: usize)
        requires
            file_wf(*self),
        ensures
            r == self.documents@[self.network as int].index,
    {
        self.documents[self.network].index
    }

    /// The position in the file of the document of a pool: where an edit to that pool goes.
    pub fn pool_document(&self, name: &str) -> (r: Option<usize>)
        requires
            file_wf(*self),
        ensures
            r == (match pool_at(self.documents@, document::ints(self.pools@), name@, 0) {
                Some(i) => Some(self.documents@[i].index),
                None => None,
            }),
    {
        match self.find_pool(name) {
            Some(i) => Some(self.documents[i].index),
            None => None,
        }
    }

    /// The document of a pool, among those that were read.
    pub fn find_pool(&self, name: &str) -> (r: Option<usize>)
        requires
            file_wf(*self),
        ensures
            match r {
                Some(i) => pool_at(self.documents@, document::ints(self.pools@), name@, 0) == Some(
                    i as int,
                ) && i < self.documents@.len(),
                None => pool_at(self.documents@, document::ints(self.pools@), name@, 0) is None,
            },
    {
        let ghost m = document::ints(self.pools@);
        let mut k: usize = 0;
        while k < self.pools.len()
            invariant
                k <= self.pools@.len(),
                file_wf(*self),
                m == document::ints(self.pools@),
                pool_at(self.documents@, m, name@, 0) == pool_at(
                    self.documents@,
                    m,
                    name@,
                    k as int,
                ),
            decreases self.pools@.len() - k,
        {
            assert(m[k as int] == self.pools@[k as int]);
            if let Some(s) = value::get_text(&self.documents[self.pools[k]].value, "name") {
                if text::str_eq(s.as_str(), name) {
                    return Some(self.pools[k]);
                }
            }
            k += 1;
        }
        None
    }

    /// The hosts that the network document names, in its order.
    pub fn hosts(&self) -> (r: Vec<&str>)
        ensures
            r@.len() == self.topology.nodes@.len(),
            forall|i: int| 0 <= i < r@.len() ==> (#[trigger] r@[i])@ == self.topology.nodes@[i].name@,
    {
        let mut r: Vec<&str> = Vec::new();
        let mut i: usize = 0;
        while i < self.topology.nodes.len()
            invariant
                i <= self.topology.nodes@.len(),
                r@.len() == i,
                forall|k: int|
                    0 <= k < i ==> (#[trigger] r@[k])@ == self.topology.nodes@[k].name@,
            decreases self.topology.nodes@.len() - i,
        {
            r.push(self.topology.nodes[i].name.as_str());
            i += 1;
        }
        r
    }

    /// The whole topology, without any ruleset.
    pub fn topology(&self) -> (r: &MeshConfig)
        ensures
            *r == self.topology,
    {
        &self.topology
    }

    /// The whole topology, without any ruleset.
    pub fn into_topology(self) -> (r: MeshConfig)
        ensures
            r == self.topology,
    {
        self.topology
    }

    /// The topology as one host sees it: with the ruleset aimed at that host, if any.
    pub fn effective_for(&self, host: &str) -> (r: Result<Effective<'_>, FileError>)
        requires
            file_wf(*self),
        ensures
            match r {
                Err(e) => e == FileError::NotAHost && !mesh_config::known(
                    self.topology.nodes@,
                    host@,
                ),
                Ok(x) => {
                    let at = reaching(
                        self.documents@,
                        document::ints(self.rulesets@),
                        host@,
                        self.rulesets@.len() as int,
                    );
                    &&& mesh_config::known(self.topology.nodes@, host@)
                    &&& *x.topology == self.topology
                    &&& match x.nftables {
                        Some(n) => at.len() > 0 && *n == self.ruleset_texts@[at[0]],
                        None => at.len() == 0,
                    }
                },
            },
    {
        if !mesh_config::is_known(&self.topology.nodes, host) {
            return Err(FileError::NotAHost);
        }
        let at = find_reaching(&self.documents, &self.rulesets, host);
        assert(document::ints(at@).len() == at@.len());
        if at.len() > 0 {
            assert(document::ints(at@)[0] == at@[0]);
            Ok(
                Effective {
                    topology: &self.topology,
                    nftables: Some(&self.ruleset_texts[at[0]]),
                },
            )
        } else {
            Ok(Effective { topology: &self.topology, nftables: None })
        }
    }

    /// The positions of the patches that reach a host.
    fn reaching_patches(&self, host: &str) -> (at: Vec<usize>)
        requires
            file_wf(*self),
        ensures
            in_range(self.documents@, at@),
            at_reached(self.documents@, at@) == reached(
                self.documents@,
                document::ints(self.patches@),
                host@,
            ),
    {
        let found = find_reaching(&self.documents, &self.patches, host);
        let ghost m = document::ints(self.patches@);
        let ghost f = document::ints(found@);
        let mut at: Vec<usize> = Vec::new();
        let mut i: usize = 0;
        while i < found.len()
            invariant
                i <= found@.len(),
                at@.len() == i,
                file_wf(*self),
                forall|k: int| 0 <= k < found@.len() ==> (#[trigger] found@[k]) < self.patches@.len(),
                forall|k: int| 0 <= k < i ==> #[trigger] at@[k] == self.patches@[found@[k] as int],
            decreases found@.len() - i,
        {
            at.push(self.patches[found[i]]);
            i += 1;
        }
        proof {
            assert forall|k: int| 0 <= k < at@.len() implies (#[trigger] at@[k])
                < self.documents@.len() by {
                assert(self.patches@[found@[k] as int] < self.documents@.len());
            }
            let v = reached(self.documents@, m, host@);
            assert(at_reached(self.documents@, at@) =~= v) by {
                assert(f.len() == found@.len());
                assert forall|k: int| 0 <= k < at@.len() implies at_reached(
                    self.documents@,
                    at@,
                )[k] == #[trigger] v[k] by {
                    assert(f[k] == found@[k]);
                    assert(m[f[k]] == self.patches@[f[k]]);
                    assert(at@[k] == self.patches@[found@[k] as int]);
                }
            }
        }
        at
    }

    /// From how many documents of the file each document of a host's patch file comes, in the order
    /// of `patches_for`. The comments of those that are merged do not carry over.
    pub fn sources_for(&self, host: &str) -> (r: Vec<usize>)
        requires
            file_wf(*self),
        ensures
            ({
                let v = reached(self.documents@, document::ints(self.patches@), host@);
                let at = firsts(v, v.len() as int);
                r@.len() == at.len() && forall|i: int|
                    0 <= i < r@.len() ==> #[trigger] r@[i] == all_sources(
                        v,
                        identity_of(v[at[i]].1),
                    ).len()
            }),
    {
        let at = self.reaching_patches(host);
        count_all_sources(&self.documents, &at)
    }

    /// The Talos documents that go into a host's patch file, in the order in which their identities
    /// first appear. Documents of one identity are merged: defaults first, then those that name the
    /// host, each in file order.
    pub fn patches_for(&self, host: &str) -> (r: Result<Vec<HostDocument>, FileError>)
        requires
            file_wf(*self),
        ensures
            ({
                let v = reached(self.documents@, document::ints(self.patches@), host@);
                match r {
                    Ok(out) => {
                        &&& mesh_config::known(self.topology.nodes@, host@)
                        &&& all_written(v)
                        &&& are_host_documents(v, v.len() as int, out@)
                    },
                    Err(FileError::NotAHost) => !mesh_config::known(self.topology.nodes@, host@),
                    Err(e) => e == FileError::NotWritten && mesh_config::known(
                        self.topology.nodes@,
                        host@,
                    ) && !all_written(v),
                }
            }),
    {
        if !mesh_config::is_known(&self.topology.nodes, host) {
            return Err(FileError::NotAHost);
        }
        let at = self.reaching_patches(host);
        host_documents(&self.documents, &at)
    }
}

proof fn lemma_one_ruleset(
    nodes: Seq<NodeEntry>,
    docs: Seq<Document>,
    at: Seq<int>,
    from: int,
    i: int,
)
    requires
        rulesets_error(nodes, docs, at, from) is None,
        0 <= from <= i < nodes.len(),
    ensures
        reaching(docs, at, nodes[i].name@, at.len() as int).len() <= 1,
    decreases i - from,
{
    if from < i {
        lemma_one_ruleset(nodes, docs, at, from + 1, i);
    }
}

/// Law: in a file that is accepted, at most one ruleset reaches a host.
pub proof fn a_host_has_at_most_one_ruleset(
    docs: Seq<Document>,
    bodies: Bodies,
    f: SlipmeshFile,
    i: int,
)
    requires
        shape_error(docs, bodies) is None,
        is_file(docs, bodies, f),
        0 <= i < f.topology.nodes@.len(),
    ensures
        reaching(
            f.documents@,
            document::ints(f.rulesets@),
            f.topology.nodes@[i].name@,
            f.rulesets@.len() as int,
        ).len() <= 1,
{
    assert(document::ints(f.rulesets@).len() == f.rulesets@.len());
    lemma_one_ruleset(bodies.network->0.nodes@, docs, document::ints(f.rulesets@), 0, i);
}

/// Two patches that differ in whether they name the host, the other way round.
pub open spec fn swapped(v: Seq<Reached>, k: int) -> Seq<Reached> {
    v.update(k, v[k + 1]).update(k + 1, v[k])
}

proof fn lemma_swapped_sources(v: Seq<Reached>, k: int, id: IdentityModel, aimed: bool, n: int)
    requires
        0 <= k < v.len() - 1,
        v[k].0 != v[k + 1].0,
        0 <= n <= v.len(),
        n != k + 1,
    ensures
        sources(swapped(v, k), id, aimed, n) == sources(v, id, aimed, n),
    decreases n,
{
    let w = swapped(v, k);
    if n == k + 2 {
        lemma_swapped_sources(v, k, id, aimed, k);
        assert(sources(w, id, aimed, n) == sources(v, id, aimed, n)) by {
            reveal_with_fuel(sources, 3);
        }
    } else if n > 0 {
        lemma_swapped_sources(v, k, id, aimed, n - 1);
        assert(w[n - 1] == v[n - 1]);
    }
}

/// Law: a patch that names the host lands on top of one that does not, whichever of them stands
/// first in the file.
pub proof fn aimed_patches_land_on_top(v: Seq<Reached>, k: int, id: IdentityModel)
    requires
        0 <= k < v.len() - 1,
        v[k].0 != v[k + 1].0,
    ensures
        merged_all(all_sources(swapped(v, k), id)) == merged_all(all_sources(v, id)),
{
    lemma_swapped_sources(v, k, id, false, v.len() as int);
    lemma_swapped_sources(v, k, id, true, v.len() as int);
}

} // verus!
