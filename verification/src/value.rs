//! A tree of plain data, as YAML and JSON documents hold it.

use crate::text;
use vstd::prelude::*;

verus! {

/// One node. A mapping keeps the order of its entries and has each key once; a number is held in
/// its text form. A tag, by its name, stands around the node that it is written ahead of.
#[derive(Debug, PartialEq)]
pub enum Value {
    Null,
    Bool(bool),
    Number(String),
    Text(String),
    Sequence(Vec<Value>),
    Mapping(Vec<(Value, Value)>),
    Tagged(String, Box<Value>),
}

/// A node without the tags around it.
pub open spec fn bare(v: Value) -> Value
    decreases v,
{
    match v {
        Value::Tagged(_, inner) => bare(*inner),
        _ => v,
    }
}

/// The node without the tags around it.
pub fn untag(v: &Value) -> (r: &Value)
    ensures
        *r == bare(*v),
    decreases v,
{
    match v {
        Value::Tagged(_, inner) => untag(inner),
        _ => v,
    }
}

/// A node is the string `key`.
pub open spec fn is_key(v: Value, key: Seq<char>) -> bool {
    v is Text && v->Text_0@ == key
}

/// The index of the first entry with a given string as its key, or the number of entries.
pub open spec fn entry_index(entries: Seq<(Value, Value)>, key: Seq<char>) -> int
    decreases entries.len(),
{
    if entries.len() == 0 {
        0
    } else if is_key(entries[0].0, key) {
        0
    } else {
        1 + entry_index(entries.skip(1), key)
    }
}

pub proof fn lemma_entry_index(entries: Seq<(Value, Value)>, key: Seq<char>)
    ensures
        0 <= entry_index(entries, key) <= entries.len(),
        entry_index(entries, key) < entries.len() ==> is_key(
            entries[entry_index(entries, key)].0,
            key,
        ),
        forall|i: int| 0 <= i < entry_index(entries, key) ==> !is_key(#[trigger] entries[i].0, key),
    decreases entries.len(),
{
    if entries.len() > 0 && !is_key(entries[0].0, key) {
        lemma_entry_index(entries.skip(1), key);
        let k = entry_index(entries.skip(1), key);
        assert(entries.skip(1).len() == entries.len() - 1);
        if k < entries.skip(1).len() {
            assert(entries.skip(1)[k] == entries[k + 1]);
        }
        assert forall|i: int| 0 <= i < k + 1 implies !is_key(#[trigger] entries[i].0, key) by {
            if i > 0 {
                assert(entries.skip(1)[i - 1].0 == entries[i].0);
            }
        }
    }
}

/// What a mapping holds for a key; nothing for any other node. Tags around the mapping are no
/// matter.
pub open spec fn at_key(v: Value, key: Seq<char>) -> Option<Value> {
    match bare(v) {
        Value::Mapping(entries) => {
            let i = entry_index(entries@, key);
            if i < entries@.len() {
                Some(entries@[i].1)
            } else {
                None
            }
        },
        _ => None,
    }
}

fn is_text(v: &Value, key: &str) -> (r: bool)
    ensures
        r == is_key(*v, key@),
{
    match v {
        Value::Text(s) => text::str_eq(s.as_str(), key),
        _ => false,
    }
}

/// The index that `entry_index` names.
pub fn find_entry(entries: &Vec<(Value, Value)>, key: &str) -> (r: usize)
    ensures
        r as int == entry_index(entries@, key@),
        r <= entries@.len(),
{
    let mut i: usize = 0;
    assert(entries@.skip(0) =~= entries@);
    while i < entries.len() && !is_text(&entries[i].0, key)
        invariant
            i <= entries@.len(),
            entry_index(entries@, key@) == i + entry_index(entries@.skip(i as int), key@),
        decreases entries@.len() - i,
    {
        assert(entries@.skip(i as int).skip(1) =~= entries@.skip(i + 1));
        i += 1;
    }
    i
}

/// What a mapping holds for a key.
pub fn get<'a>(v: &'a Value, key: &str) -> (r: Option<&'a Value>)
    ensures
        match r {
            Some(x) => at_key(*v, key@) == Some(*x),
            None => at_key(*v, key@) is None,
        },
{
    match untag(v) {
        Value::Mapping(entries) => {
            let i: usize = find_entry(entries, key);
            if i < entries.len() {
                Some(&entries[i].1)
            } else {
                None
            }
        },
        _ => None,
    }
}

/// A node as a mathematical value: two nodes with the same contents are the same tree.
pub enum Tree {
    Null,
    Bool(bool),
    Number(Seq<char>),
    Text(Seq<char>),
    Sequence(Seq<Tree>),
    Mapping(Seq<(Tree, Tree)>),
    Tagged(Seq<char>, Box<Tree>),
}

/// A tree without the tags around it.
pub open spec fn untagged(t: Tree) -> Tree
    decreases t,
{
    match t {
        Tree::Tagged(_, inner) => untagged(*inner),
        _ => t,
    }
}

/// A tree with the tags of another around it.
pub open spec fn retagged(t: Tree, inner: Tree) -> Tree
    decreases t,
{
    match t {
        Tree::Tagged(tag, x) => Tree::Tagged(tag, Box::new(retagged(*x, inner))),
        _ => inner,
    }
}

/// The contents of a node.
pub open spec fn tree(v: Value) -> Tree
    decreases v,
{
    match v {
        Value::Null => Tree::Null,
        Value::Bool(b) => Tree::Bool(b),
        Value::Number(s) => Tree::Number(s@),
        Value::Text(s) => Tree::Text(s@),
        Value::Sequence(items) => Tree::Sequence(
            Seq::new(
                items@.len(),
                |i: int|
                    if 0 <= i < items@.len() {
                        tree(items@[i])
                    } else {
                        Tree::Null
                    },
            ),
        ),
        Value::Mapping(entries) => Tree::Mapping(
            Seq::new(
                entries@.len(),
                |i: int|
                    if 0 <= i < entries@.len() {
                        (tree(entries@[i].0), tree(entries@[i].1))
                    } else {
                        (Tree::Null, Tree::Null)
                    },
            ),
        ),
        Value::Tagged(tag, inner) => Tree::Tagged(tag@, Box::new(tree(*inner))),
    }
}

/// Taking tags off a node and off its contents comes to the same.
pub proof fn lemma_untagged(v: Value)
    ensures
        untagged(tree(v)) == tree(bare(v)),
        !(bare(v) is Tagged),
    decreases v,
{
    if let Value::Tagged(_, inner) = v {
        lemma_untagged(*inner);
    }
}

/// A node with the tags of another around it.
pub fn retag(v: &Value, inner: Value) -> (r: Value)
    ensures
        tree(r) == retagged(tree(*v), tree(inner)),
    decreases v,
{
    match v {
        Value::Tagged(tag, x) => Value::Tagged(tag.clone(), Box::new(retag(x, inner))),
        _ => inner,
    }
}

/// The contents of items.
pub open spec fn trees(items: Seq<Value>) -> Seq<Tree> {
    Seq::new(items.len(), |i: int| tree(items[i]))
}

/// The contents of entries.
pub open spec fn pairs(entries: Seq<(Value, Value)>) -> Seq<(Tree, Tree)> {
    Seq::new(entries.len(), |i: int| (tree(entries[i].0), tree(entries[i].1)))
}

pub proof fn lemma_tree(v: Value)
    ensures
        v is Sequence ==> tree(v) == Tree::Sequence(trees(v->Sequence_0@)),
        v is Mapping ==> tree(v) == Tree::Mapping(pairs(v->Mapping_0@)),
{
    match v {
        Value::Sequence(items) => {
            assert(tree(v)->Sequence_0 =~= trees(items@));
        },
        Value::Mapping(entries) => {
            assert(tree(v)->Mapping_0 =~= pairs(entries@));
        },
        _ => {},
    }
}

/// Whether two nodes have the same contents.
#[verifier::loop_isolation(false)]
pub fn same(a: &Value, b: &Value) -> (r: bool)
    ensures
        r == (tree(*a) == tree(*b)),
    decreases a,
{
    proof {
        lemma_tree(*a);
        lemma_tree(*b);
    }
    match (a, b) {
        (Value::Null, Value::Null) => true,
        (Value::Bool(x), Value::Bool(y)) => *x == *y,
        (Value::Number(x), Value::Number(y)) => text::str_eq(x.as_str(), y.as_str()),
        (Value::Text(x), Value::Text(y)) => text::str_eq(x.as_str(), y.as_str()),
        (Value::Sequence(x), Value::Sequence(y)) => {
            if x.len() != y.len() {
                assert(trees(x@).len() != trees(y@).len());
                return false;
            }
            let mut i: usize = 0;
            while i < x.len()
                invariant
                    i <= x@.len(),
                    x@.len() == y@.len(),
                    decreases_to!(*a => *x),
                    forall|k: int| 0 <= k < i ==> trees(x@)[k] == #[trigger] trees(y@)[k],
                decreases x@.len() - i,
            {
                if !same(&x[i], &y[i]) {
                    assert(trees(x@)[i as int] != trees(y@)[i as int]);
                    return false;
                }
                i += 1;
            }
            assert(trees(x@) =~= trees(y@));
            true
        },
        (Value::Mapping(x), Value::Mapping(y)) => {
            if x.len() != y.len() {
                assert(pairs(x@).len() != pairs(y@).len());
                return false;
            }
            let mut i: usize = 0;
            while i < x.len()
                invariant
                    i <= x@.len(),
                    x@.len() == y@.len(),
                    decreases_to!(*a => *x),
                    forall|k: int| 0 <= k < i ==> pairs(x@)[k] == #[trigger] pairs(y@)[k],
                decreases x@.len() - i,
            {
                if !same(&x[i].0, &y[i].0) || !same(&x[i].1, &y[i].1) {
                    assert(pairs(x@)[i as int] != pairs(y@)[i as int]);
                    return false;
                }
                i += 1;
            }
            assert(pairs(x@) =~= pairs(y@));
            true
        },
        (Value::Tagged(x, v), Value::Tagged(y, w)) => {
            text::str_eq(x.as_str(), y.as_str()) && same(v, w)
        },
        _ => false,
    }
}

/// A node with the same contents.
pub fn copy(v: &Value) -> (r: Value)
    ensures
        tree(r) == tree(*v),
    decreases v,
{
    proof {
        lemma_tree(*v);
    }
    match v {
        Value::Null => Value::Null,
        Value::Bool(b) => Value::Bool(*b),
        Value::Number(s) => Value::Number(s.clone()),
        Value::Text(s) => Value::Text(s.clone()),
        Value::Sequence(items) => {
            let mut out: Vec<Value> = Vec::new();
            let mut i: usize = 0;
            while i < items.len()
                invariant
                    i <= items@.len(),
                    decreases_to!(*v => *items),
                    out@.len() == i,
                    forall|k: int| 0 <= k < i ==> #[trigger] trees(out@)[k] == trees(items@)[k],
                decreases items@.len() - i,
            {
                let ghost prev = out@;
                out.push(copy(&items[i]));
                assert forall|k: int| 0 <= k < i + 1 implies #[trigger] trees(out@)[k] == trees(
                    items@,
                )[k] by {
                    if k < i {
                        assert(trees(prev)[k] == trees(items@)[k]);
                    }
                }
                i += 1;
            }
            assert(trees(out@) =~= trees(items@));
            let r = Value::Sequence(out);
            proof {
                lemma_tree(r);
            }
            r
        },
        Value::Mapping(entries) => {
            let mut out: Vec<(Value, Value)> = Vec::new();
            let mut i: usize = 0;
            while i < entries.len()
                invariant
                    i <= entries@.len(),
                    decreases_to!(*v => *entries),
                    out@.len() == i,
                    forall|k: int| 0 <= k < i ==> #[trigger] pairs(out@)[k] == pairs(entries@)[k],
                decreases entries@.len() - i,
            {
                let ghost prev = out@;
                out.push((copy(&entries[i].0), copy(&entries[i].1)));
                assert forall|k: int| 0 <= k < i + 1 implies #[trigger] pairs(out@)[k] == pairs(
                    entries@,
                )[k] by {
                    if k < i {
                        assert(pairs(prev)[k] == pairs(entries@)[k]);
                    }
                }
                i += 1;
            }
            assert(pairs(out@) =~= pairs(entries@));
            let r = Value::Mapping(out);
            proof {
                lemma_tree(r);
            }
            r
        },
        Value::Tagged(tag, inner) => Value::Tagged(tag.clone(), Box::new(copy(inner))),
    }
}

/// The entries of a node; none where it is not a mapping.
pub fn copy_entries(v: &Value) -> (r: Vec<(Value, Value)>)
    ensures
        pairs(r@) == entries_of(tree(*v)),
{
    proof {
        lemma_untagged(*v);
        lemma_tree(bare(*v));
    }
    let mut out: Vec<(Value, Value)> = Vec::new();
    if let Value::Mapping(entries) = untag(v) {
        let mut i: usize = 0;
        while i < entries.len()
            invariant
                i <= entries@.len(),
                out@.len() == i,
                forall|k: int| 0 <= k < i ==> #[trigger] pairs(out@)[k] == pairs(entries@)[k],
            decreases entries@.len() - i,
        {
            let ghost prev = out@;
            out.push((copy(&entries[i].0), copy(&entries[i].1)));
            assert forall|k: int| 0 <= k < i + 1 implies #[trigger] pairs(out@)[k] == pairs(
                entries@,
            )[k] by {
                if k < i {
                    assert(pairs(prev)[k] == pairs(entries@)[k]);
                }
            }
            i += 1;
        }
        assert(pairs(out@) =~= pairs(entries@));
    } else {
        assert(pairs(out@) =~= Seq::empty());
    }
    out
}

/// The position of the first entry of this key, or the number of entries.
pub open spec fn position(entries: Seq<(Tree, Tree)>, key: Tree) -> int
    decreases entries.len(),
{
    if entries.len() == 0 || entries[0].0 == key {
        0
    } else {
        1 + position(entries.skip(1), key)
    }
}

pub proof fn lemma_position(entries: Seq<(Tree, Tree)>, key: Tree)
    ensures
        0 <= position(entries, key) <= entries.len(),
        position(entries, key) < entries.len() ==> entries[position(entries, key)].0 == key,
        forall|i: int| 0 <= i < position(entries, key) ==> (#[trigger] entries[i]).0 != key,
    decreases entries.len(),
{
    if entries.len() > 0 && entries[0].0 != key {
        let rest = entries.skip(1);
        lemma_position(rest, key);
        assert forall|i: int| 0 <= i < position(entries, key) implies (#[trigger] entries[i]).0
            != key by {
            if i > 0 {
                assert(rest[i - 1].0 != key);
            }
        }
    }
}

pub proof fn lemma_position_is(entries: Seq<(Tree, Tree)>, key: Tree, i: int)
    requires
        0 <= i <= entries.len(),
        i < entries.len() ==> entries[i].0 == key,
        forall|k: int| 0 <= k < i ==> (#[trigger] entries[k]).0 != key,
    ensures
        position(entries, key) == i,
{
    lemma_position(entries, key);
    let j = position(entries, key);
    if j < i {
        assert(entries[j].0 != key);
    }
    if i < j {
        assert(entries[i].0 != key);
    }
}

/// What entries hold for a key.
pub open spec fn held(entries: Seq<(Tree, Tree)>, key: Tree) -> Option<Tree> {
    if position(entries, key) < entries.len() {
        Some(entries[position(entries, key)].1)
    } else {
        None
    }
}

/// The entries of a node: none where it is not a mapping. Tags around it are no matter.
pub open spec fn entries_of(t: Tree) -> Seq<(Tree, Tree)> {
    match untagged(t) {
        Tree::Mapping(entries) => entries,
        _ => Seq::empty(),
    }
}

/// What a node holds for a text key.
pub open spec fn field(t: Tree, key: Seq<char>) -> Option<Tree> {
    held(entries_of(t), Tree::Text(key))
}

/// No key occurs twice.
pub open spec fn distinct_keys(entries: Seq<(Tree, Tree)>) -> bool {
    forall|i: int, j: int|
        0 <= i < j < entries.len() ==> (#[trigger] entries[i]).0 != (#[trigger] entries[j]).0
}

/// The position of an entry.
pub fn find(entries: &Vec<(Value, Value)>, key: &Value) -> (r: usize)
    ensures
        r == position(pairs(entries@), tree(*key)),
        r <= entries@.len(),
{
    let mut i: usize = 0;
    while i < entries.len()
        invariant
            i <= entries@.len(),
            forall|k: int| 0 <= k < i ==> (#[trigger] pairs(entries@)[k]).0 != tree(*key),
        decreases entries@.len() - i,
    {
        if same(&entries[i].0, key) {
            proof {
                lemma_position_is(pairs(entries@), tree(*key), i as int);
            }
            return i;
        }
        i += 1;
    }
    proof {
        lemma_position_is(pairs(entries@), tree(*key), i as int);
    }
    i
}

/// What a node holds for a text key.
pub proof fn lemma_field(v: Value, key: Seq<char>)
    ensures
        match at_key(v, key) {
            Some(x) => field(tree(v), key) == Some(tree(x)),
            None => field(tree(v), key) is None,
        },
{
    lemma_untagged(v);
    lemma_tree(bare(v));
    if let Value::Mapping(entries) = bare(v) {
        let i = entry_index(entries@, key);
        lemma_entry_index(entries@, key);
        let p = pairs(entries@);
        assert forall|k: int| 0 <= k < i implies (#[trigger] p[k]).0 != Tree::Text(key) by {
            assert(!is_key(entries@[k].0, key));
        }
        lemma_position_is(p, Tree::Text(key), i);
    }
}

/// What a node holds for a text key, where that is a string.
pub open spec fn text_field(t: Tree, key: Seq<char>) -> Option<Seq<char>> {
    match field(t, key) {
        Some(v) => match untagged(v) {
            Tree::Text(s) => Some(s),
            _ => None,
        },
        None => None,
    }
}

/// What a node holds for a text key, where that is a string.
pub fn get_text<'a>(v: &'a Value, key: &str) -> (r: Option<&'a String>)
    ensures
        match r {
            Some(s) => text_field(tree(*v), key@) == Some(s@),
            None => text_field(tree(*v), key@) is None,
        },
{
    proof {
        lemma_field(*v, key@);
    }
    match get(v, key) {
        Some(x) => {
            proof {
                lemma_untagged(*x);
                lemma_tree(bare(*x));
            }
            match untag(x) {
                Value::Text(s) => Some(s),
                _ => None,
            }
        },
        None => None,
    }
}

/// A tree that has no tags is found again under those of another.
pub proof fn lemma_retagged(t: Tree, inner: Tree)
    requires
        !(inner is Tagged),
    ensures
        untagged(retagged(t, inner)) == inner,
    decreases t,
{
    if let Tree::Tagged(_, x) = t {
        lemma_retagged(*x, inner);
    }
}

} // verus!
