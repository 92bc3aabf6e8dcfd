//! Merging documents of one identity: a default, and the host-specific documents over it.
//!
//! This is JSON Merge Patch on YAML: mappings merge recursively, an explicit null deletes the key
//! it names, and anything else replaces what was there. On top of that, order is kept: a key that
//! the base has stays where it was, a new one is appended. Lists are replaced, not appended to: in
//! YAML without a schema, appending could neither remove an item nor tell that two items are about
//! the same thing.

use crate::text;
use crate::value;
use crate::value::Tree;
use crate::value::Value;
use vstd::prelude::*;

verus! {

/// The entries without the one of this key.
pub open spec fn removed(entries: Seq<(Tree, Tree)>, key: Tree) -> Seq<(Tree, Tree)> {
    let i = value::position(entries, key);
    if i < entries.len() {
        entries.remove(i)
    } else {
        entries
    }
}

/// The entries with this one in place of the one of its key, else at the end.
pub open spec fn inserted(entries: Seq<(Tree, Tree)>, key: Tree, v: Tree) -> Seq<(Tree, Tree)> {
    let i = value::position(entries, key);
    if i < entries.len() {
        entries.update(i, (entries[i].0, v))
    } else {
        entries.push((key, v))
    }
}

/// The entries of a mapping that has no tag; none for any other node.
pub open spec fn plain_entries(t: Tree) -> Seq<(Tree, Tree)> {
    match t {
        Tree::Mapping(entries) => entries,
        _ => Seq::empty(),
    }
}

/// The overlay merged over the base. Tags around a mapping that is merged go, those around
/// anything else stay.
pub open spec fn merged(base: Tree, overlay: Tree) -> Tree
    decreases overlay, 0int,
{
    match overlay {
        Tree::Mapping(o) => Tree::Mapping(
            merged_entries(plain_entries(base), o, o.len() as int),
        ),
        Tree::Tagged(_, inner) => if value::untagged(*inner) is Mapping {
            merged(base, *inner)
        } else {
            overlay
        },
        _ => overlay,
    }
}

/// The base's entries with the first `n` entries of the overlay merged in.
pub open spec fn merged_entries(
    base: Seq<(Tree, Tree)>,
    overlay: Seq<(Tree, Tree)>,
    n: int,
) -> Seq<(Tree, Tree)>
    decreases overlay, n,
{
    if n <= 0 || n > overlay.len() {
        base
    } else {
        let so_far = merged_entries(base, overlay, n - 1);
        let (key, v) = overlay[n - 1];
        if value::untagged(v) is Null {
            removed(so_far, key)
        } else {
            inserted(
                so_far,
                key,
                merged(
                    match value::held(so_far, key) {
                        Some(t) => t,
                        None => Tree::Null,
                    },
                    v,
                ),
            )
        }
    }
}

/// A message to delete a document, not a set of values to merge.
pub open spec fn deletes(t: Tree) -> bool {
    match value::field(t, "$patch"@) {
        Some(v) => value::untagged(v) == Tree::Text("delete"@),
        None => false,
    }
}

/// A document merged over another. A deletion on either side is not merged: the overlay replaces
/// the result outright.
pub open spec fn merged_document(base: Tree, overlay: Tree) -> Tree {
    if deletes(base) || deletes(overlay) {
        overlay
    } else {
        merged(base, overlay)
    }
}

fn is_deletion(document: &Value) -> (r: bool)
    ensures
        r == deletes(value::tree(*document)),
{
    proof {
        value::lemma_field(*document, "$patch"@);
    }
    match value::get(document, "$patch") {
        Some(v) => {
            proof {
                value::lemma_untagged(*v);
            }
            match value::untag(v) {
                Value::Text(s) => text::str_eq(s.as_str(), "delete"),
                _ => false,
            }
        },
        None => false,
    }
}

/// Removes the entry of a key; every other stays in its place.
pub fn remove_entry(entries: &mut Vec<(Value, Value)>, key: &Value)
    ensures
        value::pairs(final(entries)@) == removed(value::pairs(old(entries)@), value::tree(*key)),
{
    let ghost before = value::pairs(entries@);
    let i: usize = value::find(entries, key);
    if i < entries.len() {
        entries.remove(i);
        assert(value::pairs(entries@) =~= before.remove(i as int));
    }
}

/// Sets the entry of a key where it stands, else adds it at the end.
pub fn insert_entry(entries: &mut Vec<(Value, Value)>, key: &Value, v: Value)
    ensures
        value::pairs(final(entries)@) == inserted(
            value::pairs(old(entries)@),
            value::tree(*key),
            value::tree(v),
        ),
{
    let ghost before = value::pairs(entries@);
    let i: usize = value::find(entries, key);
    if i < entries.len() {
        let k = value::copy(&entries[i].0);
        entries.set(i, (k, v));
        assert(value::pairs(entries@) =~= before.update(
            i as int,
            (before[i as int].0, value::tree(v)),
        ));
    } else {
        entries.push((value::copy(key), v));
        assert(value::pairs(entries@) =~= before.push((value::tree(*key), value::tree(v))));
    }
}

/// What entries hold for a key, as a node of its own.
fn copy_held(entries: &Vec<(Value, Value)>, key: &Value) -> (r: Value)
    ensures
        value::tree(r) == (match value::held(value::pairs(entries@), value::tree(*key)) {
            Some(t) => t,
            None => Tree::Null,
        }),
{
    let i: usize = value::find(entries, key);
    if i < entries.len() {
        value::copy(&entries[i].1)
    } else {
        Value::Null
    }
}

#[verifier::loop_isolation(false)]
fn merge(base: Value, overlay: &Value) -> (r: Value)
    ensures
        value::tree(r) == merged(value::tree(base), value::tree(*overlay)),
    decreases overlay,
{
    proof {
        value::lemma_tree(base);
        value::lemma_tree(*overlay);
    }
    match overlay {
        Value::Mapping(o) => {
            let mut entries: Vec<(Value, Value)> = match base {
                Value::Mapping(b) => b,
                _ => Vec::new(),
            };
            let ghost start = plain_entries(value::tree(base));
            assert(value::pairs(entries@) =~= start);
            let ghost over = value::pairs(o@);
            let mut i: usize = 0;
            while i < o.len()
                invariant
                    i <= o@.len(),
                    value::pairs(entries@) == merged_entries(start, over, i as int),
                decreases o@.len() - i,
            {
                assert(over[i as int] == (value::tree(o@[i as int].0), value::tree(o@[i as int].1)));
                proof {
                    value::lemma_untagged(o@[i as int].1);
                }
                match value::untag(&o[i].1) {
                    Value::Null => {
                        remove_entry(&mut entries, &o[i].0);
                    },
                    _ => {
                        let had = copy_held(&entries, &o[i].0);
                        let m = merge(had, &o[i].1);
                        insert_entry(&mut entries, &o[i].0, m);
                    },
                }
                i += 1;
            }
            let r = Value::Mapping(entries);
            proof {
                value::lemma_tree(r);
            }
            r
        },
        Value::Tagged(_, inner) => {
            proof {
                value::lemma_untagged(**inner);
                value::lemma_tree(value::bare(**inner));
            }
            match value::untag(inner) {
                Value::Mapping(_) => merge(base, inner),
                _ => value::copy(overlay),
            }
        },
        _ => value::copy(overlay),
    }
}

/// Merges a document over another.
pub fn merge_document(base: Value, overlay: &Value) -> (r: Value)
    ensures
        value::tree(r) == merged_document(value::tree(base), value::tree(*overlay)),
{
    if is_deletion(overlay) || is_deletion(&base) {
        return value::copy(overlay);
    }
    merge(base, overlay)
}

proof fn lemma_removed(entries: Seq<(Tree, Tree)>, key: Tree, other: Tree)
    requires
        value::distinct_keys(entries),
    ensures
        value::distinct_keys(removed(entries, key)),
        value::held(removed(entries, key), other) == (if other == key {
            None
        } else {
            value::held(entries, other)
        }),
{
    let i = value::position(entries, key);
    let r = removed(entries, key);
    value::lemma_position(entries, key);
    value::lemma_position(entries, other);
    if i < entries.len() {
        assert forall|a: int, b: int| 0 <= a < b < r.len() implies (#[trigger] r[a]).0 != (
        #[trigger] r[b]).0 by {
            let x = if a < i {
                a
            } else {
                a + 1
            };
            let y = if b < i {
                b
            } else {
                b + 1
            };
            assert(entries[x].0 != entries[y].0);
        }
        let j = value::position(entries, other);
        if other == key {
            assert forall|k: int| 0 <= k < r.len() implies (#[trigger] r[k]).0 != key by {
                let x = if k < i {
                    k
                } else {
                    k + 1
                };
                if x < i {
                    assert(entries[x].0 != entries[i].0);
                } else {
                    assert(entries[i].0 != entries[x].0);
                }
            }
            value::lemma_position_is(r, key, r.len() as int);
        } else {
            let q = if j > i {
                j - 1
            } else {
                j
            };
            assert forall|k: int| 0 <= k < q implies (#[trigger] r[k]).0 != other by {
                let x = if k < i {
                    k
                } else {
                    k + 1
                };
                assert(entries[x].0 != other);
            }
            assert(j != i) by {
                if j == i {
                    assert(entries[j].0 == other && entries[i].0 == key);
                }
            }
            value::lemma_position_is(r, other, q);
        }
    }
}

proof fn lemma_inserted(entries: Seq<(Tree, Tree)>, key: Tree, v: Tree, other: Tree)
    requires
        value::distinct_keys(entries),
    ensures
        value::distinct_keys(inserted(entries, key, v)),
        value::held(inserted(entries, key, v), other) == (if other == key {
            Some(v)
        } else {
            value::held(entries, other)
        }),
{
    let i = value::position(entries, key);
    let r = inserted(entries, key, v);
    value::lemma_position(entries, key);
    value::lemma_position(entries, other);
    assert forall|a: int, b: int| 0 <= a < b < r.len() implies (#[trigger] r[a]).0 != (
    #[trigger] r[b]).0 by {
        if b < entries.len() {
            assert(entries[a].0 != entries[b].0);
        } else {
            assert(entries[a].0 != key);
        }
    }
    if other == key {
        assert forall|k: int| 0 <= k < i implies (#[trigger] r[k]).0 != key by {
            assert(entries[k].0 != key);
        }
        value::lemma_position_is(r, key, i);
    } else {
        let j = value::position(entries, other);
        let q = if j == entries.len() {
            r.len() as int
        } else {
            j
        };
        assert forall|k: int| 0 <= k < q implies (#[trigger] r[k]).0 != other by {
            if k < entries.len() {
                assert(entries[k].0 != other);
            }
        }
        value::lemma_position_is(r, other, q);
    }
}

/// What a key holds once the first `n` entries of an overlay have been merged in.
proof fn lemma_merged_entries(
    base: Seq<(Tree, Tree)>,
    overlay: Seq<(Tree, Tree)>,
    n: int,
    key: Tree,
)
    requires
        0 <= n <= overlay.len(),
        value::distinct_keys(base),
        value::distinct_keys(overlay),
    ensures
        value::distinct_keys(merged_entries(base, overlay, n)),
        value::held(merged_entries(base, overlay, n), key) == ({
            let j = value::position(overlay, key);
            if j >= n {
                value::held(base, key)
            } else if value::untagged(overlay[j].1) is Null {
                None
            } else {
                Some(
                    merged(
                        match value::held(base, key) {
                            Some(t) => t,
                            None => Tree::Null,
                        },
                        overlay[j].1,
                    ),
                )
            }
        }),
    decreases n,
{
    value::lemma_position(overlay, key);
    if n > 0 {
        let (k, v) = overlay[n - 1];
        lemma_merged_entries(base, overlay, n - 1, key);
        lemma_merged_entries(base, overlay, n - 1, k);
        let so_far = merged_entries(base, overlay, n - 1);
        let j = value::position(overlay, key);
        assert forall|x: int| 0 <= x < n - 1 implies (#[trigger] overlay[x]).0 != k by {
            assert(overlay[x].0 != overlay[n - 1].0);
        }
        value::lemma_position_is(overlay, k, n - 1);
        if value::untagged(v) is Null {
            lemma_removed(so_far, k, key);
        } else {
            let m = merged(
                match value::held(so_far, k) {
                    Some(t) => t,
                    None => Tree::Null,
                },
                v,
            );
            lemma_inserted(so_far, k, m, key);
        }
        if key == k {
            assert(j == n - 1);
        } else if j == n - 1 {
            assert(overlay[j].0 == key);
        }
    }
}

/// Law: in a merged mapping, a key that the overlay does not name is as in the base, one that it
/// sets to null is gone, and any other holds the overlay's value merged over the base's.
pub proof fn merge_goes_key_by_key(
    base: Seq<(Tree, Tree)>,
    overlay: Seq<(Tree, Tree)>,
    key: Tree,
)
    requires
        value::distinct_keys(base),
        value::distinct_keys(overlay),
    ensures
        value::held(
            value::entries_of(merged(Tree::Mapping(base), Tree::Mapping(overlay))),
            key,
        ) == (match value::held(overlay, key) {
            None => value::held(base, key),
            Some(v) => if value::untagged(v) is Null {
                None
            } else {
                Some(
                    merged(
                        match value::held(base, key) {
                            Some(t) => t,
                            None => Tree::Null,
                        },
                        v,
                    ),
                )
            },
        }),
{
    lemma_merged_entries(base, overlay, overlay.len() as int, key);
}

/// Law: where the overlay deletes nothing, the base's keys stay where they are, and new ones come
/// after them.
pub proof fn merge_keeps_order(base: Seq<(Tree, Tree)>, overlay: Seq<(Tree, Tree)>, n: int, i: int)
    requires
        0 <= n <= overlay.len(),
        forall|k: int| 0 <= k < n ==> !(value::untagged((#[trigger] overlay[k]).1) is Null),
        0 <= i < base.len(),
    ensures
        merged_entries(base, overlay, n).len() >= base.len(),
        merged_entries(base, overlay, n)[i].0 == base[i].0,
    decreases n,
{
    if n > 0 {
        merge_keeps_order(base, overlay, n - 1, i);
        let so_far = merged_entries(base, overlay, n - 1);
        value::lemma_position(so_far, overlay[n - 1].0);
        assert(!(value::untagged(overlay[n - 1].1) is Null));
    }
}

/// Law: what is not a mapping replaces whatever it is merged over.
pub proof fn scalar_replaces(base: Tree, overlay: Tree)
    requires
        !(value::untagged(overlay) is Mapping),
    ensures
        merged(base, overlay) == overlay,
{
}

} // verus!
