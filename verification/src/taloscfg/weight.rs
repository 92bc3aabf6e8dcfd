//! How large a value can become when it is written as YAML, in bytes and counted generously: a
//! character is at most ten bytes when escaped, and the marks and the indentation that lines of it
//! take are counted with every part.

use crate::value;
use crate::value::Tree;
use crate::value::Value;
use vstd::prelude::*;
use vstd::string::*;

verus! {

/// Weights are told apart up to here.
pub const LIMIT: u64 = 0x1_0000_0000;

/// The bound for a node whose every part, a character or a mark, may take `cost` bytes. A part that
/// is nested takes more: lines of it are indented further.
pub open spec fn weight(t: Tree, cost: int) -> int
    decreases t, 1int,
{
    match t {
        Tree::Null => cost,
        Tree::Bool(_) => cost,
        Tree::Number(s) => cost + s.len() * cost,
        Tree::Text(s) => cost + s.len() * cost,
        Tree::Sequence(items) => cost + items_weight(items, items.len() as int, cost + 8),
        Tree::Mapping(fields) => cost + fields_weight(fields, fields.len() as int, cost + 8),
        Tree::Tagged(tag, inner) => cost + tag.len() * cost + weight(*inner, cost),
    }
}

/// The bound for the first `n` items.
pub open spec fn items_weight(items: Seq<Tree>, n: int, cost: int) -> int
    decreases items, n,
{
    if n <= 0 || n > items.len() {
        0
    } else {
        items_weight(items, n - 1, cost) + weight(items[n - 1], cost)
    }
}

/// The bound for the first `n` entries.
pub open spec fn fields_weight(fields: Seq<(Tree, Tree)>, n: int, cost: int) -> int
    decreases fields, n,
{
    if n <= 0 || n > fields.len() {
        0
    } else {
        fields_weight(fields, n - 1, cost) + weight(fields[n - 1].0, cost) + weight(
            fields[n - 1].1,
            cost,
        )
    }
}

/// A number, or the limit where it is not below that.
pub open spec fn capped(n: int) -> int {
    if n < LIMIT {
        n
    } else {
        LIMIT as int
    }
}

proof fn lemma_times(n: int, cost: int)
    requires
        0 <= n,
        0 <= cost,
    ensures
        0 <= n * cost,
{
    assert(0 <= n * cost) by (nonlinear_arith)
        requires
            0 <= n,
            0 <= cost,
    ;
}

/// A node weighs no less than one part.
pub proof fn lemma_weight(t: Tree, cost: int)
    requires
        0 <= cost,
    ensures
        cost <= weight(t, cost),
    decreases t, 1int,
{
    match t {
        Tree::Number(s) => lemma_times(s.len() as int, cost),
        Tree::Text(s) => lemma_times(s.len() as int, cost),
        Tree::Sequence(items) => lemma_items_weight(items, items.len() as int, cost + 8),
        Tree::Mapping(fields) => lemma_fields_weight(fields, fields.len() as int, cost + 8),
        Tree::Tagged(tag, inner) => {
            lemma_times(tag.len() as int, cost);
            lemma_weight(*inner, cost);
        },
        _ => {},
    }
}

proof fn lemma_items_weight(items: Seq<Tree>, n: int, cost: int)
    requires
        0 <= cost,
    ensures
        0 <= items_weight(items, n, cost),
    decreases items, n,
{
    if 0 < n <= items.len() {
        lemma_items_weight(items, n - 1, cost);
        lemma_weight(items[n - 1], cost);
    }
}

proof fn lemma_fields_weight(fields: Seq<(Tree, Tree)>, n: int, cost: int)
    requires
        0 <= cost,
    ensures
        0 <= fields_weight(fields, n, cost),
    decreases fields, n,
{
    if 0 < n <= fields.len() {
        lemma_fields_weight(fields, n - 1, cost);
        lemma_weight(fields[n - 1].0, cost);
        lemma_weight(fields[n - 1].1, cost);
    }
}

/// Weighs a text.
fn weigh_text(s: &str, cost: u64) -> (r: u64)
    requires
        cost < LIMIT,
    ensures
        r == capped(cost + s@.len() * cost),
{
    let n: u64 = s.unicode_len() as u64;
    if cost == 0 {
        proof {
            assert(n * cost == 0) by (nonlinear_arith)
                requires
                    cost == 0,
            ;
        }
        return 0;
    }
    if n >= LIMIT {
        proof {
            assert(n * cost >= n) by (nonlinear_arith)
                requires
                    cost >= 1,
                    n >= 0,
            ;
        }
        return LIMIT;
    }
    proof {
        assert(n * cost <= 0x1_0000_0000 * 0x1_0000_0000) by (nonlinear_arith)
            requires
                n < 0x1_0000_0000,
                cost < 0x1_0000_0000,
                n >= 0,
                cost >= 0,
        ;
    }
    let w: u128 = cost as u128 + n as u128 * cost as u128;
    if w < LIMIT as u128 {
        w as u64
    } else {
        LIMIT
    }
}

fn plus(a: u64, b: u64) -> (r: u64)
    requires
        a <= LIMIT,
        b <= LIMIT,
    ensures
        r == capped(a + b),
{
    if a + b < LIMIT {
        a + b
    } else {
        LIMIT
    }
}

/// Weighs a node.
pub fn weigh(v: &Value, cost: u64) -> (r: u64)
    ensures
        r == capped(weight(value::tree(*v), cost as int)),
    decreases v, 1int,
{
    proof {
        value::lemma_tree(*v);
        lemma_weight(value::tree(*v), cost as int);
    }
    if cost >= LIMIT {
        return LIMIT;
    }
    match v {
        Value::Null => cost,
        Value::Bool(_) => cost,
        Value::Number(s) => weigh_text(s.as_str(), cost),
        Value::Text(s) => weigh_text(s.as_str(), cost),
        Value::Sequence(items) => {
            proof {
                lemma_items_weight(value::trees(items@), items@.len() as int, cost + 8);
            }
            plus(cost, weigh_items(items, cost + 8))
        },
        Value::Mapping(fields) => {
            proof {
                lemma_fields_weight(value::pairs(fields@), fields@.len() as int, cost + 8);
            }
            plus(cost, weigh_fields(fields, cost + 8))
        },
        Value::Tagged(tag, inner) => {
            proof {
                lemma_times(tag@.len() as int, cost as int);
                lemma_weight(value::tree(**inner), cost as int);
            }
            plus(weigh_text(tag.as_str(), cost), weigh(inner, cost))
        },
    }
}

/// Weighs an entry: its key weighs what a tag does.
pub fn weigh_entry(key: &str, v: &Value, cost: u64) -> (r: u64)
    requires
        cost < LIMIT,
    ensures
        r == capped(weight(Tree::Tagged(key@, Box::new(value::tree(*v))), cost as int)),
{
    proof {
        lemma_times(key@.len() as int, cost as int);
        lemma_weight(value::tree(*v), cost as int);
    }
    plus(weigh_text(key, cost), weigh(v, cost))
}

#[verifier::loop_isolation(false)]
fn weigh_items(items: &Vec<Value>, cost: u64) -> (r: u64)
    ensures
        r == capped(items_weight(value::trees(items@), items@.len() as int, cost as int)),
    decreases items, 0int,
{
    let ghost t = value::trees(items@);
    let mut out: u64 = 0;
    let mut i: usize = 0;
    while i < items.len()
        invariant
            i <= items@.len(),
            out == capped(items_weight(t, i as int, cost as int)),
        decreases items@.len() - i,
    {
        assert(t[i as int] == value::tree(items@[i as int]));
        proof {
            lemma_items_weight(t, i as int, cost as int);
            lemma_weight(t[i as int], cost as int);
        }
        out = plus(out, weigh(&items[i], cost));
        i += 1;
    }
    out
}

#[verifier::loop_isolation(false)]
fn weigh_fields(fields: &Vec<(Value, Value)>, cost: u64) -> (r: u64)
    ensures
        r == capped(fields_weight(value::pairs(fields@), fields@.len() as int, cost as int)),
    decreases fields, 0int,
{
    let ghost t = value::pairs(fields@);
    let mut out: u64 = 0;
    let mut i: usize = 0;
    while i < fields.len()
        invariant
            i <= fields@.len(),
            out == capped(fields_weight(t, i as int, cost as int)),
        decreases fields@.len() - i,
    {
        assert(t[i as int] == (value::tree(fields@[i as int].0), value::tree(fields@[i as int].1)));
        proof {
            lemma_fields_weight(t, i as int, cost as int);
            lemma_weight(t[i as int].0, cost as int);
            lemma_weight(t[i as int].1, cost as int);
        }
        out = plus(plus(out, weigh(&fields[i].0, cost)), weigh(&fields[i].1, cost));
        i += 1;
    }
    out
}

} // verus!
