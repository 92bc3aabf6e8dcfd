//! Lists of named values, in the order in which they were added. A name that was added twice
//! stands for the value that was added last.

use crate::text;
use vstd::prelude::*;

verus! {

/// The value of a name.
pub open spec fn value_of<T>(list: Seq<(String, T)>, key: Seq<char>) -> Option<T>
    decreases list.len(),
{
    if list.len() == 0 {
        None
    } else if list.last().0@ == key {
        Some(list.last().1)
    } else {
        value_of(list.drop_last(), key)
    }
}

/// The value of a name.
pub fn lookup<'a, T>(list: &'a Vec<(String, T)>, key: &str) -> (r: Option<&'a T>)
    ensures
        match r {
            Some(v) => value_of(list@, key@) == Some(*v),
            None => value_of(list@, key@) is None,
        },
{
    let mut i: usize = list.len();
    assert(list@.take(i as int) =~= list@);
    while i > 0
        invariant
            i <= list@.len(),
            value_of(list@, key@) == value_of(list@.take(i as int), key@),
        decreases i,
    {
        assert(list@.take(i as int).drop_last() =~= list@.take(i - 1));
        if text::str_eq(list[i - 1].0.as_str(), key) {
            return Some(&list[i - 1].1);
        }
        i -= 1;
    }
    None
}

/// A name that was added has a value.
pub proof fn lemma_has_value<T>(list: Seq<(String, T)>, i: int)
    requires
        0 <= i < list.len(),
    ensures
        value_of(list, list[i].0@) is Some,
    decreases list.len(),
{
    if list.last().0@ != list[i].0@ {
        lemma_has_value(list.drop_last(), i);
    }
}

} // verus!
