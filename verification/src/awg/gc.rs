//! Which interfaces are no longer wanted. The daemon owns every interface of its kind on the host,
//! so nothing but the config decides.

use crate::text;
use vstd::prelude::*;

verus! {

/// The indices of those of the first `n` interfaces that no name in the config asks for.
pub open spec fn stale(
    links: Seq<(String, u32)>,
    desired: Seq<Seq<char>>,
    n: int,
) -> Seq<u32>
    decreases n,
{
    if n <= 0 {
        Seq::empty()
    } else if desired.contains(links[n - 1].0@) {
        stale(links, desired, n - 1)
    } else {
        stale(links, desired, n - 1).push(links[n - 1].1)
    }
}

/// The interfaces to delete, in the order in which they are listed.
pub fn gc(links: &Vec<(String, u32)>, desired_names: &Vec<String>) -> (r: Vec<u32>)
    ensures
        r@ == stale(links@, text::texts(desired_names@), links@.len() as int),
{
    let mut out: Vec<u32> = Vec::new();
    let mut i: usize = 0;
    while i < links.len()
        invariant
            i <= links@.len(),
            out@ == stale(links@, text::texts(desired_names@), i as int),
        decreases links@.len() - i,
    {
        if !text::has_text(desired_names, links[i].0.as_str()) {
            out.push(links[i].1);
        }
        i += 1;
    }
    out
}

/// Law: an interface is deleted if and only if it is listed and the config does not name it.
pub proof fn deleted_iff_not_configured(
    links: Seq<(String, u32)>,
    desired: Seq<Seq<char>>,
    n: int,
    index: u32,
)
    requires
        0 <= n <= links.len(),
    ensures
        stale(links, desired, n).contains(index) <==> exists|i: int|
            0 <= i < n && (#[trigger] links[i]).1 == index && !desired.contains(links[i].0@),
    decreases n,
{
    if n > 0 {
        deleted_iff_not_configured(links, desired, n - 1, index);
        let before = stale(links, desired, n - 1);
        let now = stale(links, desired, n);
        assert(links[n - 1].1 == index || links[n - 1].1 != index);
        if before.contains(index) {
            let k = choose|k: int| 0 <= k < before.len() && before[k] == index;
            assert(now[k] == index);
        }
        if now.len() > before.len() {
            assert(now[before.len() as int] == links[n - 1].1);
        }
    }
}

} // verus!
