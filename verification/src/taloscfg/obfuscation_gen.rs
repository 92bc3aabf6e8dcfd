//! Random AmneziaWG obfuscation parameters, for what a topology leaves unset.
//!
//! Only the nine parameters with a well-known safe range are drawn; the others stay unset.

use crate::common::obfuscation;
use crate::common::obfuscation::Obfuscation;
use rand::Rng;
use vstd::prelude::*;

verus! {

/// `rand::Rng::gen_range` on the thread's generator: some value between the two bounds, which
/// count as in range.
#[verifier::external_body]
fn random_in(lo: u32, hi: u32) -> (r: u32)
    requires
        lo <= hi,
    ensures
        lo <= r <= hi,
{
    rand::thread_rng().gen_range(lo..=hi)
}

/// The smallest magic header: those below are WireGuard's own message types.
pub const FIRST_HEADER: u32 = 5;

/// Four distinct magic headers, none of them a message type of WireGuard's own.
pub open spec fn are_headers(h: Seq<u32>) -> bool {
    &&& h.len() == 4
    &&& forall|i: int| 0 <= i < 4 ==> FIRST_HEADER <= #[trigger] h[i]
    &&& h.no_duplicates()
}

/// How many entries of `v` are below `x`.
pub open spec fn below(v: Seq<u32>, x: int) -> int
    decreases v.len(),
{
    if v.len() == 0 {
        0
    } else {
        below(v.drop_last(), x) + (if v.last() < x {
            1int
        } else {
            0
        })
    }
}

/// The header that a candidate stands for among the numbers that `taken` leaves free: counted
/// without those taken, it comes where the candidate comes among all numbers.
pub open spec fn is_header_of(taken: Seq<u32>, candidate: u32, h: u32) -> bool {
    !taken.contains(h) && h == candidate + below(taken, h as int)
}

/// The headers that four candidates stand for, each among the numbers that those ahead of it leave
/// free.
pub open spec fn are_headers_of(candidates: Seq<u32>, h: Seq<u32>) -> bool {
    &&& h.len() == 4
    &&& forall|i: int|
        0 <= i < 4 ==> is_header_of(h.take(i), candidates[i], #[trigger] h[i])
}

/// The candidates can be drawn: each leaves room for the headers chosen ahead of it.
pub open spec fn are_candidates(c: Seq<u32>) -> bool {
    c.len() == 4 && forall|i: int| 0 <= i < 4 ==> FIRST_HEADER <= #[trigger] c[i] <= u32::MAX - i
}

/// One number further, one more entry is counted at most, where no entry occurs twice.
proof fn lemma_below_step(v: Seq<u32>, x: int)
    requires
        v.no_duplicates(),
    ensures
        below(v, x) <= below(v, x + 1) <= below(v, x) + 1,
        (forall|i: int| 0 <= i < v.len() ==> #[trigger] v[i] != x) ==> below(v, x + 1) == below(v, x),
    decreases v.len(),
{
    if v.len() > 0 {
        let rest = v.drop_last();
        assert(rest.no_duplicates());
        lemma_below_step(rest, x);
        if v.last() == x {
            assert forall|i: int| 0 <= i < rest.len() implies #[trigger] rest[i] != x by {
                assert(v[i] != v[v.len() - 1]);
            }
        }
        if forall|i: int| 0 <= i < v.len() ==> #[trigger] v[i] != x {
            assert forall|i: int| 0 <= i < rest.len() implies #[trigger] rest[i] != x by {
                assert(v[i] != x);
            }
            assert(v[v.len() - 1] != x);
        }
    }
}

/// Counted without the entries, numbers keep their order.
proof fn lemma_rank_grows(v: Seq<u32>, x: int, y: int)
    requires
        v.no_duplicates(),
        x <= y,
    ensures
        x - below(v, x) <= y - below(v, y),
    decreases y - x,
{
    if x < y {
        lemma_rank_grows(v, x, y - 1);
        lemma_below_step(v, y - 1);
    }
}

/// Law: no two free numbers are the header of one candidate, so that candidates drawn uniformly give
/// free numbers drawn uniformly.
pub proof fn one_header_for_each_candidate(taken: Seq<u32>, candidate: u32, a: u32, b: u32)
    requires
        taken.no_duplicates(),
        is_header_of(taken, candidate, a),
        is_header_of(taken, candidate, b),
    ensures
        a == b,
{
    let (x, y) = if a <= b {
        (a, b)
    } else {
        (b, a)
    };
    if x < y {
        assert forall|i: int| 0 <= i < taken.len() implies #[trigger] taken[i] != x by {
            assert(taken.contains(taken[i]));
        }
        lemma_below_step(taken, x as int);
        lemma_rank_grows(taken, x + 1, y as int);
    }
}

/// How many entries of an ascending list are below its entry at `i`, or below what comes ahead of
/// that.
proof fn lemma_below_sorted(v: Seq<u32>, i: int, x: int)
    requires
        0 <= i <= v.len(),
        forall|k: int| 0 <= k < i ==> #[trigger] v[k] < x,
        forall|k: int| i <= k < v.len() ==> #[trigger] v[k] >= x,
    ensures
        below(v, x) == i,
    decreases v.len(),
{
    if v.len() > 0 {
        let rest = v.drop_last();
        if i == v.len() {
            assert forall|k: int| 0 <= k < i - 1 implies #[trigger] rest[k] < x by {
                assert(v[k] < x);
            }
            lemma_below_sorted(rest, i - 1, x);
        } else {
            assert forall|k: int| 0 <= k < i implies #[trigger] rest[k] < x by {
                assert(v[k] < x);
            }
            assert forall|k: int| i <= k < rest.len() implies #[trigger] rest[k] >= x by {
                assert(v[k] >= x);
            }
            lemma_below_sorted(rest, i, x);
        }
    }
}

/// Steps over the chosen headers: `chosen` ascends, and the result is the header that the candidate
/// stands for among the numbers that it leaves free.
fn step_over(chosen: &Vec<u32>, candidate: u32) -> (r: u32)
    requires
        forall|i: int, j: int| 0 <= i < j < chosen@.len() ==> chosen@[i] < chosen@[j],
        candidate + chosen@.len() <= u32::MAX,
    ensures
        candidate <= r,
        is_header_of(chosen@, candidate, r),
{
    let mut r: u32 = candidate;
    let mut i: usize = 0;
    while i < chosen.len()
        invariant
            i <= chosen@.len(),
            r == candidate + i,
            candidate + chosen@.len() <= u32::MAX,
            forall|a: int, b: int| 0 <= a < b < chosen@.len() ==> chosen@[a] < chosen@[b],
            forall|k: int| 0 <= k < i ==> chosen@[k] < r,
        decreases chosen@.len() - i,
    {
        if r < chosen[i] {
            proof {
                assert forall|k: int| i <= k < chosen@.len() implies #[trigger] chosen@[k] >= r by {
                    if k > i {
                        assert(chosen@[i as int] < chosen@[k]);
                    }
                }
                lemma_below_sorted(chosen@, i as int, r as int);
            }
            return r;
        }
        r = r + 1;
        i += 1;
    }
    proof {
        lemma_below_sorted(chosen@, i as int, r as int);
    }
    r
}

/// Inserts a header into the ascending list of those chosen.
fn insert(chosen: &mut Vec<u32>, h: u32)
    requires
        forall|i: int, j: int| 0 <= i < j < old(chosen)@.len() ==> old(chosen)@[i] < old(chosen)@[j],
        !old(chosen)@.contains(h),
    ensures
        final(chosen)@.len() == old(chosen)@.len() + 1,
        forall|i: int, j: int|
            0 <= i < j < final(chosen)@.len() ==> final(chosen)@[i] < final(chosen)@[j],
        exists|i: int|
            0 <= i <= old(chosen)@.len() && final(chosen)@ == #[trigger] old(chosen)@.insert(i, h),
{
    let ghost prev = chosen@;
    let mut i: usize = 0;
    while i < chosen.len() && chosen[i] < h
        invariant
            chosen@ == prev,
            i <= prev.len(),
            forall|k: int| 0 <= k < i ==> prev[k] < h,
        decreases prev.len() - i,
    {
        i += 1;
    }
    assert(i < prev.len() ==> prev[i as int] > h) by {
        if i < prev.len() {
            assert(prev.contains(prev[i as int]));
        }
    }
    chosen.insert(i, h);
    assert(chosen@ == prev.insert(i as int, h));
}

/// Two lists hold the same numbers, each as often.
spec fn same_entries(a: Seq<u32>, b: Seq<u32>) -> bool {
    &&& forall|x: int| #[trigger] below(a, x) == below(b, x)
    &&& forall|x: u32| #[trigger] a.contains(x) <==> b.contains(x)
}

proof fn lemma_below_insert(v: Seq<u32>, i: int, h: u32, x: int)
    requires
        0 <= i <= v.len(),
    ensures
        below(v.insert(i, h), x) == below(v, x) + (if h < x {
            1int
        } else {
            0
        }),
    decreases v.len(),
{
    let w = v.insert(i, h);
    if i == v.len() {
        assert(w.drop_last() =~= v);
    } else {
        assert(w.drop_last() =~= v.drop_last().insert(i, h));
        assert(w.last() == v.last());
        lemma_below_insert(v.drop_last(), i, h, x);
    }
}

proof fn lemma_same_entries(a: Seq<u32>, b: Seq<u32>, i: int, h: u32)
    requires
        0 <= i <= a.len(),
        same_entries(a, b),
    ensures
        same_entries(a.insert(i, h), b.push(h)),
{
    let w = a.insert(i, h);
    let u = b.push(h);
    assert(u.drop_last() =~= b);
    assert forall|x: int| #[trigger] below(w, x) == below(u, x) by {
        lemma_below_insert(a, i, h, x);
        assert(below(a, x) == below(b, x));
    }
    assert forall|x: u32| #[trigger] w.contains(x) <==> u.contains(x) by {
        assert(a.contains(x) <==> b.contains(x));
        if w.contains(x) {
            let k = choose|k: int| 0 <= k < w.len() && w[k] == x;
            if k < i {
                assert(a[k] == x);
            } else if k > i {
                assert(a[k - 1] == x);
            }
            if x == h {
                assert(u[b.len() as int] == x);
            } else {
                let q = choose|q: int| 0 <= q < b.len() && b[q] == x;
                assert(u[q] == x);
            }
        }
        if u.contains(x) {
            if x == h {
                assert(w[i] == x);
            } else {
                let k = choose|k: int| 0 <= k < u.len() && u[k] == x;
                assert(b[k] == x);
                let q = choose|q: int| 0 <= q < a.len() && a[q] == x;
                assert(w[if q < i {
                    q
                } else {
                    q + 1
                }] == x);
            }
        }
    }
}

/// The headers that four candidates stand for.
pub fn magic_headers(candidates: &[u32; 4]) -> (h: [u32; 4])
    requires
        are_candidates(candidates@),
    ensures
        are_headers_of(candidates@, h@),
        are_headers(h@),
{
    let mut out = [0u32;4];
    let mut chosen: Vec<u32> = Vec::new();
    let mut i: usize = 0;
    proof {
        assert(out@.take(0) =~= chosen@);
    }
    while i < 4
        invariant
            i <= 4,
            are_candidates(candidates@),
            chosen@.len() == i,
            same_entries(chosen@, out@.take(i as int)),
            forall|a: int, b: int| 0 <= a < b < chosen@.len() ==> chosen@[a] < chosen@[b],
            forall|k: int| 0 <= k < i ==> FIRST_HEADER <= #[trigger] out@[k],
            forall|k: int|
                0 <= k < i ==> is_header_of(out@.take(k), candidates@[k], #[trigger] out@[k]),
        decreases 4 - i,
    {
        let candidate: u32 = candidates[i];
        assert(candidates@[i as int] == candidate);
        let h: u32 = step_over(&chosen, candidate);
        let ghost before = out@;
        let ghost taken = chosen@;
        assert(below(taken, h as int) == below(before.take(i as int), h as int));
        assert(taken.contains(h) <==> before.take(i as int).contains(h));
        insert(&mut chosen, h);
        out[i] = h;
        proof {
            let at = choose|at: int|
                0 <= at <= taken.len() && chosen@ == #[trigger] taken.insert(at, h);
            lemma_same_entries(taken, before.take(i as int), at, h);
            assert(out@.take(i + 1) =~= before.take(i as int).push(h));
            assert forall|k: int| 0 <= k < i + 1 implies is_header_of(
                out@.take(k),
                candidates@[k],
                #[trigger] out@[k],
            ) by {
                assert(out@.take(k) =~= before.take(k));
                if k < i {
                    assert(out@[k] == before[k]);
                }
            }
        }
        i += 1;
    }
    proof {
        assert forall|a: int, b: int| 0 <= a < b < 4 implies out@[a] != out@[b] by {
            assert(!out@.take(b).contains(out@[b]));
            assert(out@.take(b)[a] == out@[a]);
        }
    }
    out
}

/// Only the nine parameters that the generator draws are set, each within its safe range.
pub open spec fn is_generated(o: Obfuscation) -> bool {
    &&& o == (Obfuscation {
        jc: o.jc,
        jmin: o.jmin,
        jmax: o.jmax,
        s1: o.s1,
        s2: o.s2,
        h1: o.h1,
        h2: o.h2,
        h3: o.h3,
        h4: o.h4,
        ..obfuscation::unset()
    })
    &&& o.jc is Some && 3 <= o.jc->0 <= 10
    &&& o.jmin is Some && 10 <= o.jmin->0 <= 100
    &&& o.jmax is Some && o.jmin->0 < o.jmax->0 <= o.jmin->0 + 900
    &&& o.s1 is Some && o.s1->0 <= 1280
    &&& o.s2 is Some && o.s2->0 <= 1280
    &&& o.h1 is Some && o.h2 is Some && o.h3 is Some && o.h4 is Some
    &&& are_headers(seq![o.h1->0, o.h2->0, o.h3->0, o.h4->0])
}

/// The parameters that draws give.
pub open spec fn drawn(jc: u16, jmin: u16, span: u16, s1: u16, s2: u16, h: Seq<u32>) -> Obfuscation {
    Obfuscation {
        jc: Some(jc),
        jmin: Some(jmin),
        jmax: Some((jmin + span) as u16),
        s1: Some(s1),
        s2: Some(s2),
        h1: Some(h[0]),
        h2: Some(h[1]),
        h3: Some(h[2]),
        h4: Some(h[3]),
        ..obfuscation::unset()
    }
}

/// The parameters that draws give: `span` is how far the upper bound of the junk packets' size lies
/// above the lower one.
pub fn from_draws(jc: u16, jmin: u16, span: u16, s1: u16, s2: u16, h: &[u32; 4]) -> (r: Obfuscation)
    requires
        jmin + span <= u16::MAX,
    ensures
        r == drawn(jc, jmin, span, s1, s2, h@),
{
    Obfuscation {
        jc: Some(jc),
        jmin: Some(jmin),
        jmax: Some(jmin + span),
        s1: Some(s1),
        s2: Some(s2),
        h1: Some(h[0]),
        h2: Some(h[1]),
        h3: Some(h[2]),
        h4: Some(h[3]),
        ..Obfuscation::default()
    }
}

/// Law: what draws within their ranges give is within the safe range of each parameter.
pub proof fn draws_in_range_are_safe(
    jc: u16,
    jmin: u16,
    span: u16,
    s1: u16,
    s2: u16,
    h: Seq<u32>,
)
    requires
        3 <= jc <= 10,
        10 <= jmin <= 100,
        1 <= span <= 900,
        s1 <= 1280,
        s2 <= 1280,
        are_headers(h),
    ensures
        is_generated(drawn(jc, jmin, span, s1, s2, h)),
{
    assert(seq![h[0], h[1], h[2], h[3]] =~= h);
}

/// Draws fresh obfuscation parameters: each within its safe range, the headers by way of candidates.
pub fn generate() -> (r: Obfuscation)
    ensures
        is_generated(r),
{
    let jmin: u16 = random_in(10, 100) as u16;
    let span: u16 = random_in(1, 900) as u16;
    let c0: u32 = random_in(FIRST_HEADER, u32::MAX);
    let c1: u32 = random_in(FIRST_HEADER, u32::MAX - 1);
    let c2: u32 = random_in(FIRST_HEADER, u32::MAX - 2);
    let c3: u32 = random_in(FIRST_HEADER, u32::MAX - 3);
    let candidates = [c0, c1, c2, c3];
    let h = magic_headers(&candidates);
    let jc: u16 = random_in(3, 10) as u16;
    let s1: u16 = random_in(0, 1280) as u16;
    let s2: u16 = random_in(0, 1280) as u16;
    proof {
        draws_in_range_are_safe(jc, jmin, span, s1, s2, h@);
    }
    from_draws(jc, jmin, span, s1, s2, &h)
}

} // verus!
