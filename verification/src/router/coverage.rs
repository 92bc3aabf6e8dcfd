//! What a resolution stands for: the addresses that its routes cover.

use crate::common::addr;
use crate::common::readback;
use crate::router::cidr;
use crate::router::cidr::Cidr;
use crate::router::resolver::{are_exclusions, format_of, formatted, is_aggregate, is_label_set};
use crate::router::resolver::{is_resolution, labelled, left_over, lemma_spelled, net_of, punched};
use crate::router::resolver::{punched_is_difference, remains, resolves_to, settles};
use crate::text;
use vstd::prelude::*;

verus! {

/// Whatever an entry spells is a network: no host bits are set.
pub open spec fn are_networks(v: Seq<(Seq<char>, Seq<char>)>) -> bool {
    forall|i: int|
        0 <= i < v.len() ==> (net_of((#[trigger] v[i]).0) matches Some(c) ==> cidr::wf(c))
}

/// The address `x` lies in a network that carries the label.
pub open spec fn held_under(v: Seq<(Seq<char>, Seq<char>)>, label: Seq<char>, x: int) -> bool {
    exists|c: Cidr| #[trigger] labelled(v, c, label) && cidr::covers(c, x)
}

/// The address `x` lies in a network that an entry spells.
pub open spec fn held(v: Seq<(Seq<char>, Seq<char>)>, x: int) -> bool {
    exists|i: int|
        0 <= i < v.len() && (net_of((#[trigger] v[i]).0) matches Some(c) && cidr::covers(c, x))
}

/// The address `x` lies in a route with the label.
pub open spec fn routed(out: Seq<(Seq<char>, Seq<char>)>, label: Seq<char>, x: int) -> bool {
    exists|i: int|
        0 <= i < out.len() && (#[trigger] out[i]).1 == label && (net_of(out[i].0) matches Some(c)
            && cidr::covers(c, x))
}

/// What is written of a network reads back.
proof fn lemma_written_net(c: Cidr)
    requires
        c.1 <= 32,
    ensures
        net_of(format_of(c)) == Some(c),
{
    let head = addr::ipv4_format(c.0 as int);
    let tail = text::decimal(c.1 as int);
    let s = format_of(c);
    addr::ipv4_reads_back(c.0);
    readback::lemma_dotted_chars(c.0);
    text::decimal_reads_back(c.1 as int);
    let k = text::find_from(s, '/', 0);
    text::lemma_find_from(s, '/', 0);
    assert forall|i: int| 0 <= i < head.len() implies s[i] != '/' by {
        assert(s[i] == head[i]);
    }
    assert(s[head.len() as int] == '/');
    assert(k == head.len());
    assert(s.take(k) =~= head);
    assert(s.skip(k + 1) =~= tail);
    reveal(net_of);
}

/// Collapsing networks gives networks, and keeps the addresses.
proof fn lemma_collapse_keeps(nets: Seq<Cidr>, out: Seq<Cidr>)
    requires
        cidr::all_wf(nets),
        cidr::collapses_to(nets, out),
    ensures
        cidr::all_wf(out),
        cidr::same_cover(nets, out),
{
    let m = choose|m: Seq<Cidr>| #[trigger] cidr::is_collapse(nets, m, out);
    assert forall|c: Cidr| #[trigger] out.contains(c) <==> m.contains(c) by {
        if nets.contains(c) {
            let k = choose|k: int| 0 <= k < nets.len() && nets[k] == c;
            assert(cidr::wf(nets[k]));
        }
    }
    assert forall|i: int| 0 <= i < out.len() implies cidr::wf(#[trigger] out[i]) by {
        assert(out.contains(out[i]));
        let k = choose|k: int| 0 <= k < m.len() && m[k] == out[i];
        assert(cidr::wf(m[k]));
    }
    assert forall|x: int| #[trigger] cidr::covered(nets, x) <==> cidr::covered(out, x) by {
        assert(cidr::covered(m, x) <==> cidr::network_covered(nets, x));
        if cidr::covered(nets, x) {
            let i = choose|i: int| 0 <= i < nets.len() && cidr::covers(#[trigger] nets[i], x);
            assert(cidr::wf(nets[i]));
            let k = choose|k: int| 0 <= k < m.len() && cidr::covers(#[trigger] m[k], x);
            assert(m.contains(m[k]));
            assert(out.contains(m[k]));
            let q = choose|q: int| 0 <= q < out.len() && out[q] == m[k];
            assert(cidr::covers(out[q], x));
        }
        if cidr::covered(out, x) {
            let i = choose|i: int| 0 <= i < out.len() && cidr::covers(#[trigger] out[i], x);
            assert(out.contains(out[i]));
            let k = choose|k: int| 0 <= k < m.len() && m[k] == out[i];
            assert(cidr::covers(m[k], x));
            assert(cidr::covered(m, x));
            let q = choose|q: int|
                0 <= q < nets.len() && cidr::wf(#[trigger] nets[q]) && cidr::covers(nets[q], x);
            assert(cidr::covers(nets[q], x));
        }
    }
}

/// The networks that carry a label are networks, and so is what they collapse to.
proof fn lemma_label_set(
    v: Seq<(Seq<char>, Seq<char>)>,
    label: Seq<char>,
    nets: Seq<Cidr>,
    out: Seq<Cidr>,
)
    requires
        are_networks(v),
        is_label_set(v, label, nets, out),
    ensures
        cidr::all_wf(out),
        forall|x: int| #[trigger] cidr::covered(out, x) <==> held_under(v, label, x),
{
    assert forall|i: int| 0 <= i < nets.len() implies cidr::wf(#[trigger] nets[i]) by {
        assert(nets.contains(nets[i]));
        assert(labelled(v, nets[i], label));
        let k = choose|k: int|
            0 <= k < v.len() && net_of((#[trigger] v[k]).0) == Some(nets[i]) && v[k].1 == label;
        assert(net_of(v[k].0) == Some(nets[i]));
    }
    lemma_collapse_keeps(nets, out);
    assert forall|x: int| #[trigger] cidr::covered(out, x) <==> held_under(v, label, x) by {
        assert(cidr::covered(nets, x) <==> cidr::covered(out, x));
        if cidr::covered(nets, x) {
            let i = choose|i: int| 0 <= i < nets.len() && cidr::covers(#[trigger] nets[i], x);
            assert(nets.contains(nets[i]));
            assert(labelled(v, nets[i], label));
        }
        if held_under(v, label, x) {
            let c = choose|c: Cidr| #[trigger] labelled(v, c, label) && cidr::covers(c, x);
            assert(nets.contains(c));
            let i = choose|i: int| 0 <= i < nets.len() && nets[i] == c;
            assert(cidr::covers(nets[i], x));
        }
    }
}

/// What remains of a list holds under each label the addresses that the list holds under it.
proof fn lemma_aggregate(
    v: Seq<(Seq<char>, Seq<char>)>,
    agg: Seq<(Cidr, Seq<char>)>,
    label: Seq<char>,
    x: int,
)
    requires
        are_networks(v),
        is_aggregate(v, agg),
    ensures
        held_under(v, label, x) <==> exists|k: int|
            0 <= k < agg.len() && (#[trigger] agg[k]).1 == label && cidr::covers(agg[k].0, x),
        forall|k: int| 0 <= k < agg.len() ==> cidr::wf((#[trigger] agg[k]).0),
{
    assert forall|k: int| 0 <= k < agg.len() implies cidr::wf((#[trigger] agg[k]).0) && (
    cidr::covers(agg[k].0, x) ==> held_under(v, agg[k].1, x)) by {
        let (c, l) = agg[k];
        assert(agg.contains((c, l)));
        assert(remains(v, c, l));
        let (nets, out) = choose|nets: Seq<Cidr>, out: Seq<Cidr>| #[trigger]
            is_label_set(v, l, nets, out) && out.contains(c);
        lemma_label_set(v, l, nets, out);
        let i = choose|i: int| 0 <= i < out.len() && out[i] == c;
        assert(cidr::wf(out[i]));
        if cidr::covers(c, x) {
            assert(cidr::covers(out[i], x));
            assert(cidr::covered(out, x));
        }
    }
    if held_under(v, label, x) {
        let c = choose|c: Cidr| #[trigger] labelled(v, c, label) && cidr::covers(c, x);
        assert(settles(v, label));
        let (nets, out) = choose|nets: Seq<Cidr>, out: Seq<Cidr>| #[trigger]
            is_label_set(v, label, nets, out);
        lemma_label_set(v, label, nets, out);
        assert(cidr::covered(out, x));
        let i = choose|i: int| 0 <= i < out.len() && cidr::covers(#[trigger] out[i], x);
        assert(out.contains(out[i]));
        assert(remains(v, out[i], label));
        assert(agg.contains((out[i], label)));
        let k = choose|k: int| 0 <= k < agg.len() && agg[k] == (out[i], label);
        assert(agg[k].1 == label && cidr::covers(agg[k].0, x));
    }
}

/// An address is held iff some label holds it.
proof fn lemma_held(v: Seq<(Seq<char>, Seq<char>)>, x: int)
    ensures
        held(v, x) <==> exists|l: Seq<char>| #[trigger] held_under(v, l, x),
{
    if held(v, x) {
        let i = choose|i: int|
            0 <= i < v.len() && (net_of((#[trigger] v[i]).0) matches Some(c) && cidr::covers(c, x));
        let c = net_of(v[i].0)->0;
        assert(net_of(v[i].0) == Some(c));
        lemma_spelled(v, v.len() as int, c);
        assert(v.take(v.len() as int) =~= v);
        let l = choose|l: Seq<char>| #[trigger] labelled(v, c, l);
        assert(held_under(v, l, x));
    }
    if exists|l: Seq<char>| #[trigger] held_under(v, l, x) {
        let l = choose|l: Seq<char>| #[trigger] held_under(v, l, x);
        let c = choose|c: Cidr| #[trigger] labelled(v, c, l) && cidr::covers(c, x);
        let i = choose|i: int|
            0 <= i < v.len() && net_of((#[trigger] v[i]).0) == Some(c) && v[i].1 == l;
        assert(net_of(v[i].0) == Some(c));
    }
}

/// The exclusions cover what the excluded entries hold.
proof fn lemma_exclusions(
    excluded: Seq<(Seq<char>, Seq<char>)>,
    agg: Seq<(Cidr, Seq<char>)>,
    nets: Seq<Cidr>,
    x: int,
)
    requires
        are_networks(excluded),
        is_aggregate(excluded, agg),
        are_exclusions(agg, nets),
    ensures
        cidr::all_wf(nets),
        cidr::covered(nets, x) <==> held(excluded, x),
{
    let all = Seq::new(agg.len(), |i: int| agg[i].0);
    lemma_aggregate(excluded, agg, Seq::empty(), x);
    assert forall|i: int| 0 <= i < all.len() implies cidr::wf(#[trigger] all[i]) by {
        assert(cidr::wf(agg[i].0));
    }
    lemma_collapse_keeps(all, nets);
    assert(cidr::covered(all, x) <==> cidr::covered(nets, x));
    lemma_held(excluded, x);
    if cidr::covered(all, x) {
        let i = choose|i: int| 0 <= i < all.len() && cidr::covers(#[trigger] all[i], x);
        lemma_aggregate(excluded, agg, agg[i].1, x);
        assert(agg[i].1 == agg[i].1 && cidr::covers(agg[i].0, x));
        assert(held_under(excluded, agg[i].1, x));
    }
    if held(excluded, x) {
        let l = choose|l: Seq<char>| #[trigger] held_under(excluded, l, x);
        lemma_aggregate(excluded, agg, l, x);
        let k = choose|k: int|
            0 <= k < agg.len() && (#[trigger] agg[k]).1 == l && cidr::covers(agg[k].0, x);
        assert(cidr::covers(all[k], x));
    }
}

/// What is left of the first `n` networks, as text.
proof fn lemma_left_over(
    inc: Seq<(Cidr, Seq<char>)>,
    excs: Seq<Cidr>,
    n: int,
    label: Seq<char>,
    x: int,
)
    requires
        0 <= n <= inc.len(),
        forall|k: int| 0 <= k < inc.len() ==> cidr::wf((#[trigger] inc[k]).0),
        cidr::all_wf(excs),
    ensures
        routed(left_over(inc, excs, n), label, x) <==> !cidr::covered(excs, x) && exists|k: int|
            0 <= k < n && (#[trigger] inc[k]).1 == label && cidr::covers(inc[k].0, x),
    decreases n,
{
    if n > 0 {
        lemma_left_over(inc, excs, n - 1, label, x);
        let (net, l) = inc[n - 1];
        let before = left_over(inc, excs, n - 1);
        let parts = punched(net, excs, excs.len() as int);
        let written = formatted(parts, l);
        let all = left_over(inc, excs, n);
        assert(all == before + written);
        assert(cidr::wf(net));
        punched_is_difference(net, excs, excs.len() as int);
        assert(excs.take(excs.len() as int) =~= excs);
        assert(cidr::covered(parts, x) <==> cidr::covers(net, x) && !cidr::covered(excs, x));
        if routed(before, label, x) {
            let i = choose|i: int|
                0 <= i < before.len() && (#[trigger] before[i]).1 == label && (net_of(
                    before[i].0,
                ) matches Some(c) && cidr::covers(c, x));
            assert(all[i] == before[i]);
        }
        if cidr::covered(parts, x) && l == label {
            let i = choose|i: int| 0 <= i < parts.len() && cidr::covers(#[trigger] parts[i], x);
            assert(cidr::wf(parts[i]));
            lemma_written_net(parts[i]);
            assert(all[before.len() + i] == written[i]);
            assert(routed(all, label, x));
        }
        if routed(all, label, x) {
            let i = choose|i: int|
                0 <= i < all.len() && (#[trigger] all[i]).1 == label && (net_of(
                    all[i].0,
                ) matches Some(c) && cidr::covers(c, x));
            if i < before.len() {
                assert(before[i] == all[i]);
                assert(routed(before, label, x));
            } else {
                let j = i - before.len();
                assert(all[i] == written[j]);
                assert(cidr::wf(parts[j]));
                lemma_written_net(parts[j]);
                assert(cidr::covers(parts[j], x));
                assert(cidr::covered(parts, x));
                assert(inc[n - 1].1 == label);
            }
        }
    }
}

/// Two lists with the same entries route the same addresses.
proof fn lemma_same_routes(
    a: Seq<(Seq<char>, Seq<char>)>,
    b: Seq<(Seq<char>, Seq<char>)>,
    label: Seq<char>,
    x: int,
)
    requires
        a.to_multiset() == b.to_multiset(),
        routed(a, label, x),
    ensures
        routed(b, label, x),
{
    let i = choose|i: int|
        0 <= i < a.len() && (#[trigger] a[i]).1 == label && (net_of(a[i].0) matches Some(c)
            && cidr::covers(c, x));
    a.to_multiset_ensures();
    b.to_multiset_ensures();
    assert(a.contains(a[i]));
    assert(b.to_multiset().count(a[i]) > 0);
    assert(b.contains(a[i]));
    let k = choose|k: int| 0 <= k < b.len() && b[k] == a[i];
    assert(b[k].1 == label);
}

/// Law: what `resolve` gives routes an address under a label exactly where a network found under
/// that label holds the address and no excluded network does.
pub proof fn resolution_is_difference(
    found: Seq<(Seq<char>, Seq<char>)>,
    excluded: Seq<(Seq<char>, Seq<char>)>,
    out: Seq<(Seq<char>, Seq<char>)>,
    label: Seq<char>,
    x: int,
)
    requires
        are_networks(found),
        are_networks(excluded),
        resolves_to(found, excluded, out),
    ensures
        routed(out, label, x) <==> held_under(found, label, x) && !held(excluded, x),
{
    let (inc, exc, nets) = choose|
        inc: Seq<(Cidr, Seq<char>)>,
        exc: Seq<(Cidr, Seq<char>)>,
        nets: Seq<Cidr>,
    |
        is_aggregate(found, inc) && is_aggregate(excluded, exc) && inc.len() > 0
            && #[trigger] are_exclusions(exc, nets) && #[trigger] is_resolution(inc, nets, out);
    let n = inc.len() as int;
    lemma_aggregate(found, inc, label, x);
    lemma_exclusions(excluded, exc, nets, x);
    lemma_left_over(inc, nets, n, label, x);
    let written = left_over(inc, nets, n);
    if routed(out, label, x) {
        lemma_same_routes(out, written, label, x);
    }
    if routed(written, label, x) {
        lemma_same_routes(written, out, label, x);
    }
}

} // verus!
