//! What is read of peers from a dump, and which peers a config asks for.

use crate::awg::config::PeerEntry;
use crate::awg::interface;
use crate::awg::interface::AllowedIpAttr;
use crate::awg::interface::DumpAttr;
use crate::awg::interface::Lookup;
use crate::awg::interface::Peer;
use crate::common::addr;
use crate::common::keys;
use crate::text;
use vstd::prelude::*;

verus! {

/// The last key of a dump entry, at `i`.
proof fn lemma_dumped_key(attrs: Seq<DumpAttr>, i: int)
    requires
        0 <= i < attrs.len(),
        attrs[i] is PublicKey,
        forall|k: int| i < k < attrs.len() ==> !((#[trigger] attrs[k]) is PublicKey),
    ensures
        interface::dumped_key(attrs) == Some(attrs[i]->PublicKey_0),
    decreases attrs.len(),
{
    let n = attrs.len() - 1;
    if i < n {
        assert(!(attrs[n] is PublicKey));
        let init = attrs.drop_last();
        assert forall|k: int| i < k < init.len() implies !((#[trigger] init[k]) is PublicKey) by {
            assert(init[k] == attrs[k]);
        }
        lemma_dumped_key(init, i);
    }
}

/// The last endpoint of a dump entry, at `i`, or none where `i` is negative.
proof fn lemma_dumped_endpoint(attrs: Seq<DumpAttr>, i: int)
    requires
        i < attrs.len(),
        i >= 0 ==> attrs[i] is Endpoint,
        forall|k: int| 0 <= k < attrs.len() && k > i ==> !((#[trigger] attrs[k]) is Endpoint),
    ensures
        interface::dumped_endpoint(attrs) == (if i < 0 {
            None
        } else {
            Some(addr::socket_format(attrs[i]->Endpoint_0))
        }),
    decreases attrs.len(),
{
    let n = attrs.len() - 1;
    if 0 <= n && i < n {
        assert(!(attrs[n] is Endpoint));
        let init = attrs.drop_last();
        assert forall|k: int| 0 <= k < init.len() && k > i implies !((
        #[trigger] init[k]) is Endpoint) by {
            assert(init[k] == attrs[k]);
        }
        lemma_dumped_endpoint(init, i);
    }
}

/// The last list of ranges of a dump entry, at `i`, or none where `i` is negative.
proof fn lemma_dumped_ranges(attrs: Seq<DumpAttr>, i: int)
    requires
        i < attrs.len(),
        i >= 0 ==> attrs[i] is AllowedIps,
        forall|k: int| 0 <= k < attrs.len() && k > i ==> !((#[trigger] attrs[k]) is AllowedIps),
    ensures
        interface::dumped_allowed_ips(attrs) == (if i < 0 {
            Seq::empty()
        } else {
            interface::dumped_cidrs(attrs[i]->AllowedIps_0@)
        }),
    decreases attrs.len(),
{
    let n = attrs.len() - 1;
    if 0 <= n && i < n {
        assert(!(attrs[n] is AllowedIps));
        let init = attrs.drop_last();
        assert forall|k: int| 0 <= k < init.len() && k > i implies !((
        #[trigger] init[k]) is AllowedIps) by {
            assert(init[k] == attrs[k]);
        }
        lemma_dumped_ranges(init, i);
    }
}

/// Law: the peer read from a dump entry has the entry's last key and last endpoint. It has no
/// endpoint where the entry has none, and never advanced security, which no dump reports.
pub proof fn dumped_peer_is_as_reported(attrs: Seq<DumpAttr>, peer: Peer, key: int, endpoint: int)
    requires
        interface::is_dumped(attrs, peer),
        0 <= key < attrs.len(),
        attrs[key] is PublicKey,
        forall|k: int| key < k < attrs.len() ==> !((#[trigger] attrs[k]) is PublicKey),
        endpoint < attrs.len(),
        endpoint >= 0 ==> attrs[endpoint] is Endpoint,
        forall|k: int|
            0 <= k < attrs.len() && k > endpoint ==> !((#[trigger] attrs[k]) is Endpoint),
    ensures
        peer.public_key@ == keys::base64_encoded(attrs[key]->PublicKey_0@),
        peer.endpoint is Some <==> endpoint >= 0,
        endpoint >= 0 ==> peer.endpoint->0@ == addr::socket_format(attrs[endpoint]->Endpoint_0),
        !peer.advanced_security,
{
    lemma_dumped_key(attrs, key);
    lemma_dumped_endpoint(attrs, endpoint);
}

proof fn lemma_first_ip(attrs: Seq<AllowedIpAttr>, i: int)
    requires
        0 <= i < attrs.len(),
        attrs[i] is IpAddr,
        forall|k: int| 0 <= k < i ==> !((#[trigger] attrs[k]) is IpAddr),
    ensures
        interface::first_ip(attrs) == Some(attrs[i]->IpAddr_0),
    decreases i,
{
    if i > 0 {
        assert(!(attrs[0] is IpAddr));
        let rest = attrs.skip(1);
        assert forall|k: int| 0 <= k < i - 1 implies !((#[trigger] rest[k]) is IpAddr) by {
            assert(rest[k] == attrs[k + 1]);
        }
        lemma_first_ip(rest, i - 1);
    }
}

proof fn lemma_first_prefix(attrs: Seq<AllowedIpAttr>, i: int)
    requires
        0 <= i < attrs.len(),
        attrs[i] is Cidr,
        forall|k: int| 0 <= k < i ==> !((#[trigger] attrs[k]) is Cidr),
    ensures
        interface::first_prefix(attrs) == Some(attrs[i]->Cidr_0),
    decreases i,
{
    if i > 0 {
        assert(!(attrs[0] is Cidr));
        let rest = attrs.skip(1);
        assert forall|k: int| 0 <= k < i - 1 implies !((#[trigger] rest[k]) is Cidr) by {
            assert(rest[k] == attrs[k + 1]);
        }
        lemma_first_prefix(rest, i - 1);
    }
}

/// A range that is complete stands among those that are read.
proof fn lemma_cidr_read(ranges: Seq<Vec<AllowedIpAttr>>, r: int)
    requires
        0 <= r < ranges.len(),
        interface::dumped_cidr(ranges[r]@) is Some,
    ensures
        interface::dumped_cidrs(ranges).contains(interface::dumped_cidr(ranges[r]@)->0),
    decreases ranges.len(),
{
    let n = ranges.len() - 1;
    let init = ranges.drop_last();
    let before = interface::dumped_cidrs(init);
    let all = interface::dumped_cidrs(ranges);
    if r == n {
        assert(all[before.len() as int] == interface::dumped_cidr(ranges[r]@)->0);
    } else {
        assert(init[r] == ranges[r]);
        lemma_cidr_read(init, r);
        let k = choose|k: int|
            0 <= k < before.len() && before[k] == interface::dumped_cidr(ranges[r]@)->0;
        assert(all[k] == before[k]);
    }
}

/// What is read is a range that is complete.
proof fn lemma_read_cidr(ranges: Seq<Vec<AllowedIpAttr>>, c: Seq<char>)
    requires
        interface::dumped_cidrs(ranges).contains(c),
    ensures
        exists|r: int|
            0 <= r < ranges.len() && interface::dumped_cidr((#[trigger] ranges[r])@) == Some(c),
    decreases ranges.len(),
{
    let all = interface::dumped_cidrs(ranges);
    let k = choose|k: int| 0 <= k < all.len() && all[k] == c;
    let n = ranges.len() - 1;
    let init = ranges.drop_last();
    let before = interface::dumped_cidrs(init);
    if k < before.len() {
        assert(before[k] == c);
        lemma_read_cidr(init, c);
        let r = choose|r: int|
            0 <= r < init.len() && interface::dumped_cidr((#[trigger] init[r])@) == Some(c);
        assert(ranges[r] == init[r]);
    } else {
        assert(interface::dumped_cidr(ranges[n]@) == Some(c));
    }
}

/// Law: every range of a dump entry's last list that has both an address and a prefix length is
/// among the peer's ranges, in text form.
pub proof fn dumped_range_is_read(
    attrs: Seq<DumpAttr>,
    peer: Peer,
    at: int,
    r: int,
    ip: int,
    prefix: int,
)
    requires
        interface::is_dumped(attrs, peer),
        0 <= at < attrs.len(),
        attrs[at] is AllowedIps,
        forall|k: int| at < k < attrs.len() ==> !((#[trigger] attrs[k]) is AllowedIps),
        0 <= r < attrs[at]->AllowedIps_0@.len(),
        0 <= ip < attrs[at]->AllowedIps_0@[r]@.len(),
        attrs[at]->AllowedIps_0@[r]@[ip] is IpAddr,
        forall|k: int| 0 <= k < ip ==> !((#[trigger] attrs[at]->AllowedIps_0@[r]@[k]) is IpAddr),
        0 <= prefix < attrs[at]->AllowedIps_0@[r]@.len(),
        attrs[at]->AllowedIps_0@[r]@[prefix] is Cidr,
        forall|k: int| 0 <= k < prefix ==> !((#[trigger] attrs[at]->AllowedIps_0@[r]@[k]) is Cidr),
    ensures
        text::texts(peer.allowed_ips@).contains(
            addr::ip_format(attrs[at]->AllowedIps_0@[r]@[ip]->IpAddr_0) + seq!['/']
                + text::decimal(attrs[at]->AllowedIps_0@[r]@[prefix]->Cidr_0 as int),
        ),
{
    let ranges = attrs[at]->AllowedIps_0@;
    lemma_dumped_ranges(attrs, at);
    lemma_first_ip(ranges[r]@, ip);
    lemma_first_prefix(ranges[r]@, prefix);
    lemma_cidr_read(ranges, r);
}

/// Law: every range of a peer read from a dump comes from the entry's last list, and a peer whose
/// entry lists none has none.
pub proof fn read_range_was_dumped(attrs: Seq<DumpAttr>, peer: Peer, at: int, c: Seq<char>)
    requires
        interface::is_dumped(attrs, peer),
        at < attrs.len(),
        at >= 0 ==> attrs[at] is AllowedIps,
        forall|k: int| 0 <= k < attrs.len() && k > at ==> !((#[trigger] attrs[k]) is AllowedIps),
        text::texts(peer.allowed_ips@).contains(c),
    ensures
        at >= 0,
        exists|r: int|
            0 <= r < attrs[at]->AllowedIps_0@.len() && interface::dumped_cidr(
                (#[trigger] attrs[at]->AllowedIps_0@[r])@,
            ) == Some(c),
{
    lemma_dumped_ranges(attrs, at);
    if at >= 0 {
        lemma_read_cidr(attrs[at]->AllowedIps_0@, c);
    }
}

/// The place of what entry `i` asks for.
proof fn lemma_desired_place(
    entries: Seq<PeerEntry>,
    lookups: Seq<Lookup>,
    previous: Seq<Peer>,
    n: int,
    out: Seq<Peer>,
    i: int,
) -> (k: int)
    requires
        0 <= i < n <= entries.len(),
        interface::are_desired(entries, lookups, previous, n, out),
        !(lookups[i] is Failed) || interface::has_key(previous, entries[i].public_key@),
    ensures
        0 <= k < out.len(),
        interface::is_desired(entries[i], lookups[i], previous, out[k]),
    decreases n,
{
    if i == n - 1 {
        out.len() - 1
    } else if lookups[n - 1] is Failed && !interface::has_key(
        previous,
        entries[n - 1].public_key@,
    ) {
        lemma_desired_place(entries, lookups, previous, n - 1, out, i)
    } else {
        let k = lemma_desired_place(entries, lookups, previous, n - 1, out.drop_last(), i);
        assert(out.drop_last()[k] == out[k]);
        k
    }
}

/// The entry that asks for what stands at `k`.
proof fn lemma_desired_from(
    entries: Seq<PeerEntry>,
    lookups: Seq<Lookup>,
    previous: Seq<Peer>,
    n: int,
    out: Seq<Peer>,
    k: int,
) -> (i: int)
    requires
        n <= entries.len(),
        interface::are_desired(entries, lookups, previous, n, out),
        0 <= k < out.len(),
    ensures
        0 <= i < n,
        interface::is_desired(entries[i], lookups[i], previous, out[k]),
    decreases n,
{
    if lookups[n - 1] is Failed && !interface::has_key(previous, entries[n - 1].public_key@) {
        lemma_desired_from(entries, lookups, previous, n - 1, out, k)
    } else if k == out.len() - 1 {
        n - 1
    } else {
        let i = lemma_desired_from(entries, lookups, previous, n - 1, out.drop_last(), k);
        assert(out.drop_last()[k] == out[k]);
        i
    }
}

/// The first peer of a key stands in the list.
proof fn lemma_first(peers: Seq<Peer>, key: Seq<char>) -> (q: int)
    requires
        interface::find_first(peers, key) is Some,
    ensures
        0 <= q < peers.len(),
        peers[q] == interface::find_first(peers, key)->0,
        peers[q].public_key@ == key,
        forall|j: int| 0 <= j < q ==> (#[trigger] peers[j]).public_key@ != key,
    decreases peers.len(),
{
    if peers[0].public_key@ == key {
        0
    } else {
        let rest = peers.skip(1);
        let q = lemma_first(rest, key) + 1;
        assert forall|j: int| 0 <= j < q implies (#[trigger] peers[j]).public_key@ != key by {
            if j > 0 {
                assert(rest[j - 1] == peers[j]);
            }
        }
        q
    }
}

/// Law: a config entry whose lookup succeeded is a desired peer, with the entry's key and flag and
/// the endpoint that was found. It has the entry's ranges, or where the entry has none, everything.
pub proof fn resolved_entry_is_desired(
    entries: Seq<PeerEntry>,
    lookups: Seq<Lookup>,
    previous: Seq<Peer>,
    out: Seq<Peer>,
    i: int,
    endpoint: Option<String>,
)
    requires
        interface::are_desired(entries, lookups, previous, entries.len() as int, out),
        0 <= i < entries.len(),
        lookups[i] == Lookup::Resolved(endpoint),
    ensures
        exists|k: int|
            {
                &&& 0 <= k < out.len()
                &&& (#[trigger] out[k]).public_key@ == entries[i].public_key@
                &&& text::text_opt(out[k].endpoint) == text::text_opt(endpoint)
                &&& out[k].advanced_security == entries[i].advanced_security
                &&& entries[i].allowed_ips is Some ==> text::texts(out[k].allowed_ips@)
                    == text::texts(entries[i].allowed_ips->0@)
                &&& entries[i].allowed_ips is None ==> text::texts(out[k].allowed_ips@) == seq![
                    "0.0.0.0/0"@,
                    "::/0"@,
                ]
            },
{
    let k = lemma_desired_place(entries, lookups, previous, entries.len() as int, out, i);
    assert(interface::is_desired(entries[i], lookups[i], previous, out[k]));
}

/// Law: a config entry whose lookup failed is desired as the kernel has it, in every field, where
/// the kernel has it at all.
pub proof fn failed_lookup_keeps_the_peer(
    entries: Seq<PeerEntry>,
    lookups: Seq<Lookup>,
    previous: Seq<Peer>,
    out: Seq<Peer>,
    i: int,
    q: int,
)
    requires
        interface::are_desired(entries, lookups, previous, entries.len() as int, out),
        0 <= i < entries.len(),
        lookups[i] is Failed,
        0 <= q < previous.len(),
        previous[q].public_key@ == entries[i].public_key@,
        forall|j: int|
            0 <= j < q ==> (#[trigger] previous[j]).public_key@ != entries[i].public_key@,
    ensures
        exists|k: int|
            {
                &&& 0 <= k < out.len()
                &&& (#[trigger] out[k]).public_key@ == previous[q].public_key@
                &&& text::text_opt(out[k].endpoint) == text::text_opt(previous[q].endpoint)
                &&& out[k].advanced_security == previous[q].advanced_security
                &&& text::texts(out[k].allowed_ips@) == text::texts(previous[q].allowed_ips@)
            },
{
    let k = lemma_desired_place(entries, lookups, previous, entries.len() as int, out, i);
    let first = lemma_first(previous, entries[i].public_key@);
    assert(first == q);
}

/// Law: every desired peer has a config entry of its key, whose lookup succeeded or which the
/// kernel already has.
pub proof fn desired_peer_is_configured(
    entries: Seq<PeerEntry>,
    lookups: Seq<Lookup>,
    previous: Seq<Peer>,
    out: Seq<Peer>,
    k: int,
)
    requires
        interface::are_desired(entries, lookups, previous, entries.len() as int, out),
        0 <= k < out.len(),
    ensures
        exists|i: int|
            0 <= i < entries.len() && (#[trigger] entries[i]).public_key@ == out[k].public_key@ && (
            lookups[i] is Failed ==> exists|q: int|
                0 <= q < previous.len() && (#[trigger] previous[q]).public_key@
                    == out[k].public_key@),
{
    let i = lemma_desired_from(entries, lookups, previous, entries.len() as int, out, k);
    if lookups[i] is Failed {
        let q = lemma_first(previous, entries[i].public_key@);
        assert(previous[q].public_key@ == out[k].public_key@);
    }
    assert(entries[i].public_key@ == out[k].public_key@);
}

/// An entry that has a key stands among those that have one.
proof fn lemma_keyed(dump: Seq<Vec<DumpAttr>>, d: int) -> (j: int)
    requires
        0 <= d < dump.len(),
        interface::dumped_key(dump[d]@) is Some,
    ensures
        0 <= j < interface::keyed(dump).len(),
        interface::keyed(dump)[j] == dump[d],
    decreases dump.len(),
{
    reveal(Seq::filter);
    let init = dump.drop_last();
    let before = interface::keyed(init);
    if d == dump.len() - 1 {
        before.len() as int
    } else {
        assert(init[d] == dump[d]);
        let j = lemma_keyed(init, d);
        assert(interface::keyed(dump)[j] == before[j]);
        j
    }
}

/// Law: every entry of a dump that has a key is one of the peers that the kernel is taken to have,
/// and there are as many peers as such entries.
pub proof fn every_dumped_peer_is_current(
    dump: Seq<Vec<DumpAttr>>,
    unsorted: Seq<Peer>,
    peers: Seq<Peer>,
    d: int,
)
    requires
        interface::are_current(dump, unsorted, peers),
        0 <= d < dump.len(),
        interface::dumped_key(dump[d]@) is Some,
    ensures
        exists|k: int| 0 <= k < peers.len() && interface::is_dumped(dump[d]@, #[trigger] peers[k]),
        peers.len() == dump.filter(
            |attrs: Vec<DumpAttr>| interface::dumped_key(attrs@) is Some,
        ).len(),
{
    let j = lemma_keyed(dump, d);
    unsorted.to_multiset_ensures();
    peers.to_multiset_ensures();
    assert(unsorted.contains(unsorted[j]));
    assert(peers.to_multiset().count(unsorted[j]) > 0);
    assert(peers.contains(unsorted[j]));
    let k = choose|k: int| 0 <= k < peers.len() && peers[k] == unsorted[j];
    assert(interface::is_dumped(dump[d]@, peers[k]));
}

} // verus!
