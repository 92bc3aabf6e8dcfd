//! The kernel's peer table, as far as requests act on it, and what the requests of a sync leave in
//! it.

use crate::awg::config;
use crate::awg::interface;
use crate::awg::interface::Peer;
use crate::common::addr;
use crate::common::addr::SocketAddr;
use crate::common::cidr;
use crate::common::keys;
use crate::common::keys::KeyError;
use crate::common::netlink::awg::AllowedIp;
use crate::common::netlink::awg::PeerAttr;
use crate::text;
use vstd::prelude::*;

verus! {

/// What the kernel holds of one peer.
pub struct KernelPeer {
    pub ranges: Set<AllowedIp>,
    pub endpoint: Option<SocketAddr>,
    pub advanced_security: bool,
    /// Seconds, where keepalives are sent.
    pub keepalive: Option<u32>,
}

/// The peers of a device by public key.
pub type PeerTable = Map<[u8; 32], KernelPeer>;

/// A peer that nothing is set of yet.
pub open spec fn new_peer() -> KernelPeer {
    KernelPeer {
        ranges: Set::empty(),
        endpoint: None,
        advanced_security: false,
        keepalive: None,
    }
}

/// The key that a request is about.
pub open spec fn request_key(attrs: Seq<PeerAttr>) -> [u8; 32]
    decreases attrs.len(),
{
    if attrs.len() == 0 {
        arbitrary()
    } else {
        match attrs.last() {
            PeerAttr::PublicKey(k) => k,
            _ => request_key(attrs.drop_last()),
        }
    }
}

/// The flags of a request.
pub open spec fn request_flags(attrs: Seq<PeerAttr>) -> u32
    decreases attrs.len(),
{
    if attrs.len() == 0 {
        0
    } else {
        match attrs.last() {
            PeerAttr::Flags(f) => f,
            _ => request_flags(attrs.drop_last()),
        }
    }
}

/// What the other attributes of a request do to a peer, one after the other.
pub open spec fn set_attrs(p: KernelPeer, attrs: Seq<PeerAttr>) -> KernelPeer
    decreases attrs.len(),
{
    if attrs.len() == 0 {
        p
    } else {
        let before = set_attrs(p, attrs.drop_last());
        match attrs.last() {
            PeerAttr::AllowedIps(v) => KernelPeer {
                ranges: before.ranges.union(v@.to_set()),
                ..before
            },
            PeerAttr::AdvancedSecurity => KernelPeer { advanced_security: true, ..before },
            PeerAttr::Endpoint(a) => KernelPeer { endpoint: Some(a), ..before },
            PeerAttr::PersistentKeepaliveRange(s) => KernelPeer { keepalive: Some(s), ..before },
            _ => before,
        }
    }
}

/// What a request makes of a table. Bit 0 of the flags takes the peer out. Bit 1 drops the ranges
/// that it had, and bit 3 says that advanced security is as the request has it.
pub open spec fn take(table: PeerTable, attrs: Seq<PeerAttr>) -> PeerTable {
    let key = request_key(attrs);
    let flags = request_flags(attrs);
    let had = if table.dom().contains(key) {
        table[key]
    } else {
        new_peer()
    };
    let start = KernelPeer {
        ranges: if flags / 2 % 2 == 1 {
            Set::empty()
        } else {
            had.ranges
        },
        advanced_security: flags / 8 % 2 == 0 && had.advanced_security,
        ..had
    };
    if flags % 2 == 1 {
        table.remove(key)
    } else {
        table.insert(key, set_attrs(start, attrs))
    }
}

/// What requests make of a table, one after the other.
pub open spec fn take_all(table: PeerTable, requests: Seq<Vec<PeerAttr>>) -> PeerTable
    decreases requests.len(),
{
    if requests.len() == 0 {
        table
    } else {
        take(take_all(table, requests.drop_last()), requests.last()@)
    }
}

/// Attributes that name no key and no flags change neither behind others, and act behind them.
proof fn lemma_behind(p: KernelPeer, head: Seq<PeerAttr>, tail: Seq<PeerAttr>)
    requires
        forall|i: int|
            0 <= i < tail.len() ==> !((#[trigger] tail[i]) is PublicKey) && !(tail[i] is Flags),
    ensures
        request_key(head + tail) == request_key(head),
        request_flags(head + tail) == request_flags(head),
        set_attrs(p, head + tail) == set_attrs(set_attrs(p, head), tail),
    decreases tail.len(),
{
    if tail.len() == 0 {
        assert(head + tail =~= head);
    } else {
        let init = tail.drop_last();
        assert((head + tail).drop_last() =~= head + init);
        assert((head + tail).last() == tail[tail.len() - 1]);
        assert forall|i: int| 0 <= i < init.len() implies !((#[trigger] init[i]) is PublicKey) && !(
        init[i] is Flags) by {
            assert(init[i] == tail[i]);
        }
        lemma_behind(p, head, init);
    }
}

/// What the first three attributes of a request for a peer come to.
proof fn lemma_head(p: KernelPeer, head: Seq<PeerAttr>)
    requires
        head.len() == 3,
        head[0] is PublicKey,
        head[1] is Flags,
        head[2] is AllowedIps,
    ensures
        request_key(head) == head[0]->PublicKey_0,
        request_flags(head) == head[1]->Flags_0,
        set_attrs(p, head) == (KernelPeer {
            ranges: p.ranges.union(head[2]->AllowedIps_0@.to_set()),
            ..p
        }),
{
    reveal_with_fuel(request_key, 4);
    reveal_with_fuel(request_flags, 4);
    reveal_with_fuel(set_attrs, 4);
    let two = head.drop_last();
    assert(two.last() == head[1]);
    assert(two.drop_last().last() == head[0]);
    assert(two.drop_last().drop_last().len() == 0);
}

/// What the attributes behind them come to.
proof fn lemma_tail(p: KernelPeer, peer: Peer)
    ensures
        set_attrs(p, interface::trailing_attrs(peer)) == (KernelPeer {
            ranges: p.ranges,
            advanced_security: p.advanced_security || peer.advanced_security,
            endpoint: match peer.endpoint {
                Some(e) => match addr::socket_text(e@) {
                    Some(a) => Some(a),
                    None => p.endpoint,
                },
                None => p.endpoint,
            },
            keepalive: match peer.endpoint {
                Some(e) => match addr::socket_text(e@) {
                    Some(a) => Some(25u32),
                    None => p.keepalive,
                },
                None => p.keepalive,
            },
        }),
{
    let tail = interface::trailing_attrs(peer);
    reveal_with_fuel(set_attrs, 4);
    if tail.len() > 1 {
        assert(tail.drop_last().last() == tail[tail.len() - 2]);
    }
    if tail.len() > 2 {
        assert(tail.drop_last().drop_last().last() == tail[0]);
    }
}

/// What a request for a peer makes of a table.
proof fn lemma_request(
    table: PeerTable,
    op: (String, Option<Peer>),
    attrs: Seq<PeerAttr>,
    key: [u8; 32],
    peer: Peer,
)
    requires
        interface::is_request(op, attrs),
        op.1 == Some(peer),
        keys::key_of(op.0@) == Ok::<[u8; 32], KeyError>(key),
    ensures
        ({
            let had = if table.dom().contains(key) {
                table[key]
            } else {
                new_peer()
            };
            let start = KernelPeer { ranges: Set::empty(), advanced_security: false, ..had };
            let ranged = KernelPeer {
                ranges: start.ranges.union(
                    interface::parsed_ranges(peer.allowed_ips@).to_set(),
                ),
                ..start
            };
            take(table, attrs) == table.insert(
                key,
                set_attrs(ranged, interface::trailing_attrs(peer)),
            )
        }),
{
    let head = attrs.take(3);
    let tail = attrs.skip(3);
    assert(attrs =~= head + tail);
    let had = if table.dom().contains(key) {
        table[key]
    } else {
        new_peer()
    };
    let start = KernelPeer { ranges: Set::empty(), advanced_security: false, ..had };
    lemma_behind(start, head, tail);
    lemma_head(start, head);
    assert(head[1] == attrs[1]);
}

/// What was parsed of ranges, by what their texts say.
proof fn lemma_parsed(ips: Seq<String>, a: AllowedIp)
    requires
        config::all_cidrs(ips),
    ensures
        interface::parsed_ranges(ips).to_set().contains(a) <==> exists|i: int|
            0 <= i < ips.len() && cidr::cidr_text((#[trigger] ips[i])@) == Ok::<
                (addr::IpAddr, u8),
                cidr::CidrError,
            >((a.addr, a.prefix)),
{
    let parsed = interface::parsed_ranges(ips);
    if parsed.to_set().contains(a) {
        let i = choose|i: int| 0 <= i < parsed.len() && parsed[i] == a;
        assert(cidr::cidr_text(ips[i]@) is Ok);
    }
    if exists|i: int|
        0 <= i < ips.len() && cidr::cidr_text((#[trigger] ips[i])@) == Ok::<
            (addr::IpAddr, u8),
            cidr::CidrError,
        >((a.addr, a.prefix)) {
        let i = choose|i: int|
            0 <= i < ips.len() && cidr::cidr_text((#[trigger] ips[i])@) == Ok::<
                (addr::IpAddr, u8),
                cidr::CidrError,
            >((a.addr, a.prefix));
        assert(parsed[i] == a);
        assert(parsed.contains(a));
    }
}

/// Law: the request that takes a peer out leaves every other peer as it was, and this one out.
pub proof fn removal_takes_the_peer_out(
    table: PeerTable,
    op: (String, Option<Peer>),
    attrs: Seq<PeerAttr>,
)
    requires
        interface::sendable(op),
        interface::is_request(op, attrs),
        op.1 is None,
    ensures
        take(table, attrs) == table.remove(keys::key_of(op.0@)->Ok_0),
{
    reveal_with_fuel(request_key, 3);
    reveal_with_fuel(request_flags, 3);
    assert(attrs.drop_last().last() == attrs[0]);
}

/// Law: the request for a peer leaves every other peer as it was. This one has the ranges of the
/// peer and no others, and advanced security exactly where the peer has it. Where the peer's
/// endpoint can be read, that is its endpoint, and a keepalive goes out every 25 seconds; else both
/// are as they were.
pub proof fn request_sets_the_peer(
    table: PeerTable,
    op: (String, Option<Peer>),
    attrs: Seq<PeerAttr>,
    key: [u8; 32],
    peer: Peer,
)
    requires
        interface::sendable(op),
        interface::is_request(op, attrs),
        op.1 == Some(peer),
        keys::key_of(op.0@) == Ok::<[u8; 32], KeyError>(key),
    ensures
        take(table, attrs).dom() == table.dom().insert(key),
        forall|k: [u8; 32]| k != key ==> #[trigger] take(table, attrs)[k] == table[k],
        take(table, attrs)[key].advanced_security == peer.advanced_security,
        forall|a: AllowedIp| #[trigger]
            take(table, attrs)[key].ranges.contains(a) <==> exists|i: int|
                0 <= i < peer.allowed_ips@.len() && cidr::cidr_text(
                    (#[trigger] peer.allowed_ips@[i])@,
                ) == Ok::<(addr::IpAddr, u8), cidr::CidrError>((a.addr, a.prefix)),
        peer.endpoint is Some && addr::socket_text(peer.endpoint->0@) is Some ==> take(
            table,
            attrs,
        )[key].endpoint == addr::socket_text(peer.endpoint->0@) && take(table, attrs)[key].keepalive
            == Some(25u32),
        peer.endpoint is None || addr::socket_text(peer.endpoint->0@) is None ==> take(
            table,
            attrs,
        )[key].endpoint == (if table.dom().contains(key) {
            table[key].endpoint
        } else {
            None
        }) && take(table, attrs)[key].keepalive == (if table.dom().contains(key) {
            table[key].keepalive
        } else {
            None
        }),
{
    lemma_request(table, op, attrs, key, peer);
    let had = if table.dom().contains(key) {
        table[key]
    } else {
        new_peer()
    };
    let start = KernelPeer { ranges: Set::empty(), advanced_security: false, ..had };
    let parsed = interface::parsed_ranges(peer.allowed_ips@).to_set();
    let ranged = KernelPeer { ranges: start.ranges.union(parsed), ..start };
    lemma_tail(ranged, peer);
    let after = take(table, attrs);
    assert(after[key].ranges =~= parsed);
    assert forall|a: AllowedIp| #[trigger] after[key].ranges.contains(a) <==> exists|i: int|
        0 <= i < peer.allowed_ips@.len() && cidr::cidr_text((#[trigger] peer.allowed_ips@[i])@)
            == Ok::<(addr::IpAddr, u8), cidr::CidrError>((a.addr, a.prefix)) by {
        lemma_parsed(peer.allowed_ips@, a);
    }
}

/// A peer with no other of its key behind it is the one that counts.
proof fn lemma_last(peers: Seq<Peer>, i: int)
    requires
        0 <= i < peers.len(),
        forall|j: int|
            i < j < peers.len() ==> (#[trigger] peers[j]).public_key@ != peers[i].public_key@,
    ensures
        interface::find_last(peers, peers[i].public_key@) == Some(peers[i]),
        interface::has_key(peers, peers[i].public_key@),
{
    assert(peers[i].public_key@ == peers[i].public_key@);
    lemma_last_in(peers, peers.len() as int, i);
    assert(peers.take(peers.len() as int) =~= peers);
}

proof fn lemma_last_in(peers: Seq<Peer>, n: int, i: int)
    requires
        0 <= i < n <= peers.len(),
        forall|j: int|
            i < j < peers.len() ==> (#[trigger] peers[j]).public_key@ != peers[i].public_key@,
    ensures
        interface::find_last(peers.take(n), peers[i].public_key@) == Some(peers[i]),
    decreases n,
{
    assert(peers.take(n).last() == peers[n - 1]);
    if i < n - 1 {
        assert(peers[n - 1].public_key@ != peers[i].public_key@);
        assert(peers.take(n).drop_last() =~= peers.take(n - 1));
        lemma_last_in(peers, n - 1, i);
    }
}

/// A key that is found, or not, in a list.
proof fn lemma_found(peers: Seq<Peer>, key: Seq<char>)
    ensures
        interface::find_last(peers, key) is Some <==> interface::has_key(peers, key),
        interface::find_last(peers, key) matches Some(p) ==> exists|i: int|
            0 <= i < peers.len() && #[trigger] peers[i] == p && p.public_key@ == key,
    decreases peers.len(),
{
    if peers.len() > 0 {
        let init = peers.drop_last();
        lemma_found(init, key);
        if peers.last().public_key@ == key {
            assert(peers[peers.len() - 1].public_key@ == key);
        } else {
            if interface::has_key(peers, key) {
                let i = choose|i: int|
                    0 <= i < peers.len() && (#[trigger] peers[i]).public_key@ == key;
                assert(init[i].public_key@ == key);
            }
            if interface::find_last(init, key) is Some {
                let p = interface::find_last(init, key)->0;
                let i = choose|i: int|
                    0 <= i < init.len() && #[trigger] init[i] == p && p.public_key@ == key;
                assert(peers[i] == p);
            }
        }
    }
}

/// Nothing is left out of a list whose operations can all be sent.
proof fn lemma_all_sent(ops: Seq<(String, Option<Peer>)>)
    requires
        forall|j: int| 0 <= j < ops.len() ==> interface::sendable(#[trigger] ops[j]),
    ensures
        ops.filter(|op: (String, Option<Peer>)| interface::sendable(op)) == ops,
    decreases ops.len(),
{
    reveal(Seq::filter);
    if ops.len() > 0 {
        let init = ops.drop_last();
        assert forall|j: int| 0 <= j < init.len() implies interface::sendable(
            #[trigger] init[j],
        ) by {
            assert(init[j] == ops[j]);
        }
        lemma_all_sent(init);
        assert(interface::sendable(ops[ops.len() - 1]));
        assert(init.push(ops.last()) =~= ops);
    }
}

/// A request is about the key of its operation.
proof fn lemma_request_key(op: (String, Option<Peer>), attrs: Seq<PeerAttr>)
    requires
        interface::is_request(op, attrs),
    ensures
        request_key(attrs) == keys::key_of(op.0@)->Ok_0,
{
    match op.1 {
        Some(peer) => {
            assert(attrs =~= attrs.take(3) + attrs.skip(3));
            lemma_behind(new_peer(), attrs.take(3), attrs.skip(3));
            lemma_head(new_peer(), attrs.take(3));
        },
        None => {
            reveal_with_fuel(request_key, 3);
            assert(attrs.drop_last().last() == attrs[0]);
        },
    }
}

/// Requests about other keys leave a key alone.
proof fn lemma_untouched(
    table: PeerTable,
    ops: Seq<(String, Option<Peer>)>,
    requests: Seq<Vec<PeerAttr>>,
    from: int,
    to: int,
    key: [u8; 32],
)
    requires
        0 <= from <= to <= ops.len(),
        requests.len() == ops.len(),
        forall|j: int| 0 <= j < ops.len() ==> interface::is_request(ops[j], (#[trigger] requests[j])@),
        forall|j: int| from <= j < to ==> keys::key_of((#[trigger] ops[j]).0@)->Ok_0 != key,
    ensures
        ({
            let a = take_all(table, requests.take(from));
            let b = take_all(table, requests.take(to));
            (a.dom().contains(key) <==> b.dom().contains(key)) && a[key] == b[key]
        }),
    decreases to - from,
{
    if from < to {
        lemma_untouched(table, ops, requests, from, to - 1, key);
        assert(requests.take(to).drop_last() =~= requests.take(to - 1));
        assert(requests.take(to).last() == requests[to - 1]);
        lemma_request_key(ops[to - 1], requests[to - 1]@);
    }
}

/// What the one request about a key does to it is what all of them together do.
proof fn lemma_one_request(
    table: PeerTable,
    ops: Seq<(String, Option<Peer>)>,
    requests: Seq<Vec<PeerAttr>>,
    at: int,
    key: [u8; 32],
)
    requires
        0 <= at < ops.len(),
        requests.len() == ops.len(),
        forall|j: int| 0 <= j < ops.len() ==> interface::is_request(ops[j], (#[trigger] requests[j])@),
        forall|j: int|
            0 <= j < ops.len() && j != at ==> keys::key_of((#[trigger] ops[j]).0@)->Ok_0 != key,
    ensures
        ({
            let start = take_all(table, requests.take(at));
            let a = take(start, requests[at]@);
            let b = take_all(table, requests);
            &&& start.dom().contains(key) <==> table.dom().contains(key)
            &&& start[key] == table[key]
            &&& a.dom().contains(key) <==> b.dom().contains(key)
            &&& a[key] == b[key]
        }),
{
    lemma_untouched(table, ops, requests, 0, at, key);
    assert(requests.take(0) =~= Seq::empty());
    lemma_untouched(table, ops, requests, at + 1, ops.len() as int, key);
    assert(requests.take(at + 1).drop_last() =~= requests.take(at));
    assert(requests.take(at + 1).last() == requests[at]);
    assert(requests.take(ops.len() as int) =~= requests);
}

/// The operations of a difference have distinct keys, each of one side or the other.
proof fn lemma_ops(
    previous: Seq<Peer>,
    desired: Seq<Peer>,
    ops: Seq<(String, Option<Peer>)>,
    n: int,
)
    requires
        interface::is_diff(previous, desired, ops, n),
    ensures
        forall|i: int, j: int|
            0 <= i < j < ops.len() ==> (#[trigger] ops[i]).0@ != (#[trigger] ops[j]).0@,
        forall|i: int|
            0 <= i < n ==> interface::needs_update(previous, desired, (#[trigger] ops[i]).0@),
        forall|i: int|
            n <= i < ops.len() ==> interface::needs_removal(
                previous,
                desired,
                (#[trigger] ops[i]).0@,
            ),
{
    let all = interface::op_keys(ops);
    let sent = all.take(n);
    let removed = all.skip(n);
    assert forall|i: int| 0 <= i < n implies interface::needs_update(
        previous,
        desired,
        (#[trigger] ops[i]).0@,
    ) by {
        assert(sent[i] == ops[i].0@);
        assert(sent.contains(ops[i].0@));
    }
    assert forall|i: int| n <= i < ops.len() implies interface::needs_removal(
        previous,
        desired,
        (#[trigger] ops[i]).0@,
    ) by {
        assert(removed[i - n] == ops[i].0@);
        assert(removed.contains(ops[i].0@));
    }
    assert forall|i: int, j: int| 0 <= i < j < ops.len() implies (#[trigger] ops[i]).0@ != (
    #[trigger] ops[j]).0@ by {
        if j < n {
            assert(text::lex_lt(sent[i], sent[j]));
            text::lemma_lex_irreflexive(sent[i]);
        } else if i >= n {
            assert(text::lex_lt(removed[i - n], removed[j - n]));
            text::lemma_lex_irreflexive(removed[i - n]);
        } else {
            lemma_found(desired, ops[i].0@);
        }
    }
}

/// Where everything can be read, every operation of a difference can be sent.
proof fn lemma_sendable(
    previous: Seq<Peer>,
    desired: Seq<Peer>,
    ops: Seq<(String, Option<Peer>)>,
    n: int,
    j: int,
)
    requires
        interface::is_diff(previous, desired, ops, n),
        forall|i: int| 0 <= i < previous.len() ==> keys::key_of(
            (#[trigger] previous[i]).public_key@,
        ) is Ok,
        forall|i: int|
            0 <= i < desired.len() ==> keys::key_of((#[trigger] desired[i]).public_key@) is Ok
                && config::all_cidrs(desired[i].allowed_ips@),
        0 <= j < ops.len(),
    ensures
        interface::sendable(ops[j]),
{
    lemma_ops(previous, desired, ops, n);
    let key = ops[j].0@;
    if j < n {
        lemma_found(desired, key);
        let want = interface::find_last(desired, key)->0;
        let q = choose|q: int|
            0 <= q < desired.len() && #[trigger] desired[q] == want && want.public_key@ == key;
        assert(config::all_cidrs(desired[q].allowed_ips@));
        let sent = ops[j].1->0.allowed_ips@;
        assert forall|x: int| 0 <= x < sent.len() implies cidr::cidr_text(
            (#[trigger] sent[x])@,
        ) is Ok by {
            assert(text::texts(sent)[x] == text::texts(want.allowed_ips@)[x]);
            assert(cidr::cidr_text(want.allowed_ips@[x]@) is Ok);
        }
    } else {
        let q = choose|q: int|
            0 <= q < previous.len() && (#[trigger] previous[q]).public_key@ == key;
        assert(keys::key_of(previous[q].public_key@) is Ok);
    }
}

/// The texts of two lists say the same of a range.
proof fn lemma_same_texts(a: Seq<String>, b: Seq<String>, r: AllowedIp)
    requires
        forall|t: Seq<char>| #[trigger] text::texts(a).contains(t) ==> text::texts(b).contains(t),
        exists|i: int|
            0 <= i < a.len() && cidr::cidr_text((#[trigger] a[i])@) == Ok::<
                (addr::IpAddr, u8),
                cidr::CidrError,
            >((r.addr, r.prefix)),
    ensures
        exists|i: int|
            0 <= i < b.len() && cidr::cidr_text((#[trigger] b[i])@) == Ok::<
                (addr::IpAddr, u8),
                cidr::CidrError,
            >((r.addr, r.prefix)),
{
    let i = choose|i: int|
        0 <= i < a.len() && cidr::cidr_text((#[trigger] a[i])@) == Ok::<
            (addr::IpAddr, u8),
            cidr::CidrError,
        >((r.addr, r.prefix));
    let t = a[i]@;
    assert(text::texts(a)[i] == t);
    assert(text::texts(a).contains(t));
    let j = choose|j: int| 0 <= j < text::texts(b).len() && text::texts(b)[j] == t;
    assert(b[j]@ == t);
}

/// Law: the requests of a sync turn a table that holds the previous peers into one that holds the
/// desired ones. A desired peer is there afterwards, with its ranges and no others and with
/// advanced security exactly where it is asked for; where its endpoint can be read, that is the
/// endpoint. Of several peers with one key the last counts. Every key and range must be readable,
/// and no key may be written in two ways.
pub proof fn sync_gives_the_desired_peers(
    previous: Seq<Peer>,
    desired: Seq<Peer>,
    ops: Seq<(String, Option<Peer>)>,
    requests: Seq<Vec<PeerAttr>>,
    table: PeerTable,
    i: int,
)
    requires
        interface::are_diff(previous, desired, ops),
        interface::are_requests(ops, requests),
        forall|q: int| 0 <= q < previous.len() ==> keys::key_of(
            (#[trigger] previous[q]).public_key@,
        ) is Ok,
        forall|q: int|
            0 <= q < desired.len() ==> keys::key_of((#[trigger] desired[q]).public_key@) is Ok
                && config::all_cidrs(desired[q].allowed_ips@),
        forall|a: Seq<char>, b: Seq<char>|
            (interface::has_key(previous, a) || interface::has_key(desired, a)) && (
            interface::has_key(previous, b) || interface::has_key(desired, b)) && (
            #[trigger] keys::key_of(a)) == (#[trigger] keys::key_of(b)) ==> a == b,
        forall|q: int|
            0 <= q < previous.len() && (forall|j: int|
                q < j < previous.len() ==> (#[trigger] previous[j]).public_key@
                    != previous[q].public_key@) ==> {
                let key = keys::key_of((#[trigger] previous[q]).public_key@)->Ok_0;
                &&& table.dom().contains(key)
                &&& table[key].advanced_security == previous[q].advanced_security
                &&& previous[q].endpoint is Some && addr::socket_text(
                    previous[q].endpoint->0@,
                ) is Some ==> table[key].endpoint == addr::socket_text(previous[q].endpoint->0@)
                &&& forall|a: AllowedIp| #[trigger]
                    table[key].ranges.contains(a) <==> exists|x: int|
                        0 <= x < previous[q].allowed_ips@.len() && cidr::cidr_text(
                            (#[trigger] previous[q].allowed_ips@[x])@,
                        ) == Ok::<(addr::IpAddr, u8), cidr::CidrError>((a.addr, a.prefix))
            },
        0 <= i < desired.len(),
        forall|j: int|
            i < j < desired.len() ==> (#[trigger] desired[j]).public_key@
                != desired[i].public_key@,
    ensures
        ({
            let key = keys::key_of(desired[i].public_key@)->Ok_0;
            let after = take_all(table, requests);
            &&& after.dom().contains(key)
            &&& after[key].advanced_security == desired[i].advanced_security
            &&& desired[i].endpoint is Some && addr::socket_text(desired[i].endpoint->0@) is Some
                ==> after[key].endpoint == addr::socket_text(desired[i].endpoint->0@)
            &&& forall|a: AllowedIp| #[trigger]
                after[key].ranges.contains(a) <==> exists|x: int|
                    0 <= x < desired[i].allowed_ips@.len() && cidr::cidr_text(
                        (#[trigger] desired[i].allowed_ips@[x])@,
                    ) == Ok::<(addr::IpAddr, u8), cidr::CidrError>((a.addr, a.prefix))
        }),
{
    let n = choose|n: int| #[trigger] interface::is_diff(previous, desired, ops, n);
    lemma_ops(previous, desired, ops, n);
    assert forall|j: int| 0 <= j < ops.len() implies interface::sendable(#[trigger] ops[j]) by {
        lemma_sendable(previous, desired, ops, n, j);
    }
    lemma_all_sent(ops);
    let name = desired[i].public_key@;
    let key = keys::key_of(name)->Ok_0;
    let want = desired[i];
    lemma_last(desired, i);
    let after = take_all(table, requests);
    lemma_other_keys(previous, desired, ops, n, name);
    if interface::needs_update(previous, desired, name) {
        let sent = interface::op_keys(ops).take(n);
        assert(sent.contains(name));
        let at = choose|at: int| 0 <= at < sent.len() && sent[at] == name;
        assert(ops[at].0@ == name);
        lemma_one_request(table, ops, requests, at, key);
        let start = take_all(table, requests.take(at));
        let peer = ops[at].1->0;
        request_sets_the_peer(start, ops[at], requests[at]@, key, peer);
        assert(take(start, requests[at]@).dom().contains(key));
        assert(text::text_opt(peer.endpoint) == text::text_opt(want.endpoint));
        assert forall|a: AllowedIp| #[trigger] after[key].ranges.contains(a) <==> exists|x: int|
            0 <= x < want.allowed_ips@.len() && cidr::cidr_text(
                (#[trigger] want.allowed_ips@[x])@,
            ) == Ok::<(addr::IpAddr, u8), cidr::CidrError>((a.addr, a.prefix)) by {
            let made = take(start, requests[at]@)[key].ranges;
            assert(after[key].ranges == made);
            if made.contains(a) {
                lemma_same_texts(peer.allowed_ips@, want.allowed_ips@, a);
            }
            if exists|x: int|
                0 <= x < want.allowed_ips@.len() && cidr::cidr_text(
                    (#[trigger] want.allowed_ips@[x])@,
                ) == Ok::<(addr::IpAddr, u8), cidr::CidrError>((a.addr, a.prefix)) {
                lemma_same_texts(want.allowed_ips@, peer.allowed_ips@, a);
            }
        }
    } else {
        lemma_untouched(table, ops, requests, 0, ops.len() as int, key);
        assert(requests.take(0) =~= Seq::empty());
        assert(requests.take(ops.len() as int) =~= requests);
        lemma_last_found(previous, name);
        let q = choose|q: int|
            0 <= q < previous.len() && #[trigger] previous[q] == interface::find_last(
                previous,
                name,
            )->0 && previous[q].public_key@ == name && (forall|j: int|
                q < j < previous.len() ==> (#[trigger] previous[j]).public_key@ != name);
        let had = previous[q];
        assert(interface::unchanged(had, want));
        assert forall|a: AllowedIp| #[trigger] after[key].ranges.contains(a) <==> exists|x: int|
            0 <= x < want.allowed_ips@.len() && cidr::cidr_text(
                (#[trigger] want.allowed_ips@[x])@,
            ) == Ok::<(addr::IpAddr, u8), cidr::CidrError>((a.addr, a.prefix)) by {
            assert(after[key].ranges == table[key].ranges);
            if table[key].ranges.contains(a) {
                lemma_same_texts(had.allowed_ips@, want.allowed_ips@, a);
            }
            if exists|x: int|
                0 <= x < want.allowed_ips@.len() && cidr::cidr_text(
                    (#[trigger] want.allowed_ips@[x])@,
                ) == Ok::<(addr::IpAddr, u8), cidr::CidrError>((a.addr, a.prefix)) {
                lemma_same_texts(want.allowed_ips@, had.allowed_ips@, a);
            }
        }
    }
}

/// Which peer counts, with its place.
proof fn lemma_last_found(peers: Seq<Peer>, key: Seq<char>)
    requires
        interface::find_last(peers, key) is Some,
    ensures
        exists|q: int|
            0 <= q < peers.len() && #[trigger] peers[q] == interface::find_last(peers, key)->0
                && peers[q].public_key@ == key && (forall|j: int|
                q < j < peers.len() ==> (#[trigger] peers[j]).public_key@ != key),
    decreases peers.len(),
{
    let n = peers.len() - 1;
    if peers.last().public_key@ == key {
        assert(peers[n].public_key@ == key);
    } else {
        let init = peers.drop_last();
        lemma_last_found(init, key);
        let q = choose|q: int|
            0 <= q < init.len() && #[trigger] init[q] == interface::find_last(init, key)->0
                && init[q].public_key@ == key && (forall|j: int|
                q < j < init.len() ==> (#[trigger] init[j]).public_key@ != key);
        assert(peers[q] == init[q]);
        assert forall|j: int| q < j < peers.len() implies (#[trigger] peers[j]).public_key@
            != key by {
            if j < n {
                assert(init[j] == peers[j]);
            }
        }
    }
}

/// An operation under another name is about another key.
proof fn lemma_other_keys(
    previous: Seq<Peer>,
    desired: Seq<Peer>,
    ops: Seq<(String, Option<Peer>)>,
    n: int,
    name: Seq<char>,
)
    requires
        interface::is_diff(previous, desired, ops, n),
        forall|q: int| 0 <= q < previous.len() ==> keys::key_of(
            (#[trigger] previous[q]).public_key@,
        ) is Ok,
        forall|q: int|
            0 <= q < desired.len() ==> keys::key_of((#[trigger] desired[q]).public_key@) is Ok
                && config::all_cidrs(desired[q].allowed_ips@),
        forall|a: Seq<char>, b: Seq<char>|
            (interface::has_key(previous, a) || interface::has_key(desired, a)) && (
            interface::has_key(previous, b) || interface::has_key(desired, b)) && (
            #[trigger] keys::key_of(a)) == (#[trigger] keys::key_of(b)) ==> a == b,
        interface::has_key(previous, name) || interface::has_key(desired, name),
        keys::key_of(name) is Ok,
    ensures
        forall|j: int|
            0 <= j < ops.len() && (#[trigger] ops[j]).0@ != name ==> keys::key_of(ops[j].0@)->Ok_0
                != keys::key_of(name)->Ok_0,
        !interface::needs_update(previous, desired, name) && !interface::needs_removal(
            previous,
            desired,
            name,
        ) ==> forall|j: int| 0 <= j < ops.len() ==> (#[trigger] ops[j]).0@ != name,
{
    lemma_ops(previous, desired, ops, n);
    assert forall|j: int| 0 <= j < ops.len() && (#[trigger] ops[j]).0@ != name implies keys::key_of(
        ops[j].0@,
    )->Ok_0 != keys::key_of(name)->Ok_0 by {
        lemma_sendable(previous, desired, ops, n, j);
        lemma_found(desired, ops[j].0@);
        assert(keys::key_of(ops[j].0@) is Ok);
        if keys::key_of(ops[j].0@)->Ok_0 == keys::key_of(name)->Ok_0 {
            assert(keys::key_of(ops[j].0@) == keys::key_of(name));
        }
    }
}

/// Law: a peer that is no longer desired is gone after the requests of a sync, and a key that is on
/// neither side is as it was.
pub proof fn sync_takes_the_others_out(
    previous: Seq<Peer>,
    desired: Seq<Peer>,
    ops: Seq<(String, Option<Peer>)>,
    requests: Seq<Vec<PeerAttr>>,
    table: PeerTable,
    key: [u8; 32],
)
    requires
        interface::are_diff(previous, desired, ops),
        interface::are_requests(ops, requests),
        forall|q: int| 0 <= q < previous.len() ==> keys::key_of(
            (#[trigger] previous[q]).public_key@,
        ) is Ok,
        forall|q: int|
            0 <= q < desired.len() ==> keys::key_of((#[trigger] desired[q]).public_key@) is Ok
                && config::all_cidrs(desired[q].allowed_ips@),
        forall|a: Seq<char>, b: Seq<char>|
            (interface::has_key(previous, a) || interface::has_key(desired, a)) && (
            interface::has_key(previous, b) || interface::has_key(desired, b)) && (
            #[trigger] keys::key_of(a)) == (#[trigger] keys::key_of(b)) ==> a == b,
        forall|q: int|
            0 <= q < desired.len() ==> keys::key_of((#[trigger] desired[q]).public_key@)->Ok_0
                != key,
    ensures
        (exists|q: int|
            0 <= q < previous.len() && keys::key_of((#[trigger] previous[q]).public_key@)->Ok_0
                == key) ==> !take_all(table, requests).dom().contains(key),
        !(exists|q: int|
            0 <= q < previous.len() && keys::key_of((#[trigger] previous[q]).public_key@)->Ok_0
                == key) ==> take_all(table, requests)[key] == table[key] && (take_all(
            table,
            requests,
        ).dom().contains(key) <==> table.dom().contains(key)),
{
    let n = choose|n: int| #[trigger] interface::is_diff(previous, desired, ops, n);
    lemma_ops(previous, desired, ops, n);
    assert forall|j: int| 0 <= j < ops.len() implies interface::sendable(#[trigger] ops[j]) by {
        lemma_sendable(previous, desired, ops, n, j);
    }
    lemma_all_sent(ops);
    if exists|q: int|
        0 <= q < previous.len() && keys::key_of((#[trigger] previous[q]).public_key@)->Ok_0
            == key {
        let q = choose|q: int|
            0 <= q < previous.len() && keys::key_of((#[trigger] previous[q]).public_key@)->Ok_0
                == key;
        let name = previous[q].public_key@;
        assert(interface::has_key(previous, name));
        assert(!interface::has_key(desired, name));
        let removed = interface::op_keys(ops).skip(n);
        assert(interface::needs_removal(previous, desired, name));
        assert(removed.contains(name));
        let at = choose|at: int| 0 <= at < removed.len() && removed[at] == name;
        assert(ops[n + at].0@ == name);
        lemma_other_keys(previous, desired, ops, n, name);
        lemma_one_request(table, ops, requests, n + at, key);
        let start = take_all(table, requests.take(n + at));
        removal_takes_the_peer_out(start, ops[n + at], requests[n + at]@);
    } else {
        assert forall|j: int| 0 <= j < ops.len() implies keys::key_of((#[trigger] ops[j]).0@)->Ok_0
            != key by {
            let name = ops[j].0@;
            lemma_found(desired, name);
            if interface::has_key(desired, name) {
                let q = choose|q: int|
                    0 <= q < desired.len() && (#[trigger] desired[q]).public_key@ == name;
                assert(keys::key_of(desired[q].public_key@)->Ok_0 != key);
            } else {
                let q = choose|q: int|
                    0 <= q < previous.len() && (#[trigger] previous[q]).public_key@ == name;
                assert(keys::key_of(previous[q].public_key@)->Ok_0 != key);
            }
        }
        lemma_untouched(table, ops, requests, 0, ops.len() as int, key);
        assert(requests.take(0) =~= Seq::empty());
        assert(requests.take(ops.len() as int) =~= requests);
    }
}

} // verus!
