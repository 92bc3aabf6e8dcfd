//! What tracking a peer comes to: whose routes are wanted, what a dump says of a peer, and which
//! peers are tracked at all.

use crate::awg::config::InterfaceEntry;
use crate::awg::handshake;
use crate::awg::handshake::PeerStats;
use crate::awg::handshake::TrackedInterface;
use crate::awg::interface::DumpAttr;
use crate::common::keys;
use crate::text;
use vstd::prelude::*;

verus! {

/// What is listed for a key is listed at some place, and the other way round where each key is
/// listed once.
proof fn lemma_listed(list: Seq<(String, PeerStats)>, key: Seq<char>)
    requires
        handshake::keys_unique(list),
    ensures
        forall|j: int|
            0 <= j < list.len() && (#[trigger] list[j]).0@ == key ==> handshake::stats_for(list, key)
                == Some(list[j].1),
        handshake::stats_for(list, key) matches Some(s) ==> exists|j: int|
            0 <= j < list.len() && (#[trigger] list[j]).0@ == key && list[j].1 == s,
    decreases list.len(),
{
    if list.len() > 0 {
        let rest = list.drop_last();
        lemma_listed(rest, key);
        assert forall|j: int| 0 <= j < list.len() && (#[trigger] list[j]).0@
            == key implies handshake::stats_for(list, key) == Some(list[j].1) by {
            if j < list.len() - 1 {
                assert(rest[j] == list[j]);
                assert(list[list.len() - 1].0@ != key);
            }
        }
        if list.last().0@ == key {
            assert(list[list.len() - 1].0@ == key);
        } else if handshake::stats_for(rest, key) is Some {
            let j = choose|j: int|
                0 <= j < rest.len() && (#[trigger] rest[j]).0@ == key && Some(rest[j].1)
                    == handshake::stats_for(rest, key);
            assert(list[j] == rest[j]);
        }
    }
}

/// What is wanted on account of the first `n` peers.
proof fn lemma_wanted(
    iface: TrackedInterface,
    stats: Seq<(String, PeerStats)>,
    now: u64,
    n: int,
    c: Seq<char>,
)
    requires
        0 <= n <= iface.peers@.len(),
    ensures
        handshake::wanted(iface, stats, now, n).contains(c) <==> exists|i: int|
            0 <= i < n && text::texts((#[trigger] iface.peers@[i]).1@).contains(c)
                && handshake::fresh(
                handshake::stats_for(stats, iface.peers@[i].0@),
                now,
                iface.stale_secs,
            ),
    decreases n,
{
    if n > 0 {
        lemma_wanted(iface, stats, now, n - 1, c);
        let before = handshake::wanted(iface, stats, now, n - 1);
        let more = text::texts(iface.peers@[n - 1].1@);
        let after = handshake::wanted(iface, stats, now, n);
        if before.contains(c) {
            let k = choose|k: int| 0 <= k < before.len() && before[k] == c;
            assert(after[k] == c);
        }
        if after != before {
            if more.contains(c) {
                let k = choose|k: int| 0 <= k < more.len() && more[k] == c;
                assert(after[before.len() + k] == c);
            }
            if after.contains(c) {
                let k = choose|k: int| 0 <= k < after.len() && after[k] == c;
                if k < before.len() {
                    assert(before[k] == c);
                } else {
                    assert(more[k - before.len()] == c);
                }
            }
        }
        assert(iface.peers@[n - 1].0@ == iface.peers@[n - 1].0@);
    }
}

/// Law: a CIDR is wanted on an interface if and only if a tracked peer of the interface lists it
/// whose last handshake is known, and less than the interface's limit ago.
pub proof fn wanted_iff_a_fresh_peer_lists_it(
    iface: TrackedInterface,
    stats: Seq<(String, PeerStats)>,
    now: u64,
    routes: Seq<String>,
    c: Seq<char>,
)
    requires
        handshake::keys_unique(stats),
        text::texts(routes) == handshake::wanted(iface, stats, now, iface.peers@.len() as int),
    ensures
        text::texts(routes).contains(c) <==> exists|i: int, j: int|
            {
                &&& 0 <= i < iface.peers@.len()
                &&& 0 <= j < stats.len()
                &&& (#[trigger] stats[j]).0@ == (#[trigger] iface.peers@[i]).0@
                &&& text::texts(iface.peers@[i].1@).contains(c)
                &&& stats[j].1.last_handshake > 0
                &&& iface.stale_secs > 0
                &&& now < stats[j].1.last_handshake + iface.stale_secs
            },
{
    let n = iface.peers@.len() as int;
    lemma_wanted(iface, stats, now, n, c);
    if text::texts(routes).contains(c) {
        let i = choose|i: int|
            0 <= i < n && text::texts((#[trigger] iface.peers@[i]).1@).contains(c)
                && handshake::fresh(
                handshake::stats_for(stats, iface.peers@[i].0@),
                now,
                iface.stale_secs,
            );
        let key = iface.peers@[i].0@;
        lemma_listed(stats, key);
        let j = choose|j: int|
            0 <= j < stats.len() && (#[trigger] stats[j]).0@ == key && Some(stats[j].1)
                == handshake::stats_for(stats, key);
        assert(stats[j].0@ == iface.peers@[i].0@);
    }
    if exists|i: int, j: int|
        {
            &&& 0 <= i < iface.peers@.len()
            &&& 0 <= j < stats.len()
            &&& (#[trigger] stats[j]).0@ == (#[trigger] iface.peers@[i]).0@
            &&& text::texts(iface.peers@[i].1@).contains(c)
            &&& stats[j].1.last_handshake > 0
            &&& iface.stale_secs > 0
            &&& now < stats[j].1.last_handshake + iface.stale_secs
        } {
        let (i, j) = choose|i: int, j: int|
            {
                &&& 0 <= i < iface.peers@.len()
                &&& 0 <= j < stats.len()
                &&& (#[trigger] stats[j]).0@ == (#[trigger] iface.peers@[i]).0@
                &&& text::texts(iface.peers@[i].1@).contains(c)
                &&& stats[j].1.last_handshake > 0
                &&& iface.stale_secs > 0
                &&& now < stats[j].1.last_handshake + iface.stale_secs
            };
        lemma_listed(stats, iface.peers@[i].0@);
        assert(handshake::fresh(
            handshake::stats_for(stats, iface.peers@[i].0@),
            now,
            iface.stale_secs,
        ));
    }
}

/// The key of a frame is the first that stands in it.
proof fn lemma_frame_key(attrs: Seq<DumpAttr>, i: int)
    requires
        0 <= i < attrs.len(),
        attrs[i] is PublicKey,
        forall|k: int| 0 <= k < i ==> !((#[trigger] attrs[k]) is PublicKey),
    ensures
        handshake::frame_key(attrs) == Some(attrs[i]->PublicKey_0),
    decreases i,
{
    if i > 0 {
        assert(!(attrs[0] is PublicKey));
        let rest = attrs.skip(1);
        assert forall|k: int| 0 <= k < i - 1 implies !((#[trigger] rest[k]) is PublicKey) by {
            assert(rest[k] == attrs[k + 1]);
        }
        lemma_frame_key(rest, i - 1);
    }
}

/// A frame whose last value of this kind stands at `i` leaves that value; one without any, `i` being
/// negative, leaves what was there.
proof fn lemma_frame_received(s: PeerStats, attrs: Seq<DumpAttr>, i: int)
    requires
        i < attrs.len(),
        i >= 0 ==> attrs[i] is RxBytes,
        forall|k: int| 0 <= k < attrs.len() && k > i ==> !((#[trigger] attrs[k]) is RxBytes),
    ensures
        handshake::with_attrs(s, attrs).rx_bytes == (if i < 0 {
            s.rx_bytes as int
        } else {
            attrs[i]->RxBytes_0 as int
        }),
    decreases attrs.len(),
{
    if attrs.len() > 0 {
        let init = attrs.drop_last();
        let n = attrs.len() - 1;
        assert(attrs[n] == attrs.last());
        if i < n {
            assert forall|k: int| 0 <= k < init.len() && k > i implies !((
            #[trigger] init[k]) is RxBytes) by {
                assert(init[k] == attrs[k]);
            }
            lemma_frame_received(s, init, i);
        }
    }
}

/// Law: what a peer has received is the last count that a frame under the peer's key carries. A frame
/// that continues the peer without a count leaves it alone, as do the frames of other peers.
pub proof fn last_received_report_counts(
    dump: Seq<Vec<DumpAttr>>,
    key: Seq<char>,
    frame: int,
    at: int,
)
    requires
        0 <= frame < dump.len(),
        0 <= at < dump[frame]@.len(),
        handshake::reports_on(dump[frame]@, key),
        dump[frame]@[at] is RxBytes,
        forall|f: int, k: int|
            0 <= f < dump.len() && 0 <= k < dump[f]@.len() && (f > frame || f == frame && k > at)
                && handshake::reports_on(dump[f]@, key) ==> !((#[trigger] dump[f]@[k]) is RxBytes),
    ensures
        handshake::merged(dump, key) is Some,
        handshake::merged(dump, key)->0.rx_bytes == dump[frame]@[at]->RxBytes_0,
    decreases dump.len(),
{
    let n = dump.len() - 1;
    let init = dump.drop_last();
    let before = handshake::merged(init, key);
    let start = if before is Some {
        before->0
    } else {
        handshake::no_stats()
    };
    let last = dump[n]@;
    if frame == n {
        assert forall|k: int| 0 <= k < last.len() && k > at implies !((
        #[trigger] last[k]) is RxBytes) by {
            assert(!(dump[n]@[k] is RxBytes));
        }
        lemma_frame_received(start, last, at);
    } else {
        assert forall|f: int, k: int|
            0 <= f < init.len() && 0 <= k < init[f]@.len() && (f > frame || f == frame && k > at)
                && handshake::reports_on(init[f]@, key) implies !((
        #[trigger] init[f]@[k]) is RxBytes) by {
            assert(!(dump[f]@[k] is RxBytes));
        }
        last_received_report_counts(init, key, frame, at);
        if handshake::reports_on(last, key) {
            assert forall|k: int| 0 <= k < last.len() && k > -1 implies !((
            #[trigger] last[k]) is RxBytes) by {
                assert(!(dump[n]@[k] is RxBytes));
            }
            lemma_frame_received(start, last, -1);
        }
    }
}

/// A frame whose last value of this kind stands at `i` leaves that value; one without any, `i` being
/// negative, leaves what was there.
proof fn lemma_frame_sent(s: PeerStats, attrs: Seq<DumpAttr>, i: int)
    requires
        i < attrs.len(),
        i >= 0 ==> attrs[i] is TxBytes,
        forall|k: int| 0 <= k < attrs.len() && k > i ==> !((#[trigger] attrs[k]) is TxBytes),
    ensures
        handshake::with_attrs(s, attrs).tx_bytes == (if i < 0 {
            s.tx_bytes as int
        } else {
            attrs[i]->TxBytes_0 as int
        }),
    decreases attrs.len(),
{
    if attrs.len() > 0 {
        let init = attrs.drop_last();
        let n = attrs.len() - 1;
        assert(attrs[n] == attrs.last());
        if i < n {
            assert forall|k: int| 0 <= k < init.len() && k > i implies !((
            #[trigger] init[k]) is TxBytes) by {
                assert(init[k] == attrs[k]);
            }
            lemma_frame_sent(s, init, i);
        }
    }
}

/// Law: what a peer was sent is the last count that a frame under the peer's key carries, likewise.
pub proof fn last_sent_report_counts(
    dump: Seq<Vec<DumpAttr>>,
    key: Seq<char>,
    frame: int,
    at: int,
)
    requires
        0 <= frame < dump.len(),
        0 <= at < dump[frame]@.len(),
        handshake::reports_on(dump[frame]@, key),
        dump[frame]@[at] is TxBytes,
        forall|f: int, k: int|
            0 <= f < dump.len() && 0 <= k < dump[f]@.len() && (f > frame || f == frame && k > at)
                && handshake::reports_on(dump[f]@, key) ==> !((#[trigger] dump[f]@[k]) is TxBytes),
    ensures
        handshake::merged(dump, key) is Some,
        handshake::merged(dump, key)->0.tx_bytes == dump[frame]@[at]->TxBytes_0,
    decreases dump.len(),
{
    let n = dump.len() - 1;
    let init = dump.drop_last();
    let before = handshake::merged(init, key);
    let start = if before is Some {
        before->0
    } else {
        handshake::no_stats()
    };
    let last = dump[n]@;
    if frame == n {
        assert forall|k: int| 0 <= k < last.len() && k > at implies !((
        #[trigger] last[k]) is TxBytes) by {
            assert(!(dump[n]@[k] is TxBytes));
        }
        lemma_frame_sent(start, last, at);
    } else {
        assert forall|f: int, k: int|
            0 <= f < init.len() && 0 <= k < init[f]@.len() && (f > frame || f == frame && k > at)
                && handshake::reports_on(init[f]@, key) implies !((
        #[trigger] init[f]@[k]) is TxBytes) by {
            assert(!(dump[f]@[k] is TxBytes));
        }
        last_sent_report_counts(init, key, frame, at);
        if handshake::reports_on(last, key) {
            assert forall|k: int| 0 <= k < last.len() && k > -1 implies !((
            #[trigger] last[k]) is TxBytes) by {
                assert(!(dump[n]@[k] is TxBytes));
            }
            lemma_frame_sent(start, last, -1);
        }
    }
}

/// A frame whose last value of this kind stands at `i` leaves that value; one without any, `i` being
/// negative, leaves what was there.
proof fn lemma_frame_handshake(s: PeerStats, attrs: Seq<DumpAttr>, i: int)
    requires
        i < attrs.len(),
        i >= 0 ==> attrs[i] is LastHandshake,
        forall|k: int| 0 <= k < attrs.len() && k > i ==> !((#[trigger] attrs[k]) is LastHandshake),
    ensures
        handshake::with_attrs(s, attrs).last_handshake == (if i < 0 {
            s.last_handshake as int
        } else if attrs[i]->LastHandshake_0 < 0 {
            0int
        } else {
            attrs[i]->LastHandshake_0 as int
        }),
    decreases attrs.len(),
{
    if attrs.len() > 0 {
        let init = attrs.drop_last();
        let n = attrs.len() - 1;
        assert(attrs[n] == attrs.last());
        if i < n {
            assert forall|k: int| 0 <= k < init.len() && k > i implies !((
            #[trigger] init[k]) is LastHandshake) by {
                assert(init[k] == attrs[k]);
            }
            lemma_frame_handshake(s, init, i);
        }
    }
}

/// Law: the handshake of a peer is the last time that a frame under the peer's key carries, likewise.
/// A time before the epoch reads as none.
pub proof fn last_handshake_report_counts(
    dump: Seq<Vec<DumpAttr>>,
    key: Seq<char>,
    frame: int,
    at: int,
)
    requires
        0 <= frame < dump.len(),
        0 <= at < dump[frame]@.len(),
        handshake::reports_on(dump[frame]@, key),
        dump[frame]@[at] is LastHandshake,
        forall|f: int, k: int|
            0 <= f < dump.len() && 0 <= k < dump[f]@.len() && (f > frame || f == frame && k > at)
                && handshake::reports_on(dump[f]@, key) ==> !((#[trigger] dump[f]@[k]) is LastHandshake),
    ensures
        handshake::merged(dump, key) is Some,
        handshake::merged(dump, key)->0.last_handshake == (if dump[frame]@[at]->LastHandshake_0 < 0 {
            0int
        } else {
            dump[frame]@[at]->LastHandshake_0 as int
        }),
    decreases dump.len(),
{
    let n = dump.len() - 1;
    let init = dump.drop_last();
    let before = handshake::merged(init, key);
    let start = if before is Some {
        before->0
    } else {
        handshake::no_stats()
    };
    let last = dump[n]@;
    if frame == n {
        assert forall|k: int| 0 <= k < last.len() && k > at implies !((
        #[trigger] last[k]) is LastHandshake) by {
            assert(!(dump[n]@[k] is LastHandshake));
        }
        lemma_frame_handshake(start, last, at);
    } else {
        assert forall|f: int, k: int|
            0 <= f < init.len() && 0 <= k < init[f]@.len() && (f > frame || f == frame && k > at)
                && handshake::reports_on(init[f]@, key) implies !((
        #[trigger] init[f]@[k]) is LastHandshake) by {
            assert(!(dump[f]@[k] is LastHandshake));
        }
        last_handshake_report_counts(init, key, frame, at);
        if handshake::reports_on(last, key) {
            assert forall|k: int| 0 <= k < last.len() && k > -1 implies !((
            #[trigger] last[k]) is LastHandshake) by {
                assert(!(dump[n]@[k] is LastHandshake));
            }
            lemma_frame_handshake(start, last, -1);
        }
    }
}

/// Law: a peer that frames report on, none of which carries a value, has never had a handshake and
/// has moved no data.
pub proof fn nothing_reported_is_nothing(dump: Seq<Vec<DumpAttr>>, key: Seq<char>)
    requires
        forall|f: int, k: int|
            0 <= f < dump.len() && 0 <= k < dump[f]@.len() && handshake::reports_on(dump[f]@, key)
                ==> !((#[trigger] dump[f]@[k]) is RxBytes) && !(dump[f]@[k] is TxBytes) && !(
            dump[f]@[k] is LastHandshake),
    ensures
        handshake::merged(dump, key) is Some <==> exists|f: int|
            0 <= f < dump.len() && handshake::reports_on((#[trigger] dump[f])@, key),
        handshake::merged(dump, key) matches Some(s) ==> s.last_handshake == 0 && s.rx_bytes == 0
            && s.tx_bytes == 0,
    decreases dump.len(),
{
    if dump.len() > 0 {
        let n = dump.len() - 1;
        let init = dump.drop_last();
        let last = dump[n]@;
        assert forall|f: int, k: int|
            0 <= f < init.len() && 0 <= k < init[f]@.len() && handshake::reports_on(
                init[f]@,
                key,
            ) implies !((#[trigger] init[f]@[k]) is RxBytes) && !(init[f]@[k] is TxBytes) && !(
        init[f]@[k] is LastHandshake) by {
            assert(!(dump[f]@[k] is RxBytes));
        }
        nothing_reported_is_nothing(init, key);
        let before = handshake::merged(init, key);
        let start = if before is Some {
            before->0
        } else {
            handshake::no_stats()
        };
        if handshake::reports_on(last, key) {
            assert forall|k: int| 0 <= k < last.len() implies !((#[trigger] last[k]) is RxBytes)
                && !(last[k] is TxBytes) && !(last[k] is LastHandshake) by {
                assert(!(dump[n]@[k] is RxBytes));
            }
            lemma_frame_received(start, last, -1);
            lemma_frame_sent(start, last, -1);
            lemma_frame_handshake(start, last, -1);
            assert(handshake::reports_on(dump[n]@, key));
        }
        if exists|f: int| 0 <= f < dump.len() && handshake::reports_on((#[trigger] dump[f])@, key) {
            let f = choose|f: int|
                0 <= f < dump.len() && handshake::reports_on((#[trigger] dump[f])@, key);
            if f < n {
                assert(init[f] == dump[f]);
            }
        }
        if before is Some {
            let f = choose|f: int|
                0 <= f < init.len() && handshake::reports_on((#[trigger] init[f])@, key);
            assert(init[f] == dump[f]);
        }
    }
}

/// Law: a frame reports on the peer whose key stands first in it, and on no other.
pub proof fn report_is_on_the_first_key(attrs: Seq<DumpAttr>, key: Seq<char>, at: int)
    requires
        0 <= at < attrs.len(),
        attrs[at] is PublicKey,
        forall|k: int| 0 <= k < at ==> !((#[trigger] attrs[k]) is PublicKey),
    ensures
        handshake::reports_on(attrs, key) <==> keys::base64_encoded(attrs[at]->PublicKey_0@) == key,
{
    lemma_frame_key(attrs, at);
}

/// The place of peer `i` of an interface among its tracked ones.
proof fn lemma_tracked_place(
    iface: InterfaceEntry,
    n: int,
    peers: Seq<(String, Vec<String>)>,
    i: int,
) -> (k: int)
    requires
        0 <= i < n <= iface.peers@.len(),
        handshake::tracks(iface, n, peers),
        iface.peers@[i].allowed_ips is Some,
    ensures
        0 <= k < peers.len(),
        peers[k].0@ == iface.peers@[i].public_key@,
        text::texts(peers[k].1@) == text::texts(iface.peers@[i].allowed_ips->0@),
    decreases n,
{
    if i == n - 1 {
        peers.len() - 1
    } else if iface.peers@[n - 1].allowed_ips is Some {
        let k = lemma_tracked_place(iface, n - 1, peers.drop_last(), i);
        assert(peers.drop_last()[k] == peers[k]);
        k
    } else {
        lemma_tracked_place(iface, n - 1, peers, i)
    }
}

/// The peer of an interface that a tracked one is.
proof fn lemma_tracked_from(
    iface: InterfaceEntry,
    n: int,
    peers: Seq<(String, Vec<String>)>,
    k: int,
) -> (i: int)
    requires
        n <= iface.peers@.len(),
        handshake::tracks(iface, n, peers),
        0 <= k < peers.len(),
    ensures
        0 <= i < n,
        iface.peers@[i].allowed_ips is Some,
        peers[k].0@ == iface.peers@[i].public_key@,
        text::texts(peers[k].1@) == text::texts(iface.peers@[i].allowed_ips->0@),
    decreases n,
{
    if iface.peers@[n - 1].allowed_ips is Some {
        if k == peers.len() - 1 {
            n - 1
        } else {
            let i = lemma_tracked_from(iface, n - 1, peers.drop_last(), k);
            assert(peers.drop_last()[k] == peers[k]);
            i
        }
    } else {
        lemma_tracked_from(iface, n - 1, peers, k)
    }
}

/// Law: each peer of an interface that has CIDRs of its own is tracked with those CIDRs. Handshakes
/// count for as long as the interface says, or three minutes.
pub proof fn tracked_are_the_peers_with_cidrs(
    iface: InterfaceEntry,
    index: u32,
    t: TrackedInterface,
)
    requires
        handshake::is_tracking(iface, index, t),
    ensures
        t.name@ == iface.name@,
        t.index == index,
        iface.handshake_stale_secs is Some ==> t.stale_secs == iface.handshake_stale_secs->0,
        iface.handshake_stale_secs is None ==> t.stale_secs == 180,
        forall|i: int|
            0 <= i < iface.peers@.len() && (#[trigger] iface.peers@[i]).allowed_ips is Some
                ==> exists|k: int|
                0 <= k < t.peers@.len() && (#[trigger] t.peers@[k]).0@
                    == iface.peers@[i].public_key@ && text::texts(t.peers@[k].1@) == text::texts(
                    iface.peers@[i].allowed_ips->0@,
                ),
{
    let n = iface.peers@.len() as int;
    assert forall|i: int|
        0 <= i < n && (#[trigger] iface.peers@[i]).allowed_ips is Some implies exists|k: int|
        0 <= k < t.peers@.len() && (#[trigger] t.peers@[k]).0@ == iface.peers@[i].public_key@
            && text::texts(t.peers@[k].1@) == text::texts(iface.peers@[i].allowed_ips->0@) by {
        let k = lemma_tracked_place(iface, n, t.peers@, i);
        assert(t.peers@[k].0@ == iface.peers@[i].public_key@);
    }
}

/// Law: nothing is tracked on an interface but peers of it that have CIDRs of their own, with those
/// CIDRs.
pub proof fn tracked_peer_is_configured(
    iface: InterfaceEntry,
    index: u32,
    t: TrackedInterface,
    k: int,
)
    requires
        handshake::is_tracking(iface, index, t),
        0 <= k < t.peers@.len(),
    ensures
        exists|i: int|
            0 <= i < iface.peers@.len() && (#[trigger] iface.peers@[i]).allowed_ips is Some
                && t.peers@[k].0@ == iface.peers@[i].public_key@ && text::texts(t.peers@[k].1@)
                == text::texts(iface.peers@[i].allowed_ips->0@),
{
    let i = lemma_tracked_from(iface, iface.peers@.len() as int, t.peers@, k);
    assert(t.peers@[k].0@ == iface.peers@[i].public_key@);
}

/// What is installed under an index, where each index is listed once.
proof fn lemma_installed(installed: Seq<(u32, Vec<String>)>, m: int)
    requires
        0 <= m < installed.len(),
        forall|i: int| 0 <= i < m ==> (#[trigger] installed[i]).0 != installed[m].0,
    ensures
        handshake::installed_on(installed, installed[m].0) == text::texts(installed[m].1@),
    decreases m,
{
    if m > 0 {
        assert(installed[0].0 != installed[m].0);
        let rest = installed.skip(1);
        assert forall|i: int| 0 <= i < m - 1 implies (#[trigger] rest[i]).0 != rest[m - 1].0 by {
            assert(installed[i + 1].0 != installed[m].0);
        }
        lemma_installed(rest, m - 1);
    }
}

/// Law: a tracked peer with CIDRs is connected where every one of them is installed on its
/// interface, and a peer with a CIDR that is not installed on any interface of that name is not.
pub proof fn connected_means_routed(
    watched: Seq<TrackedInterface>,
    installed: Seq<(u32, Vec<String>)>,
    w: int,
    p: int,
    m: int,
)
    requires
        0 <= w < watched.len(),
        0 <= p < watched[w].peers@.len(),
        0 <= m < installed.len(),
        installed[m].0 == watched[w].index,
        forall|i: int| 0 <= i < m ==> (#[trigger] installed[i]).0 != installed[m].0,
        forall|v: int, q: int|
            0 <= v < watched.len() && 0 <= q < watched[v].peers@.len() && watched[v].name@
                == watched[w].name@ && (#[trigger] watched[v].peers@[q]).0@
                == watched[w].peers@[p].0@ ==> v == w && q == p,
    ensures
        handshake::is_connected(
            watched,
            installed,
            watched[w].name@,
            watched[w].peers@[p].0@,
        ) <==> watched[w].peers@[p].1@.len() > 0 && forall|k: int|
            0 <= k < watched[w].peers@[p].1@.len() ==> text::texts(installed[m].1@).contains(
                (#[trigger] watched[w].peers@[p].1@[k])@,
            ),
{
    lemma_installed(installed, m);
    let name = watched[w].name@;
    let key = watched[w].peers@[p].0@;
    if handshake::is_connected(watched, installed, name, key) {
        let (v, q) = choose|v: int, q: int|
            0 <= v < watched.len() && 0 <= q < watched[v].peers@.len() && watched[v].name@ == name
                && (#[trigger] watched[v].peers@[q]).0@ == key && handshake::routed(
                watched[v].peers@[q].1@,
                handshake::installed_on(installed, watched[v].index),
            );
        assert(v == w && q == p);
    }
}

} // verus!
