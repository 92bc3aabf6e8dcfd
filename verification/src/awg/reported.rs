//! What a scrape says of each interface and each peer.

use crate::awg::config;
use crate::awg::config::AwgConfig;
use crate::awg::config::InterfaceEntry;
use crate::awg::config::PeerEntry;
use crate::awg::handshake;
use crate::awg::handshake::PeerStats;
use crate::awg::handshake::ReconcileSnapshot;
use crate::awg::handshake::Stats;
use crate::awg::metrics;
use crate::awg::metrics::Labels;
use crate::awg::metrics::Series;
use vstd::prelude::*;

verus! {

/// Two sets of series say the same of these labels.
spec fn agree(a: Series, b: Series, l: Labels) -> bool {
    &&& a.rx_bytes.dom().contains(l) == b.rx_bytes.dom().contains(l)
    &&& a.rx_bytes[l] == b.rx_bytes[l]
    &&& a.tx_bytes.dom().contains(l) == b.tx_bytes.dom().contains(l)
    &&& a.tx_bytes[l] == b.tx_bytes[l]
    &&& a.connected.dom().contains(l) == b.connected.dom().contains(l)
    &&& a.connected[l] == b.connected[l]
    &&& a.last_handshake.dom().contains(l) == b.last_handshake.dom().contains(l)
    &&& a.last_handshake[l] == b.last_handshake[l]
}

/// Nothing is said of these labels.
spec fn silent(s: Series, l: Labels) -> bool {
    &&& !s.rx_bytes.dom().contains(l)
    &&& !s.tx_bytes.dom().contains(l)
    &&& !s.connected.dom().contains(l)
    &&& !s.last_handshake.dom().contains(l)
}

proof fn lemma_other_peer(
    s: Series,
    iface: InterfaceEntry,
    peer: PeerEntry,
    dump: Option<Stats>,
    snapshot: ReconcileSnapshot,
    now: u64,
    l: Labels,
)
    requires
        l != metrics::peer_labels(iface, peer),
    ensures
        agree(metrics::with_peer(s, iface, peer, dump, snapshot, now), s, l),
{
}

proof fn lemma_other_peers(
    s: Series,
    iface: InterfaceEntry,
    from: int,
    to: int,
    dump: Option<Stats>,
    snapshot: ReconcileSnapshot,
    now: u64,
    l: Labels,
)
    requires
        0 <= from <= to <= iface.peers@.len(),
        forall|j: int|
            from <= j < to ==> l != #[trigger] metrics::peer_labels(iface, iface.peers@[j]),
    ensures
        agree(
            metrics::with_peers(s, iface, to, dump, snapshot, now),
            metrics::with_peers(s, iface, from, dump, snapshot, now),
            l,
        ),
    decreases to - from,
{
    if from < to {
        lemma_other_peers(s, iface, from, to - 1, dump, snapshot, now, l);
        assert(l != metrics::peer_labels(iface, iface.peers@[to - 1]));
        lemma_other_peer(
            metrics::with_peers(s, iface, to - 1, dump, snapshot, now),
            iface,
            iface.peers@[to - 1],
            dump,
            snapshot,
            now,
            l,
        );
    }
}

/// The labels of peers of other interfaces, or with other keys, are other labels.
proof fn lemma_labels_differ(a: InterfaceEntry, p: PeerEntry, b: InterfaceEntry, q: PeerEntry)
    requires
        a.name@ != b.name@ || p.public_key@ != q.public_key@,
    ensures
        metrics::peer_labels(a, p) != metrics::peer_labels(b, q),
{
    let x = metrics::peer_labels(a, p);
    let y = metrics::peer_labels(b, q);
    assert(x[0].1 == a.name@ && y[0].1 == b.name@);
    assert(x[2].1 == p.public_key@ && y[2].1 == q.public_key@);
}

/// What the peers of an interface add to these labels is what peer `j` adds.
proof fn lemma_peer_here(
    s: Series,
    iface: InterfaceEntry,
    j: int,
    dump: Option<Stats>,
    snapshot: ReconcileSnapshot,
    now: u64,
)
    requires
        0 <= j < iface.peers@.len(),
        forall|a: int, b: int|
            0 <= a < b < iface.peers@.len() ==> (#[trigger] iface.peers@[a]).public_key@ != (
            #[trigger] iface.peers@[b]).public_key@,
        silent(s, metrics::peer_labels(iface, iface.peers@[j])),
    ensures
        ({
            let r = metrics::with_peers(s, iface, iface.peers@.len() as int, dump, snapshot, now);
            let l = metrics::peer_labels(iface, iface.peers@[j]);
            let stats = metrics::stats_of(dump, iface.peers@[j].public_key@);
            &&& r.rx_bytes.dom().contains(l) <==> stats is Some
            &&& r.tx_bytes.dom().contains(l) <==> stats is Some
            &&& stats is Some ==> r.rx_bytes[l] == stats->0.rx_bytes && r.tx_bytes[l]
                == stats->0.tx_bytes
            &&& r.last_handshake.dom().contains(l) <==> stats is Some && stats->0.last_handshake > 0
            &&& stats is Some && 0 < stats->0.last_handshake <= i64::MAX ==> r.last_handshake[l]
                == stats->0.last_handshake
            &&& r.connected.dom().contains(l) <==> iface.peers@[j].allowed_ips is Some
                && metrics::verdict_fresh(snapshot, now)
            &&& r.connected.dom().contains(l) ==> r.connected[l] == (if handshake::lists(
                snapshot.connected@,
                iface.name@,
                iface.peers@[j].public_key@,
            ) {
                1int
            } else {
                0
            })
        }),
{
    let n = iface.peers@.len() as int;
    let l = metrics::peer_labels(iface, iface.peers@[j]);
    assert forall|k: int| 0 <= k < n && k != j implies l != #[trigger] metrics::peer_labels(
        iface,
        iface.peers@[k],
    ) by {
        if k < j {
            assert(iface.peers@[k].public_key@ != iface.peers@[j].public_key@);
        } else {
            assert(iface.peers@[j].public_key@ != iface.peers@[k].public_key@);
        }
        lemma_labels_differ(iface, iface.peers@[j], iface, iface.peers@[k]);
    }
    lemma_other_peers(s, iface, 0, j, dump, snapshot, now, l);
    lemma_other_peers(s, iface, j + 1, n, dump, snapshot, now, l);
    let before = metrics::with_peers(s, iface, j, dump, snapshot, now);
    let after = metrics::with_peers(s, iface, j + 1, dump, snapshot, now);
    assert(silent(before, l));
    assert(after == metrics::with_peer(before, iface, iface.peers@[j], dump, snapshot, now));
}

/// Another interface says nothing of a peer's labels.
proof fn lemma_other_interface(
    s: Series,
    other: InterfaceEntry,
    dumps: Seq<(String, Option<Stats>)>,
    snapshot: ReconcileSnapshot,
    now: u64,
    iface: InterfaceEntry,
    peer: PeerEntry,
)
    requires
        other.name@ != iface.name@,
    ensures
        agree(
            metrics::with_interface(s, other, dumps, snapshot, now),
            s,
            metrics::peer_labels(iface, peer),
        ),
{
    let l = metrics::peer_labels(iface, peer);
    let dump = metrics::dump_of(dumps, other.name@);
    let first = Series {
        dump_ok: s.dump_ok.insert(
            metrics::interface_labels(other),
            if dump is Some {
                1int
            } else {
                0
            },
        ),
        ..s
    };
    assert forall|j: int| 0 <= j < other.peers@.len() implies l != #[trigger] metrics::peer_labels(
        other,
        other.peers@[j],
    ) by {
        lemma_labels_differ(iface, peer, other, other.peers@[j]);
    }
    lemma_other_peers(first, other, 0, other.peers@.len() as int, dump, snapshot, now, l);
}

/// The interfaces from `from` to `to` say nothing of the labels of a peer of another.
proof fn lemma_other_interfaces(
    ifaces: Seq<InterfaceEntry>,
    from: int,
    to: int,
    dumps: Seq<(String, Option<Stats>)>,
    snapshot: ReconcileSnapshot,
    now: u64,
    iface: InterfaceEntry,
    peer: PeerEntry,
)
    requires
        0 <= from <= to <= ifaces.len(),
        forall|k: int| from <= k < to ==> (#[trigger] ifaces[k]).name@ != iface.name@,
    ensures
        agree(
            metrics::series(ifaces, to, dumps, snapshot, now),
            metrics::series(ifaces, from, dumps, snapshot, now),
            metrics::peer_labels(iface, peer),
        ),
    decreases to - from,
{
    if from < to {
        lemma_other_interfaces(ifaces, from, to - 1, dumps, snapshot, now, iface, peer);
        assert(ifaces[to - 1].name@ != iface.name@);
        lemma_other_interface(
            metrics::series(ifaces, to - 1, dumps, snapshot, now),
            ifaces[to - 1],
            dumps,
            snapshot,
            now,
            iface,
            peer,
        );
    }
}

/// What a scrape says of peer `j` of interface `i`.
proof fn lemma_peer(
    ifaces: Seq<InterfaceEntry>,
    dumps: Seq<(String, Option<Stats>)>,
    snapshot: ReconcileSnapshot,
    now: u64,
    i: int,
    j: int,
)
    requires
        forall|a: int, b: int|
            0 <= a < b < ifaces.len() ==> (#[trigger] ifaces[a]).name@ != (
            #[trigger] ifaces[b]).name@,
        0 <= i < ifaces.len(),
        forall|a: int, b: int|
            0 <= a < b < ifaces[i].peers@.len() ==> (#[trigger] ifaces[i].peers@[a]).public_key@
                != (#[trigger] ifaces[i].peers@[b]).public_key@,
        0 <= j < ifaces[i].peers@.len(),
    ensures
        ({
            let r = metrics::series(ifaces, ifaces.len() as int, dumps, snapshot, now);
            let peer = ifaces[i].peers@[j];
            let l = metrics::peer_labels(ifaces[i], peer);
            let stats = metrics::stats_of(
                metrics::dump_of(dumps, ifaces[i].name@),
                peer.public_key@,
            );
            &&& r.rx_bytes.dom().contains(l) <==> stats is Some
            &&& r.tx_bytes.dom().contains(l) <==> stats is Some
            &&& stats is Some ==> r.rx_bytes[l] == stats->0.rx_bytes && r.tx_bytes[l]
                == stats->0.tx_bytes
            &&& r.last_handshake.dom().contains(l) <==> stats is Some && stats->0.last_handshake > 0
            &&& stats is Some && 0 < stats->0.last_handshake <= i64::MAX ==> r.last_handshake[l]
                == stats->0.last_handshake
            &&& r.connected.dom().contains(l) <==> peer.allowed_ips is Some
                && metrics::verdict_fresh(snapshot, now)
            &&& r.connected.dom().contains(l) ==> r.connected[l] == (if handshake::lists(
                snapshot.connected@,
                ifaces[i].name@,
                peer.public_key@,
            ) {
                1int
            } else {
                0
            })
        }),
{
    let iface = ifaces[i];
    let peer = iface.peers@[j];
    let l = metrics::peer_labels(iface, peer);
    let n = ifaces.len() as int;
    assert forall|k: int| 0 <= k < i implies (#[trigger] ifaces[k]).name@ != iface.name@ by {
        assert(ifaces[k].name@ != ifaces[i].name@);
    }
    assert forall|k: int| i + 1 <= k < n implies (#[trigger] ifaces[k]).name@ != iface.name@ by {
        assert(ifaces[i].name@ != ifaces[k].name@);
    }
    lemma_other_interfaces(ifaces, 0, i, dumps, snapshot, now, iface, peer);
    lemma_other_interfaces(ifaces, i + 1, n, dumps, snapshot, now, iface, peer);
    let s = metrics::series(ifaces, i, dumps, snapshot, now);
    let dump = metrics::dump_of(dumps, iface.name@);
    let first = Series {
        dump_ok: s.dump_ok.insert(
            metrics::interface_labels(iface),
            if dump is Some {
                1int
            } else {
                0
            },
        ),
        ..s
    };
    assert(silent(first, l));
    lemma_peer_here(first, iface, j, dump, snapshot, now);
}

/// The last dump of a name, at `m`.
proof fn lemma_dump(dumps: Seq<(String, Option<Stats>)>, m: int)
    requires
        0 <= m < dumps.len(),
        forall|k: int| m < k < dumps.len() ==> (#[trigger] dumps[k]).0@ != dumps[m].0@,
    ensures
        metrics::dump_of(dumps, dumps[m].0@) == dumps[m].1,
    decreases dumps.len(),
{
    let n = dumps.len() - 1;
    if m < n {
        assert(dumps[n].0@ != dumps[m].0@);
        let init = dumps.drop_last();
        assert forall|k: int| m < k < init.len() implies (#[trigger] init[k]).0@ != init[m].0@ by {
            assert(init[k] == dumps[k]);
        }
        lemma_dump(init, m);
    }
}

/// What is listed for a key at `q`.
proof fn lemma_listed(list: Seq<(String, PeerStats)>, q: int)
    requires
        0 <= q < list.len(),
        forall|k: int| q < k < list.len() ==> (#[trigger] list[k]).0@ != list[q].0@,
    ensures
        handshake::stats_for(list, list[q].0@) == Some(list[q].1),
    decreases list.len(),
{
    let n = list.len() - 1;
    if q < n {
        assert(list[n].0@ != list[q].0@);
        let init = list.drop_last();
        assert forall|k: int| q < k < init.len() implies (#[trigger] init[k]).0@ != init[q].0@ by {
            assert(init[k] == list[k]);
        }
        lemma_listed(init, q);
    }
}

proof fn lemma_not_listed(list: Seq<(String, PeerStats)>, key: Seq<char>)
    requires
        forall|k: int| 0 <= k < list.len() ==> (#[trigger] list[k]).0@ != key,
    ensures
        handshake::stats_for(list, key) is None,
    decreases list.len(),
{
    if list.len() > 0 {
        let init = list.drop_last();
        assert(list[list.len() - 1].0@ != key);
        assert forall|k: int| 0 <= k < init.len() implies (#[trigger] init[k]).0@ != key by {
            assert(init[k] == list[k]);
        }
        lemma_not_listed(init, key);
    }
}

/// The labels of a peer, one by one.
proof fn lemma_labels(iface: InterfaceEntry, peer: PeerEntry)
    ensures
        metrics::peer_labels(iface, peer) == seq![
            ("interface"@, iface.name@),
            (
                "kind"@,
                if peer.allowed_ips is Some {
                    "roadwarrior"@
                } else {
                    "mesh"@
                },
            ),
            ("peer"@, peer.public_key@),
            (
                "peer_name"@,
                if peer.name is Some {
                    peer.name->0@
                } else {
                    Seq::empty()
                },
            ),
        ],
{
}

/// Law: a scrape reports of each configured peer that the kernel lists what the kernel says of it:
/// what was received from it, what was sent to it, and when it last shook hands, if it ever did.
/// The labels name the interface, the kind, the key and the name of the peer.
pub proof fn listed_peer_is_reported(
    cfg: AwgConfig,
    dumps: Seq<(String, Option<Stats>)>,
    snapshot: ReconcileSnapshot,
    now: u64,
    i: int,
    j: int,
    m: int,
    q: int,
)
    requires
        config::config_error(cfg) is None,
        0 <= i < cfg.interfaces@.len(),
        0 <= j < cfg.interfaces@[i].peers@.len(),
        0 <= m < dumps.len(),
        dumps[m].0@ == cfg.interfaces@[i].name@,
        forall|k: int| m < k < dumps.len() ==> (#[trigger] dumps[k]).0@ != dumps[m].0@,
        dumps[m].1 is Some,
        0 <= q < dumps[m].1->0@.len(),
        dumps[m].1->0@[q].0@ == cfg.interfaces@[i].peers@[j].public_key@,
        forall|k: int|
            q < k < dumps[m].1->0@.len() ==> (#[trigger] dumps[m].1->0@[k]).0@
                != dumps[m].1->0@[q].0@,
    ensures
        ({
            let iface = cfg.interfaces@[i];
            let peer = iface.peers@[j];
            let stats = dumps[m].1->0@[q].1;
            let f = metrics::exposed(cfg, dumps, snapshot, now);
            let l = seq![
                ("interface"@, iface.name@),
                (
                    "kind"@,
                    if peer.allowed_ips is Some {
                        "roadwarrior"@
                    } else {
                        "mesh"@
                    },
                ),
                ("peer"@, peer.public_key@),
                (
                    "peer_name"@,
                    if peer.name is Some {
                        peer.name->0@
                    } else {
                        Seq::empty()
                    },
                ),
            ];
            &&& f.len() >= 7
            &&& f[1].name == "awg_peer_last_handshake_seconds"@ && !f[1].counter
            &&& f[1].values.dom().contains(l) <==> stats.last_handshake > 0
            &&& 0 < stats.last_handshake <= i64::MAX ==> f[1].values[l] == stats.last_handshake
            &&& f[2].name == "awg_peer_rx_bytes"@ && f[2].counter
            &&& f[2].values.dom().contains(l) && f[2].values[l] == stats.rx_bytes
            &&& f[3].name == "awg_peer_tx_bytes"@ && f[3].counter
            &&& f[3].values.dom().contains(l) && f[3].values[l] == stats.tx_bytes
        }),
{
    config::accepted_iff_valid(cfg);
    assert(config::valid_interface(cfg.interfaces@[i]));
    lemma_peer(cfg.interfaces@, dumps, snapshot, now, i, j);
    lemma_dump(dumps, m);
    lemma_listed(dumps[m].1->0@, q);
    lemma_labels(cfg.interfaces@[i], cfg.interfaces@[i].peers@[j]);
}

/// Law: of a peer whose interface could not be read, or which the kernel does not list, a scrape
/// reports no bytes and no handshake.
pub proof fn unlisted_peer_is_not_reported(
    cfg: AwgConfig,
    dumps: Seq<(String, Option<Stats>)>,
    snapshot: ReconcileSnapshot,
    now: u64,
    i: int,
    j: int,
    m: int,
)
    requires
        config::config_error(cfg) is None,
        0 <= i < cfg.interfaces@.len(),
        0 <= j < cfg.interfaces@[i].peers@.len(),
        0 <= m < dumps.len(),
        dumps[m].0@ == cfg.interfaces@[i].name@,
        forall|k: int| m < k < dumps.len() ==> (#[trigger] dumps[k]).0@ != dumps[m].0@,
        dumps[m].1 is Some ==> forall|k: int|
            0 <= k < dumps[m].1->0@.len() ==> (#[trigger] dumps[m].1->0@[k]).0@
                != cfg.interfaces@[i].peers@[j].public_key@,
    ensures
        ({
            let f = metrics::exposed(cfg, dumps, snapshot, now);
            let l = metrics::peer_labels(cfg.interfaces@[i], cfg.interfaces@[i].peers@[j]);
            &&& !f[1].values.dom().contains(l)
            &&& !f[2].values.dom().contains(l)
            &&& !f[3].values.dom().contains(l)
        }),
{
    config::accepted_iff_valid(cfg);
    assert(config::valid_interface(cfg.interfaces@[i]));
    lemma_peer(cfg.interfaces@, dumps, snapshot, now, i, j);
    lemma_dump(dumps, m);
    if dumps[m].1 is Some {
        lemma_not_listed(dumps[m].1->0@, cfg.interfaces@[i].peers@[j].public_key@);
    }
}

/// Law: whether a peer with CIDRs of its own is connected is reported for as long as the routing
/// loop's verdict is at most five seconds old: one where the verdict lists it, zero where not. Of
/// other peers it is never reported.
pub proof fn verdict_is_reported_while_fresh(
    cfg: AwgConfig,
    dumps: Seq<(String, Option<Stats>)>,
    snapshot: ReconcileSnapshot,
    now: u64,
    i: int,
    j: int,
)
    requires
        config::config_error(cfg) is None,
        0 <= i < cfg.interfaces@.len(),
        0 <= j < cfg.interfaces@[i].peers@.len(),
    ensures
        ({
            let iface = cfg.interfaces@[i];
            let f = metrics::exposed(cfg, dumps, snapshot, now);
            let l = metrics::peer_labels(iface, iface.peers@[j]);
            &&& f.len() >= 7
            &&& f[4].name == "awg_peer_connected"@ && !f[4].counter
            &&& f[4].values.dom().contains(l) <==> iface.peers@[j].allowed_ips is Some
                && snapshot.taken_unix > 0 && now <= snapshot.taken_unix + 5
            &&& f[4].values.dom().contains(l) ==> (f[4].values[l] == 0 || f[4].values[l] == 1)
            &&& f[4].values.dom().contains(l) ==> (f[4].values[l] == 1 <==> exists|k: int|
                0 <= k < snapshot.connected@.len() && (#[trigger] snapshot.connected@[k]).0@
                    == iface.name@ && snapshot.connected@[k].1@ == iface.peers@[j].public_key@)
        }),
{
    config::accepted_iff_valid(cfg);
    assert(config::valid_interface(cfg.interfaces@[i]));
    lemma_peer(cfg.interfaces@, dumps, snapshot, now, i, j);
}

/// Peers do not touch what is said of reading interfaces, and count towards their own interface.
proof fn lemma_peers_elsewhere(
    s: Series,
    iface: InterfaceEntry,
    n: int,
    dump: Option<Stats>,
    snapshot: ReconcileSnapshot,
    now: u64,
    l: Labels,
)
    requires
        n <= iface.peers@.len(),
        l.len() > 0,
        l[0].1 != iface.name@,
    ensures
        ({
            let r = metrics::with_peers(s, iface, n, dump, snapshot, now);
            &&& r.dump_ok == s.dump_ok
            &&& r.interface_peers.dom().contains(l) == s.interface_peers.dom().contains(l)
            &&& r.interface_peers[l] == s.interface_peers[l]
        }),
    decreases n,
{
    if n > 0 {
        lemma_peers_elsewhere(s, iface, n - 1, dump, snapshot, now, l);
        let k = metrics::kind_labels(iface, iface.peers@[n - 1]);
        assert(k[0].1 == iface.name@);
    }
}

/// The labels of the peers of one kind.
spec fn kind_label(name: Seq<char>, with_cidrs: bool) -> Labels {
    seq![
        ("interface"@, name),
        (
            "kind"@,
            if with_cidrs {
                "roadwarrior"@
            } else {
                "mesh"@
            },
        ),
    ]
}

/// How many of the first `n` peers of an interface are of one kind.
proof fn lemma_count(
    s: Series,
    iface: InterfaceEntry,
    n: int,
    dump: Option<Stats>,
    snapshot: ReconcileSnapshot,
    now: u64,
    with_cidrs: bool,
)
    requires
        0 <= n <= iface.peers@.len() <= i64::MAX,
        !s.interface_peers.dom().contains(kind_label(iface.name@, with_cidrs)),
    ensures
        ({
            let r = metrics::with_peers(s, iface, n, dump, snapshot, now);
            let l = kind_label(iface.name@, with_cidrs);
            let count = iface.peers@.take(n).filter(
                |p: PeerEntry| (p.allowed_ips is Some) == with_cidrs,
            ).len();
            &&& count <= n
            &&& r.dump_ok == s.dump_ok
            &&& r.interface_peers.dom().contains(l) <==> count > 0
            &&& count > 0 ==> r.interface_peers[l] == count
        }),
    decreases n,
{
    let is = |p: PeerEntry| (p.allowed_ips is Some) == with_cidrs;
    reveal(Seq::filter);
    if n > 0 {
        lemma_count(s, iface, n - 1, dump, snapshot, now, with_cidrs);
        assert(iface.peers@.take(n).drop_last() =~= iface.peers@.take(n - 1));
        let peer = iface.peers@[n - 1];
        assert(iface.peers@.take(n).last() == peer);
        let l = kind_label(iface.name@, with_cidrs);
        let k = metrics::kind_labels(iface, peer);
        reveal_strlit("roadwarrior");
        reveal_strlit("mesh");
        assert("roadwarrior"@.len() != "mesh"@.len());
        assert(k == kind_label(iface.name@, peer.allowed_ips is Some));
        if (peer.allowed_ips is Some) != with_cidrs {
            assert(k[1].1 != l[1].1);
        }
    } else {
        assert(iface.peers@.take(0).len() == 0);
    }
}

/// What other interfaces say does not touch what is said of this one.
proof fn lemma_interfaces_elsewhere(
    ifaces: Seq<InterfaceEntry>,
    from: int,
    to: int,
    dumps: Seq<(String, Option<Stats>)>,
    snapshot: ReconcileSnapshot,
    now: u64,
    l: Labels,
)
    requires
        0 <= from <= to <= ifaces.len(),
        l.len() > 0,
        forall|k: int| from <= k < to ==> (#[trigger] ifaces[k]).name@ != l[0].1,
    ensures
        ({
            let a = metrics::series(ifaces, from, dumps, snapshot, now);
            let b = metrics::series(ifaces, to, dumps, snapshot, now);
            &&& a.interface_peers.dom().contains(l) == b.interface_peers.dom().contains(l)
            &&& a.interface_peers[l] == b.interface_peers[l]
            &&& a.dump_ok.dom().contains(l) == b.dump_ok.dom().contains(l)
            &&& a.dump_ok[l] == b.dump_ok[l]
        }),
    decreases to - from,
{
    if from < to {
        lemma_interfaces_elsewhere(ifaces, from, to - 1, dumps, snapshot, now, l);
        let iface = ifaces[to - 1];
        assert(iface.name@ != l[0].1);
        let s = metrics::series(ifaces, to - 1, dumps, snapshot, now);
        let dump = metrics::dump_of(dumps, iface.name@);
        let k = metrics::interface_labels(iface);
        assert(k[0].1 == iface.name@);
        let first = Series {
            dump_ok: s.dump_ok.insert(
                k,
                if dump is Some {
                    1int
                } else {
                    0
                },
            ),
            ..s
        };
        lemma_peers_elsewhere(first, iface, iface.peers@.len() as int, dump, snapshot, now, l);
    }
}

/// What is said of an interface as a whole.
proof fn lemma_interface(
    ifaces: Seq<InterfaceEntry>,
    dumps: Seq<(String, Option<Stats>)>,
    snapshot: ReconcileSnapshot,
    now: u64,
    i: int,
    with_cidrs: bool,
)
    requires
        forall|a: int, b: int|
            0 <= a < b < ifaces.len() ==> (#[trigger] ifaces[a]).name@ != (
            #[trigger] ifaces[b]).name@,
        0 <= i < ifaces.len(),
        ifaces[i].peers@.len() <= i64::MAX,
    ensures
        ({
            let r = metrics::series(ifaces, ifaces.len() as int, dumps, snapshot, now);
            let l = kind_label(ifaces[i].name@, with_cidrs);
            let own = metrics::interface_labels(ifaces[i]);
            let count = ifaces[i].peers@.filter(
                |p: PeerEntry| (p.allowed_ips is Some) == with_cidrs,
            ).len();
            &&& r.interface_peers.dom().contains(l) <==> count > 0
            &&& count > 0 ==> r.interface_peers[l] == count
            &&& r.dump_ok.dom().contains(own)
            &&& r.dump_ok[own] == (if metrics::dump_of(dumps, ifaces[i].name@) is Some {
                1int
            } else {
                0
            })
        }),
{
    let iface = ifaces[i];
    let n = ifaces.len() as int;
    let peers = iface.peers@.len() as int;
    assert forall|k: int| 0 <= k < i implies (#[trigger] ifaces[k]).name@ != iface.name@ by {
        assert(ifaces[k].name@ != ifaces[i].name@);
    }
    assert forall|k: int| i + 1 <= k < n implies (#[trigger] ifaces[k]).name@ != iface.name@ by {
        assert(ifaces[i].name@ != ifaces[k].name@);
    }
    let l = kind_label(iface.name@, with_cidrs);
    let own = metrics::interface_labels(iface);
    assert(l[0].1 == iface.name@ && own[0].1 == iface.name@);
    lemma_interfaces_elsewhere(ifaces, 0, i, dumps, snapshot, now, l);
    lemma_interfaces_elsewhere(ifaces, i + 1, n, dumps, snapshot, now, l);
    lemma_interfaces_elsewhere(ifaces, i + 1, n, dumps, snapshot, now, own);
    let s = metrics::series(ifaces, i, dumps, snapshot, now);
    let dump = metrics::dump_of(dumps, iface.name@);
    let first = Series {
        dump_ok: s.dump_ok.insert(
            own,
            if dump is Some {
                1int
            } else {
                0
            },
        ),
        ..s
    };
    lemma_count(first, iface, peers, dump, snapshot, now, with_cidrs);
    assert(iface.peers@.take(peers) =~= iface.peers@);
    assert(metrics::series(ifaces, i + 1, dumps, snapshot, now) == metrics::with_peers(
        first,
        iface,
        peers,
        dump,
        snapshot,
        now,
    ));
}

/// Law: a scrape says of each interface how many peers with CIDRs of their own it is configured with
/// and how many without, as far as it has any.
pub proof fn peers_are_counted(
    cfg: AwgConfig,
    dumps: Seq<(String, Option<Stats>)>,
    snapshot: ReconcileSnapshot,
    now: u64,
    i: int,
    with_cidrs: bool,
)
    requires
        config::config_error(cfg) is None,
        0 <= i < cfg.interfaces@.len(),
        cfg.interfaces@[i].peers@.len() <= i64::MAX,
    ensures
        ({
            let iface = cfg.interfaces@[i];
            let f = metrics::exposed(cfg, dumps, snapshot, now);
            let count = iface.peers@.filter(
                |p: PeerEntry| (p.allowed_ips is Some) == with_cidrs,
            ).len();
            let l = seq![
                ("interface"@, iface.name@),
                (
                    "kind"@,
                    if with_cidrs {
                        "roadwarrior"@
                    } else {
                        "mesh"@
                    },
                ),
            ];
            &&& f.len() >= 7
            &&& f[5].name == "awg_interface_peers"@ && !f[5].counter
            &&& f[5].values.dom().contains(l) <==> count > 0
            &&& count > 0 ==> f[5].values[l] == count
        }),
{
    config::accepted_iff_valid(cfg);
    lemma_interface(cfg.interfaces@, dumps, snapshot, now, i, with_cidrs);
}

/// Law: a scrape says of each interface whether it could be read: one where its dump is there, zero
/// where not.
pub proof fn reading_is_reported(
    cfg: AwgConfig,
    dumps: Seq<(String, Option<Stats>)>,
    snapshot: ReconcileSnapshot,
    now: u64,
    i: int,
    m: int,
)
    requires
        config::config_error(cfg) is None,
        0 <= i < cfg.interfaces@.len(),
        cfg.interfaces@[i].peers@.len() <= i64::MAX,
        0 <= m < dumps.len(),
        dumps[m].0@ == cfg.interfaces@[i].name@,
        forall|k: int| m < k < dumps.len() ==> (#[trigger] dumps[k]).0@ != dumps[m].0@,
    ensures
        ({
            let f = metrics::exposed(cfg, dumps, snapshot, now);
            let own = seq![("interface"@, cfg.interfaces@[i].name@)];
            &&& f.len() >= 7
            &&& f[6].name == "awg_interface_dump_ok"@ && !f[6].counter
            &&& f[6].values.dom().contains(own)
            &&& f[6].values[own] == (if dumps[m].1 is Some {
                1int
            } else {
                0
            })
        }),
{
    config::accepted_iff_valid(cfg);
    lemma_dump(dumps, m);
    lemma_interface(cfg.interfaces@, dumps, snapshot, now, i, true);
}

} // verus!
