//! Handshake polling and kernel routes for tracked peers: those with `allowed_ips` of their own.

use crate::awg::config;
use crate::awg::config::{AwgConfig, InterfaceEntry};
use crate::awg::interface::DumpAttr;
use crate::common::keys;
use crate::text;
use vstd::prelude::*;

verus! {

/// One interface's worth of peers to track.
#[derive(Debug, PartialEq)]
pub struct TrackedInterface {
    pub name: String,
    pub index: u32,
    pub stale_secs: u64,
    /// Public key and CIDRs of each tracked peer, each key once.
    pub peers: Vec<(String, Vec<String>)>,
}

/// What a dump says of one peer.
#[derive(Clone, Copy, Debug, PartialEq, Eq, Structural)]
pub struct PeerStats {
    /// Unix seconds, `0` when there never was a handshake.
    pub last_handshake: u64,
    pub rx_bytes: u64,
    pub tx_bytes: u64,
}

pub open spec fn no_stats() -> PeerStats {
    PeerStats { last_handshake: 0, rx_bytes: 0, tx_bytes: 0 }
}

/// Peers by public key.
pub type Stats = Vec<(String, PeerStats)>;

/// The stats listed for a key.
pub open spec fn stats_for(list: Seq<(String, PeerStats)>, key: Seq<char>) -> Option<PeerStats>
    decreases list.len(),
{
    if list.len() == 0 {
        None
    } else if list.last().0@ == key {
        Some(list.last().1)
    } else {
        stats_for(list.drop_last(), key)
    }
}

/// Each key is listed once.
pub open spec fn keys_unique(list: Seq<(String, PeerStats)>) -> bool {
    forall|i: int, j: int|
        0 <= i < j < list.len() ==> (#[trigger] list[i]).0@ != (#[trigger] list[j]).0@
}

proof fn lemma_stats_for(list: Seq<(String, PeerStats)>, i: int)
    requires
        keys_unique(list),
        0 <= i < list.len(),
    ensures
        stats_for(list, list[i].0@) == Some(list[i].1),
    decreases list.len(),
{
    if i < list.len() - 1 {
        assert(list[i].0@ != list[list.len() - 1].0@);
        assert(list.drop_last()[i] == list[i]);
        lemma_stats_for(list.drop_last(), i);
    }
}

proof fn lemma_no_stats_for(list: Seq<(String, PeerStats)>, key: Seq<char>)
    requires
        forall|i: int| 0 <= i < list.len() ==> (#[trigger] list[i]).0@ != key,
    ensures
        stats_for(list, key) is None,
    decreases list.len(),
{
    if list.len() > 0 {
        assert(list[list.len() - 1].0@ != key);
        assert forall|i: int| 0 <= i < list.drop_last().len() implies (
        #[trigger] list.drop_last()[i]).0@ != key by {
            assert(list[i].0@ != key);
        }
        lemma_no_stats_for(list.drop_last(), key);
    }
}

/// Updating one entry leaves what is listed for the other keys.
proof fn lemma_update_stats(list: Seq<(String, PeerStats)>, i: int, e: (String, PeerStats))
    requires
        keys_unique(list),
        0 <= i < list.len(),
        e.0@ == list[i].0@,
    ensures
        keys_unique(list.update(i, e)),
        forall|key: Seq<char>|
            #[trigger] stats_for(list.update(i, e), key) == (if key == e.0@ {
                Some(e.1)
            } else {
                stats_for(list, key)
            }),
{
    let now = list.update(i, e);
    assert forall|key: Seq<char>| #[trigger] stats_for(now, key) == (if key == e.0@ {
        Some(e.1)
    } else {
        stats_for(list, key)
    }) by {
        if key == e.0@ {
            lemma_stats_for(now, i);
        } else {
            lemma_same_other(list, now, i, key);
        }
    }
}

proof fn lemma_same_other(
    a: Seq<(String, PeerStats)>,
    b: Seq<(String, PeerStats)>,
    i: int,
    key: Seq<char>,
)
    requires
        a.len() == b.len(),
        forall|k: int| 0 <= k < a.len() && k != i ==> a[k] == b[k],
        0 <= i < a.len() ==> a[i].0@ != key && b[i].0@ != key,
    ensures
        stats_for(a, key) == stats_for(b, key),
    decreases a.len(),
{
    if a.len() > 0 {
        lemma_same_other(a.drop_last(), b.drop_last(), i, key);
    }
}

/// The stats listed for a key.
pub fn find_stats(list: &Stats, key: &str) -> (r: Option<PeerStats>)
    ensures
        r == stats_for(list@, key@),
{
    let mut i: usize = list.len();
    assert(list@.take(i as int) =~= list@);
    while i > 0
        invariant
            i <= list@.len(),
            stats_for(list@, key@) == stats_for(list@.take(i as int), key@),
        decreases i,
    {
        assert(list@.take(i as int).drop_last() =~= list@.take(i - 1));
        if text::str_eq(list[i - 1].0.as_str(), key) {
            return Some(list[i - 1].1);
        }
        i -= 1;
    }
    None
}

/// The first public key of a dumped peer.
pub open spec fn frame_key(attrs: Seq<DumpAttr>) -> Option<[u8; 32]>
    decreases attrs.len(),
{
    if attrs.len() == 0 {
        None
    } else if attrs[0] is PublicKey {
        Some(attrs[0]->PublicKey_0)
    } else {
        frame_key(attrs.skip(1))
    }
}

/// What one attribute changes.
pub open spec fn with_attr(s: PeerStats, a: DumpAttr) -> PeerStats {
    match a {
        DumpAttr::LastHandshake(t) => PeerStats {
            last_handshake: if t < 0 {
                0
            } else {
                t as u64
            },
            ..s
        },
        DumpAttr::RxBytes(v) => PeerStats { rx_bytes: v, ..s },
        DumpAttr::TxBytes(v) => PeerStats { tx_bytes: v, ..s },
        _ => s,
    }
}

/// What the attributes of one frame change.
pub open spec fn with_attrs(s: PeerStats, attrs: Seq<DumpAttr>) -> PeerStats
    decreases attrs.len(),
{
    if attrs.len() == 0 {
        s
    } else {
        with_attr(with_attrs(s, attrs.drop_last()), attrs.last())
    }
}

/// A frame reports on the peer with this key.
pub open spec fn reports_on(attrs: Seq<DumpAttr>, key: Seq<char>) -> bool {
    frame_key(attrs) matches Some(k) && keys::base64_encoded(k@) == key
}

/// What a dump says of a peer: the frames that name it, folded one into the other, so that a
/// continuation frame resets nothing.
pub open spec fn merged(dump: Seq<Vec<DumpAttr>>, key: Seq<char>) -> Option<PeerStats>
    decreases dump.len(),
{
    if dump.len() == 0 {
        None
    } else {
        let before = merged(dump.drop_last(), key);
        if reports_on(dump.last()@, key) {
            Some(
                with_attrs(
                    if before is Some {
                        before->0
                    } else {
                        no_stats()
                    },
                    dump.last()@,
                ),
            )
        } else {
            before
        }
    }
}

fn first_key(attrs: &Vec<DumpAttr>) -> (r: Option<[u8; 32]>)
    ensures
        r == frame_key(attrs@),
{
    let mut i: usize = 0;
    assert(attrs@.skip(0) =~= attrs@);
    while i < attrs.len()
        invariant
            i <= attrs@.len(),
            frame_key(attrs@) == frame_key(attrs@.skip(i as int)),
        decreases attrs@.len() - i,
    {
        assert(attrs@.skip(i as int).skip(1) =~= attrs@.skip(i + 1));
        if let DumpAttr::PublicKey(k) = &attrs[i] {
            return Some(*k);
        }
        i += 1;
    }
    None
}

fn apply_attrs(start: PeerStats, attrs: &Vec<DumpAttr>) -> (r: PeerStats)
    ensures
        r == with_attrs(start, attrs@),
{
    let mut s = start;
    let mut i: usize = 0;
    while i < attrs.len()
        invariant
            i <= attrs@.len(),
            s == with_attrs(start, attrs@.take(i as int)),
        decreases attrs@.len() - i,
    {
        assert(attrs@.take(i + 1).drop_last() =~= attrs@.take(i as int));
        match &attrs[i] {
            DumpAttr::LastHandshake(t) => {
                s.last_handshake = if *t < 0 {
                    0
                } else {
                    *t as u64
                };
            },
            DumpAttr::RxBytes(v) => {
                s.rx_bytes = *v;
            },
            DumpAttr::TxBytes(v) => {
                s.tx_bytes = *v;
            },
            _ => {},
        }
        i += 1;
    }
    assert(attrs@.take(i as int) =~= attrs@);
    s
}

/// The stats of every peer that a dump names.
pub fn merge_peer_attrs(dump: &Vec<Vec<DumpAttr>>) -> (out: Stats)
    ensures
        keys_unique(out@),
        forall|key: Seq<char>| #[trigger] stats_for(out@, key) == merged(dump@, key),
{
    let mut out: Stats = Vec::new();
    let mut i: usize = 0;
    while i < dump.len()
        invariant
            i <= dump@.len(),
            keys_unique(out@),
            forall|key: Seq<char>| #[trigger]
                stats_for(out@, key) == merged(dump@.take(i as int), key),
        decreases dump@.len() - i,
    {
        proof {
            assert(dump@.take(i + 1).drop_last() =~= dump@.take(i as int));
        }
        let ghost prev = out@;
        if let Some(k) = first_key(&dump[i]) {
            let key = keys::encode_key(&k);
            let mut j: usize = 0;
            while j < out.len() && !text::str_eq(out[j].0.as_str(), key.as_str())
                invariant
                    j <= out@.len(),
                    forall|q: int| 0 <= q < j ==> (#[trigger] out@[q]).0@ != key@,
                decreases out@.len() - j,
            {
                j += 1;
            }
            if j < out.len() {
                proof {
                    lemma_stats_for(out@, j as int);
                }
                let s = apply_attrs(out[j].1, &dump[i]);
                let name = out[j].0.clone();
                out.set(j, (name, s));
                proof {
                    lemma_update_stats(prev, j as int, (name, s));
                    assert forall|q: Seq<char>| #[trigger] stats_for(out@, q) == merged(
                        dump@.take(i + 1),
                        q,
                    ) by {
                        assert(stats_for(prev, q) == merged(dump@.take(i as int), q));
                    }
                }
            } else {
                let s = apply_attrs(
                    PeerStats { last_handshake: 0, rx_bytes: 0, tx_bytes: 0 },
                    &dump[i],
                );
                proof {
                    lemma_no_stats_for(prev, key@);
                }
                out.push((key, s));
                proof {
                    assert(out@.drop_last() =~= prev);
                    assert forall|q: Seq<char>| #[trigger] stats_for(out@, q) == merged(
                        dump@.take(i + 1),
                        q,
                    ) by {
                        assert(stats_for(prev, q) == merged(dump@.take(i as int), q));
                    }
                }
            }
        } else {
            proof {
                assert forall|q: Seq<char>| #[trigger] stats_for(out@, q) == merged(
                    dump@.take(i + 1),
                    q,
                ) by {
                    assert(stats_for(prev, q) == merged(dump@.take(i as int), q));
                }
            }
        }
        i += 1;
    }
    assert(dump@.take(i as int) =~= dump@);
    out
}

/// What the routing loop concluded on its last completed pass.
#[derive(Debug, PartialEq)]
pub struct ReconcileSnapshot {
    pub taken_unix: u64,
    /// Interface name and public key of each tracked peer whose routes are all installed.
    pub connected: Vec<(String, String)>,
}

/// The CIDRs installed on an interface.
pub open spec fn installed_on(installed: Seq<(u32, Vec<String>)>, index: u32) -> Seq<Seq<char>>
    decreases installed.len(),
{
    if installed.len() == 0 {
        Seq::empty()
    } else if installed[0].0 == index {
        text::texts(installed[0].1@)
    } else {
        installed_on(installed.skip(1), index)
    }
}

/// All of a peer's CIDRs are installed, and there is at least one.
pub open spec fn routed(ips: Seq<String>, here: Seq<Seq<char>>) -> bool {
    &&& ips.len() > 0
    &&& forall|i: int| 0 <= i < ips.len() ==> here.contains((#[trigger] ips[i])@)
}

/// A peer of one of the tracked interfaces is connected.
pub open spec fn is_connected(
    watched: Seq<TrackedInterface>,
    installed: Seq<(u32, Vec<String>)>,
    name: Seq<char>,
    key: Seq<char>,
) -> bool {
    exists|i: int, j: int|
        0 <= i < watched.len() && 0 <= j < watched[i].peers@.len() && watched[i].name@ == name && (
        #[trigger] watched[i].peers@[j]).0@ == key && routed(
            watched[i].peers@[j].1@,
            installed_on(installed, watched[i].index),
        )
}

/// A snapshot lists an interface and a key as connected.
pub open spec fn lists(connected: Seq<(String, String)>, name: Seq<char>, key: Seq<char>) -> bool {
    exists|i: int|
        0 <= i < connected.len() && (#[trigger] connected[i]).0@ == name && connected[i].1@ == key
}

fn routes_here(installed: &Vec<(u32, Vec<String>)>, index: u32) -> (r: Vec<String>)
    ensures
        text::texts(r@) == installed_on(installed@, index),
{
    let mut i: usize = 0;
    assert(installed@.skip(0) =~= installed@);
    while i < installed.len()
        invariant
            i <= installed@.len(),
            installed_on(installed@, index) == installed_on(installed@.skip(i as int), index),
        decreases installed@.len() - i,
    {
        assert(installed@.skip(i as int).skip(1) =~= installed@.skip(i + 1));
        if installed[i].0 == index {
            return text::clone_texts(&installed[i].1);
        }
        i += 1;
    }
    let r: Vec<String> = Vec::new();
    assert(text::texts(r@) =~= Seq::empty());
    r
}

fn is_routed(ips: &Vec<String>, here: &Vec<String>) -> (r: bool)
    ensures
        r == routed(ips@, text::texts(here@)),
{
    let mut i: usize = 0;
    while i < ips.len()
        invariant
            i <= ips@.len(),
            forall|k: int| 0 <= k < i ==> text::texts(here@).contains((#[trigger] ips@[k])@),
        decreases ips@.len() - i,
    {
        if !text::has_text(here, ips[i].as_str()) {
            assert(!text::texts(here@).contains(ips@[i as int]@));
            return false;
        }
        i += 1;
    }
    ips.len() > 0
}

/// A peer counts as connected only when every one of its CIDRs is installed, not when its
/// handshake merely looks fresh.
pub fn snapshot_from(
    watched: &Vec<TrackedInterface>,
    installed: &Vec<(u32, Vec<String>)>,
    now: u64,
) -> (snapshot: ReconcileSnapshot)
    ensures
        snapshot.taken_unix == now,
        forall|name: Seq<char>, key: Seq<char>| #[trigger]
            lists(snapshot.connected@, name, key) <==> is_connected(
                watched@,
                installed@,
                name,
                key,
            ),
{
    let mut connected: Vec<(String, String)> = Vec::new();
    let mut i: usize = 0;
    while i < watched.len()
        invariant
            i <= watched@.len(),
            forall|name: Seq<char>, key: Seq<char>| #[trigger]
                lists(connected@, name, key) <==> is_connected(
                    watched@.take(i as int),
                    installed@,
                    name,
                    key,
                ),
        decreases watched@.len() - i,
    {
        let iface = &watched[i];
        let here = routes_here(installed, iface.index);
        let ghost start = connected@;
        let mut j: usize = 0;
        while j < iface.peers.len()
            invariant
                j <= iface.peers@.len(),
                text::texts(here@) == installed_on(installed@, iface.index),
                forall|name: Seq<char>, key: Seq<char>| #[trigger]
                    lists(connected@, name, key) <==> lists(start, name, key) || (name
                        == iface.name@ && exists|q: int|
                        0 <= q < j && (#[trigger] iface.peers@[q]).0@ == key && routed(
                            iface.peers@[q].1@,
                            text::texts(here@),
                        )),
            decreases iface.peers@.len() - j,
        {
            let ghost prev = connected@;
            if is_routed(&iface.peers[j].1, &here) {
                connected.push((iface.name.clone(), iface.peers[j].0.clone()));
                proof {
                    assert forall|name: Seq<char>, key: Seq<char>| #[trigger]
                        lists(connected@, name, key) <==> lists(prev, name, key) || (name
                            == iface.name@ && key == iface.peers@[j as int].0@) by {
                        if lists(prev, name, key) {
                            let q = choose|q: int|
                                0 <= q < prev.len() && (#[trigger] prev[q]).0@ == name && prev[q].1@
                                    == key;
                            assert(connected@[q].0@ == name);
                        }
                        if name == iface.name@ && key == iface.peers@[j as int].0@ {
                            assert(connected@[prev.len() as int].0@ == name);
                        }
                        if lists(connected@, name, key) {
                            let q = choose|q: int|
                                0 <= q < connected@.len() && (#[trigger] connected@[q]).0@ == name
                                    && connected@[q].1@ == key;
                            if q < prev.len() {
                                assert(prev[q].0@ == name);
                            }
                        }
                    }
                }
            }
            j += 1;
        }
        proof {
            let a = watched@.take(i as int);
            let b = watched@.take(i + 1);
            assert forall|name: Seq<char>, key: Seq<char>| #[trigger]
                lists(connected@, name, key) <==> is_connected(b, installed@, name, key) by {
                assert(lists(start, name, key) <==> is_connected(a, installed@, name, key));
                if is_connected(a, installed@, name, key) {
                    let (p, q) = choose|p: int, q: int|
                        0 <= p < a.len() && 0 <= q < a[p].peers@.len() && a[p].name@ == name && (
                        #[trigger] a[p].peers@[q]).0@ == key && routed(
                            a[p].peers@[q].1@,
                            installed_on(installed@, a[p].index),
                        );
                    assert(b[p].peers@[q].0@ == key);
                }
                if is_connected(b, installed@, name, key) {
                    let (p, q) = choose|p: int, q: int|
                        0 <= p < b.len() && 0 <= q < b[p].peers@.len() && b[p].name@ == name && (
                        #[trigger] b[p].peers@[q]).0@ == key && routed(
                            b[p].peers@[q].1@,
                            installed_on(installed@, b[p].index),
                        );
                    if p < i {
                        assert(a[p].peers@[q].0@ == key);
                    } else {
                        assert(iface.peers@[q].0@ == key);
                    }
                }
                if name == iface.name@ && exists|q: int|
                    0 <= q < j && (#[trigger] iface.peers@[q]).0@ == key && routed(
                        iface.peers@[q].1@,
                        text::texts(here@),
                    ) {
                    let q = choose|q: int|
                        0 <= q < j && (#[trigger] iface.peers@[q]).0@ == key && routed(
                            iface.peers@[q].1@,
                            text::texts(here@),
                        );
                    assert(b[i as int].peers@[q].0@ == key);
                }
            }
        }
        i += 1;
    }
    assert(watched@.take(i as int) =~= watched@);
    ReconcileSnapshot { taken_unix: now, connected }
}

/// A handshake is recent enough for its routes to stand.
pub open spec fn fresh(s: Option<PeerStats>, now: u64, stale_secs: u64) -> bool {
    match s {
        Some(p) => p.last_handshake > 0 && (if now >= p.last_handshake {
            now - p.last_handshake
        } else {
            0
        }) < stale_secs,
        None => false,
    }
}

/// The CIDRs of the peers whose handshake is fresh, peer by peer.
pub open spec fn wanted(iface: TrackedInterface, stats: Seq<(String, PeerStats)>, now: u64, n: int) -> Seq<
    Seq<char>,
>
    decreases n,
{
    if n <= 0 {
        Seq::empty()
    } else {
        let peer = iface.peers@[n - 1];
        let before = wanted(iface, stats, now, n - 1);
        if fresh(stats_for(stats, peer.0@), now, iface.stale_secs) {
            before + text::texts(peer.1@)
        } else {
            before
        }
    }
}

/// The routes that should stand now on an interface.
pub fn wanted_routes(iface: &TrackedInterface, stats: &Stats, now: u64) -> (r: Vec<String>)
    ensures
        text::texts(r@) == wanted(*iface, stats@, now, iface.peers@.len() as int),
{
    let mut r: Vec<String> = Vec::new();
    let mut i: usize = 0;
    assert(text::texts(r@) =~= Seq::empty());
    while i < iface.peers.len()
        invariant
            i <= iface.peers@.len(),
            text::texts(r@) == wanted(*iface, stats@, now, i as int),
        decreases iface.peers@.len() - i,
    {
        let peer = &iface.peers[i];
        let is_fresh = match find_stats(stats, peer.0.as_str()) {
            Some(p) => p.last_handshake > 0 && now.saturating_sub(p.last_handshake)
                < iface.stale_secs,
            None => false,
        };
        if is_fresh {
            let mut j: usize = 0;
            let ghost start = text::texts(r@);
            while j < peer.1.len()
                invariant
                    j <= peer.1@.len(),
                    text::texts(r@) =~= start + text::texts(peer.1@).take(j as int),
                decreases peer.1@.len() - j,
            {
                let ghost prev = r@;
                r.push(peer.1[j].clone());
                assert(text::texts(r@) =~= text::texts(prev).push(text::texts(peer.1@)[j as int]));
                j += 1;
            }
            assert(text::texts(peer.1@).take(j as int) =~= text::texts(peer.1@));
        }
        i += 1;
    }
    r
}

/// One pass over an interface's routes, as it goes: what stands, what should stand, and what could
/// not be done.
#[derive(Debug, PartialEq)]
pub struct RoutePass {
    pub installed: Vec<String>,
    pub wanted: Vec<String>,
    pub added: usize,
    pub fresh: Vec<String>,
    pub stale: Vec<String>,
    pub removed: usize,
    /// Routes whose installation failed in this pass.
    pub not_added: Vec<String>,
    /// Routes whose removal failed in this pass.
    pub not_removed: Vec<String>,
}

/// What the pass asks for next.
#[derive(Debug, PartialEq)]
pub enum RouteAction {
    Add(String),
    Delete(String),
    Done,
}

impl RoutePass {
    pub open spec fn here(self) -> Seq<Seq<char>> {
        text::texts(self.installed@)
    }

    /// What holds throughout a pass.
    pub open spec fn wf(self) -> bool {
        let installed = text::texts(self.installed@);
        let goal = text::texts(self.wanted@);
        let fresh = text::texts(self.fresh@);
        let stale = text::texts(self.stale@);
        let not_added = text::texts(self.not_added@);
        &&& self.added <= self.wanted@.len()
        &&& self.removed <= self.stale@.len()
        &&& forall|c: Seq<char>| #[trigger] fresh.contains(c) ==> installed.contains(c)
            && goal.contains(c)
        &&& forall|i: int|
            0 <= i < self.added ==> fresh.contains(#[trigger] goal[i]) || not_added.contains(
                goal[i],
            )
        &&& forall|c: Seq<char>| #[trigger] stale.contains(c) ==> !fresh.contains(c)
        &&& self.added < self.wanted@.len() ==> self.stale@.len() == 0 && self.removed == 0
            && self.not_removed@.len() == 0
    }

    /// What holds once every wanted route has been dealt with: what stands is what is wanted, as
    /// far as it could be installed, what is yet to go, and what would not go.
    pub open spec fn removing(self) -> bool {
        let fresh = text::texts(self.fresh@);
        let not_removed = text::texts(self.not_removed@);
        let stale = text::texts(self.stale@);
        let left = stale.skip(self.removed as int);
        &&& self.added == self.wanted@.len()
        &&& text::ascending(stale)
        &&& forall|c: Seq<char>| #[trigger] self.here().contains(c) <==> fresh.contains(c)
            || left.contains(c) || not_removed.contains(c)
        &&& forall|c: Seq<char>| #[trigger] not_removed.contains(c) ==> stale.take(
            self.removed as int,
        ).contains(c)
    }

    /// A wanted route that could not be installed.
    pub open spec fn is_lost(self, c: Seq<char>) -> bool {
        text::texts(self.not_added@).contains(c) && !text::texts(self.fresh@).contains(c)
    }
}

/// A pass that has yet to do anything.
pub fn start_pass(installed: Vec<String>, wanted: Vec<String>) -> (pass: RoutePass)
    ensures
        pass.wf(),
        pass.installed == installed,
        pass.wanted == wanted,
        pass.added == 0,
        pass.not_added@.len() == 0,
        pass.not_removed@.len() == 0,
        pass.fresh@.len() == 0,
{
    RoutePass {
        installed,
        wanted,
        added: 0,
        fresh: Vec::new(),
        stale: Vec::new(),
        removed: 0,
        not_added: Vec::new(),
        not_removed: Vec::new(),
    }
}

proof fn lemma_texts_push(v: Seq<String>, s: String)
    ensures
        text::texts(v.push(s)) == text::texts(v).push(s@),
        forall|c: Seq<char>| #[trigger]
            text::texts(v.push(s)).contains(c) <==> c == s@ || text::texts(v).contains(c),
{
    assert(text::texts(v.push(s)) =~= text::texts(v).push(s@));
    text::lemma_push_contains(text::texts(v), s@);
}

/// What the pass needs next. A wanted route that stands already needs nothing.
pub fn next_action(pass: &RoutePass) -> (action: RouteAction)
    requires
        pass.wf(),
    ensures
        match action {
            RouteAction::Add(c) => pass.added < pass.wanted@.len() && c@
                == pass.wanted@[pass.added as int]@ && !pass.here().contains(c@),
            RouteAction::Delete(c) => pass.added == pass.wanted@.len() && pass.removed
                < pass.stale@.len() && c@ == pass.stale@[pass.removed as int]@,
            RouteAction::Done => if pass.added < pass.wanted@.len() {
                pass.here().contains(pass.wanted@[pass.added as int]@)
            } else {
                pass.removed == pass.stale@.len()
            },
        },
{
    if pass.added < pass.wanted.len() {
        if text::has_text(&pass.installed, pass.wanted[pass.added].as_str()) {
            RouteAction::Done
        } else {
            RouteAction::Add(pass.wanted[pass.added].clone())
        }
    } else if pass.removed < pass.stale.len() {
        RouteAction::Delete(pass.stale[pass.removed].clone())
    } else {
        RouteAction::Done
    }
}

/// Deals with the next wanted route: `ok` says that it stands, having stood before or having just
/// been installed.
pub fn wanted_done(pass: &mut RoutePass, ok: bool)
    requires
        old(pass).wf(),
        old(pass).added < old(pass).wanted@.len(),
    ensures
        final(pass).wf(),
        final(pass).wanted == old(pass).wanted,
        final(pass).added == old(pass).added + 1,
        ({
            let c = old(pass).wanted@[old(pass).added as int]@;
            &&& forall|t: Seq<char>| #[trigger]
                final(pass).here().contains(t) <==> old(pass).here().contains(t) || (ok && t == c)
            &&& forall|t: Seq<char>| #[trigger]
                text::texts(final(pass).fresh@).contains(t) <==> text::texts(
                    old(pass).fresh@,
                ).contains(t) || (ok && t == c)
            &&& forall|t: Seq<char>| #[trigger]
                text::texts(final(pass).not_added@).contains(t) <==> text::texts(
                    old(pass).not_added@,
                ).contains(t) || (!ok && t == c)
        }),
        final(pass).stale@.len() == 0,
        final(pass).removed == 0,
        final(pass).not_removed@.len() == 0,
{
    let ghost before = *pass;
    let count: usize = pass.wanted.len();
    assert(pass.added < count);
    let next: usize = pass.added + 1;
    let c = pass.wanted[pass.added].clone();
    if ok {
        let ghost i0 = pass.installed@;
        let ghost f0 = pass.fresh@;
        pass.installed.push(c.clone());
        pass.fresh.push(c);
        proof {
            lemma_texts_push(i0, pass.installed@[i0.len() as int]);
            lemma_texts_push(f0, pass.fresh@[f0.len() as int]);
            assert(pass.installed@ =~= i0.push(pass.installed@[i0.len() as int]));
            assert(pass.fresh@ =~= f0.push(pass.fresh@[f0.len() as int]));
        }
    } else {
        let ghost f0 = pass.not_added@;
        pass.not_added.push(c);
        proof {
            lemma_texts_push(f0, pass.not_added@[f0.len() as int]);
            assert(pass.not_added@ =~= f0.push(pass.not_added@[f0.len() as int]));
        }
    }
    pass.added = next;
    proof {
        let goal = text::texts(pass.wanted@);
        let at = before.added as int;
        assert(goal.contains(goal[at]));
        assert forall|i: int| 0 <= i < pass.added implies text::texts(pass.fresh@).contains(
            #[trigger] goal[i],
        ) || text::texts(pass.not_added@).contains(goal[i]) by {
            if i < before.added {
                assert(text::texts(before.fresh@).contains(goal[i]) || text::texts(
                    before.not_added@,
                ).contains(goal[i]));
            }
        }
        assert forall|t: Seq<char>| #[trigger] text::texts(pass.fresh@).contains(t) implies
            pass.here().contains(t) && goal.contains(t) by {
            if text::texts(before.fresh@).contains(t) {
                assert(before.here().contains(t));
            }
            assert(pass.here().contains(t) <==> before.here().contains(t) || (ok && t
                == goal[at]));
        }
        assert forall|t: Seq<char>| #[trigger] text::texts(pass.stale@).contains(t) implies
            !text::texts(pass.fresh@).contains(t) by {
            assert(pass.stale@.len() == 0);
        }
    }
}

/// Once every wanted route has been dealt with: lists what stands without being wanted.
pub fn find_stale(pass: &mut RoutePass)
    requires
        old(pass).wf(),
        old(pass).added == old(pass).wanted@.len(),
        old(pass).not_removed@.len() == 0,
    ensures
        final(pass).wf(),
        final(pass).removing(),
        final(pass).removed == 0,
        final(pass).installed == old(pass).installed,
        final(pass).wanted == old(pass).wanted,
        final(pass).fresh == old(pass).fresh,
        final(pass).not_added == old(pass).not_added,
        final(pass).not_removed == old(pass).not_removed,
        forall|c: Seq<char>| #[trigger]
            text::texts(final(pass).stale@).contains(c) <==> old(pass).here().contains(c)
                && !text::texts(old(pass).fresh@).contains(c),
        text::ascending(text::texts(final(pass).stale@)),
{
    let mut stale: Vec<String> = Vec::new();
    let mut i: usize = 0;
    let ghost here = pass.here();
    let ghost fresh = text::texts(pass.fresh@);
    while i < pass.installed.len()
        invariant
            i <= pass.installed@.len(),
            here == text::texts(pass.installed@),
            fresh == text::texts(pass.fresh@),
            text::ascending(text::texts(stale@)),
            forall|c: Seq<char>| #[trigger]
                text::texts(stale@).contains(c) <==> here.take(i as int).contains(c)
                    && !fresh.contains(c),
        decreases pass.installed@.len() - i,
    {
        let ghost prev = text::texts(stale@);
        if !text::has_text(&pass.fresh, pass.installed[i].as_str()) {
            text::insert_text(&mut stale, pass.installed[i].as_str());
        }
        proof {
            text::lemma_take_contains(here, i as int);
        }
        i += 1;
    }
    assert(here.take(i as int) =~= here);
    pass.stale = stale;
    pass.removed = 0;
    assert(text::texts(pass.stale@).skip(0) =~= text::texts(pass.stale@));
}

/// Deals with the next stale route: `ok` says that it is gone.
pub fn stale_done(pass: &mut RoutePass, ok: bool)
    requires
        old(pass).wf(),
        old(pass).removing(),
        old(pass).removed < old(pass).stale@.len(),
    ensures
        final(pass).wf(),
        final(pass).removing(),
        final(pass).removed == old(pass).removed + 1,
        final(pass).wanted == old(pass).wanted,
        final(pass).stale == old(pass).stale,
        ({
            let c = old(pass).stale@[old(pass).removed as int]@;
            &&& forall|t: Seq<char>| #[trigger]
                final(pass).here().contains(t) <==> old(pass).here().contains(t) && !(ok && t
                    == c)
            &&& forall|t: Seq<char>| #[trigger]
                text::texts(final(pass).not_removed@).contains(t) <==> text::texts(
                    old(pass).not_removed@,
                ).contains(t) || (!ok && t == c)
        }),
        final(pass).fresh == old(pass).fresh,
        final(pass).not_added == old(pass).not_added,
{
    let ghost before = *pass;
    let count: usize = pass.stale.len();
    assert(pass.removed < count);
    let next: usize = pass.removed + 1;
    let c = pass.stale[pass.removed].clone();
    let ghost stale = text::texts(pass.stale@);
    let ghost at = pass.removed as int;
    if ok {
        let ghost here = pass.here();
        let mut kept: Vec<String> = Vec::new();
        let mut i: usize = 0;
        while i < pass.installed.len()
            invariant
                i <= pass.installed@.len(),
                here == text::texts(pass.installed@),
                forall|t: Seq<char>| #[trigger]
                    text::texts(kept@).contains(t) <==> here.take(i as int).contains(t) && t != c@,
            decreases pass.installed@.len() - i,
        {
            let ghost prev = kept@;
            if !text::str_eq(pass.installed[i].as_str(), c.as_str()) {
                let s = pass.installed[i].clone();
                kept.push(s);
                proof {
                    lemma_texts_push(prev, s);
                    assert(kept@ =~= prev.push(s));
                }
            }
            proof {
                text::lemma_take_contains(here, i as int);
            }
            i += 1;
        }
        assert(here.take(i as int) =~= here);
        pass.installed = kept;
    } else {
        let ghost f0 = pass.not_removed@;
        pass.not_removed.push(c);
        proof {
            lemma_texts_push(f0, pass.not_removed@[f0.len() as int]);
            assert(pass.not_removed@ =~= f0.push(pass.not_removed@[f0.len() as int]));
        }
    }
    pass.removed = next;
    proof {
        let now_left = stale.skip(at + 1);
        let left = stale.skip(at);
        let fresh = text::texts(pass.fresh@);
        let was = text::texts(before.not_removed@);
        let not_removed = text::texts(pass.not_removed@);
        assert(stale.contains(stale[at]));
        assert(left[0] == stale[at]);
        assert(!now_left.contains(stale[at])) by {
            if now_left.contains(stale[at]) {
                let k = choose|k: int| 0 <= k < now_left.len() && now_left[k] == stale[at];
                assert(stale[at + 1 + k] == stale[at]);
                lemma_ascending_distinct(stale, at, at + 1 + k);
            }
        }
        assert(!stale.take(at).contains(stale[at])) by {
            if stale.take(at).contains(stale[at]) {
                let k = choose|k: int| 0 <= k < at && stale.take(at)[k] == stale[at];
                lemma_ascending_distinct(stale, k, at);
            }
        }
        assert forall|t: Seq<char>| left.contains(t) <==> t == stale[at] || #[trigger]
            now_left.contains(t) by {
            if left.contains(t) && t != stale[at] {
                let k = choose|k: int| 0 <= k < left.len() && left[k] == t;
                assert(now_left[k - 1] == t);
            }
            if now_left.contains(t) {
                let k = choose|k: int| 0 <= k < now_left.len() && now_left[k] == t;
                assert(left[k + 1] == t);
            }
        }
        assert forall|t: Seq<char>| #[trigger] pass.here().contains(t) <==> fresh.contains(t)
            || now_left.contains(t) || not_removed.contains(t) by {
            assert(before.here().contains(t) <==> fresh.contains(t) || left.contains(t)
                || was.contains(t));
            assert(!fresh.contains(stale[at]));
            assert(!was.contains(stale[at]));
        }
        assert forall|t: Seq<char>| #[trigger] not_removed.contains(t) implies stale.take(
            at + 1,
        ).contains(t) by {
            if t == stale[at] {
                assert(stale.take(at + 1)[at] == t);
            } else {
                assert(was.contains(t));
                let k = choose|k: int| 0 <= k < at && stale.take(at)[k] == t;
                assert(stale.take(at + 1)[k] == t);
            }
        }
    }
}

proof fn lemma_ascending_distinct(v: Seq<Seq<char>>, i: int, j: int)
    requires
        text::ascending(v),
        0 <= i < j < v.len(),
    ensures
        v[i] != v[j],
{
    text::lemma_lex_irreflexive(v[i]);
}

/// Law: after a pass, what stands on the interface is what is wanted, without the routes that could
/// not be installed, and the routes that could not be removed.
pub proof fn completed_pass_matches(pass: RoutePass)
    requires
        pass.wf(),
        pass.removing(),
        pass.removed == pass.stale@.len(),
    ensures
        forall|c: Seq<char>| #[trigger]
            pass.here().contains(c) <==> (text::texts(pass.wanted@).contains(c) && !pass.is_lost(c))
                || text::texts(pass.not_removed@).contains(c),
        pass.not_added@.len() == 0 && pass.not_removed@.len() == 0 ==> text::same_set(
            pass.here(),
            text::texts(pass.wanted@),
        ),
{
    let goal = text::texts(pass.wanted@);
    let fresh = text::texts(pass.fresh@);
    let left = text::texts(pass.stale@).skip(pass.removed as int);
    assert forall|c: Seq<char>| #[trigger] pass.here().contains(c) <==> (goal.contains(c)
        && !pass.is_lost(c)) || text::texts(pass.not_removed@).contains(c) by {
        assert(left.len() == 0);
        assert(!left.contains(c));
        if goal.contains(c) && !pass.is_lost(c) {
            let i = choose|i: int| 0 <= i < goal.len() && goal[i] == c;
            assert(fresh.contains(goal[i]) || text::texts(pass.not_added@).contains(goal[i]));
        }
        if fresh.contains(c) {
            assert(goal.contains(c));
        }
    }
}

/// `t` tracks the peers of `iface` that have CIDRs of their own.
pub open spec fn is_tracking(iface: InterfaceEntry, index: u32, t: TrackedInterface) -> bool {
    &&& t.name@ == iface.name@
    &&& t.index == index
    &&& t.stale_secs == (match iface.handshake_stale_secs {
        Some(s) => s,
        None => config::DEFAULT_HANDSHAKE_STALE_SECS,
    })
    &&& tracks(iface, iface.peers@.len() as int, t.peers@)
}

/// The tracked peers among the first `n` of an interface, in order.
pub open spec fn tracks(iface: InterfaceEntry, n: int, peers: Seq<(String, Vec<String>)>) -> bool
    decreases n,
{
    if n <= 0 {
        peers.len() == 0
    } else {
        let p = iface.peers@[n - 1];
        match p.allowed_ips {
            Some(ips) => peers.len() > 0 && peers.last().0@ == p.public_key@ && text::texts(
                peers.last().1@,
            ) == text::texts(ips@) && tracks(iface, n - 1, peers.drop_last()),
            None => tracks(iface, n - 1, peers),
        }
    }
}

/// What to track on an interface with the given index. One without tracked peers is tracked too,
/// so that routes left from earlier go.
pub fn tracked_interface(iface: &InterfaceEntry, index: u32) -> (t: TrackedInterface)
    ensures
        is_tracking(*iface, index, t),
{
    let mut peers: Vec<(String, Vec<String>)> = Vec::new();
    let mut i: usize = 0;
    while i < iface.peers.len()
        invariant
            i <= iface.peers@.len(),
            tracks(*iface, i as int, peers@),
        decreases iface.peers@.len() - i,
    {
        let p = &iface.peers[i];
        if let Some(ips) = &p.allowed_ips {
            let ghost prev = peers@;
            peers.push((p.public_key.clone(), text::clone_texts(ips)));
            assert(peers@.drop_last() =~= prev);
        }
        i += 1;
    }
    TrackedInterface {
        name: iface.name.clone(),
        index,
        stale_secs: match iface.handshake_stale_secs {
            Some(s) => s,
            None => config::DEFAULT_HANDSHAKE_STALE_SECS,
        },
        peers,
    }
}

/// Every interface of a config, with the index that the kernel gave it.
pub fn build_tracked_interfaces(cfg: &AwgConfig, indexes: &Vec<u32>) -> (out: Vec<
    TrackedInterface,
>)
    requires
        indexes@.len() == cfg.interfaces@.len(),
    ensures
        out@.len() == cfg.interfaces@.len(),
        forall|i: int|
            0 <= i < out@.len() ==> is_tracking(
                cfg.interfaces@[i],
                indexes@[i],
                #[trigger] out@[i],
            ),
{
    let mut out: Vec<TrackedInterface> = Vec::new();
    let mut i: usize = 0;
    while i < cfg.interfaces.len()
        invariant
            i <= cfg.interfaces@.len(),
            indexes@.len() == cfg.interfaces@.len(),
            out@.len() == i,
            forall|k: int|
                0 <= k < i ==> is_tracking(cfg.interfaces@[k], indexes@[k], #[trigger] out@[k]),
        decreases cfg.interfaces@.len() - i,
    {
        out.push(tracked_interface(&cfg.interfaces[i], indexes[i]));
        i += 1;
    }
    out
}

} // verus!
