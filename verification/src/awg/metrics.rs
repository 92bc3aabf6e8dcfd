//! The Prometheus exposition: which series a scrape reports, from the config (labels), the dumps
//! (values) and the routing loop's own verdict.

use crate::awg::config::{AwgConfig, InterfaceEntry, PeerEntry};
use crate::awg::handshake;
use crate::awg::handshake::{PeerStats, ReconcileSnapshot, Stats};
use crate::text;
use prometheus_client::metrics::counter::Counter;
use prometheus_client::metrics::family::Family;
use prometheus_client::metrics::gauge::Gauge;
use prometheus_client::registry::Registry;
use vstd::prelude::*;

verus! {

/// How old the routing loop's snapshot may be before its verdict is no longer reported.
pub const SNAPSHOT_MAX_AGE_SECS: u64 = 5;

/// What the version label says.
pub const VERSION: &'static str = "0.2.0";

/// Each interface's dump, or `None` where reading it failed.
pub type Dumps = Vec<(String, Option<Stats>)>;

/// A label set: names and values, in order.
pub type Labels = Seq<(Seq<char>, Seq<char>)>;

/// A label set in text form.
pub open spec fn labels_of(v: Seq<(String, String)>) -> Labels {
    Seq::new(v.len(), |i: int| (v[i].0@, v[i].1@))
}

/// A family of gauges, one for each label set.
#[verifier::external_body]
pub struct GaugeFamily {
    family: Family<Vec<(String, String)>, Gauge>,
}

/// A family of counters, one for each label set.
#[verifier::external_body]
pub struct CounterFamily {
    family: Family<Vec<(String, String)>, Counter>,
}

/// The families of an exposition.
#[verifier::external_type_specification]
#[verifier::external_body]
pub struct ExRegistry(Registry);

/// The value of each gauge of a family.
pub uninterp spec fn gauge_values(f: GaugeFamily) -> Map<Seq<(Seq<char>, Seq<char>)>, int>;

/// The value of each counter of a family.
pub uninterp spec fn counter_values(f: CounterFamily) -> Map<Seq<(Seq<char>, Seq<char>)>, int>;

/// A family as it is registered.
pub struct FamilyModel {
    pub name: Seq<char>,
    pub help: Seq<char>,
    /// Counters, rather than gauges.
    pub counter: bool,
    pub values: Map<Labels, int>,
}

pub open spec fn family(
    name: Seq<char>,
    help: Seq<char>,
    counter: bool,
    values: Map<Labels, int>,
) -> FamilyModel {
    FamilyModel { name, help, counter, values }
}

/// The families registered so far, in order.
pub uninterp spec fn registered(e: Registry) -> Seq<FamilyModel>;

/// What goes ahead of every family's name.
pub uninterp spec fn prefix_of(e: Registry) -> Seq<char>;

/// A text is an encoding of families, under a prefix.
pub uninterp spec fn encodes(
    prefix: Seq<char>,
    families: Seq<FamilyModel>,
    text: Seq<char>,
) -> bool;

/// `Family::default`: a family without metrics.
#[verifier::external_body]
fn new_gauges() -> (f: GaugeFamily)
    ensures
        gauge_values(f) == no_values(),
{
    GaugeFamily { family: Family::default() }
}

/// `Family::default`: a family without metrics.
#[verifier::external_body]
fn new_counters() -> (f: CounterFamily)
    ensures
        counter_values(f) == no_values(),
{
    CounterFamily { family: Family::default() }
}

/// `Family::get_or_create` and `Gauge::set`: the gauge with these labels has the given value from
/// here on; the others stay.
#[verifier::external_body]
fn set_gauge(f: &mut GaugeFamily, labels: Vec<(String, String)>, value: i64)
    ensures
        gauge_values(*final(f)) == gauge_values(*old(f)).insert(labels_of(labels@), value as int),
{
    f.family.get_or_create(&labels).set(value);
}

/// `Family::get_or_create` and `Gauge::inc`: the gauge with these labels, new ones starting at
/// zero, is one higher, as a wrapping 64-bit number; the others stay.
#[verifier::external_body]
fn increment_gauge(f: &mut GaugeFamily, labels: Vec<(String, String)>)
    ensures
        gauge_values(*final(f)) == gauge_values(*old(f)).insert(
            labels_of(labels@),
            one_more(value_at(gauge_values(*old(f)), labels_of(labels@))),
        ),
{
    f.family.get_or_create(&labels).inc();
}

/// `Family::get_or_create` and `Counter::inc_by`: the counter with these labels, new ones starting
/// at zero, is higher by the given value, as a wrapping 64-bit number; the others stay.
#[verifier::external_body]
fn increase_counter(f: &mut CounterFamily, labels: Vec<(String, String)>, value: u64)
    ensures
        counter_values(*final(f)) == counter_values(*old(f)).insert(
            labels_of(labels@),
            (value_at(counter_values(*old(f)), labels_of(labels@)) + value) % 0x1_0000_0000_0000_0000,
        ),
{
    f.family.get_or_create(&labels).inc_by(value);
}

/// `Registry::with_prefix`: no family is registered.
#[verifier::external_body]
fn new_registry(prefix: &str) -> (e: Registry)
    ensures
        registered(e).len() == 0,
        prefix_of(e) == prefix@,
{
    Registry::with_prefix(prefix)
}

/// `Registry::register`: the family comes behind those that are registered.
#[verifier::external_body]
fn register_gauges(e: &mut Registry, name: &str, help: &str, f: GaugeFamily)
    ensures
        registered(*final(e)) == registered(*old(e)).push(
            family(name@, help@, false, gauge_values(f)),
        ),
        prefix_of(*final(e)) == prefix_of(*old(e)),
{
    e.register(name, help, f.family);
}

/// `Registry::register`: the family comes behind those that are registered.
#[verifier::external_body]
fn register_counters(e: &mut Registry, name: &str, help: &str, f: CounterFamily)
    ensures
        registered(*final(e)) == registered(*old(e)).push(
            family(name@, help@, true, counter_values(f)),
        ),
        prefix_of(*final(e)) == prefix_of(*old(e)),
{
    e.register(name, help, f.family);
}

/// `Gauge::set` and `Registry::register`: a gauge without labels, of the given value, comes behind
/// the families that are registered.
#[verifier::external_body]
fn register_value(e: &mut Registry, name: &str, help: &str, value: i64)
    ensures
        registered(*final(e)) == registered(*old(e)).push(
            family(name@, help@, false, single_value(value as int)),
        ),
        prefix_of(*final(e)) == prefix_of(*old(e)),
{
    let gauge: Gauge = Gauge::default();
    gauge.set(value);
    e.register(name, help, gauge);
}

/// `prometheus_client::encoding::text::encode`: an OpenMetrics text of the registered families,
/// which ends in the end-of-file marker. The order of the series of one family is that of a hash
/// map that each process seeds, so the text is one of several: nothing more is stated of it.
#[verifier::external_body]
fn encode(e: &Registry) -> (r: String)
    ensures
        encodes(prefix_of(*e), registered(*e), r@),
        r@.len() >= 6,
        r@.skip(r@.len() - 6) == "# EOF\n"@,
{
    let mut out = String::new();
    prometheus_client::encoding::text::encode(&mut out, e).unwrap_or_default();
    out
}

pub open spec fn no_values() -> Map<Labels, int> {
    Map::empty()
}

/// One value, without labels.
pub open spec fn single_value(v: int) -> Map<Labels, int> {
    no_values().insert(Seq::empty(), v)
}

/// One more, as a wrapping 64-bit number.
pub open spec fn one_more(v: int) -> int {
    if v == i64::MAX {
        i64::MIN as int
    } else {
        v + 1
    }
}

pub open spec fn value_at(m: Map<Labels, int>, labels: Labels) -> int {
    if m.dom().contains(labels) {
        m[labels]
    } else {
        0
    }
}

/// `mesh` or `roadwarrior`: a peer with CIDRs of its own is a roadwarrior.
pub open spec fn kind(peer: PeerEntry) -> Seq<char> {
    if peer.allowed_ips is Some {
        "roadwarrior"@
    } else {
        "mesh"@
    }
}

/// The kind of a peer, from its `allowed_ips` and nothing else.
pub fn kind_of(peer: &PeerEntry) -> (r: &'static str)
    ensures
        r@ == kind(*peer),
{
    if peer.allowed_ips.is_some() {
        "roadwarrior"
    } else {
        "mesh"
    }
}

/// The labels of a peer's series.
pub open spec fn peer_labels(iface: InterfaceEntry, peer: PeerEntry) -> Labels {
    seq![
        ("interface"@, iface.name@),
        ("kind"@, kind(peer)),
        ("peer"@, peer.public_key@),
        (
            "peer_name"@,
            match peer.name {
                Some(n) => n@,
                None => Seq::empty(),
            },
        ),
    ]
}

/// The labels of the count of an interface's peers of one kind.
pub open spec fn kind_labels(iface: InterfaceEntry, peer: PeerEntry) -> Labels {
    seq![("interface"@, iface.name@), ("kind"@, kind(peer))]
}

pub open spec fn interface_labels(iface: InterfaceEntry) -> Labels {
    seq![("interface"@, iface.name@)]
}

pub open spec fn build_labels() -> Labels {
    seq![("component"@, "awg"@), ("version"@, VERSION@)]
}

/// The series of a scrape, family by family.
#[verifier::ext_equal]
pub ghost struct Series {
    pub last_handshake: Map<Labels, int>,
    pub rx_bytes: Map<Labels, int>,
    pub tx_bytes: Map<Labels, int>,
    pub connected: Map<Labels, int>,
    pub interface_peers: Map<Labels, int>,
    pub dump_ok: Map<Labels, int>,
}

pub open spec fn no_series() -> Series {
    Series {
        last_handshake: Map::empty(),
        rx_bytes: Map::empty(),
        tx_bytes: Map::empty(),
        connected: Map::empty(),
        interface_peers: Map::empty(),
        dump_ok: Map::empty(),
    }
}

/// The verdict is reported while the loop that produced it is still running.
pub open spec fn verdict_fresh(snapshot: ReconcileSnapshot, now: u64) -> bool {
    snapshot.taken_unix > 0 && (if now >= snapshot.taken_unix {
        now - snapshot.taken_unix
    } else {
        0
    }) <= SNAPSHOT_MAX_AGE_SECS
}

/// The dump of an interface, where it could be read.
pub open spec fn dump_of(dumps: Seq<(String, Option<Stats>)>, name: Seq<char>) -> Option<Stats>
    decreases dumps.len(),
{
    if dumps.len() == 0 {
        None
    } else if dumps.last().0@ == name {
        dumps.last().1
    } else {
        dump_of(dumps.drop_last(), name)
    }
}

pub open spec fn stats_of(dump: Option<Stats>, key: Seq<char>) -> Option<PeerStats> {
    match dump {
        Some(d) => handshake::stats_for(d@, key),
        None => None,
    }
}

/// The series with what one peer adds: it counts towards its kind; a roadwarrior has a verdict
/// while the verdict is fresh; one that the kernel reports has byte counts, and a handshake if it
/// ever had one.
pub open spec fn with_peer(
    s: Series,
    iface: InterfaceEntry,
    peer: PeerEntry,
    dump: Option<Stats>,
    snapshot: ReconcileSnapshot,
    now: u64,
) -> Series {
    let labels = peer_labels(iface, peer);
    let stats = stats_of(dump, peer.public_key@);
    Series {
        interface_peers: s.interface_peers.insert(
            kind_labels(iface, peer),
            one_more(value_at(s.interface_peers, kind_labels(iface, peer))),
        ),
        connected: if peer.allowed_ips is Some && verdict_fresh(snapshot, now) {
            s.connected.insert(
                labels,
                if handshake::lists(snapshot.connected@, iface.name@, peer.public_key@) {
                    1int
                } else {
                    0
                },
            )
        } else {
            s.connected
        },
        last_handshake: if stats is Some && stats->0.last_handshake > 0 {
            s.last_handshake.insert(labels, (stats->0.last_handshake as i64) as int)
        } else {
            s.last_handshake
        },
        rx_bytes: if stats is Some {
            s.rx_bytes.insert(
                labels,
                (value_at(s.rx_bytes, labels) + stats->0.rx_bytes) % 0x1_0000_0000_0000_0000,
            )
        } else {
            s.rx_bytes
        },
        tx_bytes: if stats is Some {
            s.tx_bytes.insert(
                labels,
                (value_at(s.tx_bytes, labels) + stats->0.tx_bytes) % 0x1_0000_0000_0000_0000,
            )
        } else {
            s.tx_bytes
        },
        dump_ok: s.dump_ok,
    }
}

/// The series with what the first `n` peers of an interface add.
pub open spec fn with_peers(
    s: Series,
    iface: InterfaceEntry,
    n: int,
    dump: Option<Stats>,
    snapshot: ReconcileSnapshot,
    now: u64,
) -> Series
    decreases n,
{
    if n <= 0 {
        s
    } else {
        with_peer(
            with_peers(s, iface, n - 1, dump, snapshot, now),
            iface,
            iface.peers@[n - 1],
            dump,
            snapshot,
            now,
        )
    }
}

/// The series with what an interface adds: whether it could be read, and its peers.
pub open spec fn with_interface(
    s: Series,
    iface: InterfaceEntry,
    dumps: Seq<(String, Option<Stats>)>,
    snapshot: ReconcileSnapshot,
    now: u64,
) -> Series {
    let dump = dump_of(dumps, iface.name@);
    with_peers(
        Series {
            dump_ok: s.dump_ok.insert(
                interface_labels(iface),
                if dump is Some {
                    1int
                } else {
                    0
                },
            ),
            ..s
        },
        iface,
        iface.peers@.len() as int,
        dump,
        snapshot,
        now,
    )
}

/// The series of the first `n` interfaces of a config.
pub open spec fn series(
    ifaces: Seq<InterfaceEntry>,
    n: int,
    dumps: Seq<(String, Option<Stats>)>,
    snapshot: ReconcileSnapshot,
    now: u64,
) -> Series
    decreases n,
{
    if n <= 0 {
        no_series()
    } else {
        with_interface(
            series(ifaces, n - 1, dumps, snapshot, now),
            ifaces[n - 1],
            dumps,
            snapshot,
            now,
        )
    }
}

/// Everything a scrape reports: the build, the series of every interface, and the routing loop's
/// last pass where there was one.
pub open spec fn exposed(
    cfg: AwgConfig,
    dumps: Seq<(String, Option<Stats>)>,
    snapshot: ReconcileSnapshot,
    now: u64,
) -> Seq<FamilyModel> {
    let s = series(cfg.interfaces@, cfg.interfaces@.len() as int, dumps, snapshot, now);
    let families = seq![
        family(
            "build_info"@,
            "Version of the running daemon, by component"@,
            false,
            Map::<Labels, int>::empty().insert(build_labels(), 1),
        ),
        family(
            "awg_peer_last_handshake_seconds"@,
            "Unix time of a peer's last completed handshake"@,
            false,
            s.last_handshake,
        ),
        family(
            "awg_peer_rx_bytes"@,
            "Bytes received from a peer"@,
            true,
            s.rx_bytes,
        ),
        family(
            "awg_peer_tx_bytes"@,
            "Bytes sent to a peer"@,
            true,
            s.tx_bytes,
        ),
        family(
            "awg_peer_connected"@,
            "Whether this daemon currently has routes installed for a tracked peer"@,
            false,
            s.connected,
        ),
        family(
            "awg_interface_peers"@,
            "Peers this interface is configured with"@,
            false,
            s.interface_peers,
        ),
        family(
            "awg_interface_dump_ok"@,
            "Whether this scrape could read the interface from the kernel"@,
            false,
            s.dump_ok,
        ),
    ];
    if snapshot.taken_unix > 0 {
        families.push(
            family(
                "awg_reconcile_last_success_seconds"@,
                "Unix time of the routing loop's last completed pass"@,
                false,
                single_value((snapshot.taken_unix as i64) as int),
            ),
        )
    } else {
        families
    }
}

fn label(name: &str, value: &str) -> (r: (String, String))
    ensures
        r.0@ == name@,
        r.1@ == value@,
{
    (name.to_owned(), value.to_owned())
}

fn make_peer_labels(iface: &InterfaceEntry, peer: &PeerEntry) -> (r: Vec<(String, String)>)
    ensures
        labels_of(r@) == peer_labels(*iface, *peer),
{
    let mut r: Vec<(String, String)> = Vec::new();
    r.push(label("interface", iface.name.as_str()));
    r.push(label("kind", kind_of(peer)));
    r.push(label("peer", peer.public_key.as_str()));
    match &peer.name {
        Some(n) => r.push(label("peer_name", n.as_str())),
        None => {
            let empty = String::new();
            r.push(label("peer_name", empty.as_str()));
        },
    }
    assert(labels_of(r@) =~= peer_labels(*iface, *peer));
    r
}

fn make_kind_labels(iface: &InterfaceEntry, peer: &PeerEntry) -> (r: Vec<(String, String)>)
    ensures
        labels_of(r@) == kind_labels(*iface, *peer),
{
    let mut r: Vec<(String, String)> = Vec::new();
    r.push(label("interface", iface.name.as_str()));
    r.push(label("kind", kind_of(peer)));
    assert(labels_of(r@) =~= kind_labels(*iface, *peer));
    r
}

fn find_dump<'a>(dumps: &'a Dumps, name: &str) -> (r: Option<&'a Stats>)
    ensures
        match r {
            Some(d) => dump_of(dumps@, name@) == Some(*d),
            None => dump_of(dumps@, name@) is None,
        },
{
    let mut i: usize = dumps.len();
    assert(dumps@.take(i as int) =~= dumps@);
    while i > 0
        invariant
            i <= dumps@.len(),
            dump_of(dumps@, name@) == dump_of(dumps@.take(i as int), name@),
        decreases i,
    {
        assert(dumps@.take(i as int).drop_last() =~= dumps@.take(i - 1));
        if text::str_eq(dumps[i - 1].0.as_str(), name) {
            return dumps[i - 1].1.as_ref();
        }
        i -= 1;
    }
    None
}

fn is_listed(connected: &Vec<(String, String)>, name: &str, key: &str) -> (r: bool)
    ensures
        r == handshake::lists(connected@, name@, key@),
{
    let mut i: usize = 0;
    while i < connected.len()
        invariant
            i <= connected@.len(),
            forall|k: int|
                0 <= k < i ==> !((#[trigger] connected@[k]).0@ == name@ && connected@[k].1@
                    == key@),
        decreases connected@.len() - i,
    {
        if text::str_eq(connected[i].0.as_str(), name) && text::str_eq(
            connected[i].1.as_str(),
            key,
        ) {
            return true;
        }
        i += 1;
    }
    false
}

/// The families that a scrape fills.
struct Families {
    last_handshake: GaugeFamily,
    rx_bytes: CounterFamily,
    tx_bytes: CounterFamily,
    connected: GaugeFamily,
    interface_peers: GaugeFamily,
    dump_ok: GaugeFamily,
}

impl Families {
    spec fn series(self) -> Series {
        Series {
            last_handshake: gauge_values(self.last_handshake),
            rx_bytes: counter_values(self.rx_bytes),
            tx_bytes: counter_values(self.tx_bytes),
            connected: gauge_values(self.connected),
            interface_peers: gauge_values(self.interface_peers),
            dump_ok: gauge_values(self.dump_ok),
        }
    }
}

fn add_peer(
    f: &mut Families,
    iface: &InterfaceEntry,
    peer: &PeerEntry,
    dump: Option<&Stats>,
    snapshot: &ReconcileSnapshot,
    fresh: bool,
    Ghost(now): Ghost<u64>,
)
    requires
        fresh == verdict_fresh(*snapshot, now),
    ensures
        final(f).series() == with_peer(
            old(f).series(),
            *iface,
            *peer,
            (match dump {
                Some(d) => Some(*d),
                None => None,
            }),
            *snapshot,
            now,
        ),
{
    let ghost before = f.series();
    increment_gauge(&mut f.interface_peers, make_kind_labels(iface, peer));
    if peer.allowed_ips.is_some() && fresh {
        let on = is_listed(
            &snapshot.connected,
            iface.name.as_str(),
            peer.public_key.as_str(),
        );
        set_gauge(
            &mut f.connected,
            make_peer_labels(iface, peer),
            if on {
                1
            } else {
                0
            },
        );
    }
    if let Some(d) = dump {
        if let Some(stats) = handshake::find_stats(d, peer.public_key.as_str()) {
            if stats.last_handshake > 0 {
                set_gauge(
                    &mut f.last_handshake,
                    make_peer_labels(iface, peer),
                    stats.last_handshake as i64,
                );
            }
            increase_counter(&mut f.rx_bytes, make_peer_labels(iface, peer), stats.rx_bytes);
            increase_counter(&mut f.tx_bytes, make_peer_labels(iface, peer), stats.tx_bytes);
        }
    }
}

/// The whole exposition of a scrape, ready to be encoded.
fn expose(cfg: &AwgConfig, dumps: &Dumps, snapshot: &ReconcileSnapshot, now: u64) -> (e: Registry)
    ensures
        registered(e) == exposed(*cfg, dumps@, *snapshot, now),
        prefix_of(e) == "slipmesh"@,
{
    let fresh = snapshot.taken_unix > 0 && now.saturating_sub(snapshot.taken_unix)
        <= SNAPSHOT_MAX_AGE_SECS;
    let mut f = Families {
        last_handshake: new_gauges(),
        rx_bytes: new_counters(),
        tx_bytes: new_counters(),
        connected: new_gauges(),
        interface_peers: new_gauges(),
        dump_ok: new_gauges(),
    };
    let mut i: usize = 0;
    while i < cfg.interfaces.len()
        invariant
            i <= cfg.interfaces@.len(),
            fresh == verdict_fresh(*snapshot, now),
            f.series() == series(cfg.interfaces@, i as int, dumps@, *snapshot, now),
        decreases cfg.interfaces@.len() - i,
    {
        let iface = &cfg.interfaces[i];
        let dump = find_dump(dumps, iface.name.as_str());
        let mut labels: Vec<(String, String)> = Vec::new();
        labels.push(label("interface", iface.name.as_str()));
        assert(labels_of(labels@) =~= interface_labels(*iface));
        let ghost start = f.series();
        set_gauge(
            &mut f.dump_ok,
            labels,
            if dump.is_some() {
                1
            } else {
                0
            },
        );
        let ghost read = dump_of(dumps@, iface.name@);
        let ghost first = f.series();
        let mut j: usize = 0;
        while j < iface.peers.len()
            invariant
                j <= iface.peers@.len(),
                fresh == verdict_fresh(*snapshot, now),
                read == (match dump {
                    Some(d) => Some(*d),
                    None => None,
                }),
                f.series() == with_peers(first, *iface, j as int, read, *snapshot, now),
            decreases iface.peers@.len() - j,
        {
            add_peer(&mut f, iface, &iface.peers[j], dump, snapshot, fresh, Ghost(now));
            j += 1;
        }
        i += 1;
    }
    let mut e = new_registry("slipmesh");
    let mut build = new_gauges();
    let mut labels: Vec<(String, String)> = Vec::new();
    labels.push(label("component", "awg"));
    labels.push(label("version", VERSION));
    assert(labels_of(labels@) =~= build_labels());
    set_gauge(&mut build, labels, 1);
    register_gauges(&mut e, "build_info", "Version of the running daemon, by component", build);
    register_gauges(
        &mut e,
        "awg_peer_last_handshake_seconds",
        "Unix time of a peer's last completed handshake",
        f.last_handshake,
    );
    register_counters(&mut e, "awg_peer_rx_bytes", "Bytes received from a peer", f.rx_bytes);
    register_counters(&mut e, "awg_peer_tx_bytes", "Bytes sent to a peer", f.tx_bytes);
    register_gauges(
        &mut e,
        "awg_peer_connected",
        "Whether this daemon currently has routes installed for a tracked peer",
        f.connected,
    );
    register_gauges(
        &mut e,
        "awg_interface_peers",
        "Peers this interface is configured with",
        f.interface_peers,
    );
    register_gauges(
        &mut e,
        "awg_interface_dump_ok",
        "Whether this scrape could read the interface from the kernel",
        f.dump_ok,
    );
    if snapshot.taken_unix > 0 {
        register_value(
            &mut e,
            "awg_reconcile_last_success_seconds",
            "Unix time of the routing loop's last completed pass",
            snapshot.taken_unix as i64,
        );
    }
    assert(registered(e) =~= exposed(*cfg, dumps@, *snapshot, now));
    e
}

/// The exposition of a scrape in text form: the encoding of exactly the families that `exposed`
/// lists.
pub fn render(cfg: &AwgConfig, dumps: &Dumps, snapshot: &ReconcileSnapshot, now: u64) -> (r: String)
    ensures
        encodes("slipmesh"@, exposed(*cfg, dumps@, *snapshot, now), r@),
        r@.len() >= 6,
        r@.skip(r@.len() - 6) == "# EOF\n"@,
{
    let e = expose(cfg, dumps, snapshot, now);
    encode(&e)
}

/// Law: while the routing loop's verdict is not fresh, no peer is reported as connected or not.
pub proof fn stale_verdict_is_not_reported(
    ifaces: Seq<InterfaceEntry>,
    n: int,
    dumps: Seq<(String, Option<Stats>)>,
    snapshot: ReconcileSnapshot,
    now: u64,
)
    requires
        !verdict_fresh(snapshot, now),
    ensures
        series(ifaces, n, dumps, snapshot, now).connected == no_values(),
    decreases n,
{
    if n > 0 {
        stale_verdict_is_not_reported(ifaces, n - 1, dumps, snapshot, now);
        let s = series(ifaces, n - 1, dumps, snapshot, now);
        let iface = ifaces[n - 1];
        let dump = dump_of(dumps, iface.name@);
        let first = Series {
            dump_ok: s.dump_ok.insert(
                interface_labels(iface),
                if dump is Some {
                    1int
                } else {
                    0
                },
            ),
            ..s
        };
        lemma_peers_connected(first, iface, iface.peers@.len() as int, dump, snapshot, now);
    }
}

proof fn lemma_peers_connected(
    s: Series,
    iface: InterfaceEntry,
    n: int,
    dump: Option<Stats>,
    snapshot: ReconcileSnapshot,
    now: u64,
)
    requires
        !verdict_fresh(snapshot, now),
    ensures
        with_peers(s, iface, n, dump, snapshot, now).connected == s.connected,
    decreases n,
{
    if n > 0 {
        lemma_peers_connected(s, iface, n - 1, dump, snapshot, now);
    }
}

/// What a request to the metrics endpoint is answered with.
#[derive(Clone, Copy, Debug, PartialEq, Eq, Structural)]
pub enum Answer {
    Metrics,
    NotFound,
}

/// `GET /metrics` is answered with the exposition, anything else with "not found".
pub fn answer_to(method: &str, path: &str) -> (r: Answer)
    ensures
        r == (if method@ == "GET"@ && path@ == "/metrics"@ {
            Answer::Metrics
        } else {
            Answer::NotFound
        }),
{
    if text::str_eq(method, "GET") && text::str_eq(path, "/metrics") {
        Answer::Metrics
    } else {
        Answer::NotFound
    }
}

/// These are the labels of one of the peers that the first `n` interfaces are configured with.
pub open spec fn is_configured(ifaces: Seq<InterfaceEntry>, n: int, labels: Labels) -> bool {
    exists|i: int, j: int|
        0 <= i < n && 0 <= j < ifaces[i].peers@.len() && labels == #[trigger] peer_labels(
            ifaces[i],
            ifaces[i].peers@[j],
        )
}

/// Some peer's series has these labels.
pub open spec fn reported(s: Series, labels: Labels) -> bool {
    ||| s.last_handshake.dom().contains(labels)
    ||| s.rx_bytes.dom().contains(labels)
    ||| s.tx_bytes.dom().contains(labels)
    ||| s.connected.dom().contains(labels)
}

proof fn lemma_peers_reported(
    s: Series,
    iface: InterfaceEntry,
    n: int,
    dump: Option<Stats>,
    snapshot: ReconcileSnapshot,
    now: u64,
    labels: Labels,
)
    requires
        n <= iface.peers@.len(),
        reported(with_peers(s, iface, n, dump, snapshot, now), labels),
    ensures
        reported(s, labels) || exists|j: int|
            0 <= j < iface.peers@.len() && labels == #[trigger] peer_labels(iface, iface.peers@[j]),
    decreases n,
{
    if n > 0 {
        if labels != peer_labels(iface, iface.peers@[n - 1]) {
            lemma_peers_reported(s, iface, n - 1, dump, snapshot, now, labels);
        }
    }
}

/// Law: every series of a peer belongs to a peer that the config names; one that only the kernel
/// still has is not reported.
pub proof fn only_configured_peers_are_reported(
    ifaces: Seq<InterfaceEntry>,
    n: int,
    dumps: Seq<(String, Option<Stats>)>,
    snapshot: ReconcileSnapshot,
    now: u64,
    labels: Labels,
)
    requires
        0 <= n <= ifaces.len(),
        reported(series(ifaces, n, dumps, snapshot, now), labels),
    ensures
        is_configured(ifaces, n, labels),
    decreases n,
{
    if n > 0 {
        let s = series(ifaces, n - 1, dumps, snapshot, now);
        let iface = ifaces[n - 1];
        let dump = dump_of(dumps, iface.name@);
        let first = Series {
            dump_ok: s.dump_ok.insert(
                interface_labels(iface),
                if dump is Some {
                    1int
                } else {
                    0
                },
            ),
            ..s
        };
        lemma_peers_reported(
            first,
            iface,
            iface.peers@.len() as int,
            dump,
            snapshot,
            now,
            labels,
        );
        if reported(s, labels) {
            only_configured_peers_are_reported(ifaces, n - 1, dumps, snapshot, now, labels);
        } else {
            let j = choose|j: int|
                0 <= j < iface.peers@.len() && labels == #[trigger] peer_labels(
                    iface,
                    iface.peers@[j],
                );
            assert(labels == peer_labels(ifaces[n - 1], ifaces[n - 1].peers@[j]));
        }
    }
}

/// Two peers that a scrape tells nothing apart about: neither key material but the public key, nor
/// the endpoint, is looked at.
pub open spec fn alike_peers(a: PeerEntry, b: PeerEntry) -> bool {
    &&& a.public_key@ == b.public_key@
    &&& text::text_opt(a.name) == text::text_opt(b.name)
    &&& (a.allowed_ips is Some) == (b.allowed_ips is Some)
}

/// Two interfaces that a scrape tells nothing apart about.
pub open spec fn alike_interfaces(a: InterfaceEntry, b: InterfaceEntry) -> bool {
    &&& a.name@ == b.name@
    &&& a.peers@.len() == b.peers@.len()
    &&& forall|j: int|
        0 <= j < a.peers@.len() ==> alike_peers(#[trigger] a.peers@[j], b.peers@[j])
}

/// Two sets of dumps that say the same of a configured interface: whether it could be read, and of
/// each of its peers.
pub open spec fn agree_on(
    iface: InterfaceEntry,
    d1: Seq<(String, Option<Stats>)>,
    d2: Seq<(String, Option<Stats>)>,
) -> bool {
    let (x, y) = (dump_of(d1, iface.name@), dump_of(d2, iface.name@));
    &&& (x is Some) == (y is Some)
    &&& forall|j: int|
        0 <= j < iface.peers@.len() ==> stats_of(x, (#[trigger] iface.peers@[j]).public_key@)
            == stats_of(y, iface.peers@[j].public_key@)
}

/// Two snapshots that say the same of a configured interface's peers.
pub open spec fn verdicts_agree(
    iface: InterfaceEntry,
    s1: ReconcileSnapshot,
    s2: ReconcileSnapshot,
) -> bool {
    forall|j: int|
        0 <= j < iface.peers@.len() ==> handshake::lists(
            s1.connected@,
            iface.name@,
            (#[trigger] iface.peers@[j]).public_key@,
        ) == handshake::lists(s2.connected@, iface.name@, iface.peers@[j].public_key@)
}

proof fn lemma_alike_peers(
    s: Series,
    a: InterfaceEntry,
    b: InterfaceEntry,
    n: int,
    x: Option<Stats>,
    y: Option<Stats>,
    s1: ReconcileSnapshot,
    s2: ReconcileSnapshot,
    now: u64,
)
    requires
        n <= a.peers@.len(),
        alike_interfaces(a, b),
        s1.taken_unix == s2.taken_unix,
        verdicts_agree(a, s1, s2),
        forall|j: int|
            0 <= j < a.peers@.len() ==> stats_of(x, (#[trigger] a.peers@[j]).public_key@)
                == stats_of(y, a.peers@[j].public_key@),
    ensures
        with_peers(s, a, n, x, s1, now) == with_peers(s, b, n, y, s2, now),
    decreases n,
{
    if n > 0 {
        lemma_alike_peers(s, a, b, n - 1, x, y, s1, s2, now);
        let (p, q) = (a.peers@[n - 1], b.peers@[n - 1]);
        assert(alike_peers(p, q));
        assert(peer_labels(a, p) == peer_labels(b, q));
        assert(kind_labels(a, p) == kind_labels(b, q));
    }
}

proof fn lemma_alike_series(
    a: Seq<InterfaceEntry>,
    b: Seq<InterfaceEntry>,
    n: int,
    d1: Seq<(String, Option<Stats>)>,
    d2: Seq<(String, Option<Stats>)>,
    s1: ReconcileSnapshot,
    s2: ReconcileSnapshot,
    now: u64,
)
    requires
        0 <= n <= a.len(),
        a.len() == b.len(),
        forall|i: int|
            0 <= i < a.len() ==> alike_interfaces(#[trigger] a[i], b[i]) && agree_on(a[i], d1, d2)
                && verdicts_agree(a[i], s1, s2),
        s1.taken_unix == s2.taken_unix,
    ensures
        series(a, n, d1, s1, now) == series(b, n, d2, s2, now),
    decreases n,
{
    if n > 0 {
        lemma_alike_series(a, b, n - 1, d1, d2, s1, s2, now);
        let (i, j) = (a[n - 1], b[n - 1]);
        assert(alike_interfaces(i, j));
        let s = series(a, n - 1, d1, s1, now);
        let (x, y) = (dump_of(d1, i.name@), dump_of(d2, j.name@));
        let first = Series {
            dump_ok: s.dump_ok.insert(
                interface_labels(i),
                if x is Some {
                    1int
                } else {
                    0
                },
            ),
            ..s
        };
        assert(interface_labels(i) == interface_labels(j));
        lemma_alike_peers(first, i, j, i.peers@.len() as int, x, y, s1, s2, now);
    }
}

/// Law: a scrape shows nothing but what is configured. Two configs that differ in private keys,
/// endpoints, addresses and the like alone, with dumps and verdicts that agree on the configured
/// interfaces and their peers, give the same exposition.
pub proof fn nothing_else_is_exposed(
    cfg1: AwgConfig,
    cfg2: AwgConfig,
    d1: Seq<(String, Option<Stats>)>,
    d2: Seq<(String, Option<Stats>)>,
    s1: ReconcileSnapshot,
    s2: ReconcileSnapshot,
    now: u64,
)
    requires
        cfg1.interfaces@.len() == cfg2.interfaces@.len(),
        forall|i: int|
            0 <= i < cfg1.interfaces@.len() ==> alike_interfaces(
                #[trigger] cfg1.interfaces@[i],
                cfg2.interfaces@[i],
            ) && agree_on(cfg1.interfaces@[i], d1, d2) && verdicts_agree(
                cfg1.interfaces@[i],
                s1,
                s2,
            ),
        s1.taken_unix == s2.taken_unix,
    ensures
        exposed(cfg1, d1, s1, now) == exposed(cfg2, d2, s2, now),
{
    lemma_alike_series(
        cfg1.interfaces@,
        cfg2.interfaces@,
        cfg1.interfaces@.len() as int,
        d1,
        d2,
        s1,
        s2,
        now,
    );
}

/// How reading one interface for a scrape ended.
#[derive(Debug, PartialEq)]
pub enum DumpOutcome {
    Read(Stats),
    Failed,
    TimedOut,
}

/// A scrape under way: what the interfaces read so far gave, and whether there is a connection to
/// read the next one through.
#[derive(Debug, PartialEq)]
pub struct Scrape {
    pub connected: bool,
    pub dumps: Dumps,
}

/// The dumps belong to the first interfaces, in their order.
pub open spec fn belong(interfaces: Seq<InterfaceEntry>, dumps: Seq<(String, Option<Stats>)>) -> bool {
    &&& dumps.len() <= interfaces.len()
    &&& forall|i: int| 0 <= i < dumps.len() ==> (#[trigger] dumps[i]).0@ == interfaces[i].name@
}

/// The interface to read next. None once all have been read, and none without a connection: one
/// attempt to connect per scrape, because what keeps one interface from being read would keep the
/// others too.
pub fn next_dump(cfg: &AwgConfig, scrape: &Scrape) -> (r: Option<usize>)
    ensures
        r == (if scrape.connected && scrape.dumps@.len() < cfg.interfaces@.len() {
            Some(scrape.dumps@.len() as usize)
        } else {
            None
        }),
{
    if scrape.connected && scrape.dumps.len() < cfg.interfaces.len() {
        Some(scrape.dumps.len())
    } else {
        None
    }
}

/// Takes down how reading the next interface ended. A read that timed out gives the connection up,
/// so that nothing waits for it again.
pub fn dumped(cfg: &AwgConfig, scrape: &mut Scrape, outcome: DumpOutcome)
    requires
        belong(cfg.interfaces@, old(scrape).dumps@),
        old(scrape).dumps@.len() < cfg.interfaces@.len(),
    ensures
        belong(cfg.interfaces@, final(scrape).dumps@),
        final(scrape).dumps@.drop_last() == old(scrape).dumps@,
        final(scrape).dumps@.len() == old(scrape).dumps@.len() + 1,
        final(scrape).dumps@.last().1 == (match outcome {
            DumpOutcome::Read(stats) => Some(stats),
            _ => None,
        }),
        final(scrape).connected == (old(scrape).connected && outcome != DumpOutcome::TimedOut),
{
    let name = cfg.interfaces[scrape.dumps.len()].name.clone();
    let ghost before = scrape.dumps@;
    match outcome {
        DumpOutcome::Read(stats) => scrape.dumps.push((name, Some(stats))),
        DumpOutcome::Failed => scrape.dumps.push((name, None)),
        DumpOutcome::TimedOut => {
            scrape.connected = false;
            scrape.dumps.push((name, None));
        },
    }
    assert(scrape.dumps@.drop_last() =~= before);
}

/// What a scrape goes by: the interfaces that were not reached count as unread.
pub fn finish_scrape(cfg: &AwgConfig, scrape: Scrape) -> (dumps: Dumps)
    requires
        belong(cfg.interfaces@, scrape.dumps@),
    ensures
        belong(cfg.interfaces@, dumps@),
        dumps@.len() == cfg.interfaces@.len(),
        forall|i: int|
            0 <= i < dumps@.len() ==> (#[trigger] dumps@[i]).1 == (if i < scrape.dumps@.len() {
                scrape.dumps@[i].1
            } else {
                None
            }),
{
    let ghost read = scrape.dumps@;
    let mut dumps = scrape.dumps;
    while dumps.len() < cfg.interfaces.len()
        invariant
            belong(cfg.interfaces@, dumps@),
            read.len() <= dumps@.len(),
            forall|i: int|
                0 <= i < dumps@.len() ==> (#[trigger] dumps@[i]).1 == (if i < read.len() {
                    read[i].1
                } else {
                    None
                }),
        decreases cfg.interfaces@.len() - dumps@.len(),
    {
        dumps.push((cfg.interfaces[dumps.len()].name.clone(), None));
    }
    dumps
}

} // verus!
