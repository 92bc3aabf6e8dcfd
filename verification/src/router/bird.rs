//! Renders BIRD's config from what the daemon wants, and reads BIRD's state back.
//!
//! OSPFv3 runs over the mesh links and carries the IPv6 loopbacks; an iBGP full mesh over those
//! loopbacks carries the IPv4 routes: loopbacks, connected routes, announcements, bypass routes,
//! and kernel routes inside the ranges to learn.

use crate::common::addr;
use crate::common::cidr as dual;
use crate::router::cidr;
use crate::router::config;
use crate::router::config::RouterConfig;
use crate::text;
use vstd::prelude::*;

verus! {

/// The dummy interface that carries this node's router identity.
pub const ROUTER_LOOPBACK_IFACE: &'static str = "router-lo";

pub const BIRD_CONTROL_SOCKET: &'static str = "/run/bird.ctl";

/// The name of the OSPFv3 protocol in the rendered config.
pub const OSPF_PROTOCOL: &'static str = "mesh6";

/// The head of the file, up to the router id.
pub const HEAD: &'static str = "log stderr { info, warning, error, fatal };\n\nrouter id ";

/// Device and loopback protocols.
pub const DEVICE: &'static str = ";\n\nprotocol device {\n}\n\nprotocol direct direct1 {\n    interface \"router-lo\";\n    ipv4 { import all; };\n    ipv6 { import all; };\n}\n";

/// A protocol for connected routes.
pub const DIRECT_OPEN: &'static str = "\nprotocol direct direct_";

pub const DIRECT_INTERFACE: &'static str = " {\n    interface ";

pub const DIRECT_CLOSE: &'static str = ";\n    ipv4 { import all; };\n}\n";

/// The IPv4 kernel protocol where there are ranges to learn. All kernel routes are learnable; the filter scopes them.
pub const KERNEL_LEARN: &'static str = "\nprotocol kernel {\n    learn all;\n    ipv4 {\n        import filter {\n            if net ~ [ ";

pub const KERNEL_LEARN_CLOSE: &'static str = " ] then accept;\n            reject;\n        };\n";

/// The IPv4 kernel protocol where there is nothing to learn.
pub const KERNEL_NO_LEARN: &'static str = "\nprotocol kernel {\n    learn no;\n    ipv4 {\n        import none;\n";

/// What goes into the kernel: announcements and what BGP learned, with this node's loopback as the source address. Bypass routes stay out.
pub const KERNEL_EXPORT: &'static str = "        export filter {\n            if proto = \"ANNOUNCE\" then { krt_prefsrc = ";

pub const KERNEL_EXPORT_BGP: &'static str = "; accept; }\n            if source = RTS_BGP then { krt_prefsrc = ";

pub const KERNEL_CLOSE: &'static str = "; accept; }\n            reject;\n        };\n    };\n}\n\nprotocol kernel {\n    ipv6 { import none; export where source = RTS_OSPF; };\n}\n";

/// Routes that exit elsewhere.
pub const BYPASS_OPEN: &'static str = "\nprotocol static BYPASS {\n    ipv4;\n";

/// Ranges that this node announces.
pub const ANNOUNCE_OPEN: &'static str = "\nprotocol static ANNOUNCE {\n    ipv4;\n";

pub const ROUTE: &'static str = "    route ";

pub const BLACKHOLE: &'static str = " blackhole; # ";

pub const VIA_LOOPBACK: &'static str = " via \"router-lo\"; # ";

pub const NEWLINE: &'static str = "\n";

pub const BLOCK_CLOSE: &'static str = "}\n";

/// OSPFv3 over the mesh links.
pub const OSPF_OPEN: &'static str = "\nprotocol ospf v3 mesh6 {\n    ipv6 { import all; export none; };\n    area 0 {\n";

pub const OSPF_INTERFACE: &'static str = "        interface ";

pub const OSPF_PTP: &'static str = " { type ptp; };\n";

pub const OSPF_CLOSE: &'static str = "        interface \"router-lo\" { stub yes; };\n    };\n}\n";

/// One iBGP session.
pub const BGP_OPEN: &'static str = "\nprotocol bgp ibgp6_";

pub const BGP_LOCAL: &'static str = " {\n    local ";

pub const BGP_AS: &'static str = " as ";

pub const BGP_NEIGHBOR: &'static str = ";\n    neighbor ";

pub const BGP_CHANNEL: &'static str = ";\n    multihop;\n    strict bind yes;\n    ipv4 {\n        extended next hop on;\n        next hop self;\n        import all;\n        export filter {\n            if source = RTS_DEVICE then accept;\n            if source = RTS_STATIC then accept;\n";

pub const BGP_INHERIT: &'static str = "            if source = RTS_INHERIT then accept;\n";

pub const BGP_CLOSE: &'static str = "            reject;\n        };\n    };\n}\n";

/// This node's loopbacks.
#[derive(Clone, Copy, Debug, PartialEq, Eq, Structural)]
pub struct RouterIdentity {
    pub loopback: u32,
    pub ipv6_loopback: u128,
}

/// One iBGP peer.
#[derive(Debug, PartialEq)]
pub struct BgpPeer {
    pub name: String,
    pub address: u128,
}

/// A network to route, and what to call it.
#[derive(Debug, PartialEq)]
pub struct BypassRoute {
    pub net: String,
    pub label: String,
}

/// A network to announce, and what to call it.
pub type AnnounceRoute = BypassRoute;

/// Everything that the config is rendered from, besides the identity.
#[derive(Debug, PartialEq)]
pub struct RenderInputs {
    pub ospf_interfaces: Vec<String>,
    pub bgp_peers: Vec<BgpPeer>,
    pub bypass: Vec<BypassRoute>,
    pub announce: Vec<AnnounceRoute>,
    pub learn: Vec<String>,
    pub direct_interfaces: Vec<String>,
}

/// A quoted string may hold neither quotes nor line breaks.
pub open spec fn quotable(c: char) -> bool {
    c != '"' && c != '\n' && c != '\r'
}

/// What may be quoted of a string.
pub open spec fn quoted_text(s: Seq<char>) -> Seq<char> {
    s.filter(|c: char| quotable(c))
}

/// Drops what would end a quoted string.
pub fn sanitize_quoted(raw: &str) -> (r: String)
    ensures
        r@ == quoted_text(raw@),
        forall|i: int| 0 <= i < r@.len() ==> quotable(#[trigger] r@[i]),
{
    let v = text::chars_of(raw);
    let ghost keep = |c: char| quotable(c);
    let mut r = String::new();
    let mut i: usize = 0;
    proof {
        reveal(Seq::filter);
    }
    while i < v.len()
        invariant
            i <= v@.len(),
            keep == (|c: char| quotable(c)),
            r@ == v@.take(i as int).filter(keep),
            forall|k: int| 0 <= k < r@.len() ==> quotable(#[trigger] r@[k]),
        decreases v@.len() - i,
    {
        let c = v[i];
        proof {
            reveal(Seq::filter);
            assert(v@.take(i + 1).drop_last() =~= v@.take(i as int));
        }
        if c != '"' && c != '\n' && c != '\r' {
            r.push(c);
        }
        i += 1;
    }
    assert(v@.take(i as int) =~= raw@);
    r
}

pub open spec fn comment_char(c: char) -> char {
    if c == '\n' || c == '\r' {
        ' '
    } else {
        c
    }
}

/// A text on one line.
pub open spec fn comment_text(s: Seq<char>) -> Seq<char> {
    Seq::new(s.len(), |i: int| comment_char(s[i]))
}

/// Replaces what would end a comment.
pub fn sanitize_comment(raw: &str) -> (r: String)
    ensures
        r@ == comment_text(raw@),
        forall|i: int| 0 <= i < r@.len() ==> #[trigger] r@[i] != '\n' && r@[i] != '\r',
{
    let v = text::chars_of(raw);
    let mut r = String::new();
    let mut i: usize = 0;
    while i < v.len()
        invariant
            i <= v@.len(),
            r@.len() == i,
            forall|k: int| 0 <= k < i ==> #[trigger] r@[k] == comment_char(v@[k]),
        decreases v@.len() - i,
    {
        let c = v[i];
        r.push(
            if c == '\n' || c == '\r' {
                ' '
            } else {
                c
            },
        );
        i += 1;
    }
    assert(r@ =~= comment_text(raw@));
    r
}

pub open spec fn id_char(c: char) -> char {
    if text::is_digit(c) || 'a' <= c <= 'z' || 'A' <= c <= 'Z' || c == '_' {
        c
    } else {
        '_'
    }
}

/// A string as part of a protocol's name: letters, digits and underscores, and no digit first.
pub open spec fn protocol_id(s: Seq<char>) -> Seq<char> {
    let t = Seq::new(s.len(), |i: int| id_char(s[i]));
    if t.len() == 0 || text::is_digit(t[0]) {
        seq!['_'] + t
    } else {
        t
    }
}

/// Turns a free-form name into part of a protocol's name.
pub fn sanitize_protocol_id(raw: &str) -> (r: String)
    ensures
        r@ == protocol_id(raw@),
{
    let v = text::chars_of(raw);
    let mut r = String::new();
    let ghost t = Seq::new(raw@.len(), |i: int| id_char(raw@[i]));
    if v.len() == 0 || ('0' <= v[0] && v[0] <= '9') {
        r.push('_');
    }
    let ghost start = r@;
    let mut i: usize = 0;
    while i < v.len()
        invariant
            i <= v@.len(),
            v@ == raw@,
            t == Seq::new(raw@.len(), |i: int| id_char(raw@[i])),
            r@ =~= start + t.take(i as int),
        decreases v@.len() - i,
    {
        let c = v[i];
        let ok = ('0' <= c && c <= '9') || ('a' <= c && c <= 'z') || ('A' <= c && c <= 'Z') || c
            == '_';
        r.push(
            if ok {
                c
            } else {
                '_'
            },
        );
        i += 1;
    }
    assert(t.take(i as int) =~= t);
    proof {
        if raw@.len() > 0 {
            assert(text::is_digit(t[0]) <==> text::is_digit(raw@[0]));
        }
        assert(r@ =~= protocol_id(raw@));
    }
    r
}

/// An entry of an `interface` clause: a bare CIDR, or a quoted name or pattern.
pub open spec fn iface_pattern(s: Seq<char>) -> Seq<char> {
    if dual::cidr_text(s) is Ok {
        s
    } else {
        seq!['"'] + quoted_text(s) + seq!['"']
    }
}

/// Renders an entry of an `interface` clause.
pub fn render_iface_pattern(entry: &str) -> (r: String)
    ensures
        r@ == iface_pattern(entry@),
{
    if dual::parse_cidr(entry).is_ok() {
        entry.to_owned()
    } else {
        let mut r = String::new();
        r.push('"');
        let q = sanitize_quoted(entry);
        r.push_str(q.as_str());
        r.push('"');
        assert(r@ =~= iface_pattern(entry@));
        r
    }
}

/// An entry that names exactly one interface: no glob, no CIDR.
pub open spec fn is_exact(s: Seq<char>) -> bool {
    !s.contains('*') && !s.contains('?') && dual::cidr_text(s) is Err
}

fn has_char(v: &Vec<char>, c: char) -> (r: bool)
    ensures
        r == v@.contains(c),
{
    let mut i: usize = 0;
    while i < v.len()
        invariant
            i <= v@.len(),
            forall|k: int| 0 <= k < i ==> v@[k] != c,
        decreases v@.len() - i,
    {
        if v[i] == c {
            assert(v@[i as int] == c);
            return true;
        }
        i += 1;
    }
    false
}

/// The entries that name exactly one interface, in order.
pub fn exact_iface_names(ospf_interfaces: &Vec<String>) -> (r: Vec<String>)
    ensures
        text::texts(r@) == text::texts(ospf_interfaces@).filter(|s: Seq<char>| is_exact(s)),
{
    let ghost all = text::texts(ospf_interfaces@);
    let ghost keep = |s: Seq<char>| is_exact(s);
    let mut r: Vec<String> = Vec::new();
    let mut i: usize = 0;
    proof {
        reveal(Seq::filter);
        assert(text::texts(r@) =~= all.take(0).filter(keep));
    }
    while i < ospf_interfaces.len()
        invariant
            i <= ospf_interfaces@.len(),
            all == text::texts(ospf_interfaces@),
            keep == (|s: Seq<char>| is_exact(s)),
            text::texts(r@) == all.take(i as int).filter(keep),
        decreases ospf_interfaces@.len() - i,
    {
        proof {
            reveal(Seq::filter);
            assert(all.take(i + 1).drop_last() =~= all.take(i as int));
        }
        let entry = &ospf_interfaces[i];
        let v = text::chars_of(entry.as_str());
        if !has_char(&v, '*') && !has_char(&v, '?') && dual::parse_cidr(entry.as_str()).is_err() {
            let ghost prev = r@;
            r.push(entry.clone());
            assert(text::texts(r@) =~= text::texts(prev).push(entry@));
        }
        i += 1;
    }
    assert(all.take(i as int) =~= all);
    r
}

/// The protocols for connected routes, one for each of the first `n` interfaces.
pub open spec fn direct_text(v: Seq<String>, n: int) -> Seq<char>
    decreases n,
{
    if n <= 0 {
        Seq::empty()
    } else {
        direct_text(v, n - 1) + (DIRECT_OPEN@ + protocol_id(v[n - 1]@) + DIRECT_INTERFACE@
            + iface_pattern(v[n - 1]@) + DIRECT_CLOSE@)
    }
}

/// The first `n` ranges, each with everything more specific inside it, as a list.
pub open spec fn ranges_text(v: Seq<String>, n: int) -> Seq<char>
    decreases n,
{
    if n <= 0 {
        Seq::empty()
    } else if n == 1 {
        v[0]@.push('+')
    } else {
        ranges_text(v, n - 1) + seq![',', ' '] + v[n - 1]@.push('+')
    }
}

/// The kernel protocols.
pub open spec fn kernel_text(learn: Seq<String>, loopback: u32) -> Seq<char> {
    let lo = addr::ipv4_format(loopback as int);
    (if learn.len() > 0 {
        KERNEL_LEARN@ + ranges_text(learn, learn.len() as int) + KERNEL_LEARN_CLOSE@
    } else {
        KERNEL_NO_LEARN@
    }) + (KERNEL_EXPORT@ + lo + KERNEL_EXPORT_BGP@ + lo + KERNEL_CLOSE@)
}

/// The first `n` static routes.
pub open spec fn routes_text(v: Seq<BypassRoute>, target: Seq<char>, n: int) -> Seq<char>
    decreases n,
{
    if n <= 0 {
        Seq::empty()
    } else {
        routes_text(v, target, n - 1) + (ROUTE@ + v[n - 1].net@ + target + comment_text(
            v[n - 1].label@,
        ) + NEWLINE@)
    }
}

/// A protocol of static routes.
pub open spec fn static_text(open: Seq<char>, v: Seq<BypassRoute>, target: Seq<char>) -> Seq<char> {
    open + routes_text(v, target, v.len() as int) + BLOCK_CLOSE@
}

/// The first `n` interfaces that OSPF runs on.
pub open spec fn ospf_list(v: Seq<String>, n: int) -> Seq<char>
    decreases n,
{
    if n <= 0 {
        Seq::empty()
    } else {
        ospf_list(v, n - 1) + (OSPF_INTERFACE@ + iface_pattern(v[n - 1]@) + OSPF_PTP@)
    }
}

/// The OSPF protocol.
pub open spec fn ospf_text(v: Seq<String>) -> Seq<char> {
    OSPF_OPEN@ + ospf_list(v, v.len() as int) + OSPF_CLOSE@
}

/// One iBGP session. Learned kernel routes are announced where there are ranges to learn.
pub open spec fn peer_text(p: BgpPeer, ipv6_loopback: u128, as_number: u32, learns: bool) -> Seq<char> {
    let asn = text::decimal(as_number as int);
    BGP_OPEN@ + protocol_id(p.name@) + BGP_LOCAL@ + addr::ipv6_format(ipv6_loopback as int)
        + BGP_AS@ + asn + BGP_NEIGHBOR@ + addr::ipv6_format(p.address as int) + BGP_AS@ + asn
        + BGP_CHANNEL@ + (if learns {
        BGP_INHERIT@
    } else {
        Seq::empty()
    }) + BGP_CLOSE@
}

/// The first `n` iBGP sessions.
pub open spec fn peers_text(
    v: Seq<BgpPeer>,
    ipv6_loopback: u128,
    as_number: u32,
    learns: bool,
    n: int,
) -> Seq<char>
    decreases n,
{
    if n <= 0 {
        Seq::empty()
    } else {
        peers_text(v, ipv6_loopback, as_number, learns, n - 1) + peer_text(
            v[n - 1],
            ipv6_loopback,
            as_number,
            learns,
        )
    }
}

/// The whole config.
pub open spec fn conf_text(id: RouterIdentity, as_number: u32, i: RenderInputs) -> Seq<char> {
    HEAD@ + addr::ipv4_format(id.loopback as int) + DEVICE@ + direct_text(
        i.direct_interfaces@,
        i.direct_interfaces@.len() as int,
    ) + kernel_text(i.learn@, id.loopback) + static_text(BYPASS_OPEN@, i.bypass@, BLACKHOLE@)
        + static_text(ANNOUNCE_OPEN@, i.announce@, VIA_LOOPBACK@) + ospf_text(i.ospf_interfaces@)
        + peers_text(
        i.bgp_peers@,
        id.ipv6_loopback,
        as_number,
        i.learn@.len() > 0,
        i.bgp_peers@.len() as int,
    )
}

fn push_direct(s: &mut String, v: &Vec<String>)
    ensures
        final(s)@ == old(s)@ + direct_text(v@, v@.len() as int),
{
    let ghost start = s@;
    let mut i: usize = 0;
    assert(s@ =~= start + direct_text(v@, 0));
    while i < v.len()
        invariant
            i <= v@.len(),
            s@ == start + direct_text(v@, i as int),
        decreases v@.len() - i,
    {
        let ghost prev = s@;
        s.push_str(DIRECT_OPEN);
        let id = sanitize_protocol_id(v[i].as_str());
        s.push_str(id.as_str());
        s.push_str(DIRECT_INTERFACE);
        let p = render_iface_pattern(v[i].as_str());
        s.push_str(p.as_str());
        s.push_str(DIRECT_CLOSE);
        assert(s@ =~= prev + (DIRECT_OPEN@ + protocol_id(v@[i as int]@) + DIRECT_INTERFACE@
            + iface_pattern(v@[i as int]@) + DIRECT_CLOSE@));
        assert(s@ =~= start + direct_text(v@, i + 1));
        i += 1;
    }
}

fn push_ranges(s: &mut String, v: &Vec<String>)
    ensures
        final(s)@ == old(s)@ + ranges_text(v@, v@.len() as int),
{
    let ghost start = s@;
    let mut i: usize = 0;
    assert(s@ =~= start + ranges_text(v@, 0));
    while i < v.len()
        invariant
            i <= v@.len(),
            s@ == start + ranges_text(v@, i as int),
        decreases v@.len() - i,
    {
        if i > 0 {
            s.push(',');
            s.push(' ');
        }
        s.push_str(v[i].as_str());
        s.push('+');
        assert(s@ =~= start + ranges_text(v@, i + 1));
        i += 1;
    }
}

fn push_kernel(s: &mut String, learn: &Vec<String>, loopback: u32)
    ensures
        final(s)@ == old(s)@ + kernel_text(learn@, loopback),
{
    let ghost start = s@;
    if learn.len() > 0 {
        s.push_str(KERNEL_LEARN);
        push_ranges(s, learn);
        s.push_str(KERNEL_LEARN_CLOSE);
    } else {
        s.push_str(KERNEL_NO_LEARN);
    }
    s.push_str(KERNEL_EXPORT);
    addr::push_ipv4(s, loopback);
    s.push_str(KERNEL_EXPORT_BGP);
    addr::push_ipv4(s, loopback);
    s.push_str(KERNEL_CLOSE);
    assert(s@ =~= start + kernel_text(learn@, loopback));
}

fn push_static(s: &mut String, open: &str, v: &Vec<BypassRoute>, target: &str)
    ensures
        final(s)@ == old(s)@ + static_text(open@, v@, target@),
{
    let ghost base = s@;
    s.push_str(open);
    let ghost start = s@;
    let mut i: usize = 0;
    assert(s@ =~= start + routes_text(v@, target@, 0));
    while i < v.len()
        invariant
            i <= v@.len(),
            s@ == start + routes_text(v@, target@, i as int),
        decreases v@.len() - i,
    {
        let ghost prev = s@;
        s.push_str(ROUTE);
        s.push_str(v[i].net.as_str());
        s.push_str(target);
        let label = sanitize_comment(v[i].label.as_str());
        s.push_str(label.as_str());
        s.push_str(NEWLINE);
        assert(s@ =~= prev + (ROUTE@ + v@[i as int].net@ + target@ + comment_text(
            v@[i as int].label@,
        ) + NEWLINE@));
        assert(s@ =~= start + routes_text(v@, target@, i + 1));
        i += 1;
    }
    s.push_str(BLOCK_CLOSE);
    assert(s@ =~= base + static_text(open@, v@, target@));
}

fn push_ospf(s: &mut String, v: &Vec<String>)
    ensures
        final(s)@ == old(s)@ + ospf_text(v@),
{
    let ghost base = s@;
    s.push_str(OSPF_OPEN);
    let ghost start = s@;
    let mut i: usize = 0;
    assert(s@ =~= start + ospf_list(v@, 0));
    while i < v.len()
        invariant
            i <= v@.len(),
            s@ == start + ospf_list(v@, i as int),
        decreases v@.len() - i,
    {
        let ghost prev = s@;
        s.push_str(OSPF_INTERFACE);
        let p = render_iface_pattern(v[i].as_str());
        s.push_str(p.as_str());
        s.push_str(OSPF_PTP);
        assert(s@ =~= prev + (OSPF_INTERFACE@ + iface_pattern(v@[i as int]@) + OSPF_PTP@));
        assert(s@ =~= start + ospf_list(v@, i + 1));
        i += 1;
    }
    s.push_str(OSPF_CLOSE);
    assert(s@ =~= base + ospf_text(v@));
}

fn push_peer(s: &mut String, p: &BgpPeer, ipv6_loopback: u128, as_number: u32, learns: bool)
    ensures
        final(s)@ == old(s)@ + peer_text(*p, ipv6_loopback, as_number, learns),
{
    let ghost start = s@;
    s.push_str(BGP_OPEN);
    let id = sanitize_protocol_id(p.name.as_str());
    s.push_str(id.as_str());
    s.push_str(BGP_LOCAL);
    addr::push_ipv6(s, ipv6_loopback);
    s.push_str(BGP_AS);
    text::push_decimal(s, as_number as u64);
    s.push_str(BGP_NEIGHBOR);
    addr::push_ipv6(s, p.address);
    s.push_str(BGP_AS);
    text::push_decimal(s, as_number as u64);
    s.push_str(BGP_CHANNEL);
    if learns {
        s.push_str(BGP_INHERIT);
    }
    s.push_str(BGP_CLOSE);
    assert(s@ =~= start + peer_text(*p, ipv6_loopback, as_number, learns));
}

/// Renders BIRD's config.
pub fn render(identity: RouterIdentity, as_number: u32, inputs: &RenderInputs) -> (r: String)
    ensures
        r@ == conf_text(identity, as_number, *inputs),
{
    let mut s = String::new();
    s.push_str(HEAD);
    addr::push_ipv4(&mut s, identity.loopback);
    s.push_str(DEVICE);
    push_direct(&mut s, &inputs.direct_interfaces);
    push_kernel(&mut s, &inputs.learn, identity.loopback);
    push_static(&mut s, BYPASS_OPEN, &inputs.bypass, BLACKHOLE);
    push_static(&mut s, ANNOUNCE_OPEN, &inputs.announce, VIA_LOOPBACK);
    push_ospf(&mut s, &inputs.ospf_interfaces);
    let learns = inputs.learn.len() > 0;
    let ghost start = s@;
    let mut i: usize = 0;
    assert(start =~= start + peers_text(
        inputs.bgp_peers@,
        identity.ipv6_loopback,
        as_number,
        learns,
        0,
    ));
    while i < inputs.bgp_peers.len()
        invariant
            i <= inputs.bgp_peers@.len(),
            s@ == start + peers_text(
                inputs.bgp_peers@,
                identity.ipv6_loopback,
                as_number,
                learns,
                i as int,
            ),
        decreases inputs.bgp_peers@.len() - i,
    {
        push_peer(&mut s, &inputs.bgp_peers[i], identity.ipv6_loopback, as_number, learns);
        assert(s@ =~= start + peers_text(
            inputs.bgp_peers@,
            identity.ipv6_loopback,
            as_number,
            learns,
            i + 1,
        ));
        i += 1;
    }
    assert(s@ =~= conf_text(identity, as_number, *inputs));
    s
}

/// What to do with a freshly rendered config.
#[derive(Clone, Copy, Debug, PartialEq, Eq, Structural)]
pub enum Reload {
    /// It is what BIRD has: nothing.
    Keep,
    /// Write it and have BIRD reload it.
    Write,
}

/// A config is written and reloaded only where it differs from what is there.
pub fn reconcile(current: &str, desired: &str) -> (r: Reload)
    ensures
        r == (if current@ == desired@ {
            Reload::Keep
        } else {
            Reload::Write
        }),
{
    if text::str_eq(current, desired) {
        Reload::Keep
    } else {
        Reload::Write
    }
}

/// Whether a protocol is stuck without a socket to listen on.
pub fn has_no_listening_socket(show_protocols_output: &str) -> (r: bool)
    ensures
        r == text::holds(show_protocols_output@, "No listening socket"@),
{
    text::contains_text(show_protocols_output, "No listening socket")
}

/// The interface that a line of the listing names.
pub open spec fn interface_in(line: Seq<char>) -> Option<Seq<char>> {
    if text::begins_with(line, "Interface "@) {
        let w = text::words(line.skip(10));
        if w.len() > 0 {
            Some(w[0])
        } else {
            None
        }
    } else {
        None
    }
}

/// OSPF is attached to an interface.
pub open spec fn attached(listing: Seq<char>, name: Seq<char>) -> bool {
    exists|i: int|
        0 <= i < text::lines(listing).len() && interface_in(#[trigger] text::lines(listing)[i])
            == Some(name)
}

fn parse_interface(line: &Vec<char>) -> (r: Option<String>)
    ensures
        text::text_opt(r) == interface_in(line@),
{
    let keyword = text::chars_of("Interface ");
    proof {
        reveal_strlit("Interface ");
    }
    if !text::starts_with(line.as_slice(), keyword.as_slice()) {
        return None;
    }
    let rest = text::copy(line.as_slice(), 10, line.len());
    assert(rest@ =~= line@.skip(10));
    let w = text::words_of(rest.as_slice());
    assert(text::pieces(w@).len() == w@.len());
    if w.len() == 0 {
        return None;
    }
    assert(text::pieces(w@)[0] == w@[0]@);
    Some(text::string_of(w[0].as_slice()))
}

/// The interfaces that OSPF is attached to, in ascending order.
pub fn ospf_configured_interfaces(show_ospf_interface_output: &str) -> (r: Vec<String>)
    ensures
        text::ascending(text::texts(r@)),
        forall|t: Seq<char>| #[trigger]
            text::texts(r@).contains(t) <==> attached(show_ospf_interface_output@, t),
{
    let v = text::chars_of(show_ospf_interface_output);
    let lines = text::lines_of(v.as_slice());
    let ghost all = text::lines(show_ospf_interface_output@);
    assert(text::pieces(lines@).len() == lines@.len());
    let mut r: Vec<String> = Vec::new();
    let mut i: usize = 0;
    while i < lines.len()
        invariant
            i <= lines@.len(),
            all == text::pieces(lines@),
            text::ascending(text::texts(r@)),
            forall|t: Seq<char>| #[trigger]
                text::texts(r@).contains(t) <==> exists|k: int|
                    0 <= k < i && interface_in(#[trigger] all[k]) == Some(t),
        decreases lines@.len() - i,
    {
        let ghost prev = text::texts(r@);
        let found = parse_interface(&lines[i]);
        assert(all[i as int] == lines@[i as int]@);
        if let Some(name) = &found {
            text::insert_text(&mut r, name.as_str());
        }
        proof {
            assert forall|t: Seq<char>| #[trigger] text::texts(r@).contains(t) <==> exists|k: int|
                0 <= k < i + 1 && interface_in(#[trigger] all[k]) == Some(t) by {
                assert(prev.contains(t) <==> exists|k: int|
                    0 <= k < i && interface_in(#[trigger] all[k]) == Some(t));
                if interface_in(all[i as int]) == Some(t) {
                    assert(text::texts(r@).contains(t));
                }
            }
        }
        i += 1;
    }
    r
}

/// BIRD has caught up with its config: no protocol is stuck without a socket, and OSPF is attached
/// to every interface that is named exactly.
pub open spec fn healthy(protocols: Seq<char>, listing: Seq<char>, names: Seq<String>) -> bool {
    &&& !text::holds(protocols, "No listening socket"@)
    &&& forall|i: int| 0 <= i < names.len() ==> attached(listing, (#[trigger] names[i])@)
}

/// Whether BIRD has caught up with its config, going by what it reports.
pub fn protocols_healthy(
    protocols: &str,
    ospf_interfaces: &str,
    exact_ospf_ifaces: &Vec<String>,
) -> (r: bool)
    ensures
        r == healthy(protocols@, ospf_interfaces@, exact_ospf_ifaces@),
{
    if has_no_listening_socket(protocols) {
        return false;
    }
    let configured = ospf_configured_interfaces(ospf_interfaces);
    let mut i: usize = 0;
    while i < exact_ospf_ifaces.len()
        invariant
            i <= exact_ospf_ifaces@.len(),
            !text::holds(protocols@, "No listening socket"@),
            forall|t: Seq<char>| #[trigger]
                text::texts(configured@).contains(t) <==> attached(ospf_interfaces@, t),
            forall|k: int|
                0 <= k < i ==> attached(ospf_interfaces@, (#[trigger] exact_ospf_ifaces@[k])@),
        decreases exact_ospf_ifaces@.len() - i,
    {
        if !text::has_text(&configured, exact_ospf_ifaces[i].as_str()) {
            assert(!attached(ospf_interfaces@, exact_ospf_ifaces@[i as int]@));
            return false;
        }
        i += 1;
    }
    true
}

/// What the router loopback carries: this node's loopbacks and its link-local address.
pub fn loopback_addresses(loopback: u32, ipv6_loopback: u128) -> (r: Vec<String>)
    ensures
        text::texts(r@) == seq![
            addr::ipv4_format(loopback as int) + "/32"@,
            addr::ipv6_format(ipv6_loopback as int) + "/128"@,
            addr::ipv6_format(cidr::link_local(ipv6_loopback) as int) + "/64"@,
        ],
{
    let mut r: Vec<String> = Vec::new();
    let mut a = addr::format_ipv4(loopback);
    a.push_str("/32");
    r.push(a);
    let mut b = addr::format_ipv6(ipv6_loopback);
    b.push_str("/128");
    r.push(b);
    let mut c = addr::format_ipv6(cidr::link_local_from_loopback(ipv6_loopback));
    c.push_str("/64");
    r.push(c);
    assert(text::texts(r@) =~= seq![
        addr::ipv4_format(loopback as int) + "/32"@,
        addr::ipv6_format(ipv6_loopback as int) + "/128"@,
        addr::ipv6_format(cidr::link_local(ipv6_loopback) as int) + "/64"@,
    ]);
    r
}

/// Routes, as networks and labels.
pub open spec fn route_pairs(v: Seq<BypassRoute>) -> Seq<(Seq<char>, Seq<char>)> {
    Seq::new(v.len(), |i: int| (v[i].net@, v[i].label@))
}

fn clone_routes(v: &Vec<BypassRoute>) -> (r: Vec<BypassRoute>)
    ensures
        route_pairs(r@) == route_pairs(v@),
{
    let mut r: Vec<BypassRoute> = Vec::new();
    let mut i: usize = 0;
    while i < v.len()
        invariant
            i <= v@.len(),
            r@.len() == i,
            forall|k: int|
                0 <= k < i ==> (#[trigger] r@[k]).net@ == v@[k].net@ && r@[k].label@ == v@[k].label@,
        decreases v@.len() - i,
    {
        r.push(BypassRoute { net: v[i].net.clone(), label: v[i].label.clone() });
        i += 1;
    }
    assert(route_pairs(r@) =~= route_pairs(v@));
    r
}

/// The bypass routes to serve after an attempt to resolve them. A failure keeps what was last
/// known, rather than blanking the bypass out over a passing outage.
pub fn current_bypass_routes(
    resolved: Option<Vec<BypassRoute>>,
    cache: &mut Option<Vec<BypassRoute>>,
) -> (routes: Vec<BypassRoute>)
    ensures
        match resolved {
            Some(found) => route_pairs(routes@) == route_pairs(found@) && *final(cache) is Some
                && route_pairs((*final(cache))->0@) == route_pairs(found@),
            None => *final(cache) == *old(cache) && route_pairs(routes@) == (match *old(cache) {
                Some(known) => route_pairs(known@),
                None => Seq::empty(),
            }),
        },
{
    match resolved {
        Some(found) => {
            *cache = Some(clone_routes(&found));
            found
        },
        None => match &*cache {
            Some(known) => clone_routes(known),
            None => {
                let none: Vec<BypassRoute> = Vec::new();
                assert(route_pairs(none@) =~= Seq::empty());
                none
            },
        },
    }
}

/// `inputs` are what a config asks for, with these bypass routes.
pub open spec fn are_inputs(cfg: RouterConfig, bypass: Seq<BypassRoute>, inputs: RenderInputs) -> bool {
    &&& text::texts(inputs.ospf_interfaces@) == text::texts(cfg.ospf_interfaces@)
    &&& text::texts(inputs.learn@) == text::texts(cfg.learn@)
    &&& text::texts(inputs.direct_interfaces@) == text::texts(cfg.direct_interfaces@)
    &&& inputs.bypass@ == bypass
    &&& inputs.bgp_peers@.len() == cfg.bgp_peers@.len()
    &&& forall|i: int|
        0 <= i < cfg.bgp_peers@.len() ==> (#[trigger] inputs.bgp_peers@[i]).name@
            == cfg.bgp_peers@[i].name@ && addr::ipv6_text(cfg.bgp_peers@[i].address@) == Some(
            inputs.bgp_peers@[i].address as int,
        )
    &&& inputs.announce@.len() == cfg.announce@.len()
    &&& forall|i: int|
        0 <= i < cfg.announce@.len() ==> (#[trigger] inputs.announce@[i]).net@
            == cfg.announce@[i].net@ && inputs.announce@[i].label@ == (match cfg.announce@[i].label {
            Some(label) => label@,
            None => Seq::empty(),
        })
}

/// What the config is rendered from, once it has been validated.
pub fn render_inputs(cfg: &RouterConfig, bypass: Vec<BypassRoute>) -> (r: RenderInputs)
    requires
        config::config_error(*cfg) is None,
    ensures
        are_inputs(*cfg, bypass@, r),
{
    let mut bgp_peers: Vec<BgpPeer> = Vec::new();
    let mut i: usize = 0;
    while i < cfg.bgp_peers.len()
        invariant
            i <= cfg.bgp_peers@.len(),
            bgp_peers@.len() == i,
            config::peers_error(cfg.bgp_peers@, i as int) is None,
            forall|k: int|
                0 <= k < i ==> (#[trigger] bgp_peers@[k]).name@ == cfg.bgp_peers@[k].name@
                    && addr::ipv6_text(cfg.bgp_peers@[k].address@) == Some(
                    bgp_peers@[k].address as int,
                ),
        decreases cfg.bgp_peers@.len() - i,
    {
        let entry = &cfg.bgp_peers[i];
        let chars = text::chars_of(entry.address.as_str());
        assert(config::peer_error(cfg.bgp_peers@, i as int) is None);
        if let Some(address) = addr::parse_ipv6_chars(chars.as_slice()) {
            bgp_peers.push(BgpPeer { name: entry.name.clone(), address });
        }
        i += 1;
    }
    let mut announce: Vec<AnnounceRoute> = Vec::new();
    let mut i: usize = 0;
    while i < cfg.announce.len()
        invariant
            i <= cfg.announce@.len(),
            announce@.len() == i,
            forall|k: int|
                0 <= k < i ==> (#[trigger] announce@[k]).net@ == cfg.announce@[k].net@
                    && announce@[k].label@ == (match cfg.announce@[k].label {
                    Some(label) => label@,
                    None => Seq::empty(),
                }),
        decreases cfg.announce@.len() - i,
    {
        let entry = &cfg.announce[i];
        let label = match &entry.label {
            Some(label) => label.clone(),
            None => String::new(),
        };
        announce.push(AnnounceRoute { net: entry.net.clone(), label });
        i += 1;
    }
    RenderInputs {
        ospf_interfaces: text::clone_texts(&cfg.ospf_interfaces),
        bgp_peers,
        bypass,
        announce,
        learn: text::clone_texts(&cfg.learn),
        direct_interfaces: text::clone_texts(&cfg.direct_interfaces),
    }
}

/// Law: a protocol's name is made of letters, digits and underscores, and begins with no digit. A
/// name that is so already is left as it is.
pub proof fn protocol_names_are_plain(s: Seq<char>)
    ensures
        protocol_id(s).len() > 0,
        !text::is_digit(protocol_id(s)[0]),
        forall|i: int|
            0 <= i < protocol_id(s).len() ==> {
                let c = #[trigger] protocol_id(s)[i];
                text::is_digit(c) || 'a' <= c <= 'z' || 'A' <= c <= 'Z' || c == '_'
            },
        s.len() > 0 && !text::is_digit(s[0]) && (forall|i: int|
            0 <= i < s.len() ==> {
                let c = #[trigger] s[i];
                text::is_digit(c) || 'a' <= c <= 'z' || 'A' <= c <= 'Z' || c == '_'
            }) ==> protocol_id(s) == s,
{
    let t = Seq::new(s.len(), |i: int| id_char(s[i]));
    if s.len() > 0 && !text::is_digit(s[0]) && (forall|i: int|
        0 <= i < s.len() ==> {
            let c = #[trigger] s[i];
            text::is_digit(c) || 'a' <= c <= 'z' || 'A' <= c <= 'Z' || c == '_'
        }) {
        assert forall|i: int| 0 <= i < s.len() implies t[i] == s[i] by {
            assert(id_char(s[i]) == s[i]);
        }
        assert(t =~= s);
    }
}

/// Law: a label as a comment is as long as it was and differs from it only in line breaks, which
/// become spaces.
pub proof fn comments_keep_their_text(s: Seq<char>)
    ensures
        comment_text(s).len() == s.len(),
        forall|i: int|
            0 <= i < s.len() ==> #[trigger] comment_text(s)[i] == (if s[i] == '\n' || s[i] == '\r' {
                ' '
            } else {
                s[i]
            }),
{
}

/// Law: a name without quotes and line breaks is quoted as it is, and a CIDR is not quoted at all.
pub proof fn interface_patterns_keep_their_text(s: Seq<char>)
    ensures
        dual::cidr_text(s) is Ok ==> iface_pattern(s) == s,
        dual::cidr_text(s) is Err && (forall|i: int|
            0 <= i < s.len() ==> #[trigger] s[i] != '"' && s[i] != '\n' && s[i] != '\r')
            ==> iface_pattern(s) == seq!['"'] + s + seq!['"'],
{
    if forall|i: int| 0 <= i < s.len() ==> #[trigger] s[i] != '"' && s[i] != '\n' && s[i] != '\r' {
        lemma_quoted(s);
    }
}

proof fn lemma_quoted(s: Seq<char>)
    requires
        forall|i: int| 0 <= i < s.len() ==> #[trigger] s[i] != '"' && s[i] != '\n' && s[i] != '\r',
    ensures
        quoted_text(s) == s,
    decreases s.len(),
{
    reveal(Seq::filter);
    if s.len() > 0 {
        let init = s.drop_last();
        assert forall|i: int| 0 <= i < init.len() implies #[trigger] init[i] != '"' && init[i]
            != '\n' && init[i] != '\r' by {
            assert(init[i] == s[i]);
        }
        lemma_quoted(init);
        assert(s[s.len() - 1] != '"');
        assert(init.push(s.last()) =~= s);
    }
}

} // verus!
