//! What stands in a rendered BIRD config, section by section and entry by entry.

use crate::common::addr;
use crate::router::bird;
use crate::router::bird::BgpPeer;
use crate::router::bird::BypassRoute;
use crate::router::bird::RenderInputs;
use crate::router::bird::RouterIdentity;
use crate::lines;
use crate::text;
use vstd::prelude::*;

verus! {

/// `a` stands at the front of `s`.
spec fn leads(s: Seq<char>, a: Seq<char>) -> bool {
    a.len() <= s.len() && s.take(a.len() as int) == a
}

proof fn lemma_leads(s: Seq<char>, a: Seq<char>, b: Seq<char>)
    requires
        leads(s, a + b),
    ensures
        leads(s, a),
        s.subrange(a.len() as int, (a.len() + b.len()) as int) == b,
{
    assert(s.take(a.len() as int) =~= a) by {
        assert forall|i: int| 0 <= i < a.len() implies s[i] == a[i] by {
            assert(s.take((a + b).len() as int)[i] == (a + b)[i]);
        }
    }
    assert(s.subrange(a.len() as int, (a.len() + b.len()) as int) =~= b) by {
        assert forall|i: int| 0 <= i < b.len() implies s[a.len() + i] == b[i] by {
            assert(s.take((a + b).len() as int)[a.len() + i] == (a + b)[a.len() + i]);
        }
    }
}

/// A part of a part.
proof fn lemma_inner(s: Seq<char>, from: int, to: int, a: Seq<char>, b: Seq<char>, c: Seq<char>)
    requires
        0 <= from <= to <= s.len(),
        s.subrange(from, to) == a + b + c,
    ensures
        s.subrange(from, from + a.len()) == a,
        s.subrange(from + a.len(), from + a.len() + b.len()) == b,
        s.subrange(from + a.len() + b.len(), to) == c,
        to == from + a.len() + b.len() + c.len(),
{
    let p = s.subrange(from, to);
    assert(p.len() == a.len() + b.len() + c.len());
    let x = a.len() as int;
    let y = x + b.len();
    assert(s.subrange(from, from + x) =~= p.subrange(0, x));
    assert(p.subrange(0, x) =~= a);
    assert(s.subrange(from + x, from + y) =~= p.subrange(x, y));
    assert(p.subrange(x, y) =~= b);
    assert(s.subrange(from + y, to) =~= p.subrange(y, p.len() as int));
    assert(p.subrange(y, p.len() as int) =~= c);
}

/// A part of a part that stands at `at`.
proof fn lemma_within(s: Seq<char>, at: int, part: Seq<char>, from: int, to: int)
    requires
        0 <= at,
        at + part.len() <= s.len(),
        s.subrange(at, at + part.len()) == part,
        0 <= from <= to <= part.len(),
    ensures
        s.subrange(at + from, at + to) == part.subrange(from, to),
{
    assert forall|i: int| from <= i < to implies s[at + i] == part[i] by {
        assert(s.subrange(at, at + part.len())[i] == part[i]);
    }
    assert(s.subrange(at + from, at + to) =~= part.subrange(from, to));
}

/// Where the sections of a config stand.
pub struct Sections {
    pub direct: int,
    pub kernel: int,
    pub bypass: int,
    pub announce: int,
    pub ospf: int,
    pub sessions: int,
}

proof fn lemma_sections(id: RouterIdentity, as_number: u32, i: RenderInputs) -> (at: Sections)
    ensures
        ({
            let c = bird::conf_text(id, as_number, i);
            &&& 0 <= at.direct <= at.kernel <= at.bypass <= at.announce <= at.ospf <= at.sessions
                <= c.len()
            &&& c.subrange(0, at.direct) == bird::HEAD@ + addr::ipv4_format(id.loopback as int)
                + bird::DEVICE@
            &&& c.subrange(at.direct, at.kernel) == bird::direct_text(
                i.direct_interfaces@,
                i.direct_interfaces@.len() as int,
            )
            &&& c.subrange(at.kernel, at.bypass) == bird::kernel_text(i.learn@, id.loopback)
            &&& c.subrange(at.bypass, at.announce) == bird::static_text(
                bird::BYPASS_OPEN@,
                i.bypass@,
                bird::BLACKHOLE@,
            )
            &&& c.subrange(at.announce, at.ospf) == bird::static_text(
                bird::ANNOUNCE_OPEN@,
                i.announce@,
                bird::VIA_LOOPBACK@,
            )
            &&& c.subrange(at.ospf, at.sessions) == bird::ospf_text(i.ospf_interfaces@)
            &&& c.subrange(at.sessions, c.len() as int) == bird::peers_text(
                i.bgp_peers@,
                id.ipv6_loopback,
                as_number,
                i.learn@.len() > 0,
                i.bgp_peers@.len() as int,
            )
        }),
{
    let c = bird::conf_text(id, as_number, i);
    let s0 = bird::HEAD@ + addr::ipv4_format(id.loopback as int) + bird::DEVICE@;
    let d = bird::direct_text(i.direct_interfaces@, i.direct_interfaces@.len() as int);
    let k = bird::kernel_text(i.learn@, id.loopback);
    let b = bird::static_text(bird::BYPASS_OPEN@, i.bypass@, bird::BLACKHOLE@);
    let a = bird::static_text(bird::ANNOUNCE_OPEN@, i.announce@, bird::VIA_LOOPBACK@);
    let o = bird::ospf_text(i.ospf_interfaces@);
    let p = bird::peers_text(
        i.bgp_peers@,
        id.ipv6_loopback,
        as_number,
        i.learn@.len() > 0,
        i.bgp_peers@.len() as int,
    );
    let s1 = s0 + d;
    let s2 = s1 + k;
    let s3 = s2 + b;
    let s4 = s3 + a;
    let s5 = s4 + o;
    assert(c == s5 + p);
    assert(c.take(c.len() as int) =~= c);
    lemma_leads(c, s5, p);
    lemma_leads(c, s4, o);
    lemma_leads(c, s3, a);
    lemma_leads(c, s2, b);
    lemma_leads(c, s1, k);
    lemma_leads(c, s0, d);
    assert(c.subrange(0, s0.len() as int) =~= c.take(s0.len() as int));
    Sections {
        direct: s0.len() as int,
        kernel: s1.len() as int,
        bypass: s2.len() as int,
        announce: s3.len() as int,
        ospf: s4.len() as int,
        sessions: s5.len() as int,
    }
}

/// Where session `i` stands among the sessions.
proof fn lemma_session(v: Seq<BgpPeer>, lo: u128, asn: u32, learns: bool, n: int, i: int)
    requires
        0 <= i < n,
    ensures
        bird::peers_text(v, lo, asn, learns, i).len() <= bird::peers_text(v, lo, asn, learns, i + 1).len() <= bird::peers_text(v, lo, asn, learns, n).len(),
        bird::peers_text(v, lo, asn, learns, n).subrange(
            bird::peers_text(v, lo, asn, learns, i).len() as int,
            bird::peers_text(v, lo, asn, learns, i + 1).len() as int,
        ) == bird::peer_text(v[i], lo, asn, learns),
    decreases n,
{
    let before = bird::peers_text(v, lo, asn, learns, n - 1);
    let all = bird::peers_text(v, lo, asn, learns, n);
    let from = bird::peers_text(v, lo, asn, learns, i).len() as int;
    let to = bird::peers_text(v, lo, asn, learns, i + 1).len() as int;
    if i == n - 1 {
        assert(all.subrange(from, to) =~= bird::peer_text(v[i], lo, asn, learns));
    } else {
        lemma_session(v, lo, asn, learns, n - 1, i);
        assert(all.subrange(from, to) =~= before.subrange(from, to));
    }
}

/// Where route `i` stands among the routes.
proof fn lemma_route(v: Seq<BypassRoute>, target: Seq<char>, n: int, i: int)
    requires
        0 <= i < n,
    ensures
        bird::routes_text(v, target, i).len() <= bird::routes_text(v, target, i + 1).len() <= bird::routes_text(v, target, n).len(),
        bird::routes_text(v, target, n).subrange(
            bird::routes_text(v, target, i).len() as int,
            bird::routes_text(v, target, i + 1).len() as int,
        ) == (bird::ROUTE@ + v[i].net@ + target + bird::comment_text(v[i].label@) + bird::NEWLINE@),
    decreases n,
{
    let before = bird::routes_text(v, target, n - 1);
    let all = bird::routes_text(v, target, n);
    let from = bird::routes_text(v, target, i).len() as int;
    let to = bird::routes_text(v, target, i + 1).len() as int;
    if i == n - 1 {
        assert(all.subrange(from, to) =~= (bird::ROUTE@ + v[i].net@ + target + bird::comment_text(v[i].label@) + bird::NEWLINE@));
    } else {
        lemma_route(v, target, n - 1, i);
        assert(all.subrange(from, to) =~= before.subrange(from, to));
    }
}

/// Where the protocol of interface `i` stands among those for connected routes.
proof fn lemma_direct(v: Seq<String>, n: int, i: int)
    requires
        0 <= i < n,
    ensures
        bird::direct_text(v, i).len() <= bird::direct_text(v, i + 1).len() <= bird::direct_text(v, n).len(),
        bird::direct_text(v, n).subrange(
            bird::direct_text(v, i).len() as int,
            bird::direct_text(v, i + 1).len() as int,
        ) == (bird::DIRECT_OPEN@ + bird::protocol_id(v[i]@) + bird::DIRECT_INTERFACE@ + bird::iface_pattern(v[i]@) + bird::DIRECT_CLOSE@),
    decreases n,
{
    let before = bird::direct_text(v, n - 1);
    let all = bird::direct_text(v, n);
    let from = bird::direct_text(v, i).len() as int;
    let to = bird::direct_text(v, i + 1).len() as int;
    if i == n - 1 {
        assert(all.subrange(from, to) =~= (bird::DIRECT_OPEN@ + bird::protocol_id(v[i]@) + bird::DIRECT_INTERFACE@ + bird::iface_pattern(v[i]@) + bird::DIRECT_CLOSE@));
    } else {
        lemma_direct(v, n - 1, i);
        assert(all.subrange(from, to) =~= before.subrange(from, to));
    }
}

/// Where interface `i` stands among those that OSPF runs on.
proof fn lemma_ospf(v: Seq<String>, n: int, i: int)
    requires
        0 <= i < n,
    ensures
        bird::ospf_list(v, i).len() <= bird::ospf_list(v, i + 1).len() <= bird::ospf_list(v, n).len(),
        bird::ospf_list(v, n).subrange(
            bird::ospf_list(v, i).len() as int,
            bird::ospf_list(v, i + 1).len() as int,
        ) == (bird::OSPF_INTERFACE@ + bird::iface_pattern(v[i]@) + bird::OSPF_PTP@),
    decreases n,
{
    let before = bird::ospf_list(v, n - 1);
    let all = bird::ospf_list(v, n);
    let from = bird::ospf_list(v, i).len() as int;
    let to = bird::ospf_list(v, i + 1).len() as int;
    if i == n - 1 {
        assert(all.subrange(from, to) =~= (bird::OSPF_INTERFACE@ + bird::iface_pattern(v[i]@) + bird::OSPF_PTP@));
    } else {
        lemma_ospf(v, n - 1, i);
        assert(all.subrange(from, to) =~= before.subrange(from, to));
    }
}

/// A line that stands behind the end of another is a line of the whole.
proof fn lemma_line_at(s: Seq<char>, at: int, before: Seq<char>, w: Seq<char>, after: Seq<char>)
    requires
        0 <= at,
        at + before.len() + w.len() + after.len() <= s.len(),
        s.subrange(at, at + before.len() + w.len() + after.len()) == before + w + after,
        before.len() > 0,
        before.last() == '\n',
    ensures
        lines::has_line(s, w),
{
    let to = at + before.len() + w.len() + after.len();
    lemma_inner(s, at, to, before, w, after);
    let i = at + before.len();
    assert(s.subrange(at, at + before.len())[before.len() - 1] == '\n');
    assert(s[i - 1] == '\n');
    assert(s.subrange(i, i + w.len()) == w);
}

/// A `protocol bgp` block: its name, both ends and the AS that they are in, and what goes over it.
#[verifier::opaque]
pub open spec fn session(
    name: Seq<char>,
    here: Seq<char>,
    there: Seq<char>,
    asn: Seq<char>,
    learns: bool,
) -> Seq<char> {
    "\nprotocol bgp ibgp6_"@ + name + " {\n    local "@ + here + " as "@ + asn
        + ";\n    neighbor "@ + there + " as "@ + asn
        + ";\n    multihop;\n    strict bind yes;\n    ipv4 {\n        extended next hop on;\n        next hop self;\n        import all;\n        export filter {\n            if source = RTS_DEVICE then accept;\n            if source = RTS_STATIC then accept;\n"@
        + (if learns {
        "            if source = RTS_INHERIT then accept;\n"@
    } else {
        Seq::empty()
    }) + "            reject;\n        };\n    };\n}\n"@
}

proof fn lemma_peer_is_session(p: BgpPeer, lo: u128, asn: u32, learns: bool)
    ensures
        bird::peer_text(p, lo, asn, learns) == session(
            bird::protocol_id(p.name@),
            addr::ipv6_format(lo as int),
            addr::ipv6_format(p.address as int),
            text::decimal(asn as int),
            learns,
        ),
{
    reveal(session);
}

/// Session `k` of a text that ends in sessions from `from` on.
proof fn lemma_session_at(
    c: Seq<char>,
    from: int,
    v: Seq<BgpPeer>,
    lo: u128,
    asn: u32,
    learns: bool,
    k: int,
)
    requires
        0 <= from <= c.len(),
        c.subrange(from, c.len() as int) == bird::peers_text(v, lo, asn, learns, v.len() as int),
        0 <= k < v.len(),
    ensures
        ({
            let a = from + bird::peers_text(v, lo, asn, learns, k).len();
            let b = from + bird::peers_text(v, lo, asn, learns, k + 1).len();
            &&& from <= a <= b <= c.len()
            &&& c.subrange(a, b) == session(
                bird::protocol_id(v[k].name@),
                addr::ipv6_format(lo as int),
                addr::ipv6_format(v[k].address as int),
                text::decimal(asn as int),
                learns,
            )
        }),
{
    let n = v.len() as int;
    let part = bird::peers_text(v, lo, asn, learns, n);
    assert(part.len() == c.len() - from);
    lemma_session(v, lo, asn, learns, n, k);
    lemma_peer_is_session(v[k], lo, asn, learns);
    lemma_within(
        c,
        from,
        part,
        bird::peers_text(v, lo, asn, learns, k).len() as int,
        bird::peers_text(v, lo, asn, learns, k + 1).len() as int,
    );
}

/// Law: the config ends in one `protocol bgp` block for each peer, in the order of the peers: the
/// blocks follow each other up to the end. Block `k` is named after peer `k`. It goes from this
/// node's IPv6 loopback to that peer's address, both in the AS of the mesh, and what it exports has
/// the learned kernel routes in it exactly where there are ranges to learn.
pub proof fn sessions_follow_the_peers(
    id: RouterIdentity,
    as_number: u32,
    inputs: RenderInputs,
    c: Seq<char>,
) -> (at: Seq<int>)
    requires
        c == bird::conf_text(id, as_number, inputs),
    ensures
        at.len() == inputs.bgp_peers@.len() + 1,
        0 <= at[0],
        at[inputs.bgp_peers@.len() as int] == c.len(),
        forall|k: int|
            #![trigger at[k]]
            0 <= k < inputs.bgp_peers@.len() ==> {
                &&& 0 <= at[k] <= at[k + 1] <= c.len()
                &&& c.subrange(at[k], at[k + 1]) == session(
                    bird::protocol_id(inputs.bgp_peers@[k].name@),
                    addr::ipv6_format(id.ipv6_loopback as int),
                    addr::ipv6_format(inputs.bgp_peers@[k].address as int),
                    text::decimal(as_number as int),
                    inputs.learn@.len() > 0,
                )
            },
{
    let s = lemma_sections(id, as_number, inputs);
    lemma_all_sessions(
        c,
        s.sessions,
        inputs.bgp_peers@,
        id.ipv6_loopback,
        as_number,
        inputs.learn@.len() > 0,
    )
}

/// The sessions of a text that ends in sessions from `from` on.
proof fn lemma_all_sessions(
    c: Seq<char>,
    from: int,
    v: Seq<BgpPeer>,
    lo: u128,
    asn: u32,
    learns: bool,
) -> (at: Seq<int>)
    requires
        0 <= from <= c.len(),
        c.subrange(from, c.len() as int) == bird::peers_text(v, lo, asn, learns, v.len() as int),
    ensures
        at.len() == v.len() + 1,
        at[0] == from,
        at[v.len() as int] == c.len(),
        forall|k: int|
            #![trigger at[k]]
            0 <= k < v.len() ==> {
                &&& 0 <= at[k] <= at[k + 1] <= c.len()
                &&& c.subrange(at[k], at[k + 1]) == session(
                    bird::protocol_id(v[k].name@),
                    addr::ipv6_format(lo as int),
                    addr::ipv6_format(v[k].address as int),
                    text::decimal(asn as int),
                    learns,
                )
            },
{
    let at = Seq::new(
        (v.len() + 1) as nat,
        |k: int| from + bird::peers_text(v, lo, asn, learns, k).len(),
    );
    assert(bird::peers_text(v, lo, asn, learns, v.len() as int).len() == c.len() - from);
    assert forall|k: int|
        #![trigger at[k]]
        0 <= k < v.len() implies {
        &&& 0 <= at[k] <= at[k + 1] <= c.len()
        &&& c.subrange(at[k], at[k + 1]) == session(
            bird::protocol_id(v[k].name@),
            addr::ipv6_format(lo as int),
            addr::ipv6_format(v[k].address as int),
            text::decimal(asn as int),
            learns,
        )
    } by {
        lemma_session_at(c, from, v, lo, asn, learns, k);
    }
    at
}

proof fn lemma_assoc(a: Seq<char>, b: Seq<char>, c: Seq<char>)
    ensures
        (a + b) + c == a + (b + c),
{
    assert((a + b) + c =~= a + (b + c));
}

/// Texts behind `x`, taken together up to a break in the last of them.
proof fn lemma_taken_together(
    x: Seq<char>,
    p: Seq<char>,
    q: Seq<char>,
    a: Seq<char>,
    n: Seq<char>,
    s: Seq<char>,
    t: Seq<char>,
)
    ensures
        x + p + q + a + n + (s + t) == x + (p + q + a + n + s) + t,
{
    lemma_assoc(x, p, q);
    lemma_assoc(x, p + q, a);
    lemma_assoc(x, p + q + a, n);
    lemma_assoc(x + p + q + a + n, s, t);
    lemma_assoc(x, p + q + a + n, s);
}

/// The lines of a session.
proof fn lemma_session_lines(
    name: Seq<char>,
    lo: Seq<char>,
    there: Seq<char>,
    asn: Seq<char>,
    rest: Seq<char>,
    inherit: Seq<char>,
    close: Seq<char>,
)
    ensures
        "\nprotocol bgp ibgp6_"@ + name + " {\n    local "@ + lo + " as "@ + asn
            + ";\n    neighbor "@ + there + " as "@ + asn + (";\n"@ + rest) + inherit + close
            == "\n"@ + ("protocol bgp ibgp6_"@ + name + " {\n"@) + ("    local "@ + lo + " as "@
            + asn + ";\n"@) + ("    neighbor "@ + there + " as "@ + asn + ";\n"@) + (rest + inherit
            + close),
{
    let n = "\n"@;
    let o = "protocol bgp ibgp6_"@;
    let b = " {\n"@;
    let l = "    local "@;
    let a = " as "@;
    let s = ";\n"@;
    let nb = "    neighbor "@;
    assert("\nprotocol bgp ibgp6_"@ =~= n + o) by {
        reveal_strlit("\nprotocol bgp ibgp6_");
        reveal_strlit("\n");
        reveal_strlit("protocol bgp ibgp6_");
    }
    assert(" {\n    local "@ =~= b + l) by {
        reveal_strlit(" {\n    local ");
        reveal_strlit(" {\n");
        reveal_strlit("    local ");
    }
    assert(";\n    neighbor "@ =~= s + nb) by {
        reveal_strlit(";\n    neighbor ");
        reveal_strlit(";\n");
        reveal_strlit("    neighbor ");
    }
    let x1 = n + (o + name + b);
    lemma_assoc(n, o, name);
    lemma_assoc(n + (o + name), b, l);
    lemma_assoc(n, o + name, b);
    lemma_taken_together(x1, l, lo, a, asn, s, nb);
    let x2 = x1 + (l + lo + a + asn + s);
    lemma_taken_together(x2, nb, there, a, asn, s, rest);
    let x3 = x2 + (nb + there + a + asn + s);
    lemma_assoc(x3, rest, inherit);
    lemma_assoc(x3, rest + inherit, close);
}

/// What follows the two ends of a session.
spec fn session_rest(learns: bool) -> Seq<char> {
    ";\n    multihop;\n    strict bind yes;\n    ipv4 {\n        extended next hop on;\n        next hop self;\n        import all;\n        export filter {\n            if source = RTS_DEVICE then accept;\n            if source = RTS_STATIC then accept;\n"@.skip(2)
        + (if learns {
        "            if source = RTS_INHERIT then accept;\n"@
    } else {
        Seq::empty()
    }) + "            reject;\n        };\n    };\n}\n"@
}

proof fn lemma_session_split(
    name: Seq<char>,
    here: Seq<char>,
    there: Seq<char>,
    asn: Seq<char>,
    learns: bool,
)
    ensures
        session(name, here, there, asn, learns) == "\n"@ + ("protocol bgp ibgp6_"@ + name
            + " {\n"@) + ("    local "@ + here + " as "@ + asn + ";\n"@) + ("    neighbor "@ + there
            + " as "@ + asn + ";\n"@) + session_rest(learns),
{
    reveal(session);
    let channel = ";\n    multihop;\n    strict bind yes;\n    ipv4 {\n        extended next hop on;\n        next hop self;\n        import all;\n        export filter {\n            if source = RTS_DEVICE then accept;\n            if source = RTS_STATIC then accept;\n"@;
    assert(channel =~= ";\n"@ + channel.skip(2)) by {
        reveal_strlit(";\n    multihop;\n    strict bind yes;\n    ipv4 {\n        extended next hop on;\n        next hop self;\n        import all;\n        export filter {\n            if source = RTS_DEVICE then accept;\n            if source = RTS_STATIC then accept;\n");
        reveal_strlit(";\n");
    }
    lemma_session_lines(
        name,
        here,
        there,
        asn,
        channel.skip(2),
        if learns {
            "            if source = RTS_INHERIT then accept;\n"@
        } else {
            Seq::empty()
        },
        "            reject;\n        };\n    };\n}\n"@,
    );
}

/// Four parts of a text, each but the last a line or lines, behind a line break.
proof fn lemma_lines_at(
    c: Seq<char>,
    from: int,
    to: int,
    a: Seq<char>,
    x: Seq<char>,
    y: Seq<char>,
    z: Seq<char>,
    rest: Seq<char>,
)
    requires
        0 <= from <= to <= c.len(),
        c.subrange(from, to) == a + x + y + z + rest,
        a.len() > 0 && a.last() == '\n',
        x.len() > 0 && x.last() == '\n',
        y.len() > 0 && y.last() == '\n',
    ensures
        lines::has_line(c, x),
        lines::has_line(c, y),
        lines::has_line(c, z),
{
    let a2 = a + x;
    let a3 = a2 + y;
    assert(a2.last() == '\n');
    assert(a3.last() == '\n');
    lemma_assoc(a3, z, rest);
    lemma_assoc(a2, y, z + rest);
    lemma_assoc(a2, y, z);
    lemma_assoc(a, x, y + (z + rest));
    assert(c.subrange(from, to).len() == to - from);
    lemma_line_at(c, from, a3, z, rest);
    lemma_line_at(c, from, a2, y, z + rest);
    lemma_line_at(c, from, a, x, y + (z + rest));
}

/// Law: for every peer, the config has a line that opens a session named after it, and a line with
/// its address and the AS of the mesh as the neighbor.
pub proof fn every_peer_is_a_neighbor(
    id: RouterIdentity,
    as_number: u32,
    inputs: RenderInputs,
    c: Seq<char>,
    k: int,
)
    requires
        c == bird::conf_text(id, as_number, inputs),
        0 <= k < inputs.bgp_peers@.len(),
    ensures
        lines::has_line(
            c,
            "protocol bgp ibgp6_"@ + bird::protocol_id(inputs.bgp_peers@[k].name@) + " {\n"@,
        ),
        lines::has_line(
            c,
            "    local "@ + addr::ipv6_format(id.ipv6_loopback as int) + " as "@ + text::decimal(
                as_number as int,
            ) + ";\n"@,
        ),
        lines::has_line(
            c,
            "    neighbor "@ + addr::ipv6_format(inputs.bgp_peers@[k].address as int) + " as "@
                + text::decimal(as_number as int) + ";\n"@,
        ),
{
    let at = sessions_follow_the_peers(id, as_number, inputs, c);
    assert(0 <= at[k] <= at[k + 1] <= c.len());
    lemma_session_has_lines(
        c,
        at[k],
        at[k + 1],
        bird::protocol_id(inputs.bgp_peers@[k].name@),
        addr::ipv6_format(id.ipv6_loopback as int),
        addr::ipv6_format(inputs.bgp_peers@[k].address as int),
        text::decimal(as_number as int),
        inputs.learn@.len() > 0,
    );
}

proof fn lemma_session_has_lines(
    c: Seq<char>,
    from: int,
    to: int,
    name: Seq<char>,
    here: Seq<char>,
    there: Seq<char>,
    asn: Seq<char>,
    learns: bool,
)
    requires
        0 <= from <= to <= c.len(),
        c.subrange(from, to) == session(name, here, there, asn, learns),
    ensures
        lines::has_line(c, "protocol bgp ibgp6_"@ + name + " {\n"@),
        lines::has_line(c, "    local "@ + here + " as "@ + asn + ";\n"@),
        lines::has_line(c, "    neighbor "@ + there + " as "@ + asn + ";\n"@),
{
    lemma_session_split(name, here, there, asn, learns);
    reveal_strlit("\n");
    reveal_strlit(" {\n");
    reveal_strlit(";\n");
    lemma_lines_at(
        c,
        from,
        to,
        "\n"@,
        "protocol bgp ibgp6_"@ + name + " {\n"@,
        "    local "@ + here + " as "@ + asn + ";\n"@,
        "    neighbor "@ + there + " as "@ + asn + ";\n"@,
        session_rest(learns),
    );
}

/// A static route, with what it is called behind it as a comment.
#[verifier::opaque]
pub open spec fn route_line(net: Seq<char>, target: Seq<char>, label: Seq<char>) -> Seq<char> {
    "    route "@ + net + target + label + "\n"@
}

/// The routes of a text that is a block of them.
proof fn lemma_all_routes(
    c: Seq<char>,
    from: int,
    to: int,
    open: Seq<char>,
    v: Seq<BypassRoute>,
    target: Seq<char>,
) -> (at: Seq<int>)
    requires
        0 <= from <= to <= c.len(),
        c.subrange(from, to) == bird::static_text(open, v, target),
    ensures
        at.len() == v.len() + 1,
        at[0] == from + open.len(),
        at[v.len() as int] + 2 == to,
        c.subrange(from, at[0]) == open,
        c.subrange(at[v.len() as int], to) == "}\n"@,
        forall|k: int|
            #![trigger at[k]]
            0 <= k < v.len() ==> {
                &&& 0 <= at[k] <= at[k + 1] <= to
                &&& c.subrange(at[k], at[k + 1]) == route_line(
                    v[k].net@,
                    target,
                    bird::comment_text(v[k].label@),
                )
            },
{
    let n = v.len() as int;
    let start = from + open.len();
    let part = bird::routes_text(v, target, n);
    reveal_strlit("}\n");
    lemma_inner(c, from, to, open, part, bird::BLOCK_CLOSE@);
    let at = Seq::new(
        (n + 1) as nat,
        |k: int| start + bird::routes_text(v, target, k).len(),
    );
    assert forall|k: int|
        #![trigger at[k]]
        0 <= k < v.len() implies {
        &&& 0 <= at[k] <= at[k + 1] <= to
        &&& c.subrange(at[k], at[k + 1]) == route_line(
            v[k].net@,
            target,
            bird::comment_text(v[k].label@),
        )
    } by {
        reveal(route_line);
        lemma_route(v, target, n, k);
        lemma_within(
            c,
            start,
            part,
            bird::routes_text(v, target, k).len() as int,
            bird::routes_text(v, target, k + 1).len() as int,
        );
    }
    at
}

/// Law: the config has one block of bypass routes, which holds one route for each of them, in their
/// order and nothing else: each leads nowhere on this node, so that it is only passed on.
pub proof fn bypass_routes_are_blackholes(
    id: RouterIdentity,
    as_number: u32,
    inputs: RenderInputs,
    c: Seq<char>,
) -> (at: Seq<int>)
    requires
        c == bird::conf_text(id, as_number, inputs),
    ensures
        at.len() == inputs.bypass@.len() + 1,
        0 <= at[0] - "\nprotocol static BYPASS {\n    ipv4;\n"@.len(),
        c.subrange(at[0] - "\nprotocol static BYPASS {\n    ipv4;\n"@.len(), at[0])
            == "\nprotocol static BYPASS {\n    ipv4;\n"@,
        at[inputs.bypass@.len() as int] + 2 <= c.len(),
        c.subrange(at[inputs.bypass@.len() as int], at[inputs.bypass@.len() as int] + 2) == "}\n"@,
        forall|k: int|
            #![trigger at[k]]
            0 <= k < inputs.bypass@.len() ==> {
                &&& 0 <= at[k] <= at[k + 1] <= c.len()
                &&& c.subrange(at[k], at[k + 1]) == route_line(
                    inputs.bypass@[k].net@,
                    " blackhole; # "@,
                    bird::comment_text(inputs.bypass@[k].label@),
                )
            },
{
    let s = lemma_sections(id, as_number, inputs);
    lemma_all_routes(
        c,
        s.bypass,
        s.announce,
        bird::BYPASS_OPEN@,
        inputs.bypass@,
        bird::BLACKHOLE@,
    )
}

/// Law: the config has one block of announcements, which holds one route for each of them, in their
/// order and nothing else: each leads to the router loopback.
pub proof fn announcements_lead_to_the_loopback(
    id: RouterIdentity,
    as_number: u32,
    inputs: RenderInputs,
    c: Seq<char>,
) -> (at: Seq<int>)
    requires
        c == bird::conf_text(id, as_number, inputs),
    ensures
        at.len() == inputs.announce@.len() + 1,
        0 <= at[0] - "\nprotocol static ANNOUNCE {\n    ipv4;\n"@.len(),
        c.subrange(at[0] - "\nprotocol static ANNOUNCE {\n    ipv4;\n"@.len(), at[0])
            == "\nprotocol static ANNOUNCE {\n    ipv4;\n"@,
        at[inputs.announce@.len() as int] + 2 <= c.len(),
        c.subrange(at[inputs.announce@.len() as int], at[inputs.announce@.len() as int] + 2)
            == "}\n"@,
        forall|k: int|
            #![trigger at[k]]
            0 <= k < inputs.announce@.len() ==> {
                &&& 0 <= at[k] <= at[k + 1] <= c.len()
                &&& c.subrange(at[k], at[k + 1]) == route_line(
                    inputs.announce@[k].net@,
                    " via \"router-lo\"; # "@,
                    bird::comment_text(inputs.announce@[k].label@),
                )
            },
{
    let s = lemma_sections(id, as_number, inputs);
    lemma_all_routes(
        c,
        s.announce,
        s.ospf,
        bird::ANNOUNCE_OPEN@,
        inputs.announce@,
        bird::VIA_LOOPBACK@,
    )
}

/// A block for the connected routes of an interface.
#[verifier::opaque]
pub open spec fn direct_block(name: Seq<char>, pattern: Seq<char>) -> Seq<char> {
    "\nprotocol direct direct_"@ + name + " {\n    interface "@ + pattern
        + ";\n    ipv4 { import all; };\n}\n"@
}

proof fn lemma_all_direct(c: Seq<char>, from: int, to: int, v: Seq<String>) -> (at: Seq<int>)
    requires
        0 <= from <= to <= c.len(),
        c.subrange(from, to) == bird::direct_text(v, v.len() as int),
    ensures
        at.len() == v.len() + 1,
        at[0] == from,
        at[v.len() as int] == to,
        forall|k: int|
            #![trigger at[k]]
            0 <= k < v.len() ==> {
                &&& 0 <= at[k] <= at[k + 1] <= to
                &&& c.subrange(at[k], at[k + 1]) == direct_block(
                    bird::protocol_id(v[k]@),
                    bird::iface_pattern(v[k]@),
                )
            },
{
    let n = v.len() as int;
    let part = bird::direct_text(v, n);
    assert(part.len() == to - from);
    let at = Seq::new((n + 1) as nat, |k: int| from + bird::direct_text(v, k).len());
    assert forall|k: int|
        #![trigger at[k]]
        0 <= k < v.len() implies {
        &&& 0 <= at[k] <= at[k + 1] <= to
        &&& c.subrange(at[k], at[k + 1]) == direct_block(
            bird::protocol_id(v[k]@),
            bird::iface_pattern(v[k]@),
        )
    } by {
        reveal(direct_block);
        lemma_direct(v, n, k);
        lemma_within(
            c,
            from,
            part,
            bird::direct_text(v, k).len() as int,
            bird::direct_text(v, k + 1).len() as int,
        );
    }
    at
}

/// Law: the connected routes of each direct interface are taken in by a block of its own, in their
/// order, behind the blocks for the devices and the router loopback.
pub proof fn direct_interfaces_have_their_blocks(
    id: RouterIdentity,
    as_number: u32,
    inputs: RenderInputs,
    c: Seq<char>,
) -> (at: Seq<int>)
    requires
        c == bird::conf_text(id, as_number, inputs),
    ensures
        at.len() == inputs.direct_interfaces@.len() + 1,
        0 <= at[0] <= c.len(),
        c.subrange(0, at[0]) == "log stderr { info, warning, error, fatal };\n\nrouter id "@
            + addr::ipv4_format(id.loopback as int)
            + ";\n\nprotocol device {\n}\n\nprotocol direct direct1 {\n    interface \"router-lo\";\n    ipv4 { import all; };\n    ipv6 { import all; };\n}\n"@,
        forall|k: int|
            #![trigger at[k]]
            0 <= k < inputs.direct_interfaces@.len() ==> {
                &&& 0 <= at[k] <= at[k + 1] <= c.len()
                &&& c.subrange(at[k], at[k + 1]) == direct_block(
                    bird::protocol_id(inputs.direct_interfaces@[k]@),
                    bird::iface_pattern(inputs.direct_interfaces@[k]@),
                )
            },
{
    let s = lemma_sections(id, as_number, inputs);
    lemma_all_direct(c, s.direct, s.kernel, inputs.direct_interfaces@)
}

/// An interface that OSPF runs on.
#[verifier::opaque]
pub open spec fn ospf_line(pattern: Seq<char>) -> Seq<char> {
    "        interface "@ + pattern + " { type ptp; };\n"@
}

proof fn lemma_all_ospf(c: Seq<char>, from: int, to: int, v: Seq<String>) -> (at: Seq<int>)
    requires
        0 <= from <= to <= c.len(),
        c.subrange(from, to) == bird::ospf_text(v),
    ensures
        at.len() == v.len() + 1,
        at[0] == from + bird::OSPF_OPEN@.len(),
        at[v.len() as int] + bird::OSPF_CLOSE@.len() == to,
        c.subrange(from, at[0]) == bird::OSPF_OPEN@,
        c.subrange(at[v.len() as int], to) == bird::OSPF_CLOSE@,
        forall|k: int|
            #![trigger at[k]]
            0 <= k < v.len() ==> {
                &&& 0 <= at[k] <= at[k + 1] <= to
                &&& c.subrange(at[k], at[k + 1]) == ospf_line(bird::iface_pattern(v[k]@))
            },
{
    let n = v.len() as int;
    let start = from + bird::OSPF_OPEN@.len();
    let part = bird::ospf_list(v, n);
    lemma_inner(c, from, to, bird::OSPF_OPEN@, part, bird::OSPF_CLOSE@);
    let at = Seq::new((n + 1) as nat, |k: int| start + bird::ospf_list(v, k).len());
    assert forall|k: int|
        #![trigger at[k]]
        0 <= k < v.len() implies {
        &&& 0 <= at[k] <= at[k + 1] <= to
        &&& c.subrange(at[k], at[k + 1]) == ospf_line(bird::iface_pattern(v[k]@))
    } by {
        reveal(ospf_line);
        lemma_ospf(v, n, k);
        lemma_within(
            c,
            start,
            part,
            bird::ospf_list(v, k).len() as int,
            bird::ospf_list(v, k + 1).len() as int,
        );
    }
    at
}

/// Law: OSPF runs on each of its interfaces, in their order, and on no others but the router
/// loopback, which is a stub.
pub proof fn ospf_runs_on_its_interfaces(
    id: RouterIdentity,
    as_number: u32,
    inputs: RenderInputs,
    c: Seq<char>,
) -> (at: Seq<int>)
    requires
        c == bird::conf_text(id, as_number, inputs),
    ensures
        at.len() == inputs.ospf_interfaces@.len() + 1,
        exists|from: int, to: int|
            0 <= from <= at[0] && at[inputs.ospf_interfaces@.len() as int] <= to <= c.len() && (
            #[trigger] c.subrange(from, at[0]))
                == "\nprotocol ospf v3 mesh6 {\n    ipv6 { import all; export none; };\n    area 0 {\n"@
                && (#[trigger] c.subrange(at[inputs.ospf_interfaces@.len() as int], to))
                == "        interface \"router-lo\" { stub yes; };\n    };\n}\n"@,
        forall|k: int|
            #![trigger at[k]]
            0 <= k < inputs.ospf_interfaces@.len() ==> {
                &&& 0 <= at[k] <= at[k + 1] <= c.len()
                &&& c.subrange(at[k], at[k + 1]) == ospf_line(
                    bird::iface_pattern(inputs.ospf_interfaces@[k]@),
                )
            },
{
    let s = lemma_sections(id, as_number, inputs);
    let at = lemma_all_ospf(c, s.ospf, s.sessions, inputs.ospf_interfaces@);
    assert(c.subrange(s.ospf, at[0]) == bird::OSPF_OPEN@);
    assert(c.subrange(at[inputs.ospf_interfaces@.len() as int], s.sessions) == bird::OSPF_CLOSE@);
    at
}

/// Range `i` in the list of ranges, with a comma between it and the next.
proof fn lemma_range(v: Seq<String>, n: int, i: int)
    requires
        0 <= i < n <= v.len(),
    ensures
        ({
            let s = bird::ranges_text(v, n);
            let end = bird::ranges_text(v, i + 1).len() as int;
            &&& v[i]@.len() + 1 <= end <= s.len()
            &&& s.subrange(end - v[i]@.len() - 1, end) == v[i]@.push('+')
            &&& i == 0 ==> end == v[0]@.len() + 1
            &&& i + 1 < n ==> end + 2 + v[i + 1]@.len() + 1 == bird::ranges_text(v, i + 2).len()
                && end + 2 <= s.len() && s.subrange(end, end + 2) == seq![',', ' ']
            &&& i + 1 == n ==> end == s.len()
        }),
    decreases n,
{
    let s = bird::ranges_text(v, n);
    let end = bird::ranges_text(v, i + 1).len() as int;
    if i == n - 1 {
        assert(s.subrange(end - v[i]@.len() - 1, end) =~= v[i]@.push('+'));
    } else {
        lemma_range(v, n - 1, i);
        let before = bird::ranges_text(v, n - 1);
        assert(s == before + seq![',', ' '] + v[n - 1]@.push('+'));
        assert(s.subrange(end - v[i]@.len() - 1, end) =~= before.subrange(
            end - v[i]@.len() - 1,
            end,
        ));
        if i + 1 < n - 1 {
            assert(s.subrange(end, end + 2) =~= before.subrange(end, end + 2));
        } else {
            assert(s.subrange(end, end + 2) =~= seq![',', ' ']);
        }
    }
}

/// What goes into the kernel, with its source address.
#[verifier::opaque]
pub open spec fn kernel_export(source: Seq<char>) -> Seq<char> {
    "        export filter {\n            if proto = \"ANNOUNCE\" then { krt_prefsrc = "@ + source
        + "; accept; }\n            if source = RTS_BGP then { krt_prefsrc = "@ + source
        + "; accept; }\n            reject;\n        };\n    };\n}\n\nprotocol kernel {\n    ipv6 { import none; export where source = RTS_OSPF; };\n}\n"@
}

/// What comes in from the kernel, with the list of ranges.
#[verifier::opaque]
pub open spec fn kernel_import(ranges: Option<Seq<char>>) -> Seq<char> {
    match ranges {
        Some(ranges) =>
            "\nprotocol kernel {\n    learn all;\n    ipv4 {\n        import filter {\n            if net ~ [ "@
            + ranges + " ] then accept;\n            reject;\n        };\n"@,
        None => "\nprotocol kernel {\n    learn no;\n    ipv4 {\n        import none;\n"@,
    }
}

/// What stands in a config on kernel routes.
pub struct Learned {
    pub at: int,
    pub ranges: Seq<char>,
    /// Where each range ends.
    pub ends: Seq<int>,
}

/// Law: where there are ranges to learn, the config lets in the kernel routes in them: its filter
/// lists each range, with all that is inside it, in order and with commas between them. Where there
/// are none, no kernel route is let in. What goes into the kernel has this node's loopback as its
/// source either way.
pub proof fn learned_ranges_are_listed(
    id: RouterIdentity,
    as_number: u32,
    inputs: RenderInputs,
    c: Seq<char>,
) -> (r: Learned)
    requires
        c == bird::conf_text(id, as_number, inputs),
    ensures
        ({
            let head = kernel_import(
                if inputs.learn@.len() > 0 {
                    Some(r.ranges)
                } else {
                    None
                },
            );
            let tail = kernel_export(addr::ipv4_format(id.loopback as int));
            &&& 0 <= r.at
            &&& r.at + head.len() + tail.len() <= c.len()
            &&& c.subrange(r.at, r.at + head.len()) == head
            &&& c.subrange(r.at + head.len(), r.at + head.len() + tail.len()) == tail
        }),
        r.ends.len() == inputs.learn@.len(),
        forall|k: int|
            #![trigger r.ends[k]]
            0 <= k < inputs.learn@.len() ==> {
                let net = inputs.learn@[k]@;
                &&& net.len() + 1 <= r.ends[k] <= r.ranges.len()
                &&& r.ranges.subrange(r.ends[k] - net.len() - 1, r.ends[k]) == net.push('+')
                &&& k == 0 ==> r.ends[k] == net.len() + 1
                &&& k + 1 < inputs.learn@.len() ==> r.ends[k] + 2 <= r.ranges.len()
                    && r.ranges.subrange(r.ends[k], r.ends[k] + 2) == seq![',', ' '] && r.ends[k]
                    + 2 + inputs.learn@[k + 1]@.len() + 1 == r.ends[k + 1]
                &&& k + 1 == inputs.learn@.len() ==> r.ends[k] == r.ranges.len()
            },
{
    let s = lemma_sections(id, as_number, inputs);
    lemma_kernel(c, s.kernel, s.bypass, inputs.learn@, id.loopback)
}

proof fn lemma_kernel(c: Seq<char>, from: int, to: int, v: Seq<String>, lo: u32) -> (r: Learned)
    requires
        0 <= from <= to <= c.len(),
        c.subrange(from, to) == bird::kernel_text(v, lo),
    ensures
        ({
            let head = kernel_import(
                if v.len() > 0 {
                    Some(r.ranges)
                } else {
                    None
                },
            );
            let tail = kernel_export(addr::ipv4_format(lo as int));
            &&& r.at == from
            &&& r.at + head.len() + tail.len() <= c.len()
            &&& c.subrange(r.at, r.at + head.len()) == head
            &&& c.subrange(r.at + head.len(), r.at + head.len() + tail.len()) == tail
        }),
        r.ends.len() == v.len(),
        forall|k: int|
            #![trigger r.ends[k]]
            0 <= k < v.len() ==> {
                let net = v[k]@;
                &&& net.len() + 1 <= r.ends[k] <= r.ranges.len()
                &&& r.ranges.subrange(r.ends[k] - net.len() - 1, r.ends[k]) == net.push('+')
                &&& k == 0 ==> r.ends[k] == net.len() + 1
                &&& k + 1 < v.len() ==> r.ends[k] + 2 <= r.ranges.len() && r.ranges.subrange(
                    r.ends[k],
                    r.ends[k] + 2,
                ) == seq![',', ' '] && r.ends[k] + 2 + v[k + 1]@.len() + 1 == r.ends[k + 1]
                &&& k + 1 == v.len() ==> r.ends[k] == r.ranges.len()
            },
{
    let ranges = bird::ranges_text(v, v.len() as int);
    let head = kernel_import(
        if v.len() > 0 {
            Some(ranges)
        } else {
            None
        },
    );
    let tail = kernel_export(addr::ipv4_format(lo as int));
    assert(bird::kernel_text(v, lo) == head + tail) by {
        reveal(kernel_import);
        reveal(kernel_export);
    }
    let none = Seq::<char>::empty();
    assert(none + head =~= head);
    assert(c.subrange(from, to) == none + head + tail);
    lemma_inner(c, from, to, none, head, tail);
    let ends = Seq::new(v.len(), |k: int| bird::ranges_text(v, k + 1).len() as int);
    assert forall|k: int|
        #![trigger ends[k]]
        0 <= k < v.len() implies {
        let net = v[k]@;
        &&& net.len() + 1 <= ends[k] <= ranges.len()
        &&& ranges.subrange(ends[k] - net.len() - 1, ends[k]) == net.push('+')
        &&& k == 0 ==> ends[k] == net.len() + 1
        &&& k + 1 < v.len() ==> ends[k] + 2 <= ranges.len() && ranges.subrange(
            ends[k],
            ends[k] + 2,
        ) == seq![',', ' '] && ends[k] + 2 + v[k + 1]@.len() + 1 == ends[k + 1]
        &&& k + 1 == v.len() ==> ends[k] == ranges.len()
    } by {
        lemma_range(v, v.len() as int, k);
    }
    Learned { at: from, ranges, ends }
}

} // verus!
