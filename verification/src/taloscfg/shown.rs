//! What a shown client config says: the value behind each of its labels.

use crate::assoc;
use crate::awg::config::InterfaceEntry;
use crate::common::addr;
use crate::common::addr::IpAddr;
use crate::common::cidr;
use crate::common::keys;
use crate::common::keys::KeyError;
use crate::common::obfuscation::Obfuscation;
use crate::common::readback;
use crate::lines;
use crate::patches::mesh_config;
use crate::patches::mesh_config::MeshConfig;
use crate::patches::mesh_config::RoadwarriorClient;
use crate::patches::mesh_config::RoadwarriorPool;
use crate::patches::render;
use crate::taloscfg::addressing;
use crate::taloscfg::emit::EmitError;
use crate::taloscfg::existing;
use crate::taloscfg::roadwarrior;
use crate::taloscfg::roadwarrior::Added;
use crate::taloscfg::roadwarrior::Request;
use crate::taloscfg::roadwarrior::RoadwarriorError;
use crate::taloscfg::secrets::ResolvedSecrets;
use crate::text;
use crate::value::Tree;
use vstd::arithmetic::power2::pow2;
use vstd::prelude::*;

verus! {

/// The line that gives a label a value.
#[verifier::opaque]
pub open spec fn setting(label: Seq<char>, value: Seq<char>) -> Seq<char> {
    label + " = "@ + value + "\n"@
}

/// A line of `s` gives the label this value.
pub open spec fn says(s: Seq<char>, label: Seq<char>, value: Seq<char>) -> bool {
    lines::has_line(s, setting(label, value))
}

/// A setting is a line that begins with its label.
proof fn lemma_setting(label: Seq<char>, value: Seq<char>)
    requires
        lines::fits(label),
        lines::fits(value),
        label.len() >= 2,
    ensures
        lines::is_line(setting(label, value)),
        setting(label, value)[0] == label[0],
        setting(label, value)[1] == label[1],
        setting(label, value).len() >= 6,
{
    reveal(setting);
    reveal_strlit(" = ");
    reveal_strlit("\n");
    let w = setting(label, value);
    assert forall|i: int| 0 <= i < w.len() - 1 implies #[trigger] w[i] != '\n' by {
        if i < label.len() {
            assert(w[i] == label[i]);
        } else if i < label.len() + 3 {
            assert(w[i] == " = "@[i - label.len()]);
        } else {
            assert(w[i] == value[i - label.len() - 3]);
        }
    }
}

/// One label has one value on a line.
proof fn lemma_same_setting(label: Seq<char>, a: Seq<char>, b: Seq<char>)
    ensures
        setting(label, a) == setting(label, b) <==> a == b,
{
    reveal(setting);
    reveal_strlit(" = ");
    reveal_strlit("\n");
    let x = setting(label, a);
    let y = setting(label, b);
    if x == y {
        let n = label.len() as int + 3;
        assert(a =~= x.subrange(n, x.len() - 1));
        assert(b =~= y.subrange(n, y.len() - 1));
    }
}

/// A number fits on a line.
proof fn lemma_decimal_fits(n: int)
    requires
        0 <= n,
    ensures
        lines::fits(text::decimal(n)),
{
    text::decimal_reads_back(n);
    assert forall|i: int| 0 <= i < text::decimal(n).len() implies #[trigger] text::decimal(n)[i]
        != '\n' by {
        assert(text::is_digit(text::decimal(n)[i]));
    }
}

/// The line of a number, where there is one.
proof fn lemma_number(before: Seq<char>, label: Seq<char>, n: Option<int>, w: Seq<char>)
    requires
        lines::ends_line(before),
        lines::fits(label),
        label.len() >= 2,
        n is Some ==> n->0 >= 0,
        lines::is_line(w),
    ensures
        lines::has_line(before + roadwarrior::number_line(label, n), w) <==> lines::has_line(
            before,
            w,
        ) || (n is Some && w == setting(label, text::decimal(n->0))),
        lines::ends_line(before + roadwarrior::number_line(label, n)),
{
    reveal(roadwarrior::number_line);
    let x = roadwarrior::number_line(label, n);
    lines::lemma_joined(before, x, w);
    if n is Some {
        lemma_decimal_fits(n->0);
        lemma_setting(label, text::decimal(n->0));
        reveal(setting);
        assert(x == setting(label, text::decimal(n->0)));
        lines::lemma_one_line(x, w);
    } else {
        lines::lemma_no_lines(w);
        assert(before + x =~= before);
    }
}

/// The lines that a pool's obfuscation adds.
proof fn lemma_obfuscation(o: Obfuscation, w: Seq<char>)
    requires
        lines::is_line(w),
    ensures
        lines::ends_line(roadwarrior::obfuscation_lines(o)),
        lines::has_line(roadwarrior::obfuscation_lines(o), w) <==> (false
            || (o.jc is Some && w == setting("Jc"@, text::decimal(o.jc->0 as int)))
            || (o.jmin is Some && w == setting("Jmin"@, text::decimal(o.jmin->0 as int)))
            || (o.jmax is Some && w == setting("Jmax"@, text::decimal(o.jmax->0 as int)))
            || (o.s1 is Some && w == setting("S1"@, text::decimal(o.s1->0 as int)))
            || (o.s2 is Some && w == setting("S2"@, text::decimal(o.s2->0 as int)))
            || (o.h1 is Some && w == setting("H1"@, text::decimal(o.h1->0 as int)))
            || (o.h2 is Some && w == setting("H2"@, text::decimal(o.h2->0 as int)))
            || (o.h3 is Some && w == setting("H3"@, text::decimal(o.h3->0 as int)))
            || (o.h4 is Some && w == setting("H4"@, text::decimal(o.h4->0 as int)))
        ),
{
    reveal_strlit("Jc");
    reveal_strlit("Jmin");
    reveal_strlit("Jmax");
    reveal_strlit("S1");
    reveal_strlit("S2");
    reveal_strlit("H1");
    reveal_strlit("H2");
    reveal_strlit("H3");
    reveal_strlit("H4");
    let s0 = Seq::<char>::empty();
    lines::lemma_no_lines(w);
    let s1 = s0 + roadwarrior::number_line("Jc"@, roadwarrior::wide(o.jc));
    lemma_number(s0, "Jc"@, roadwarrior::wide(o.jc), w);
    assert(s1 =~= roadwarrior::number_line("Jc"@, roadwarrior::wide(o.jc)));
    let s2 = s1 + roadwarrior::number_line("Jmin"@, roadwarrior::wide(o.jmin));
    lemma_number(s1, "Jmin"@, roadwarrior::wide(o.jmin), w);
    let s3 = s2 + roadwarrior::number_line("Jmax"@, roadwarrior::wide(o.jmax));
    lemma_number(s2, "Jmax"@, roadwarrior::wide(o.jmax), w);
    let s4 = s3 + roadwarrior::number_line("S1"@, roadwarrior::wide(o.s1));
    lemma_number(s3, "S1"@, roadwarrior::wide(o.s1), w);
    let s5 = s4 + roadwarrior::number_line("S2"@, roadwarrior::wide(o.s2));
    lemma_number(s4, "S2"@, roadwarrior::wide(o.s2), w);
    let s6 = s5 + roadwarrior::number_line("H1"@, roadwarrior::wide32(o.h1));
    lemma_number(s5, "H1"@, roadwarrior::wide32(o.h1), w);
    let s7 = s6 + roadwarrior::number_line("H2"@, roadwarrior::wide32(o.h2));
    lemma_number(s6, "H2"@, roadwarrior::wide32(o.h2), w);
    let s8 = s7 + roadwarrior::number_line("H3"@, roadwarrior::wide32(o.h3));
    lemma_number(s7, "H3"@, roadwarrior::wide32(o.h3), w);
    let s9 = s8 + roadwarrior::number_line("H4"@, roadwarrior::wide32(o.h4));
    lemma_number(s8, "H4"@, roadwarrior::wide32(o.h4), w);
}

/// Endpoints that are commented out are lines of their own.
proof fn lemma_alternates(v: Seq<Seq<char>>, i: int, w: Seq<char>)
    requires
        0 <= i,
        forall|k: int| 0 <= k < v.len() ==> lines::fits(#[trigger] v[k]),
        lines::is_line(w),
        w[0] != '#',
    ensures
        !lines::has_line(roadwarrior::alternates(v, i), w),
        lines::ends_line(roadwarrior::alternates(v, i)),
    decreases v.len() - i,
{
    if i >= v.len() {
        lines::lemma_no_lines(w);
    } else {
        lemma_alternates(v, i + 1, w);
        reveal_strlit("#Endpoint = ");
        reveal_strlit("\n");
        let x = "#Endpoint = "@ + v[i] + "\n"@;
        assert(lines::fits(v[i]));
        assert forall|k: int| 0 <= k < x.len() - 1 implies #[trigger] x[k] != '\n' by {
            if k >= 12 {
                assert(x[k] == v[i][k - 12]);
            } else {
                assert(x[k] == "#Endpoint = "@[k]);
            }
        }
        assert(lines::is_line(x));
        assert(x[0] == '#');
        lines::lemma_joined(x, roadwarrior::alternates(v, i + 1), w);
        lines::lemma_one_line(x, w);
    }
}

/// A list of texts that fit on a line fits on one.
proof fn lemma_list_fits(v: Seq<Seq<char>>)
    requires
        forall|k: int| 0 <= k < v.len() ==> lines::fits(#[trigger] v[k]),
    ensures
        lines::fits(roadwarrior::comma_joined(v)),
    decreases v.len(),
{
    if v.len() > 1 {
        let init = v.drop_last();
        assert forall|k: int| 0 <= k < init.len() implies lines::fits(#[trigger] init[k]) by {
            assert(init[k] == v[k]);
        }
        lemma_list_fits(init);
        reveal_strlit(", ");
        let a = roadwarrior::comma_joined(init);
        let b = v[v.len() - 1];
        let s = roadwarrior::comma_joined(v);
        assert(s == a + ", "@ + b);
        assert forall|k: int| 0 <= k < s.len() implies #[trigger] s[k] != '\n' by {
            if k < a.len() {
                assert(s[k] == a[k]);
            } else if k < a.len() + 2 {
                assert(s[k] == ", "@[k - a.len()]);
            } else {
                assert(s[k] == b[k - a.len() - 2]);
            }
        }
    } else if v.len() == 1 {
        assert(lines::fits(v[0]));
    }
}

/// The first three lines of a config.
proof fn lemma_interface_lines(k: Seq<char>, a: Seq<char>)
    ensures
        "[Interface]\nPrivateKey = "@ + k + "\nAddress = "@ + a + "\n"@ == "[Interface]\n"@ + setting(
            "PrivateKey"@,
            k,
        ) + setting("Address"@, a),
{
    reveal(setting);
    reveal_strlit("[Interface]\nPrivateKey = ");
    reveal_strlit("[Interface]\n");
    reveal_strlit("PrivateKey");
    reveal_strlit(" = ");
    reveal_strlit("\n");
    reveal_strlit("\nAddress = ");
    reveal_strlit("Address");
    assert("[Interface]\nPrivateKey = "@ =~= "[Interface]\n"@ + ("PrivateKey"@ + " = "@));
    assert("\nAddress = "@ =~= "\n"@ + ("Address"@ + " = "@));
    let x = "[Interface]\n"@;
    let p = "PrivateKey"@ + " = "@;
    let q = "Address"@ + " = "@;
    let n = "\n"@;
    assert(x + p + k + (n + q) + a + n =~= x + (p + k + n) + (q + a + n));
}

/// The lines that begin the other part of a config.
proof fn lemma_peer_lines(s: Seq<char>, e: Seq<char>)
    ensures
        "\n[Peer]\nPublicKey = "@ + s + "\nEndpoint = "@ + e + "\n"@ == "\n"@ + "[Peer]\n"@
            + setting("PublicKey"@, s) + setting("Endpoint"@, e),
{
    reveal(setting);
    reveal_strlit("\n[Peer]\nPublicKey = ");
    reveal_strlit("[Peer]\n");
    reveal_strlit("PublicKey");
    reveal_strlit(" = ");
    reveal_strlit("\n");
    reveal_strlit("\nEndpoint = ");
    reveal_strlit("Endpoint");
    assert("\n[Peer]\nPublicKey = "@ =~= "\n"@ + "[Peer]\n"@ + ("PublicKey"@ + " = "@));
    assert("\nEndpoint = "@ =~= "\n"@ + ("Endpoint"@ + " = "@));
    let x = "\n"@ + "[Peer]\n"@;
    let p = "PublicKey"@ + " = "@;
    let q = "Endpoint"@ + " = "@;
    let n = "\n"@;
    assert(x + p + s + (n + q) + e + n =~= x + (p + s + n) + (q + e + n));
}

/// The lines that end a config.
proof fn lemma_last_lines()
    ensures
        "AllowedIPs = 0.0.0.0/0, ::/0\nPersistentKeepalive = 25\n"@ == setting(
            "AllowedIPs"@,
            "0.0.0.0/0, ::/0"@,
        ) + setting("PersistentKeepalive"@, "25"@),
{
    reveal(setting);
    reveal_strlit("AllowedIPs = 0.0.0.0/0, ::/0\nPersistentKeepalive = 25\n");
    reveal_strlit("AllowedIPs");
    reveal_strlit("0.0.0.0/0, ::/0");
    reveal_strlit("PersistentKeepalive");
    reveal_strlit("25");
    reveal_strlit(" = ");
    reveal_strlit("\n");
    assert("AllowedIPs = 0.0.0.0/0, ::/0\nPersistentKeepalive = 25\n"@ =~= setting(
        "AllowedIPs"@,
        "0.0.0.0/0, ::/0"@,
    ) + setting("PersistentKeepalive"@, "25"@));
}

/// Two settings behind a text.
proof fn lemma_two(before: Seq<char>, x: Seq<char>, y: Seq<char>, w: Seq<char>)
    requires
        lines::ends_line(before),
        lines::is_line(x),
        lines::is_line(y),
        lines::is_line(w),
    ensures
        lines::ends_line(before + x + y),
        lines::has_line(before + x + y, w) <==> lines::has_line(before, w) || w == x || w == y,
{
    lines::lemma_joined(before, x, w);
    lines::lemma_joined(before + x, y, w);
    lines::lemma_one_line(x, w);
    lines::lemma_one_line(y, w);
}

proof fn lemma_assoc(a: Seq<char>, b: Seq<char>, c: Seq<char>)
    ensures
        (a + b) + c == a + (b + c),
{
    assert((a + b) + c =~= a + (b + c));
}

/// What a config is made of is on one line each.
pub open spec fn is_plain(
    key: Option<Seq<char>>,
    address: Seq<Seq<char>>,
    dns: Option<Seq<char>>,
    server: Seq<char>,
    endpoints: Seq<Seq<char>>,
) -> bool {
    &&& key matches Some(k) ==> lines::fits(k)
    &&& forall|i: int| 0 <= i < address.len() ==> lines::fits(#[trigger] address[i])
    &&& dns matches Some(d) ==> lines::fits(d)
    &&& lines::fits(server)
    &&& endpoints.len() > 0
    &&& forall|i: int| 0 <= i < endpoints.len() ==> lines::fits(#[trigger] endpoints[i])
}

/// The line of the name server, where there is one.
proof fn lemma_dns(before: Seq<char>, dns: Option<Seq<char>>, w: Seq<char>)
    requires
        lines::ends_line(before),
        lines::is_line(w),
        dns matches Some(d) ==> lines::fits(d),
    ensures
        lines::ends_line(before + roadwarrior::dns_line(dns)),
        lines::has_line(before + roadwarrior::dns_line(dns), w) <==> lines::has_line(before, w) || (
        dns is Some && w == setting("DNS"@, dns->0)),
{
    let x = roadwarrior::dns_line(dns);
    lines::lemma_joined(before, x, w);
    if dns is Some {
        reveal_strlit("DNS");
        lemma_setting("DNS"@, dns->0);
        reveal(setting);
        reveal_strlit("DNS = ");
        reveal_strlit(" = ");
        assert("DNS = "@ =~= "DNS"@ + " = "@);
        lines::lemma_one_line(x, w);
    } else {
        lines::lemma_no_lines(w);
        assert(before + x =~= before);
    }
}

/// The lines of a config, other than those that are commented out.
#[verifier::spinoff_prover]
proof fn lemma_config(
    key: Option<Seq<char>>,
    address: Seq<Seq<char>>,
    dns: Option<Seq<char>>,
    server: Seq<char>,
    endpoints: Seq<Seq<char>>,
    o: Obfuscation,
    w: Seq<char>,
)
    requires
        is_plain(key, address, dns, server, endpoints),
        lines::is_line(w),
        w[0] != '#',
    ensures
        lines::has_line(
            roadwarrior::client_config(key, address, dns, server, endpoints, o),
            w,
        ) <==> (w == "[Interface]\n"@ || w == setting("PrivateKey"@, roadwarrior::key_text(key))
            || w == setting("Address"@, roadwarrior::comma_joined(address)) || (dns is Some && w
            == setting("DNS"@, dns->0))
            || (o.jc is Some && w == setting("Jc"@, text::decimal(o.jc->0 as int)))
            || (o.jmin is Some && w == setting("Jmin"@, text::decimal(o.jmin->0 as int)))
            || (o.jmax is Some && w == setting("Jmax"@, text::decimal(o.jmax->0 as int)))
            || (o.s1 is Some && w == setting("S1"@, text::decimal(o.s1->0 as int)))
            || (o.s2 is Some && w == setting("S2"@, text::decimal(o.s2->0 as int)))
            || (o.h1 is Some && w == setting("H1"@, text::decimal(o.h1->0 as int)))
            || (o.h2 is Some && w == setting("H2"@, text::decimal(o.h2->0 as int)))
            || (o.h3 is Some && w == setting("H3"@, text::decimal(o.h3->0 as int)))
            || (o.h4 is Some && w == setting("H4"@, text::decimal(o.h4->0 as int)))
            || w == "\n"@ || w == "[Peer]\n"@ || w == setting("PublicKey"@, server) || w == setting(
            "Endpoint"@,
            endpoints[0],
        ) || w == setting("AllowedIPs"@, "0.0.0.0/0, ::/0"@) || w == setting(
            "PersistentKeepalive"@,
            "25"@,
        )),
{
    let k = roadwarrior::key_text(key);
    let a = roadwarrior::comma_joined(address);
    let d = roadwarrior::dns_line(dns);
    let b = roadwarrior::obfuscation_lines(o);
    let e = endpoints[0];
    let alt = roadwarrior::alternates(endpoints, 1);
    let last = "AllowedIPs = 0.0.0.0/0, ::/0\nPersistentKeepalive = 25\n"@;
    assert(lines::fits(k)) by {
        reveal_strlit("<enter your private key here>");
    }
    lemma_list_fits(address);
    assert(lines::is_line("[Interface]\n"@) && lines::is_line("[Peer]\n"@) && lines::is_line(
        "\n"@,
    )) by {
        reveal_strlit("[Interface]\n");
        reveal_strlit("[Peer]\n");
        reveal_strlit("\n");
    }
    assert(lines::fits("PrivateKey"@) && lines::fits("Address"@) && lines::fits("PublicKey"@)
        && lines::fits("Endpoint"@) && lines::fits("AllowedIPs"@) && lines::fits(
        "PersistentKeepalive"@,
    ) && lines::fits("0.0.0.0/0, ::/0"@) && lines::fits("25"@) && "PrivateKey"@.len() >= 2
        && "Address"@.len() >= 2 && "PublicKey"@.len() >= 2 && "Endpoint"@.len() >= 2
        && "AllowedIPs"@.len() >= 2 && "PersistentKeepalive"@.len() >= 2) by {
        reveal_strlit("PrivateKey");
        reveal_strlit("Address");
        reveal_strlit("PublicKey");
        reveal_strlit("Endpoint");
        reveal_strlit("AllowedIPs");
        reveal_strlit("PersistentKeepalive");
        reveal_strlit("0.0.0.0/0, ::/0");
        reveal_strlit("25");
    }
    lemma_setting("PrivateKey"@, k);
    lemma_setting("Address"@, a);
    lemma_setting("PublicKey"@, server);
    assert(lines::fits(e));
    lemma_setting("Endpoint"@, e);
    lemma_setting("AllowedIPs"@, "0.0.0.0/0, ::/0"@);
    lemma_setting("PersistentKeepalive"@, "25"@);
    let head = "[Interface]\nPrivateKey = "@ + k + "\nAddress = "@ + a + "\n"@;
    lemma_interface_lines(k, a);
    lines::lemma_one_line("[Interface]\n"@, w);
    lemma_two("[Interface]\n"@, setting("PrivateKey"@, k), setting("Address"@, a), w);
    let s1 = head + d;
    lemma_dns(head, dns, w);
    let s2 = s1 + b;
    lemma_obfuscation(o, w);
    lines::lemma_joined(s1, b, w);
    let p0 = "\n[Peer]\nPublicKey = "@;
    let p1 = p0 + server;
    let p2 = p1 + "\nEndpoint = "@;
    let p3 = p2 + e;
    let p4 = p3 + "\n"@;
    lemma_assoc(s2, p0, server);
    lemma_assoc(s2, p1, "\nEndpoint = "@);
    lemma_assoc(s2, p2, e);
    lemma_assoc(s2, p3, "\n"@);
    let s3 = s2 + p4;
    lemma_peer_lines(server, e);
    lines::lemma_one_line("\n"@, w);
    lines::lemma_one_line("[Peer]\n"@, w);
    lines::lemma_joined("\n"@, "[Peer]\n"@, w);
    lemma_two("\n"@ + "[Peer]\n"@, setting("PublicKey"@, server), setting("Endpoint"@, e), w);
    lines::lemma_joined(s2, p4, w);
    let s4 = s3 + alt;
    lemma_alternates(endpoints, 1, w);
    lines::lemma_joined(s3, alt, w);
    let s5 = s4 + last;
    lemma_last_lines();
    lemma_two(
        s4,
        setting("AllowedIPs"@, "0.0.0.0/0, ::/0"@),
        setting("PersistentKeepalive"@, "25"@),
        w,
    );
    lemma_assoc(
        s4,
        setting("AllowedIPs"@, "0.0.0.0/0, ::/0"@),
        setting("PersistentKeepalive"@, "25"@),
    );
    assert(s5 == roadwarrior::client_config(key, address, dns, server, endpoints, o));
}

/// The labels of a config, which their first two characters tell apart but for two of them.
proof fn lemma_labels()
    ensures
        "PrivateKey"@.len() >= 2,
        lines::fits("PrivateKey"@),
        "PrivateKey"@[0] == 'P',
        "PrivateKey"@[1] == 'r',
        "Address"@.len() >= 2,
        lines::fits("Address"@),
        "Address"@[0] == 'A',
        "Address"@[1] == 'd',
        "DNS"@.len() >= 2,
        lines::fits("DNS"@),
        "DNS"@[0] == 'D',
        "DNS"@[1] == 'N',
        "Jc"@.len() >= 2,
        lines::fits("Jc"@),
        "Jc"@[0] == 'J',
        "Jc"@[1] == 'c',
        "Jmin"@.len() >= 2,
        lines::fits("Jmin"@),
        "Jmin"@[0] == 'J',
        "Jmin"@[1] == 'm',
        "Jmax"@.len() >= 2,
        lines::fits("Jmax"@),
        "Jmax"@[0] == 'J',
        "Jmax"@[1] == 'm',
        "S1"@.len() >= 2,
        lines::fits("S1"@),
        "S1"@[0] == 'S',
        "S1"@[1] == '1',
        "S2"@.len() >= 2,
        lines::fits("S2"@),
        "S2"@[0] == 'S',
        "S2"@[1] == '2',
        "H1"@.len() >= 2,
        lines::fits("H1"@),
        "H1"@[0] == 'H',
        "H1"@[1] == '1',
        "H2"@.len() >= 2,
        lines::fits("H2"@),
        "H2"@[0] == 'H',
        "H2"@[1] == '2',
        "H3"@.len() >= 2,
        lines::fits("H3"@),
        "H3"@[0] == 'H',
        "H3"@[1] == '3',
        "H4"@.len() >= 2,
        lines::fits("H4"@),
        "H4"@[0] == 'H',
        "H4"@[1] == '4',
        "PublicKey"@.len() >= 2,
        lines::fits("PublicKey"@),
        "PublicKey"@[0] == 'P',
        "PublicKey"@[1] == 'u',
        "Endpoint"@.len() >= 2,
        lines::fits("Endpoint"@),
        "Endpoint"@[0] == 'E',
        "Endpoint"@[1] == 'n',
        "AllowedIPs"@.len() >= 2,
        lines::fits("AllowedIPs"@),
        "AllowedIPs"@[0] == 'A',
        "AllowedIPs"@[1] == 'l',
        "PersistentKeepalive"@.len() >= 2,
        lines::fits("PersistentKeepalive"@),
        "PersistentKeepalive"@[0] == 'P',
        "PersistentKeepalive"@[1] == 'e',
{
    reveal_strlit("PrivateKey");
    reveal_strlit("Address");
    reveal_strlit("DNS");
    reveal_strlit("Jc");
    reveal_strlit("Jmin");
    reveal_strlit("Jmax");
    reveal_strlit("S1");
    reveal_strlit("S2");
    reveal_strlit("H1");
    reveal_strlit("H2");
    reveal_strlit("H3");
    reveal_strlit("H4");
    reveal_strlit("PublicKey");
    reveal_strlit("Endpoint");
    reveal_strlit("AllowedIPs");
    reveal_strlit("PersistentKeepalive");
}

/// Two labels begin alike.
spec fn alike(a: Seq<char>, b: Seq<char>) -> bool {
    a[0] == b[0] && a[1] == b[1]
}

proof fn lemma_begins(label: Seq<char>, value: Seq<char>)
    requires
        label.len() >= 2,
    ensures
        setting(label, value)[0] == label[0],
        setting(label, value)[1] == label[1],
{
    reveal(setting);
}

/// The third character tells these two labels apart.
proof fn lemma_smallest_is_not_largest(a: Seq<char>, b: Seq<char>)
    ensures
        setting("Jmin"@, a) != setting("Jmax"@, b),
{
    reveal(setting);
    reveal_strlit("Jmin");
    reveal_strlit("Jmax");
    assert(setting("Jmin"@, a)[2] == 'i');
    assert(setting("Jmax"@, b)[2] == 'a');
}

/// The value of a label is that of a line whose label begins like it.
#[verifier::spinoff_prover]
proof fn lemma_only(
    key: Option<Seq<char>>,
    address: Seq<Seq<char>>,
    dns: Option<Seq<char>>,
    server: Seq<char>,
    endpoints: Seq<Seq<char>>,
    o: Obfuscation,
    label: Seq<char>,
    v: Seq<char>,
)
    requires
        is_plain(key, address, dns, server, endpoints),
        lines::fits(label),
        label.len() >= 2,
        label[0] != '#',
        label[0] != '[',
        lines::fits(v),
    ensures
        says(
            roadwarrior::client_config(key, address, dns, server, endpoints, o),
            label,
            v,
        ) <==> (false
            || (alike("PrivateKey"@, label) && setting(label, v) == setting("PrivateKey"@, roadwarrior::key_text(key)))
            || (alike("Address"@, label) && setting(label, v) == setting("Address"@, roadwarrior::comma_joined(address)))
            || (dns is Some && alike("DNS"@, label) && setting(label, v) == setting("DNS"@, dns->0))
            || (o.jc is Some && alike("Jc"@, label) && setting(label, v) == setting("Jc"@, text::decimal(o.jc->0 as int)))
            || (o.jmin is Some && alike("Jmin"@, label) && setting(label, v) == setting("Jmin"@, text::decimal(o.jmin->0 as int)))
            || (o.jmax is Some && alike("Jmax"@, label) && setting(label, v) == setting("Jmax"@, text::decimal(o.jmax->0 as int)))
            || (o.s1 is Some && alike("S1"@, label) && setting(label, v) == setting("S1"@, text::decimal(o.s1->0 as int)))
            || (o.s2 is Some && alike("S2"@, label) && setting(label, v) == setting("S2"@, text::decimal(o.s2->0 as int)))
            || (o.h1 is Some && alike("H1"@, label) && setting(label, v) == setting("H1"@, text::decimal(o.h1->0 as int)))
            || (o.h2 is Some && alike("H2"@, label) && setting(label, v) == setting("H2"@, text::decimal(o.h2->0 as int)))
            || (o.h3 is Some && alike("H3"@, label) && setting(label, v) == setting("H3"@, text::decimal(o.h3->0 as int)))
            || (o.h4 is Some && alike("H4"@, label) && setting(label, v) == setting("H4"@, text::decimal(o.h4->0 as int)))
            || (alike("PublicKey"@, label) && setting(label, v) == setting("PublicKey"@, server))
            || (alike("Endpoint"@, label) && setting(label, v) == setting("Endpoint"@, endpoints[0]))
            || (alike("AllowedIPs"@, label) && setting(label, v) == setting("AllowedIPs"@, "0.0.0.0/0, ::/0"@))
            || (alike("PersistentKeepalive"@, label) && setting(label, v) == setting("PersistentKeepalive"@, "25"@))
        ),
{
    let w = setting(label, v);
    lemma_setting(label, v);
    lemma_config(key, address, dns, server, endpoints, o, w);
    lemma_labels();
    assert(w != "[Interface]\n"@ && w != "[Peer]\n"@ && w != "\n"@) by {
        reveal_strlit("[Interface]\n");
        reveal_strlit("[Peer]\n");
        reveal_strlit("\n");
    }
    lemma_begins("PrivateKey"@, roadwarrior::key_text(key));
    lemma_begins("Address"@, roadwarrior::comma_joined(address));
    lemma_begins("DNS"@, dns->0);
    lemma_begins("Jc"@, text::decimal(o.jc->0 as int));
    lemma_begins("Jmin"@, text::decimal(o.jmin->0 as int));
    lemma_begins("Jmax"@, text::decimal(o.jmax->0 as int));
    lemma_begins("S1"@, text::decimal(o.s1->0 as int));
    lemma_begins("S2"@, text::decimal(o.s2->0 as int));
    lemma_begins("H1"@, text::decimal(o.h1->0 as int));
    lemma_begins("H2"@, text::decimal(o.h2->0 as int));
    lemma_begins("H3"@, text::decimal(o.h3->0 as int));
    lemma_begins("H4"@, text::decimal(o.h4->0 as int));
    lemma_begins("PublicKey"@, server);
    lemma_begins("Endpoint"@, endpoints[0]);
    lemma_begins("AllowedIPs"@, "0.0.0.0/0, ::/0"@);
    lemma_begins("PersistentKeepalive"@, "25"@);
}

/// Law: reading a client config back, the values behind `Jc`, `Jmin`, `Jmax`, `S1` and `S2` are the
/// settings of those names, and a label is absent exactly where the setting is.
#[verifier::spinoff_prover]
pub proof fn junk_settings_read_back(
    key: Option<Seq<char>>,
    address: Seq<Seq<char>>,
    dns: Option<Seq<char>>,
    server: Seq<char>,
    endpoints: Seq<Seq<char>>,
    o: Obfuscation,
    v: Seq<char>,
)
    requires
        is_plain(key, address, dns, server, endpoints),
        lines::fits(v),
    ensures
        ({
            let c = roadwarrior::client_config(key, address, dns, server, endpoints, o);
            &&& says(c, "Jc"@, v) <==> o.jc is Some && v == text::decimal(o.jc->0 as int)
            &&& says(c, "Jmin"@, v) <==> o.jmin is Some && v == text::decimal(o.jmin->0 as int)
            &&& says(c, "Jmax"@, v) <==> o.jmax is Some && v == text::decimal(o.jmax->0 as int)
            &&& says(c, "S1"@, v) <==> o.s1 is Some && v == text::decimal(o.s1->0 as int)
            &&& says(c, "S2"@, v) <==> o.s2 is Some && v == text::decimal(o.s2->0 as int)
        }),
{
    lemma_labels();
    lemma_smallest_is_not_largest(v, text::decimal(o.jmax->0 as int));
    lemma_smallest_is_not_largest(text::decimal(o.jmin->0 as int), v);
    lemma_only(key, address, dns, server, endpoints, o, "Jc"@, v);
    lemma_same_setting("Jc"@, v, text::decimal(o.jc->0 as int));
    lemma_only(key, address, dns, server, endpoints, o, "Jmin"@, v);
    lemma_same_setting("Jmin"@, v, text::decimal(o.jmin->0 as int));
    lemma_only(key, address, dns, server, endpoints, o, "Jmax"@, v);
    lemma_same_setting("Jmax"@, v, text::decimal(o.jmax->0 as int));
    lemma_only(key, address, dns, server, endpoints, o, "S1"@, v);
    lemma_same_setting("S1"@, v, text::decimal(o.s1->0 as int));
    lemma_only(key, address, dns, server, endpoints, o, "S2"@, v);
    lemma_same_setting("S2"@, v, text::decimal(o.s2->0 as int));
}

/// Law: reading a client config back, the values behind `H1` to `H4` are the settings of those names,
/// and a label is absent exactly where the setting is.
#[verifier::spinoff_prover]
pub proof fn header_settings_read_back(
    key: Option<Seq<char>>,
    address: Seq<Seq<char>>,
    dns: Option<Seq<char>>,
    server: Seq<char>,
    endpoints: Seq<Seq<char>>,
    o: Obfuscation,
    v: Seq<char>,
)
    requires
        is_plain(key, address, dns, server, endpoints),
        lines::fits(v),
    ensures
        ({
            let c = roadwarrior::client_config(key, address, dns, server, endpoints, o);
            &&& says(c, "H1"@, v) <==> o.h1 is Some && v == text::decimal(o.h1->0 as int)
            &&& says(c, "H2"@, v) <==> o.h2 is Some && v == text::decimal(o.h2->0 as int)
            &&& says(c, "H3"@, v) <==> o.h3 is Some && v == text::decimal(o.h3->0 as int)
            &&& says(c, "H4"@, v) <==> o.h4 is Some && v == text::decimal(o.h4->0 as int)
        }),
{
    lemma_labels();
    lemma_only(key, address, dns, server, endpoints, o, "H1"@, v);
    lemma_same_setting("H1"@, v, text::decimal(o.h1->0 as int));
    lemma_only(key, address, dns, server, endpoints, o, "H2"@, v);
    lemma_same_setting("H2"@, v, text::decimal(o.h2->0 as int));
    lemma_only(key, address, dns, server, endpoints, o, "H3"@, v);
    lemma_same_setting("H3"@, v, text::decimal(o.h3->0 as int));
    lemma_only(key, address, dns, server, endpoints, o, "H4"@, v);
    lemma_same_setting("H4"@, v, text::decimal(o.h4->0 as int));
}

/// Law: reading a client config back, the client has its own key and addresses, and a name server
/// exactly where there is one.
#[verifier::spinoff_prover]
pub proof fn interface_settings_read_back(
    key: Option<Seq<char>>,
    address: Seq<Seq<char>>,
    dns: Option<Seq<char>>,
    server: Seq<char>,
    endpoints: Seq<Seq<char>>,
    o: Obfuscation,
    v: Seq<char>,
)
    requires
        is_plain(key, address, dns, server, endpoints),
        lines::fits(v),
    ensures
        ({
            let c = roadwarrior::client_config(key, address, dns, server, endpoints, o);
            &&& says(c, "PrivateKey"@, v) <==> v == roadwarrior::key_text(key)
            &&& says(c, "Address"@, v) <==> v == roadwarrior::comma_joined(address)
            &&& says(c, "DNS"@, v) <==> dns is Some && v == dns->0
        }),
{
    lemma_labels();
    lemma_only(key, address, dns, server, endpoints, o, "PrivateKey"@, v);
    lemma_same_setting("PrivateKey"@, v, roadwarrior::key_text(key));
    lemma_only(key, address, dns, server, endpoints, o, "Address"@, v);
    lemma_same_setting("Address"@, v, roadwarrior::comma_joined(address));
    lemma_only(key, address, dns, server, endpoints, o, "DNS"@, v);
    lemma_same_setting("DNS"@, v, dns->0);
}

/// Law: reading a client config back, its peer has the key of the server and the first endpoint. All
/// traffic goes through the tunnel, and a keepalive goes out every 25 seconds.
#[verifier::spinoff_prover]
pub proof fn peer_settings_read_back(
    key: Option<Seq<char>>,
    address: Seq<Seq<char>>,
    dns: Option<Seq<char>>,
    server: Seq<char>,
    endpoints: Seq<Seq<char>>,
    o: Obfuscation,
    v: Seq<char>,
)
    requires
        is_plain(key, address, dns, server, endpoints),
        lines::fits(v),
    ensures
        ({
            let c = roadwarrior::client_config(key, address, dns, server, endpoints, o);
            &&& says(c, "PublicKey"@, v) <==> v == server
            &&& says(c, "Endpoint"@, v) <==> v == endpoints[0]
            &&& says(c, "AllowedIPs"@, v) <==> v == "0.0.0.0/0, ::/0"@
            &&& says(c, "PersistentKeepalive"@, v) <==> v == "25"@
        }),
{
    lemma_labels();
    lemma_only(key, address, dns, server, endpoints, o, "PublicKey"@, v);
    lemma_same_setting("PublicKey"@, v, server);
    lemma_only(key, address, dns, server, endpoints, o, "Endpoint"@, v);
    lemma_same_setting("Endpoint"@, v, endpoints[0]);
    lemma_only(key, address, dns, server, endpoints, o, "AllowedIPs"@, v);
    lemma_same_setting("AllowedIPs"@, v, "0.0.0.0/0, ::/0"@);
    lemma_only(key, address, dns, server, endpoints, o, "PersistentKeepalive"@, v);
    lemma_same_setting("PersistentKeepalive"@, v, "25"@);
}

/// Law: the config that a client of a pool is shown fits the pool's interface on a node. Behind each
/// obfuscation label stands what that interface has for it, and the label is absent where the
/// interface has nothing. The key of the peer is the public half of the interface's key.
pub proof fn shown_config_fits_the_interface(
    mesh: MeshConfig,
    pool: RoadwarriorPool,
    secrets: ResolvedSecrets,
    key: Option<Seq<char>>,
    address: Seq<Seq<char>>,
    endpoint: Option<Seq<char>>,
    c: Seq<char>,
    e: InterfaceEntry,
    v: Seq<char>,
)
    requires
        roadwarrior::config_for(mesh, pool, secrets, key, address, endpoint) == Ok::<
            Seq<char>,
            RoadwarriorError,
        >(c),
        render::is_pool_interface(secrets, pool, e),
        roadwarrior::endpoints_of(mesh, pool, endpoint) is Ok,
        keys::public_of(e.private_key@) is Ok,
        is_plain(
            key,
            address,
            roadwarrior::dns_of(mesh, pool),
            keys::public_of(e.private_key@)->Ok_0,
            roadwarrior::endpoints_of(mesh, pool, endpoint)->Ok_0,
        ),
        lines::fits(v),
    ensures
        says(c, "Jc"@, v) <==> e.obfuscation.jc is Some && v == text::decimal(
            e.obfuscation.jc->0 as int,
        ),
        says(c, "Jmin"@, v) <==> e.obfuscation.jmin is Some && v == text::decimal(
            e.obfuscation.jmin->0 as int,
        ),
        says(c, "Jmax"@, v) <==> e.obfuscation.jmax is Some && v == text::decimal(
            e.obfuscation.jmax->0 as int,
        ),
        says(c, "S1"@, v) <==> e.obfuscation.s1 is Some && v == text::decimal(
            e.obfuscation.s1->0 as int,
        ),
        says(c, "S2"@, v) <==> e.obfuscation.s2 is Some && v == text::decimal(
            e.obfuscation.s2->0 as int,
        ),
        says(c, "H1"@, v) <==> e.obfuscation.h1 is Some && v == text::decimal(
            e.obfuscation.h1->0 as int,
        ),
        says(c, "H2"@, v) <==> e.obfuscation.h2 is Some && v == text::decimal(
            e.obfuscation.h2->0 as int,
        ),
        says(c, "H3"@, v) <==> e.obfuscation.h3 is Some && v == text::decimal(
            e.obfuscation.h3->0 as int,
        ),
        says(c, "H4"@, v) <==> e.obfuscation.h4 is Some && v == text::decimal(
            e.obfuscation.h4->0 as int,
        ),
        says(c, "PublicKey"@, v) <==> keys::public_of(e.private_key@) == Ok::<Seq<char>, KeyError>(
            v,
        ),
        says(c, "Address"@, v) <==> v == roadwarrior::comma_joined(address),
{
    let dns = roadwarrior::dns_of(mesh, pool);
    let server = keys::public_of(e.private_key@)->Ok_0;
    let endpoints = roadwarrior::endpoints_of(mesh, pool, endpoint)->Ok_0;
    assert(assoc::value_of(secrets.roadwarrior_private_keys@, pool.name@) is Some);
    junk_settings_read_back(key, address, dns, server, endpoints, e.obfuscation, v);
    header_settings_read_back(key, address, dns, server, endpoints, e.obfuscation, v);
    peer_settings_read_back(key, address, dns, server, endpoints, e.obfuscation, v);
    interface_settings_read_back(key, address, dns, server, endpoints, e.obfuscation, v);
}

/// Each node of a pool has its endpoint at its place.
proof fn lemma_endpoints(mesh: MeshConfig, pool: RoadwarriorPool, n: int)
    requires
        0 <= n,
        roadwarrior::endpoints_on(mesh, pool, n) is Ok,
    ensures
        roadwarrior::endpoints_on(mesh, pool, n)->Ok_0.len() == n,
        forall|h: int|
            0 <= h < n ==> roadwarrior::endpoint_on(
                mesh,
                pool.node_hostnames@[h]@,
                pool.listen_port,
            ) == Ok::<Seq<char>, RoadwarriorError>(
                #[trigger] roadwarrior::endpoints_on(mesh, pool, n)->Ok_0[h],
            ),
    decreases n,
{
    if n > 0 {
        lemma_endpoints(mesh, pool, n - 1);
        let before = roadwarrior::endpoints_on(mesh, pool, n - 1)->Ok_0;
        let now = roadwarrior::endpoints_on(mesh, pool, n)->Ok_0;
        assert forall|h: int| 0 <= h < n implies roadwarrior::endpoint_on(
            mesh,
            pool.node_hostnames@[h]@,
            pool.listen_port,
        ) == Ok::<Seq<char>, RoadwarriorError>(#[trigger] now[h]) by {
            if h < n - 1 {
                assert(now[h] == before[h]);
            }
        }
    }
}

/// Where a name is found, it stands.
proof fn lemma_name_at(v: Seq<String>, name: Seq<char>, i: int)
    requires
        0 <= i,
        roadwarrior::name_at(v, name, i) is Some,
    ensures
        i <= roadwarrior::name_at(v, name, i)->0 < v.len(),
        v[roadwarrior::name_at(v, name, i)->0]@ == name,
    decreases v.len() - i,
{
    if i < v.len() && v[i]@ != name {
        lemma_name_at(v, name, i + 1);
    }
}

/// Law: clients reach a pool on each of its nodes, at the node's endpoint and the pool's port, and
/// nowhere else. The node that was asked for comes first, or else the pool's first node.
pub proof fn endpoints_are_those_of_the_nodes(
    mesh: MeshConfig,
    pool: RoadwarriorPool,
    primary: Option<Seq<char>>,
    v: Seq<Seq<char>>,
    h: int,
    n: int,
)
    requires
        mesh_config::mesh_error(mesh) is None,
        roadwarrior::endpoints_of(mesh, pool, primary) == Ok::<Seq<Seq<char>>, RoadwarriorError>(v),
        0 <= h < pool.node_hostnames@.len(),
        0 <= n < mesh.nodes@.len(),
        mesh.nodes@[n].name@ == pool.node_hostnames@[h]@,
    ensures
        v.len() == pool.node_hostnames@.len(),
        mesh.nodes@[n].endpoint is Some,
        exists|k: int|
            0 <= k < v.len() && #[trigger] v[k] == mesh.nodes@[n].endpoint->0@ + ":"@
                + text::decimal(pool.listen_port as int),
        primary == Some(mesh.nodes@[n].name@) || (primary is None && h == 0) ==> v[0]
            == mesh.nodes@[n].endpoint->0@ + ":"@ + text::decimal(pool.listen_port as int),
        primary is None ==> v[h] == mesh.nodes@[n].endpoint->0@ + ":"@ + text::decimal(
            pool.listen_port as int,
        ),
{
    let name = mesh.nodes@[n].name@;
    let hosts = pool.node_hostnames@;
    assert forall|j: int| 0 <= j < n implies (#[trigger] mesh.nodes@[j]).name@ != name by {
        mesh_config::accepted_nodes_are_distinct(mesh, j, n);
    }
    render::lemma_node_index(mesh.nodes@, name, n);
    lemma_endpoints(mesh, pool, hosts.len() as int);
    let all = roadwarrior::endpoints_on(mesh, pool, hosts.len() as int)->Ok_0;
    assert(roadwarrior::endpoint_on(mesh, hosts[h]@, pool.listen_port) == Ok::<
        Seq<char>,
        RoadwarriorError,
    >(all[h]));
    match primary {
        None => {
            assert(v[h] == all[h]);
        },
        Some(p) => {
            lemma_name_at(hosts, p, 0);
            let i = roadwarrior::name_at(hosts, p, 0)->0;
            assert(roadwarrior::endpoint_on(mesh, hosts[i]@, pool.listen_port) == Ok::<
                Seq<char>,
                RoadwarriorError,
            >(all[i]));
            assert(v[0] == all[i]);
            if h < i {
                assert(v[h + 1] == all[h]);
            } else if h > i {
                assert(v[h] == all[h]);
            }
        },
    }
}

/// Law: clients resolve names with what their pool says. Else it is the tenth address of the service
/// range, where that is an IPv4 range, and else nothing.
pub proof fn name_server_is_the_pools_or_the_clusters(mesh: MeshConfig, pool: RoadwarriorPool)
    ensures
        pool.dns is Some ==> roadwarrior::dns_of(mesh, pool) == Some(pool.dns->0@),
        pool.dns is None && mesh.cluster.service_subnet is None ==> roadwarrior::dns_of(
            mesh,
            pool,
        ) is None,
        pool.dns is None && mesh.cluster.service_subnet is Some ==> match cidr::cidr_text(
            mesh.cluster.service_subnet->0@,
        ) {
            Ok((IpAddr::V4(net), len)) => exists|a: int|
                roadwarrior::dns_of(mesh, pool) == Some(#[trigger] addr::ipv4_format(a)) && a % (
                pow2((32 - len) as nat) as int) == 10int % (pow2((32 - len) as nat) as int) && a - a
                    % (pow2((32 - len) as nat) as int) == net - net as int % (pow2(
                    (32 - len) as nat,
                ) as int),
            _ => roadwarrior::dns_of(mesh, pool) is None,
        },
{
    if pool.dns is None && mesh.cluster.service_subnet is Some {
        match cidr::cidr_text(mesh.cluster.service_subnet->0@) {
            Ok((IpAddr::V4(net), len)) => {
                let s = mesh.cluster.service_subnet->0@;
                let t = s.skip(text::find_from(s, '/', 0) + 1);
                text::lemma_digits_nonneg(
                    if t[0] == '+' {
                        t.skip(1)
                    } else {
                        t
                    },
                );
                addressing::derived_address_is_in_network(net as int, 32 - len, 10);
                let a = addressing::with_host(net as int, 32 - len, 10);
                assert(roadwarrior::dns_of(mesh, pool) == Some(addr::ipv4_format(a)));
            },
            _ => {},
        }
    }
}

/// A prefix length that was read fits its address.
proof fn lemma_prefix_fits(s: Seq<char>)
    requires
        cidr::cidr_text(s) is Ok,
    ensures
        cidr::cidr_text(s)->Ok_0.1 <= (if cidr::cidr_text(s)->Ok_0.0 is V4 {
            32int
        } else {
            128
        }),
{
    let t = s.skip(text::find_from(s, '/', 0) + 1);
    text::lemma_digits_nonneg(
        if t[0] == '+' {
            t.skip(1)
        } else {
            t
        },
    );
}

/// Law: the form that an address of a client is put in says the same address. With a prefix length
/// it keeps that, and without one it is a single host.
pub proof fn allowed_ip_says_the_same(s: Seq<char>)
    ensures
        text::trimmed(s).contains('/') ==> match cidr::cidr_text(text::trimmed(s)) {
            Ok(c) => roadwarrior::allowed_ip_text(s) is Some && cidr::cidr_text(
                roadwarrior::allowed_ip_text(s)->0,
            ) == Ok::<(IpAddr, u8), cidr::CidrError>(c),
            Err(_) => roadwarrior::allowed_ip_text(s) is None,
        },
        !text::trimmed(s).contains('/') ==> match addr::ip_text(text::trimmed(s)) {
            Some(a) => roadwarrior::allowed_ip_text(s) is Some && cidr::cidr_text(
                roadwarrior::allowed_ip_text(s)->0,
            ) == Ok::<(IpAddr, u8), cidr::CidrError>(
                (
                    a,
                    if a is V4 {
                        32
                    } else {
                        128
                    },
                ),
            ),
            None => roadwarrior::allowed_ip_text(s) is None,
        },
{
    let t = text::trimmed(s);
    if t.contains('/') {
        match cidr::cidr_text(t) {
            Ok((a, p)) => {
                lemma_prefix_fits(t);
                readback::cidr_reads_back(a, p);
            },
            Err(_) => {},
        }
    } else {
        match addr::ip_text(t) {
            Some(a) => {
                readback::cidr_reads_back(
                    a,
                    if a is V4 {
                        32
                    } else {
                        128
                    },
                );
            },
            None => {},
        }
    }
}

/// Law: a list of addresses gives one for each of its parts, in order.
pub proof fn every_allowed_ip_is_kept(parts: Seq<Seq<char>>, n: int, i: int)
    requires
        0 <= i < n <= parts.len(),
        roadwarrior::allowed_ip_texts(parts, n) is Some,
    ensures
        roadwarrior::allowed_ip_texts(parts, n)->0.len() == n,
        roadwarrior::allowed_ip_text(parts[i]) == Some(
            roadwarrior::allowed_ip_texts(parts, n)->0[i],
        ),
    decreases n,
{
    lemma_ips_len(parts, n - 1);
    if i < n - 1 {
        every_allowed_ip_is_kept(parts, n - 1, i);
    }
}

proof fn lemma_ips_len(parts: Seq<Seq<char>>, n: int)
    requires
        0 <= n <= parts.len(),
        roadwarrior::allowed_ip_texts(parts, n) is Some,
    ensures
        roadwarrior::allowed_ip_texts(parts, n)->0.len() == n,
    decreases n,
{
    if n > 0 {
        lemma_ips_len(parts, n - 1);
    }
}

/// The pool of a name is the first that has it.
proof fn lemma_pool(v: Seq<RoadwarriorPool>, name: Seq<char>, from: int, at: int)
    requires
        0 <= from <= at < v.len(),
        v[at].name@ == name,
        forall|k: int| from <= k < at ==> (#[trigger] v[k]).name@ != name,
    ensures
        existing::pool_named(v, name, from) == Some(v[at]),
    decreases at - from,
{
    if from < at {
        assert(v[from].name@ != name);
        lemma_pool(v, name, from + 1, at);
    }
}

/// The client of a name is the first that has it.
proof fn lemma_client(v: Seq<RoadwarriorClient>, name: Seq<char>, from: int, at: int)
    requires
        0 <= from <= at < v.len(),
        v[at].name@ == name,
        forall|k: int| from <= k < at ==> (#[trigger] v[k]).name@ != name,
    ensures
        roadwarrior::client_named(v, name, from) == Some(at),
    decreases at - from,
{
    if from < at {
        assert(v[from].name@ != name);
        lemma_client(v, name, from + 1, at);
    }
}

/// Law: inspecting a client shows a config with the client's own addresses and the key that was
/// given, and only where that key is the client's: its public half is the one that the pool lists.
pub proof fn inspected_config_is_the_clients(
    mesh: MeshConfig,
    secrets: ResolvedSecrets,
    p: int,
    c: int,
    key: Option<Seq<char>>,
    endpoint: Option<Seq<char>>,
    shown: Seq<char>,
)
    requires
        0 <= p < mesh.roadwarriors@.len(),
        forall|k: int|
            0 <= k < p ==> (#[trigger] mesh.roadwarriors@[k]).name@ != mesh.roadwarriors@[p].name@,
        0 <= c < mesh.roadwarriors@[p].clients@.len(),
        forall|k: int|
            0 <= k < c ==> (#[trigger] mesh.roadwarriors@[p].clients@[k]).name@
                != mesh.roadwarriors@[p].clients@[c].name@,
        roadwarrior::inspected(
            mesh,
            secrets,
            mesh.roadwarriors@[p].name@,
            mesh.roadwarriors@[p].clients@[c].name@,
            key,
            endpoint,
        ) == Ok::<Seq<char>, RoadwarriorError>(shown),
    ensures
        roadwarrior::config_for(
            mesh,
            mesh.roadwarriors@[p],
            secrets,
            key,
            text::texts(mesh.roadwarriors@[p].clients@[c].allowed_ips@),
            endpoint,
        ) == Ok::<Seq<char>, RoadwarriorError>(shown),
        key is Some ==> keys::public_of(key->0) == Ok::<Seq<char>, KeyError>(
            mesh.roadwarriors@[p].clients@[c].public_key@,
        ),
{
    let pools = mesh.roadwarriors@;
    lemma_pool(pools, pools[p].name@, 0, p);
    lemma_client(pools[p].clients@, pools[p].clients@[c].name@, 0, c);
}

/// Law: removing a client takes the entry out that stands where the client of that name stands in
/// the pool, and gives that client's key.
pub proof fn removed_client_is_the_named_one(
    mesh: MeshConfig,
    document: Seq<char>,
    p: int,
    c: int,
    left: (Seq<char>, Seq<char>),
)
    requires
        0 <= p < mesh.roadwarriors@.len(),
        forall|k: int|
            0 <= k < p ==> (#[trigger] mesh.roadwarriors@[k]).name@ != mesh.roadwarriors@[p].name@,
        0 <= c < mesh.roadwarriors@[p].clients@.len(),
        forall|k: int|
            0 <= k < c ==> (#[trigger] mesh.roadwarriors@[p].clients@[k]).name@
                != mesh.roadwarriors@[p].clients@[c].name@,
        roadwarrior::deleted(
            mesh,
            document,
            mesh.roadwarriors@[p].name@,
            mesh.roadwarriors@[p].clients@[c].name@,
        ) == Ok::<(Seq<char>, Seq<char>), RoadwarriorError>(left),
    ensures
        roadwarrior::without_client(document, c) == Some(left.0),
        left.1 == mesh.roadwarriors@[p].clients@[c].public_key@,
{
    let pools = mesh.roadwarriors@;
    lemma_pool(pools, pools[p].name@, 0, p);
    lemma_client(pools[p].clients@, pools[p].clients@[c].name@, 0, c);
}

/// Law: a client is added only where neither its name nor its key is taken in the pool. Its entry has
/// the name, the key that was given or else the public half of the fresh one, and its addresses. The
/// private key is shown exactly where it is the fresh one and a config is asked for.
pub proof fn added_client_is_the_requested_one(
    mesh: MeshConfig,
    document: Seq<char>,
    secrets: ResolvedSecrets,
    q: Request,
    fresh: Seq<char>,
    p: int,
    made: Added,
)
    requires
        0 <= p < mesh.roadwarriors@.len(),
        mesh.roadwarriors@[p].name@ == q.pool,
        forall|k: int| 0 <= k < p ==> (#[trigger] mesh.roadwarriors@[k]).name@ != q.pool,
        roadwarrior::added(mesh, document, secrets, q, fresh) == Ok::<Added, RoadwarriorError>(
            made,
        ),
    ensures
        q.public_key is Some || q.shown,
        ({
            let clients = mesh.roadwarriors@[p].clients@;
            let public = if q.public_key is Some {
                q.public_key->0
            } else {
                keys::public_of(fresh)->Ok_0
            };
            &&& forall|i: int|
                0 <= i < clients.len() ==> (#[trigger] clients[i]).name@ != q.name
                    && clients[i].public_key@ != public
            &&& roadwarrior::allowed_ips_in(q.allowed_ips) is Some
            &&& roadwarrior::with_client(
                document,
                roadwarrior::client_tree(
                    q.name,
                    public,
                    roadwarrior::allowed_ips_in(q.allowed_ips)->0,
                ),
            ) == Ok::<Seq<char>, EmitError>(made.0)
            &&& made.1 is Some <==> q.shown
            &&& made.1 is Some ==> (made.1->0).0 == (if q.public_key is Some {
                None
            } else {
                Some(fresh)
            })
        }),
{
    let pools = mesh.roadwarriors@;
    lemma_pool(pools, q.pool, 0, p);
    let clients = pools[p].clients@;
    let public = if q.public_key is Some {
        q.public_key->0
    } else {
        keys::public_of(fresh)->Ok_0
    };
    assert(roadwarrior::duplicate_error(pools[p], q.name, public) is None);
    assert forall|i: int| 0 <= i < clients.len() implies (#[trigger] clients[i]).name@ != q.name
        && clients[i].public_key@ != public by {
        assert(clients[i] == pools[p].clients@[i]);
    }
}

/// Law: a client's entry says its name, its public key and its addresses, in order, under the names
/// of those fields.
pub proof fn client_entry_says_its_fields(
    name: Seq<char>,
    public_key: Seq<char>,
    ips: Seq<Seq<char>>,
    i: int,
)
    ensures
        ({
            let t = roadwarrior::client_tree(name, public_key, ips);
            let entries = t->Mapping_0;
            &&& t is Mapping
            &&& entries.len() == 3
            &&& entries[0] == (Tree::Text("name"@), Tree::Text(name))
            &&& entries[1] == (Tree::Text("public_key"@), Tree::Text(public_key))
            &&& entries[2].0 == Tree::Text("allowed_ips"@)
            &&& entries[2].1 is Sequence
            &&& entries[2].1->Sequence_0.len() == ips.len()
            &&& 0 <= i < ips.len() ==> entries[2].1->Sequence_0[i] == Tree::Text(ips[i])
        }),
{
}

} // verus!
