//! What the sources of a bypass turn up.

use crate::common::addr;
use crate::common::addr::IpAddr;
use crate::router::resolver;
use crate::router::resolver::BypassSourceEntry;
use crate::router::resolver::Plan;
use crate::text;
use crate::value;
use crate::value::Value;
use vstd::prelude::*;

verus! {

/// What is picked from a list is what is found in one of its entries.
proof fn lemma_picked(v: Seq<Value>, f: spec_fn(Value) -> Option<Seq<char>>, c: Seq<char>)
    ensures
        resolver::picked(v, f).contains(c) <==> exists|i: int|
            0 <= i < v.len() && f(#[trigger] v[i]) == Some(c),
    decreases v.len(),
{
    if v.len() > 0 {
        let n = v.len() - 1;
        let init = v.drop_last();
        lemma_picked(init, f, c);
        let before = resolver::picked(init, f);
        let now = resolver::picked(v, f);
        if before.contains(c) {
            let k = choose|k: int| 0 <= k < before.len() && before[k] == c;
            assert(now[k] == c);
            let i = choose|i: int| 0 <= i < init.len() && f(#[trigger] init[i]) == Some(c);
            assert(v[i] == init[i]);
        }
        if f(v[n]) == Some(c) {
            assert(now[before.len() as int] == c);
        }
        if now.contains(c) {
            let k = choose|k: int| 0 <= k < now.len() && now[k] == c;
            if k < before.len() {
                assert(before[k] == c);
            } else {
                assert(f(v[n]) == Some(c));
            }
        }
        if exists|i: int| 0 <= i < v.len() && f(#[trigger] v[i]) == Some(c) {
            let i = choose|i: int| 0 <= i < v.len() && f(#[trigger] v[i]) == Some(c);
            if i < n {
                assert(init[i] == v[i]);
            }
        }
    }
}

/// Law: the prefixes of a response on what an ASN announces are the texts under `prefix` in the list
/// at `data.prefixes`, those of IPv6, which have a colon, left out.
pub proof fn announced_are_the_v4_prefixes(
    resp: Value,
    data: Value,
    list: Vec<Value>,
    c: Seq<char>,
)
    requires
        value::at_key(resp, "data"@) == Some(data),
        value::at_key(data, "prefixes"@) == Some(Value::Sequence(list)),
    ensures
        resolver::announced(resp).contains(c) <==> !c.contains(':') && exists|i: int|
            0 <= i < list@.len() && match value::at_key(#[trigger] list@[i], "prefix"@) {
                Some(Value::Text(s)) => s@ == c,
                _ => false,
            },
{
    let f = |v: Value| resolver::v4_prefix(v);
    lemma_picked(list@, f, c);
    if resolver::announced(resp).contains(c) {
        let i = choose|i: int| 0 <= i < list@.len() && f(#[trigger] list@[i]) == Some(c);
        assert(value::at_key(list@[i], "prefix"@) is Some);
    }
    if !c.contains(':') && exists|i: int|
        0 <= i < list@.len() && match value::at_key(#[trigger] list@[i], "prefix"@) {
            Some(Value::Text(s)) => s@ == c,
            _ => false,
        } {
        let i = choose|i: int|
            0 <= i < list@.len() && match value::at_key(#[trigger] list@[i], "prefix"@) {
                Some(Value::Text(s)) => s@ == c,
                _ => false,
            };
        assert(f(list@[i]) == Some(c));
    }
}

/// Law: the blocks of a response on a country are the texts in the list at `data.resources.ipv4`.
pub proof fn allocated_are_the_listed_blocks(
    resp: Value,
    data: Value,
    resources: Value,
    list: Vec<Value>,
    c: Seq<char>,
)
    requires
        value::at_key(resp, "data"@) == Some(data),
        value::at_key(data, "resources"@) == Some(resources),
        value::at_key(resources, "ipv4"@) == Some(Value::Sequence(list)),
    ensures
        resolver::allocated(resp).contains(c) <==> exists|i: int|
            0 <= i < list@.len() && match #[trigger] list@[i] {
                Value::Text(s) => s@ == c,
                _ => false,
            },
{
    let f = |v: Value| resolver::plain_text(v);
    lemma_picked(list@, f, c);
    if resolver::allocated(resp).contains(c) {
        let i = choose|i: int| 0 <= i < list@.len() && f(#[trigger] list@[i]) == Some(c);
        assert(list@[i] is Text);
    }
    if exists|i: int|
        0 <= i < list@.len() && match #[trigger] list@[i] {
            Value::Text(s) => s@ == c,
            _ => false,
        } {
        let i = choose|i: int|
            0 <= i < list@.len() && match #[trigger] list@[i] {
                Value::Text(s) => s@ == c,
                _ => false,
            };
        assert(f(list@[i]) == Some(c));
    }
}

/// Law: a host's prefixes are its IPv4 addresses, each as a prefix of one address. Its IPv6
/// addresses are left out.
pub proof fn host_prefixes_are_its_v4_addresses(addrs: Seq<IpAddr>, c: Seq<char>)
    ensures
        resolver::host_prefixes(addrs).contains(c) <==> exists|i: int|
            0 <= i < addrs.len() && match #[trigger] addrs[i] {
                IpAddr::V4(a) => c == addr::ipv4_format(a as int) + "/32"@,
                IpAddr::V6(_) => false,
            },
    decreases addrs.len(),
{
    if addrs.len() > 0 {
        let n = addrs.len() - 1;
        let init = addrs.drop_last();
        host_prefixes_are_its_v4_addresses(init, c);
        let before = resolver::host_prefixes(init);
        let now = resolver::host_prefixes(addrs);
        assert(addrs[n] == addrs.last());
        if before.contains(c) {
            let k = choose|k: int| 0 <= k < before.len() && before[k] == c;
            assert(now[k] == c);
            let i = choose|i: int|
                0 <= i < init.len() && match #[trigger] init[i] {
                    IpAddr::V4(a) => c == addr::ipv4_format(a as int) + "/32"@,
                    IpAddr::V6(_) => false,
                };
            assert(addrs[i] == init[i]);
        }
        if now.len() > before.len() {
            assert(now[before.len() as int] == addr::ipv4_format(addrs[n]->V4_0 as int) + "/32"@);
        }
        if now.contains(c) {
            let k = choose|k: int| 0 <= k < now.len() && now[k] == c;
            if k < before.len() {
                assert(before[k] == c);
            }
        }
        if exists|i: int|
            0 <= i < addrs.len() && match #[trigger] addrs[i] {
                IpAddr::V4(a) => c == addr::ipv4_format(a as int) + "/32"@,
                IpAddr::V6(_) => false,
            } {
            let i = choose|i: int|
                0 <= i < addrs.len() && match #[trigger] addrs[i] {
                    IpAddr::V4(a) => c == addr::ipv4_format(a as int) + "/32"@,
                    IpAddr::V6(_) => false,
                };
            if i < n {
                assert(init[i] == addrs[i]);
            }
        }
    }
}

/// Law: a literal source is known as it stands, each prefix with its own label, or an empty one.
pub proof fn literal_source_is_known(source: BypassSourceEntry, plan: Plan, i: int)
    requires
        resolver::is_plan(source, plan),
        source.kind@ == "literal"@,
        source.prefixes is Some,
        0 <= i < source.prefixes->0@.len(),
    ensures
        plan is Known,
        plan->Known_0@.len() == source.prefixes->0@.len(),
        plan->Known_0@[i].0@ == source.prefixes->0@[i].net@,
        source.prefixes->0@[i].label is Some ==> plan->Known_0@[i].1@
            == source.prefixes->0@[i].label->0@,
        source.prefixes->0@[i].label is None ==> plan->Known_0@[i].1@.len() == 0,
{
    lemma_kinds();
    let v = plan->Known_0@;
    assert(resolver::entries(v).len() == v.len());
    assert(resolver::entries(v)[i] == resolver::literal_entries(source.prefixes->0@)[i]);
}

proof fn lemma_kinds()
    ensures
        "literal"@ != "asn"@,
        "literal"@ != "dns"@,
        "literal"@ != "geoip"@,
        "asn"@ != "dns"@,
        "asn"@ != "geoip"@,
        "dns"@ != "geoip"@,
{
    reveal_strlit("literal");
    reveal_strlit("asn");
    reveal_strlit("dns");
    reveal_strlit("geoip");
    assert("asn"@[0] == 'a' && "dns"@[0] == 'd');
    assert("literal"@.len() == 7 && "geoip"@.len() == 5 && "asn"@.len() == 3 && "dns"@.len() == 3);
}

/// Law: an ASN source asks for each of its ASNs and a DNS source for each of its hosts, under the
/// source's label. A country source asks for the country in capital letters, under the source's
/// label, or one made of the country.
pub proof fn other_sources_are_asked_for(source: BypassSourceEntry, plan: Plan)
    requires
        resolver::is_plan(source, plan),
    ensures
        source.kind@ == "asn"@ ==> match plan {
            Plan::Announced { label, asns } => source.label is Some && label@ == source.label->0@
                && source.asns is Some && text::texts(asns@) == text::texts(source.asns->0@),
            _ => false,
        },
        source.kind@ == "dns"@ ==> match plan {
            Plan::Addresses { label, hostnames } => source.label is Some && label@
                == source.label->0@ && source.hostnames is Some && text::texts(hostnames@)
                == text::texts(source.hostnames->0@),
            _ => false,
        },
        source.kind@ == "geoip"@ && source.country is Some && resolver::is_country(
            source.country->0@,
        ) ==> match plan {
            Plan::Allocated { label, country } => {
                &&& country@.len() == 2
                &&& forall|i: int|
                    0 <= i < 2 ==> 'A' <= (#[trigger] country@[i]) <= 'Z' && (country@[i]
                        == source.country->0@[i] || country@[i] as int + 32
                        == source.country->0@[i] as int)
                &&& source.label is Some ==> label@ == source.label->0@
                &&& source.label is None ==> label@ == "geoip "@ + country@
            },
            _ => false,
        },
{
    lemma_kinds();
    if source.kind@ == "geoip"@ && source.country is Some && resolver::is_country(
        source.country->0@,
    ) {
        let s = source.country->0@;
        lemma_upper(s[0]);
        lemma_upper(s[1]);
    }
}

proof fn lemma_upper(c: char)
    requires
        resolver::is_letter(c),
    ensures
        'A' <= resolver::upper(c) <= 'Z',
        resolver::upper(c) == c || resolver::upper(c) as int + 32 == c as int,
{
}

} // verus!
