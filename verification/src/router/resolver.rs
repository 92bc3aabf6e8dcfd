//! Turns bypass sources into routes: collect, deduplicate, collapse per label, punch out what is
//! excluded.

use crate::router::cidr;
use crate::router::cidr::Cidr;
use crate::common::addr;
use crate::text;
use crate::value;
use crate::value::Value;
use vstd::prelude::*;

verus! {

/// One source of bypass prefixes: `asn`, `literal`, `geoip` or `dns`.
#[derive(Debug, PartialEq)]
pub struct BypassSourceEntry {
    pub kind: String,
    pub label: Option<String>,
    pub asns: Option<Vec<String>>,
    pub prefixes: Option<Vec<LabeledPrefix>>,
    pub country: Option<String>,
    /// Looked up live, at resolve time.
    pub hostnames: Option<Vec<String>>,
}

#[derive(Debug, PartialEq)]
pub struct LabeledPrefix {
    pub net: String,
    pub label: Option<String>,
}

/// Why sources cannot be resolved.
#[derive(Clone, Copy, Debug, PartialEq, Eq, Structural)]
pub enum SourceError {
    LiteralWithoutPrefixes,
    AsnWithoutLabel,
    AsnWithoutAsns,
    InvalidAsn,
    DnsWithoutLabel,
    DnsWithoutHostnames,
    GeoipWithoutCountry,
    InvalidCountry,
    UnknownKind,
    /// Nothing was found to bypass: a source has likely failed.
    NoPrefixes,
}

/// `AS` and digits.
pub open spec fn is_asn(s: Seq<char>) -> bool {
    s.len() > 2 && s[0] == 'A' && s[1] == 'S' && text::all_digits(s.skip(2))
}

/// Refuses an ASN that is not `AS` followed by digits, before it becomes part of a request.
pub fn validate_asn(asn: &str) -> (r: Result<(), SourceError>)
    ensures
        r is Ok <==> is_asn(asn@),
        r is Err ==> r->Err_0 == SourceError::InvalidAsn,
{
    let v = text::chars_of(asn);
    if v.len() <= 2 || v[0] != 'A' || v[1] != 'S' {
        return Err(SourceError::InvalidAsn);
    }
    let mut i: usize = 2;
    while i < v.len()
        invariant
            2 <= i <= v@.len(),
            v@ == asn@,
            forall|k: int| 2 <= k < i ==> text::is_digit(#[trigger] v@[k]),
        decreases v@.len() - i,
    {
        if !('0' <= v[i] && v[i] <= '9') {
            assert(asn@.skip(2)[i - 2] == v@[i as int]);
            return Err(SourceError::InvalidAsn);
        }
        i += 1;
    }
    proof {
        assert forall|k: int| 0 <= k < asn@.skip(2).len() implies text::is_digit(
            #[trigger] asn@.skip(2)[k],
        ) by {
            assert(asn@.skip(2)[k] == v@[k + 2]);
        }
    }
    Ok(())
}

pub open spec fn is_letter(c: char) -> bool {
    'a' <= c <= 'z' || 'A' <= c <= 'Z'
}

/// An ASCII letter in upper case; any other character as it is.
pub open spec fn upper(c: char) -> char {
    if 'a' <= c <= 'z' {
        (c as int - 32) as char
    } else {
        c
    }
}

/// Two ASCII letters.
pub open spec fn is_country(s: Seq<char>) -> bool {
    s.len() == 2 && is_letter(s[0]) && is_letter(s[1])
}

pub open spec fn upper_country(s: Seq<char>) -> Seq<char> {
    seq![upper(s[0]), upper(s[1])]
}

fn to_upper(c: char) -> (r: char)
    ensures
        r == upper(c),
{
    if 'a' <= c && c <= 'z' {
        (c as u8 - 32) as char
    } else {
        c
    }
}

/// The upper-case form of a two-letter country code.
pub fn validate_country(country: &str) -> (r: Result<String, SourceError>)
    ensures
        match r {
            Ok(c) => is_country(country@) && c@ == upper_country(country@),
            Err(e) => !is_country(country@) && e == SourceError::InvalidCountry,
        },
{
    let v = text::chars_of(country);
    if v.len() != 2 {
        return Err(SourceError::InvalidCountry);
    }
    let a = v[0];
    let b = v[1];
    let a_ok = ('a' <= a && a <= 'z') || ('A' <= a && a <= 'Z');
    let b_ok = ('a' <= b && b <= 'z') || ('A' <= b && b <= 'Z');
    if !a_ok || !b_ok {
        return Err(SourceError::InvalidCountry);
    }
    let mut c = String::new();
    c.push(to_upper(a));
    c.push(to_upper(b));
    assert(c@ =~= upper_country(country@));
    Ok(c)
}

/// Prefixes with the label they carry.
pub open spec fn entries(v: Seq<(String, String)>) -> Seq<(Seq<char>, Seq<char>)> {
    Seq::new(v.len(), |i: int| (v[i].0@, v[i].1@))
}

/// Texts, each with the same label.
pub open spec fn all_labelled(v: Seq<Seq<char>>, label: Seq<char>) -> Seq<(Seq<char>, Seq<char>)> {
    Seq::new(v.len(), |i: int| (v[i], label))
}

/// What has to be asked for, and of whom, before a source's prefixes are known.
#[derive(Debug, PartialEq)]
pub enum Plan {
    /// Nothing: these are the prefixes.
    Known(Vec<(String, String)>),
    /// What each of these ASNs announces.
    Announced { label: String, asns: Vec<String> },
    /// The addresses of these hosts.
    Addresses { label: String, hostnames: Vec<String> },
    /// What is allocated to a country.
    Allocated { label: String, country: String },
}

pub open spec fn literal_entries(p: Seq<LabeledPrefix>) -> Seq<(Seq<char>, Seq<char>)> {
    Seq::new(
        p.len(),
        |i: int|
            (
                p[i].net@,
                match p[i].label {
                    Some(l) => l@,
                    None => Seq::empty(),
                },
            ),
    )
}

/// `plan` says how the source is resolved.
pub open spec fn is_plan(source: BypassSourceEntry, plan: Plan) -> bool {
    match plan {
        Plan::Known(v) => source.kind@ == "literal"@ && source.prefixes is Some && entries(v@)
            == literal_entries(source.prefixes->0@),
        Plan::Announced { label, asns } => source.kind@ == "asn"@ && source.label is Some && label@
            == source.label->0@ && source.asns is Some && text::texts(asns@) == text::texts(
            source.asns->0@,
        ),
        Plan::Addresses { label, hostnames } => source.kind@ == "dns"@ && source.label is Some
            && label@ == source.label->0@ && source.hostnames is Some && text::texts(hostnames@)
            == text::texts(source.hostnames->0@),
        Plan::Allocated { label, country } => source.kind@ == "geoip"@ && source.country is Some
            && country@ == upper_country(source.country->0@) && label@ == (match source.label {
            Some(l) => l@,
            None => "geoip "@ + upper_country(source.country->0@),
        }),
    }
}

/// What keeps a source from being asked for.
pub open spec fn plan_error(source: BypassSourceEntry) -> Option<SourceError> {
    if source.kind@ == "literal"@ {
        if source.prefixes is None {
            Some(SourceError::LiteralWithoutPrefixes)
        } else {
            None
        }
    } else if source.kind@ == "asn"@ {
        if source.label is None {
            Some(SourceError::AsnWithoutLabel)
        } else if source.asns is None {
            Some(SourceError::AsnWithoutAsns)
        } else if exists|i: int|
            0 <= i < source.asns->0@.len() && !is_asn((#[trigger] source.asns->0@[i])@) {
            Some(SourceError::InvalidAsn)
        } else {
            None
        }
    } else if source.kind@ == "dns"@ {
        if source.label is None {
            Some(SourceError::DnsWithoutLabel)
        } else if source.hostnames is None {
            Some(SourceError::DnsWithoutHostnames)
        } else {
            None
        }
    } else if source.kind@ == "geoip"@ {
        if source.country is None {
            Some(SourceError::GeoipWithoutCountry)
        } else if !is_country(source.country->0@) {
            Some(SourceError::InvalidCountry)
        } else {
            None
        }
    } else {
        Some(SourceError::UnknownKind)
    }
}

fn literal_list(p: &Vec<LabeledPrefix>) -> (v: Vec<(String, String)>)
    ensures
        entries(v@) == literal_entries(p@),
{
    let mut v: Vec<(String, String)> = Vec::new();
    let mut i: usize = 0;
    while i < p.len()
        invariant
            i <= p@.len(),
            v@.len() == i,
            forall|k: int| 0 <= k < i ==> #[trigger] entries(v@)[k] == literal_entries(p@)[k],
        decreases p@.len() - i,
    {
        let label = match &p[i].label {
            Some(l) => l.clone(),
            None => String::new(),
        };
        assert(label@ =~= literal_entries(p@)[i as int].1);
        let ghost prev = v@;
        v.push((p[i].net.clone(), label));
        proof {
            assert forall|k: int| 0 <= k < i + 1 implies #[trigger] entries(v@)[k]
                == literal_entries(p@)[k] by {
                if k < i {
                    assert(entries(prev)[k] == entries(v@)[k]);
                }
            }
        }
        i += 1;
    }
    assert(entries(v@) =~= literal_entries(p@));
    v
}

/// How a source is resolved: what is in it, or what has to be asked for. Nothing is asked for on
/// behalf of a source that is incomplete or malformed.
#[verifier::loop_isolation(false)]
pub fn collect_source(source: &BypassSourceEntry) -> (r: Result<Plan, SourceError>)
    ensures
        match r {
            Ok(plan) => plan_error(*source) is None && is_plan(*source, plan),
            Err(e) => plan_error(*source) == Some(e),
        },
{
    proof {
        reveal_strlit("literal");
        reveal_strlit("asn");
        reveal_strlit("dns");
        reveal_strlit("geoip");
    }
    let kind = source.kind.as_str();
    if text::str_eq(kind, "literal") {
        match &source.prefixes {
            Some(p) => Ok(Plan::Known(literal_list(p))),
            None => Err(SourceError::LiteralWithoutPrefixes),
        }
    } else if text::str_eq(kind, "asn") {
        let label = match &source.label {
            Some(l) => l.clone(),
            None => {
                return Err(SourceError::AsnWithoutLabel);
            },
        };
        let asns = match &source.asns {
            Some(a) => a,
            None => {
                return Err(SourceError::AsnWithoutAsns);
            },
        };
        let mut i: usize = 0;
        while i < asns.len()
            invariant
                i <= asns@.len(),
                forall|k: int| 0 <= k < i ==> is_asn((#[trigger] asns@[k])@),
            decreases asns@.len() - i,
        {
            if let Err(e) = validate_asn(asns[i].as_str()) {
                return Err(e);
            }
            i += 1;
        }
        Ok(Plan::Announced { label, asns: text::clone_texts(asns) })
    } else if text::str_eq(kind, "dns") {
        let label = match &source.label {
            Some(l) => l.clone(),
            None => {
                return Err(SourceError::DnsWithoutLabel);
            },
        };
        match &source.hostnames {
            Some(h) => Ok(Plan::Addresses { label, hostnames: text::clone_texts(h) }),
            None => Err(SourceError::DnsWithoutHostnames),
        }
    } else if text::str_eq(kind, "geoip") {
        let country = match &source.country {
            Some(c) => match validate_country(c.as_str()) {
                Ok(c) => c,
                Err(e) => {
                    return Err(e);
                },
            },
            None => {
                return Err(SourceError::GeoipWithoutCountry);
            },
        };
        let label = match &source.label {
            Some(l) => l.clone(),
            None => {
                let mut l = "geoip ".to_owned();
                l.push_str(country.as_str());
                l
            },
        };
        Ok(Plan::Allocated { label, country })
    } else {
        Err(SourceError::UnknownKind)
    }
}

/// The text at `prefix` of an entry, where it is an IPv4 prefix.
pub open spec fn v4_prefix(entry: Value) -> Option<Seq<char>> {
    match value::at_key(entry, "prefix"@) {
        Some(Value::Text(s)) => if s@.contains(':') {
            None
        } else {
            Some(s@)
        },
        _ => None,
    }
}

pub open spec fn plain_text(v: Value) -> Option<Seq<char>> {
    match v {
        Value::Text(s) => Some(s@),
        _ => None,
    }
}

/// What `f` finds in a list of nodes, in order.
pub open spec fn picked(v: Seq<Value>, f: spec_fn(Value) -> Option<Seq<char>>) -> Seq<Seq<char>>
    decreases v.len(),
{
    if v.len() == 0 {
        Seq::empty()
    } else {
        let rest = picked(v.drop_last(), f);
        match f(v.last()) {
            Some(s) => rest.push(s),
            None => rest,
        }
    }
}

/// The list that a node is; the empty one for any other node.
pub open spec fn list_at(v: Option<Value>) -> Seq<Value> {
    match v {
        Some(Value::Sequence(s)) => s@,
        _ => Seq::empty(),
    }
}

pub open spec fn key_of(v: Option<Value>, key: Seq<char>) -> Option<Value> {
    match v {
        Some(x) => value::at_key(x, key),
        None => None,
    }
}

/// The IPv4 prefixes of an announced-prefixes response.
pub open spec fn announced(resp: Value) -> Seq<Seq<char>> {
    picked(
        list_at(key_of(value::at_key(resp, "data"@), "prefixes"@)),
        |v: Value| v4_prefix(v),
    )
}

/// The IPv4 blocks of a country-resource-list response.
pub open spec fn allocated(resp: Value) -> Seq<Seq<char>> {
    picked(
        list_at(key_of(key_of(value::at_key(resp, "data"@), "resources"@), "ipv4"@)),
        |v: Value| plain_text(v),
    )
}

/// Where RIPEstat lists the prefixes that an ASN announces.
pub fn announced_url(asn: &str) -> (r: String)
    ensures
        r@ == "https://stat.ripe.net/data/announced-prefixes/data.json?resource="@ + asn@
            + "&sourceapp=talos-extensions-router"@,
{
    text::join3(
        "https://stat.ripe.net/data/announced-prefixes/data.json?resource=",
        asn,
        "&sourceapp=talos-extensions-router",
    )
}

/// Where RIPEstat lists the blocks that are allocated to a country.
pub fn allocated_url(country: &str) -> (r: String)
    ensures
        r@ == "https://stat.ripe.net/data/country-resource-list/data.json?resource="@ + country@
            + "&sourceapp=talos-extensions-router"@,
{
    text::join3(
        "https://stat.ripe.net/data/country-resource-list/data.json?resource=",
        country,
        "&sourceapp=talos-extensions-router",
    )
}

/// The IPv4 prefixes that an ASN announces, from the response to its request. What is malformed is
/// skipped.
pub fn asn_prefixes(resp: &Value) -> (r: Vec<String>)
    ensures
        text::texts(r@) == announced(*resp),
{
    let mut r: Vec<String> = Vec::new();
    assert(text::texts(r@) =~= Seq::empty());
    let data = match value::get(resp, "data") {
        Some(d) => d,
        None => {
            return r;
        },
    };
    let list = match value::get(data, "prefixes") {
        Some(Value::Sequence(l)) => l,
        _ => {
            return r;
        },
    };
    let ghost f = |v: Value| v4_prefix(v);
    let mut i: usize = 0;
    assert(list@.take(0) =~= Seq::empty());
    while i < list.len()
        invariant
            i <= list@.len(),
            f == (|v: Value| v4_prefix(v)),
            text::texts(r@) == picked(list@.take(i as int), f),
        decreases list@.len() - i,
    {
        assert(list@.take(i + 1).drop_last() =~= list@.take(i as int));
        if let Some(Value::Text(s)) = value::get(&list[i], "prefix") {
            let v = text::chars_of(s.as_str());
            let k: usize = text::find(v.as_slice(), ':', 0);
            proof {
                text::lemma_find_from(s@, ':', 0);
                if k < s@.len() {
                    assert(s@[k as int] == ':');
                } else if s@.contains(':') {
                    let q = choose|q: int| 0 <= q < s@.len() && s@[q] == ':';
                    assert(s@[q] != ':');
                }
            }
            if k >= v.len() {
                let ghost prev = r@;
                r.push(s.clone());
                assert(text::texts(r@) =~= text::texts(prev).push(s@));
            }
        }
        i += 1;
    }
    assert(list@.take(i as int) =~= list@);
    r
}

/// The IPv4 blocks allocated to a country, from the response to its request. What is malformed is
/// skipped.
pub fn geoip_country_prefixes(resp: &Value) -> (r: Vec<String>)
    ensures
        text::texts(r@) == allocated(*resp),
{
    let mut r: Vec<String> = Vec::new();
    assert(text::texts(r@) =~= Seq::empty());
    let data = match value::get(resp, "data") {
        Some(d) => d,
        None => {
            return r;
        },
    };
    let resources = match value::get(data, "resources") {
        Some(d) => d,
        None => {
            return r;
        },
    };
    let list = match value::get(resources, "ipv4") {
        Some(Value::Sequence(l)) => l,
        _ => {
            return r;
        },
    };
    let ghost f = |v: Value| plain_text(v);
    let mut i: usize = 0;
    assert(list@.take(0) =~= Seq::empty());
    while i < list.len()
        invariant
            i <= list@.len(),
            f == (|v: Value| plain_text(v)),
            text::texts(r@) == picked(list@.take(i as int), f),
        decreases list@.len() - i,
    {
        assert(list@.take(i + 1).drop_last() =~= list@.take(i as int));
        if let Value::Text(s) = &list[i] {
            let ghost prev = r@;
            r.push(s.clone());
            assert(text::texts(r@) =~= text::texts(prev).push(s@));
        }
        i += 1;
    }
    assert(list@.take(i as int) =~= list@);
    r
}

/// Prefixes that were found, each with the source's label.
pub fn label_all(found: &Vec<String>, label: &str) -> (r: Vec<(String, String)>)
    ensures
        entries(r@) == all_labelled(text::texts(found@), label@),
{
    let mut r: Vec<(String, String)> = Vec::new();
    let mut i: usize = 0;
    while i < found.len()
        invariant
            i <= found@.len(),
            r@.len() == i,
            forall|k: int| 0 <= k < i ==> (#[trigger] r@[k]).0@ == found@[k]@ && r@[k].1@ == label@,
        decreases found@.len() - i,
    {
        r.push((found[i].clone(), label.to_owned()));
        i += 1;
    }
    assert(entries(r@) =~= all_labelled(text::texts(found@), label@));
    r
}

/// The hosts' addresses as prefixes of one address each: IPv4 ones only.
pub open spec fn host_prefixes(addrs: Seq<addr::IpAddr>) -> Seq<Seq<char>>
    decreases addrs.len(),
{
    if addrs.len() == 0 {
        Seq::empty()
    } else {
        let rest = host_prefixes(addrs.drop_last());
        match addrs.last() {
            addr::IpAddr::V4(a) => rest.push(addr::ipv4_format(a as int) + "/32"@),
            addr::IpAddr::V6(_) => rest,
        }
    }
}

/// The prefixes of the addresses that a host was found to have.
pub fn dns_prefixes(addrs: &Vec<addr::IpAddr>) -> (r: Vec<String>)
    ensures
        text::texts(r@) == host_prefixes(addrs@),
{
    let mut r: Vec<String> = Vec::new();
    let mut i: usize = 0;
    assert(text::texts(r@) =~= host_prefixes(addrs@.take(0)));
    while i < addrs.len()
        invariant
            i <= addrs@.len(),
            text::texts(r@) == host_prefixes(addrs@.take(i as int)),
        decreases addrs@.len() - i,
    {
        assert(addrs@.take(i + 1).drop_last() =~= addrs@.take(i as int));
        if let addr::IpAddr::V4(a) = addrs[i] {
            let mut s = addr::format_ipv4(a);
            s.push_str("/32");
            let ghost prev = r@;
            r.push(s);
            assert(text::texts(r@) =~= text::texts(prev).push(s@));
        }
        i += 1;
    }
    assert(addrs@.take(i as int) =~= addrs@);
    r
}

/// The network that a text spells.
#[verifier::opaque]
pub open spec fn net_of(s: Seq<char>) -> Option<Cidr> {
    match cidr::v4_cidr_text(s) {
        Ok(c) => Some(c),
        Err(_) => None,
    }
}

/// A network carries a label: that of the first entry that spells it.
pub open spec fn labelled(v: Seq<(Seq<char>, Seq<char>)>, c: Cidr, label: Seq<char>) -> bool {
    exists|i: int|
        0 <= i < v.len() && net_of((#[trigger] v[i]).0) == Some(c) && v[i].1 == label && forall|
            j: int,
        |
            0 <= j < i ==> net_of((#[trigger] v[j]).0) != Some(c)
}

/// `out` is what the networks with a label collapse to.
pub open spec fn is_label_set(
    v: Seq<(Seq<char>, Seq<char>)>,
    label: Seq<char>,
    nets: Seq<Cidr>,
    out: Seq<Cidr>,
) -> bool {
    &&& forall|c: Cidr| #[trigger] nets.contains(c) <==> labelled(v, c, label)
    &&& cidr::collapses_to(nets, out)
}

/// A network remains under a label once each label's networks have been collapsed.
pub open spec fn remains(v: Seq<(Seq<char>, Seq<char>)>, c: Cidr, label: Seq<char>) -> bool {
    exists|nets: Seq<Cidr>, out: Seq<Cidr>| #[trigger]
        is_label_set(v, label, nets, out) && out.contains(c)
}

/// The order of networks with a label: by network, then by label.
pub open spec fn route_before(a: (Cidr, Seq<char>), b: (Cidr, Seq<char>)) -> bool {
    cidr::before(a.0, b.0) || (a.0 == b.0 && text::lex_lt(a.1, b.1))
}

pub open spec fn routes(v: Seq<(Cidr, String)>) -> Seq<(Cidr, Seq<char>)> {
    Seq::new(v.len(), |i: int| (v[i].0, v[i].1@))
}

pub open spec fn routes_ascending(v: Seq<(Cidr, Seq<char>)>) -> bool {
    forall|i: int, j: int|
        0 <= i < j < v.len() ==> route_before(#[trigger] v[i], #[trigger] v[j])
}

/// The networks with a label collapse to some list.
pub open spec fn settles(v: Seq<(Seq<char>, Seq<char>)>, label: Seq<char>) -> bool {
    exists|nets: Seq<Cidr>, out: Seq<Cidr>| #[trigger] is_label_set(v, label, nets, out)
}

/// `out` names the networks and labels that remain, in order. No label that is in use is lost on
/// the way: its networks collapse to something.
pub open spec fn is_aggregate(
    found: Seq<(Seq<char>, Seq<char>)>,
    out: Seq<(Cidr, Seq<char>)>,
) -> bool {
    &&& routes_ascending(out)
    &&& forall|c: Cidr, l: Seq<char>| #[trigger] labelled(found, c, l) ==> settles(found, l)
    &&& forall|c: Cidr, l: Seq<char>| #[trigger] out.contains((c, l)) <==> remains(found, c, l)
}

proof fn lemma_route_total(a: (Cidr, Seq<char>), b: (Cidr, Seq<char>))
    ensures
        route_before(a, b) || route_before(b, a) || a == b,
{
    text::lemma_lex_total(a.1, b.1);
}

proof fn lemma_route_transitive(
    a: (Cidr, Seq<char>),
    b: (Cidr, Seq<char>),
    c: (Cidr, Seq<char>),
)
    requires
        route_before(a, b),
        route_before(b, c),
    ensures
        route_before(a, c),
{
    if a.0 == b.0 && b.0 == c.0 {
        text::lemma_lex_transitive(a.1, b.1, c.1);
    }
}

fn is_route_before(a: &(Cidr, String), c: Cidr, label: &str) -> (r: bool)
    ensures
        r == route_before((a.0, a.1@), (c, label@)),
{
    let x = a.0;
    if x.0 < c.0 || (x.0 == c.0 && x.1 < c.1) {
        true
    } else if x.0 == c.0 && x.1 == c.1 {
        text::str_lt(a.1.as_str(), label)
    } else {
        false
    }
}

/// Puts a network with its label at its place, unless it is there already.
fn insert_route(v: &mut Vec<(Cidr, String)>, c: Cidr, label: &str)
    requires
        routes_ascending(routes(old(v)@)),
    ensures
        routes_ascending(routes(final(v)@)),
        forall|x: (Cidr, Seq<char>)| #[trigger]
            routes(final(v)@).contains(x) <==> x == (c, label@) || routes(old(v)@).contains(x),
{
    let ghost prev = routes(v@);
    let ghost e = (c, label@);
    let mut i: usize = 0;
    while i < v.len() && is_route_before(&v[i], c, label)
        invariant
            i <= v@.len(),
            prev == routes(v@),
            e == (c, label@),
            forall|k: int| 0 <= k < i ==> route_before(#[trigger] prev[k], e),
        decreases v@.len() - i,
    {
        i += 1;
    }
    if i < v.len() && v[i].0.0 == c.0 && v[i].0.1 == c.1 && text::str_eq(v[i].1.as_str(), label) {
        assert(prev[i as int] == e);
        return;
    }
    v.insert(i, (c, label.to_owned()));
    proof {
        let now = routes(v@);
        assert(now =~= prev.insert(i as int, e));
        if i < prev.len() {
            lemma_route_total(prev[i as int], e);
        }
        assert forall|k: int| i <= k < prev.len() implies route_before(e, #[trigger] prev[k]) by {
            if k > i {
                lemma_route_transitive(e, prev[i as int], prev[k]);
            }
        }
        assert forall|x: (Cidr, Seq<char>)| #[trigger] now.contains(x) <==> x == e || prev.contains(
            x,
        ) by {
            if x == e {
                assert(now[i as int] == x);
            }
            if prev.contains(x) {
                let k = choose|k: int| 0 <= k < prev.len() && prev[k] == x;
                if k < i {
                    assert(now[k] == x);
                } else {
                    assert(now[k + 1] == x);
                }
            }
            if now.contains(x) && x != e {
                let k = choose|k: int| 0 <= k < now.len() && now[k] == x;
                if k < i {
                    assert(prev[k] == x);
                } else {
                    assert(prev[k - 1] == x);
                }
            }
        }
    }
}

/// Each network that is spelled, with the label of the first entry that spells it.
#[verifier::loop_isolation(false)]
fn first_labels(found: &Vec<(String, String)>) -> (r: Vec<(Cidr, String)>)
    ensures
        forall|i: int| 0 <= i < r@.len() ==> (#[trigger] r@[i]).0.1 <= 32,
        forall|c: Cidr, l: Seq<char>| #[trigger]
            routes(r@).contains((c, l)) <==> labelled(entries(found@), c, l),
{
    let ghost all = entries(found@);
    let mut r: Vec<(Cidr, String)> = Vec::new();
    let mut i: usize = 0;
    proof {
        assert forall|c: Cidr, l: Seq<char>| #[trigger]
            routes(r@).contains((c, l)) <==> labelled(all.take(0), c, l) by {}
    }
    while i < found.len()
        invariant
            i <= found@.len(),
            forall|k: int| 0 <= k < r@.len() ==> (#[trigger] r@[k]).0.1 <= 32,
            forall|c: Cidr, l: Seq<char>| #[trigger]
                routes(r@).contains((c, l)) <==> labelled(all.take(i as int), c, l),
        decreases found@.len() - i,
    {
        let ghost a = all.take(i as int);
        let ghost b = all.take(i + 1);
        let ghost prev = r@;
        assert(all[i as int] == (found@[i as int].0@, found@[i as int].1@));
        proof {
            reveal(net_of);
        }
        match cidr::parse_cidr(found[i].0.as_str()) {
            Ok(c) => {
                let mut known = false;
                let mut j: usize = 0;
                while j < r.len()
                    invariant
                        j <= r@.len(),
                        known == exists|k: int| 0 <= k < j && (#[trigger] r@[k]).0 == c,
                    decreases r@.len() - j,
                {
                    if r[j].0.0 == c.0 && r[j].0.1 == c.1 {
                        known = true;
                    }
                    j += 1;
                }
                if !known {
                    r.push((c, found[i].1.clone()));
                }
                proof {
                    if !known {
                        assert(r@.take(prev.len() as int) =~= prev);
                    }
                    lemma_first_label(all, i as int, prev, r@, c, known);
                }
            },
            Err(_) => {
                proof {
                    assert forall|c: Cidr, l: Seq<char>| #[trigger]
                        routes(r@).contains((c, l)) <==> labelled(b, c, l) by {
                        assert(routes(r@).contains((c, l)) <==> labelled(a, c, l));
                        lemma_labelled_step(all, i as int, c, l);
                    }
                }
            },
        }
        i += 1;
    }
    assert(all.take(i as int) =~= all);
    r
}

proof fn lemma_labelled_step(all: Seq<(Seq<char>, Seq<char>)>, i: int, c: Cidr, l: Seq<char>)
    requires
        0 <= i < all.len(),
    ensures
        labelled(all.take(i + 1), c, l) <==> labelled(all.take(i), c, l) || (net_of(all[i].0)
            == Some(c) && all[i].1 == l && forall|j: int|
            0 <= j < i ==> net_of((#[trigger] all[j]).0) != Some(c)),
{
    let a = all.take(i);
    let b = all.take(i + 1);
    if labelled(a, c, l) {
        let k = choose|k: int|
            0 <= k < a.len() && net_of((#[trigger] a[k]).0) == Some(c) && a[k].1 == l && forall|
                j: int,
            |
                0 <= j < k ==> net_of((#[trigger] a[j]).0) != Some(c);
        assert(net_of(b[k].0) == Some(c));
        assert forall|j: int| 0 <= j < k implies net_of((#[trigger] b[j]).0) != Some(c) by {
            assert(net_of(a[j].0) != Some(c));
        }
    }
    if labelled(b, c, l) {
        let k = choose|k: int|
            0 <= k < b.len() && net_of((#[trigger] b[k]).0) == Some(c) && b[k].1 == l && forall|
                j: int,
            |
                0 <= j < k ==> net_of((#[trigger] b[j]).0) != Some(c);
        if k < i {
            assert(net_of(a[k].0) == Some(c));
            assert forall|j: int| 0 <= j < k implies net_of((#[trigger] a[j]).0) != Some(c) by {
                assert(net_of(b[j].0) != Some(c));
            }
        } else {
            assert forall|j: int| 0 <= j < i implies net_of((#[trigger] all[j]).0) != Some(c) by {
                assert(net_of(b[j].0) != Some(c));
            }
        }
    }
    if net_of(all[i].0) == Some(c) && all[i].1 == l && forall|j: int|
        0 <= j < i ==> net_of((#[trigger] all[j]).0) != Some(c) {
        assert(net_of(b[i].0) == Some(c));
        assert forall|j: int| 0 <= j < i implies net_of((#[trigger] b[j]).0) != Some(c) by {
            assert(net_of(all[j].0) != Some(c));
        }
    }
}

/// A network is spelled iff it carries some label.
pub(crate) proof fn lemma_spelled(v: Seq<(Seq<char>, Seq<char>)>, i: int, c: Cidr)
    requires
        0 <= i <= v.len(),
        exists|k: int| 0 <= k < i && net_of((#[trigger] v[k]).0) == Some(c),
    ensures
        exists|l: Seq<char>| #[trigger] labelled(v.take(i), c, l),
    decreases i,
{
    if exists|k: int| 0 <= k < i - 1 && net_of((#[trigger] v[k]).0) == Some(c) {
        lemma_spelled(v, i - 1, c);
        let l = choose|l: Seq<char>| #[trigger] labelled(v.take(i - 1), c, l);
        lemma_labelled_step(v, i - 1, c, l);
    } else {
        lemma_labelled_step(v, i - 1, c, v[i - 1].1);
        assert(labelled(v.take(i), c, v[i - 1].1));
    }
}

proof fn lemma_first_label(
    all: Seq<(Seq<char>, Seq<char>)>,
    i: int,
    prev: Seq<(Cidr, String)>,
    now: Seq<(Cidr, String)>,
    c: Cidr,
    known: bool,
)
    requires
        0 <= i < all.len(),
        net_of(all[i].0) == Some(c),
        forall|d: Cidr, l: Seq<char>| #[trigger]
            routes(prev).contains((d, l)) <==> labelled(all.take(i), d, l),
        known == exists|k: int| 0 <= k < prev.len() && (#[trigger] prev[k]).0 == c,
        known ==> now == prev,
        !known ==> now.len() == prev.len() + 1 && now.take(prev.len() as int) == prev && now.last().0
            == c && now.last().1@ == all[i].1,
    ensures
        forall|d: Cidr, l: Seq<char>| #[trigger]
            routes(now).contains((d, l)) <==> labelled(all.take(i + 1), d, l),
{
    let a = all.take(i);
    let rp = routes(prev);
    let rn = routes(now);
    assert forall|d: Cidr, l: Seq<char>| #[trigger] rn.contains((d, l)) <==> labelled(
        all.take(i + 1),
        d,
        l,
    ) by {
        lemma_labelled_step(all, i, d, l);
        assert(rp.contains((d, l)) <==> labelled(a, d, l));
        let fresh = forall|j: int| 0 <= j < i ==> net_of((#[trigger] all[j]).0) != Some(c);
        // known exactly where an earlier entry spells the network
        if !fresh {
            lemma_spelled(all, i, c);
            let l2 = choose|l2: Seq<char>| #[trigger] labelled(a, c, l2);
            assert(rp.contains((c, l2)));
            let k = choose|k: int| 0 <= k < rp.len() && rp[k] == (c, l2);
            assert(prev[k].0 == c);
            assert(known);
        } else if known {
            let k = choose|k: int| 0 <= k < prev.len() && (#[trigger] prev[k]).0 == c;
            assert(rp[k] == (c, prev[k].1@));
            assert(rp.contains((c, prev[k].1@)));
            assert(labelled(a, c, prev[k].1@));
            let q = choose|q: int|
                0 <= q < a.len() && net_of((#[trigger] a[q]).0) == Some(c) && a[q].1 == prev[k].1@
                    && forall|j: int| 0 <= j < q ==> net_of((#[trigger] a[j]).0) != Some(c);
            assert(net_of(all[q].0) == Some(c));
            assert(false);
        }
        if !known {
            assert(rn =~= rp.push((c, all[i].1))) by {
                assert forall|k: int| 0 <= k < rp.len() implies rn[k] == rp[k] by {
                    assert(now.take(prev.len() as int)[k] == now[k]);
                }
            }
            if rp.contains((d, l)) {
                let k = choose|k: int| 0 <= k < rp.len() && rp[k] == (d, l);
                assert(rn[k] == (d, l));
            }
            if (d, l) == (c, all[i].1) {
                assert(rn[rp.len() as int] == (d, l));
            }
            if rn.contains((d, l)) && (d, l) != (c, all[i].1) {
                let k = choose|k: int| 0 <= k < rn.len() && rn[k] == (d, l);
                assert(rp[k] == (d, l));
            }
        }
    }
}

/// The labels of a list of networks, in ascending order.
fn labels_in(v: &Vec<(Cidr, String)>) -> (r: Vec<String>)
    ensures
        text::ascending(text::texts(r@)),
        forall|l: Seq<char>| #[trigger]
            text::texts(r@).contains(l) <==> exists|i: int|
                0 <= i < v@.len() && (#[trigger] v@[i]).1@ == l,
{
    let mut r: Vec<String> = Vec::new();
    let mut i: usize = 0;
    while i < v.len()
        invariant
            i <= v@.len(),
            text::ascending(text::texts(r@)),
            forall|l: Seq<char>| #[trigger]
                text::texts(r@).contains(l) <==> exists|k: int|
                    0 <= k < i && (#[trigger] v@[k]).1@ == l,
        decreases v@.len() - i,
    {
        let ghost prev = text::texts(r@);
        text::insert_text(&mut r, v[i].1.as_str());
        proof {
            assert forall|l: Seq<char>| #[trigger] text::texts(r@).contains(l) <==> exists|k: int|
                0 <= k < i + 1 && (#[trigger] v@[k]).1@ == l by {
                assert(prev.contains(l) <==> exists|k: int| 0 <= k < i && (#[trigger] v@[k]).1@ == l);
                if l == v@[i as int].1@ {
                    assert(v@[i as int].1@ == l);
                }
            }
        }
        i += 1;
    }
    r
}

/// The networks with one label.
fn nets_with(v: &Vec<(Cidr, String)>, label: &str) -> (r: Vec<Cidr>)
    requires
        forall|i: int| 0 <= i < v@.len() ==> (#[trigger] v@[i]).0.1 <= 32,
    ensures
        forall|i: int| 0 <= i < r@.len() ==> (#[trigger] r@[i]).1 <= 32,
        forall|c: Cidr| #[trigger] r@.contains(c) <==> routes(v@).contains((c, label@)),
{
    let mut r: Vec<Cidr> = Vec::new();
    let mut i: usize = 0;
    while i < v.len()
        invariant
            i <= v@.len(),
            forall|k: int| 0 <= k < v@.len() ==> (#[trigger] v@[k]).0.1 <= 32,
            forall|k: int| 0 <= k < r@.len() ==> (#[trigger] r@[k]).1 <= 32,
            forall|c: Cidr| #[trigger]
                r@.contains(c) <==> routes(v@).take(i as int).contains((c, label@)),
        decreases v@.len() - i,
    {
        let ghost prev = r@;
        let ghost a = routes(v@).take(i as int);
        let ghost b = routes(v@).take(i + 1);
        let ghost e = routes(v@)[i as int];
        assert(v@[i as int].0.1 <= 32);
        let same = text::str_eq(v[i].1.as_str(), label);
        if same {
            r.push(v[i].0);
        }
        proof {
            assert(b =~= a.push(e));
            assert forall|c: Cidr| #[trigger] r@.contains(c) <==> b.contains((c, label@)) by {
                assert(prev.contains(c) <==> a.contains((c, label@)));
                if a.contains((c, label@)) {
                    let k = choose|k: int| 0 <= k < a.len() && a[k] == (c, label@);
                    assert(b[k] == (c, label@));
                    let q = choose|q: int| 0 <= q < prev.len() && prev[q] == c;
                    assert(r@[q] == c);
                }
                if same && c == e.0 {
                    assert(r@[prev.len() as int] == c);
                    assert(b[i as int] == (c, label@));
                }
                if b.contains((c, label@)) && (c, label@) != e {
                    let k = choose|k: int| 0 <= k < b.len() && b[k] == (c, label@);
                    assert(a[k] == (c, label@));
                }
                if r@.contains(c) && !prev.contains(c) {
                    let q = choose|q: int| 0 <= q < r@.len() && r@[q] == c;
                    if q < prev.len() {
                        assert(prev[q] == c);
                    }
                }
            }
        }
        i += 1;
    }
    assert(routes(v@).take(i as int) =~= routes(v@));
    r
}

/// Deduplicates networks, the first label of each winning, and collapses each label's networks on
/// their own: a merge never crosses labels. Texts that are no IPv4 CIDR are skipped.
#[verifier::loop_isolation(false)]
pub fn dedupe_and_aggregate(found: &Vec<(String, String)>) -> (out: Vec<(Cidr, String)>)
    ensures
        is_aggregate(entries(found@), routes(out@)),
        forall|i: int| 0 <= i < out@.len() ==> (#[trigger] out@[i]).0.1 <= 32,
{
    let ghost all = entries(found@);
    let firsts = first_labels(found);
    let labels = labels_in(&firsts);
    let ghost ls = text::texts(labels@);
    let mut out: Vec<(Cidr, String)> = Vec::new();
    let mut i: usize = 0;
    while i < labels.len()
        invariant
            i <= labels@.len(),
            routes_ascending(routes(out@)),
            forall|k: int| 0 <= k < i ==> settles(all, #[trigger] ls[k]),
            forall|k: int| 0 <= k < out@.len() ==> (#[trigger] out@[k]).0.1 <= 32,
            forall|c: Cidr, l: Seq<char>| #[trigger]
                routes(out@).contains((c, l)) <==> ls.take(i as int).contains(l) && remains(
                    all,
                    c,
                    l,
                ),
        decreases labels@.len() - i,
    {
        let label = labels[i].as_str();
        let nets = nets_with(&firsts, label);
        let merged = cidr::collapse(nets.as_slice());
        proof {
            assert(is_label_set(all, label@, nets@, merged@));
            assert(settles(all, ls[i as int]));
            cidr::lemma_collapse_bounds(nets@, merged@);
        }
        let ghost start = routes(out@);
        let mut j: usize = 0;
        while j < merged.len()
            invariant
                j <= merged@.len(),
                routes_ascending(routes(out@)),
                forall|k: int| 0 <= k < out@.len() ==> (#[trigger] out@[k]).0.1 <= 32,
                forall|c: Cidr, l: Seq<char>| #[trigger]
                    routes(out@).contains((c, l)) <==> start.contains((c, l)) || (l == label@
                        && merged@.take(j as int).contains(c)),
            decreases merged@.len() - j,
        {
            let ghost prev = routes(out@);
            let ghost before_it = out@;
            assert(merged@[j as int].1 <= 32);
            insert_route(&mut out, merged[j], label);
            proof {
                cidr::lemma_take_push(merged@, j as int);
                assert forall|k: int| 0 <= k < out@.len() implies (#[trigger] out@[k]).0.1
                    <= 32 by {
                    let x = routes(out@)[k];
                    assert(routes(out@).contains(x));
                    if x != (merged@[j as int], label@) {
                        assert(prev.contains(x));
                        let q = choose|q: int| 0 <= q < prev.len() && prev[q] == x;
                        assert(before_it[q].0.1 <= 32);
                    }
                }
            }
            j += 1;
        }
        proof {
            assert(merged@.take(j as int) =~= merged@);
            text::lemma_take_contains(ls, i as int);
            assert forall|c: Cidr, l: Seq<char>| #[trigger] routes(out@).contains((c, l))
                <==> ls.take(i + 1).contains(l) && remains(all, c, l) by {
                if l == label@ {
                    if remains(all, c, l) {
                        let (n2, o2) = choose|n2: Seq<Cidr>, o2: Seq<Cidr>| #[trigger]
                            is_label_set(all, l, n2, o2) && o2.contains(c);
                        cidr::collapse_is_unique(nets@, n2, merged@, o2);
                    }
                    if merged@.contains(c) {
                        assert(is_label_set(all, l, nets@, merged@));
                    }
                }
            }
        }
        i += 1;
    }
    proof {
        assert(ls.take(i as int) =~= ls);
        assert forall|c: Cidr, l: Seq<char>| #[trigger] labelled(all, c, l) implies settles(
            all,
            l,
        ) by {
            assert(routes(firsts@).contains((c, l)));
            let q = choose|q: int|
                0 <= q < routes(firsts@).len() && routes(firsts@)[q] == (c, l);
            assert(firsts@[q].1@ == l);
            assert(ls.contains(l));
            let k = choose|k: int| 0 <= k < ls.len() && ls[k] == l;
            assert(settles(all, ls[k]));
        }
        assert forall|c: Cidr, l: Seq<char>| #[trigger] routes(out@).contains((c, l))
            <==> remains(all, c, l) by {
            if remains(all, c, l) && !ls.contains(l) {
                let (n2, o2) = choose|n2: Seq<Cidr>, o2: Seq<Cidr>| #[trigger]
                    is_label_set(all, l, n2, o2) && o2.contains(c);
                // no network carries the label, so nothing can remain under it
                assert forall|d: Cidr| !n2.contains(d) by {
                    if n2.contains(d) {
                        assert(labelled(all, d, l));
                        assert(routes(firsts@).contains((d, l)));
                        let q = choose|q: int|
                            0 <= q < routes(firsts@).len() && routes(firsts@)[q] == (d, l);
                        assert(firsts@[q].1@ == l);
                    }
                }
                cidr::lemma_collapse_empty(n2, o2);
                let k = choose|k: int| 0 <= k < o2.len() && o2[k] == c;
                assert(false);
            }
        }
    }
    out
}

/// What an exclusion leaves of a network.
pub open spec fn punched_one(n: Cidr, exc: Cidr) -> Seq<Cidr> {
    if n.1 >= exc.1 && cidr::network(n.0 as int, exc.1 as int) == exc.0 {
        Seq::empty()
    } else if exc.1 >= n.1 && cidr::network(exc.0 as int, n.1 as int) == n.0 {
        cidr::excluded(n, exc)
    } else {
        seq![n]
    }
}

/// What an exclusion leaves of a list of networks.
pub open spec fn punched_list(v: Seq<Cidr>, exc: Cidr) -> Seq<Cidr>
    decreases v.len(),
{
    if v.len() == 0 {
        Seq::empty()
    } else {
        punched_list(v.drop_last(), exc) + punched_one(v.last(), exc)
    }
}

/// What the first `n` exclusions leave of a network.
pub open spec fn punched(net: Cidr, excs: Seq<Cidr>, n: int) -> Seq<Cidr>
    decreases n,
{
    if n <= 0 {
        seq![net]
    } else {
        punched_list(punched(net, excs, n - 1), excs[n - 1])
    }
}

spec fn lens_fit(v: Seq<Cidr>) -> bool {
    forall|i: int| 0 <= i < v.len() ==> (#[trigger] v[i]).1 <= 32
}

fn punch_list(v: &Vec<Cidr>, exc: Cidr) -> (r: Vec<Cidr>)
    requires
        lens_fit(v@),
        exc.1 <= 32,
    ensures
        r@ == punched_list(v@, exc),
        lens_fit(r@),
{
    let mut r: Vec<Cidr> = Vec::new();
    let mut i: usize = 0;
    assert(r@ =~= punched_list(v@.take(0), exc));
    while i < v.len()
        invariant
            i <= v@.len(),
            lens_fit(v@),
            exc.1 <= 32,
            lens_fit(r@),
            r@ == punched_list(v@.take(i as int), exc),
        decreases v@.len() - i,
    {
        let n = v[i];
        assert(v@[i as int].1 <= 32);
        assert(v@.take(i + 1).drop_last() =~= v@.take(i as int));
        let ghost prev = r@;
        if cidr::contains(exc, n) {
        } else if cidr::contains(n, exc) {
            let mut rest = cidr::address_exclude(n, exc);
            proof {
                cidr::address_exclude_is_difference(n, exc);
                assert forall|k: int| 0 <= k < rest@.len() implies (#[trigger] rest@[k]).1 <= 32 by {
                    assert(cidr::wf(rest@[k]));
                }
            }
            r.append(&mut rest);
        } else {
            r.push(n);
        }
        assert(r@ =~= prev + punched_one(n, exc));
        i += 1;
    }
    assert(v@.take(i as int) =~= v@);
    r
}

/// What exclusions leave of a network.
fn punch(net: Cidr, excs: &Vec<Cidr>) -> (r: Vec<Cidr>)
    requires
        net.1 <= 32,
        lens_fit(excs@),
    ensures
        r@ == punched(net, excs@, excs@.len() as int),
        lens_fit(r@),
{
    let mut r: Vec<Cidr> = Vec::new();
    r.push(net);
    assert(r@ =~= punched(net, excs@, 0));
    let mut i: usize = 0;
    while i < excs.len()
        invariant
            i <= excs@.len(),
            lens_fit(excs@),
            lens_fit(r@),
            r@ == punched(net, excs@, i as int),
        decreases excs@.len() - i,
    {
        assert(excs@[i as int].1 <= 32);
        r = punch_list(&r, excs[i]);
        i += 1;
    }
    r
}

proof fn lemma_punched_one(n: Cidr, exc: Cidr)
    requires
        cidr::wf(n),
        cidr::wf(exc),
    ensures
        cidr::all_wf(punched_one(n, exc)),
        forall|x: int| #[trigger]
            cidr::covered(punched_one(n, exc), x) <==> cidr::covers(n, x) && !cidr::covers(exc, x),
{
    cidr::contains_is_inclusion(exc, n);
    cidr::contains_is_inclusion(n, exc);
    cidr::lemma_network_self(exc);
    let out = punched_one(n, exc);
    if n.1 >= exc.1 && cidr::network(n.0 as int, exc.1 as int) == exc.0 {
    } else if exc.1 >= n.1 && cidr::network(exc.0 as int, n.1 as int) == n.0 {
        cidr::address_exclude_is_difference(n, exc);
    } else {
        assert forall|x: int| #[trigger] cidr::covered(out, x) <==> cidr::covers(n, x)
            && !cidr::covers(exc, x) by {
            if cidr::covers(n, x) && cidr::covers(exc, x) {
                cidr::lemma_overlap_nested(n, exc, x);
            }
            if cidr::covers(n, x) {
                assert(cidr::covers(out[0], x));
            }
        }
    }
}

proof fn lemma_covered_concat(a: Seq<Cidr>, b: Seq<Cidr>)
    ensures
        forall|x: int| #[trigger]
            cidr::covered(a + b, x) <==> cidr::covered(a, x) || cidr::covered(b, x),
        cidr::all_wf(a) && cidr::all_wf(b) ==> cidr::all_wf(a + b),
{
    let s = a + b;
    assert forall|x: int| #[trigger] cidr::covered(s, x) <==> cidr::covered(a, x)
        || cidr::covered(b, x) by {
        if cidr::covered(a, x) {
            let i = choose|i: int| 0 <= i < a.len() && cidr::covers(#[trigger] a[i], x);
            assert(cidr::covers(s[i], x));
        }
        if cidr::covered(b, x) {
            let i = choose|i: int| 0 <= i < b.len() && cidr::covers(#[trigger] b[i], x);
            assert(cidr::covers(s[i + a.len()], x));
        }
        if cidr::covered(s, x) {
            let i = choose|i: int| 0 <= i < s.len() && cidr::covers(#[trigger] s[i], x);
            if i < a.len() {
                assert(cidr::covers(a[i], x));
            } else {
                assert(cidr::covers(b[i - a.len()], x));
            }
        }
    }
}

proof fn lemma_punched_list(v: Seq<Cidr>, exc: Cidr)
    requires
        cidr::all_wf(v),
        cidr::wf(exc),
    ensures
        cidr::all_wf(punched_list(v, exc)),
        forall|x: int| #[trigger]
            cidr::covered(punched_list(v, exc), x) <==> cidr::covered(v, x) && !cidr::covers(
                exc,
                x,
            ),
    decreases v.len(),
{
    if v.len() > 0 {
        let head = v.drop_last();
        lemma_punched_list(head, exc);
        assert(cidr::wf(v[v.len() - 1]));
        lemma_punched_one(v.last(), exc);
        lemma_covered_concat(punched_list(head, exc), punched_one(v.last(), exc));
        lemma_covered_concat(head, seq![v.last()]);
        assert(v =~= head + seq![v.last()]);
        assert forall|x: int| #[trigger] cidr::covered(punched_list(v, exc), x) <==> cidr::covered(
            v,
            x,
        ) && !cidr::covers(exc, x) by {
            assert(cidr::covered(head + seq![v.last()], x) <==> cidr::covered(head, x)
                || cidr::covered(seq![v.last()], x));
            if cidr::covers(v.last(), x) {
                assert(cidr::covers(seq![v.last()][0], x));
            }
        }
    }
}

/// Law: what is left of a network is exactly what no exclusion covers.
pub proof fn punched_is_difference(net: Cidr, excs: Seq<Cidr>, n: int)
    requires
        cidr::wf(net),
        cidr::all_wf(excs),
        0 <= n <= excs.len(),
    ensures
        cidr::all_wf(punched(net, excs, n)),
        forall|x: int| #[trigger]
            cidr::covered(punched(net, excs, n), x) <==> cidr::covers(net, x) && !cidr::covered(
                excs.take(n),
                x,
            ),
    decreases n,
{
    if n > 0 {
        punched_is_difference(net, excs, n - 1);
        assert(cidr::wf(excs[n - 1]));
        lemma_punched_list(punched(net, excs, n - 1), excs[n - 1]);
        assert(excs.take(n) =~= excs.take(n - 1) + seq![excs[n - 1]]);
        lemma_covered_concat(excs.take(n - 1), seq![excs[n - 1]]);
        assert forall|x: int| #[trigger] cidr::covered(punched(net, excs, n), x) <==> cidr::covers(
            net,
            x,
        ) && !cidr::covered(excs.take(n), x) by {
            assert(cidr::covered(punched(net, excs, n - 1), x) <==> cidr::covers(net, x)
                && !cidr::covered(excs.take(n - 1), x));
            assert(cidr::covered(excs.take(n - 1) + seq![excs[n - 1]], x) <==> cidr::covered(
                excs.take(n - 1),
                x,
            ) || cidr::covered(seq![excs[n - 1]], x));
            if cidr::covers(excs[n - 1], x) {
                assert(cidr::covers(seq![excs[n - 1]][0], x));
            }
        }
    } else {
        assert(punched(net, excs, n) =~= seq![net]);
        assert forall|x: int| #[trigger] cidr::covered(punched(net, excs, n), x) <==> cidr::covers(
            net,
            x,
        ) && !cidr::covered(excs.take(n), x) by {
            if cidr::covers(net, x) {
                assert(cidr::covers(punched(net, excs, n)[0], x));
            }
        }
    }
}

/// A network in text form.
pub open spec fn format_of(c: Cidr) -> Seq<char> {
    addr::ipv4_format(c.0 as int) + seq!['/'] + text::decimal(c.1 as int)
}

/// The text form of a network.
pub fn format_cidr(c: Cidr) -> (s: String)
    ensures
        s@ == format_of(c),
{
    let mut s = addr::format_ipv4(c.0);
    s.push('/');
    text::push_decimal(&mut s, c.1 as u64);
    assert(s@ =~= format_of(c));
    s
}

/// Networks in text form, with a label.
pub open spec fn formatted(v: Seq<Cidr>, label: Seq<char>) -> Seq<(Seq<char>, Seq<char>)> {
    Seq::new(v.len(), |i: int| (format_of(v[i]), label))
}

/// What exclusions leave of the first `n` of a list of networks, in text form.
pub open spec fn left_over(v: Seq<(Cidr, Seq<char>)>, excs: Seq<Cidr>, n: int) -> Seq<
    (Seq<char>, Seq<char>),
>
    decreases n,
{
    if n <= 0 {
        Seq::empty()
    } else {
        left_over(v, excs, n - 1) + formatted(
            punched(v[n - 1].0, excs, excs.len() as int),
            v[n - 1].1,
        )
    }
}

/// The order of pairs of strings.
pub open spec fn pair_lt(a: (Seq<char>, Seq<char>), b: (Seq<char>, Seq<char>)) -> bool {
    text::lex_lt(a.0, b.0) || (a.0 == b.0 && text::lex_lt(a.1, b.1))
}

pub open spec fn pairs_sorted(v: Seq<(Seq<char>, Seq<char>)>) -> bool {
    forall|i: int, j: int| 0 <= i < j < v.len() ==> !pair_lt(#[trigger] v[j], #[trigger] v[i])
}

proof fn lemma_pair_order(
    a: (Seq<char>, Seq<char>),
    b: (Seq<char>, Seq<char>),
    c: (Seq<char>, Seq<char>),
)
    ensures
        pair_lt(a, b) && pair_lt(b, c) ==> pair_lt(a, c),
        !pair_lt(a, a),
{
    if text::lex_lt(a.0, b.0) && text::lex_lt(b.0, c.0) {
        text::lemma_lex_transitive(a.0, b.0, c.0);
    }
    if text::lex_lt(a.1, b.1) && text::lex_lt(b.1, c.1) {
        text::lemma_lex_transitive(a.1, b.1, c.1);
    }
    text::lemma_lex_irreflexive(a.0);
    text::lemma_lex_irreflexive(a.1);
}

fn is_pair_lt(a: &(String, String), b: &(String, String)) -> (r: bool)
    ensures
        r == pair_lt((a.0@, a.1@), (b.0@, b.1@)),
{
    text::str_lt(a.0.as_str(), b.0.as_str()) || (text::str_eq(a.0.as_str(), b.0.as_str())
        && text::str_lt(a.1.as_str(), b.1.as_str()))
}

/// Puts a pair at its place in a sorted list.
fn insert_pair(v: &mut Vec<(String, String)>, p: (String, String))
    requires
        pairs_sorted(entries(old(v)@)),
    ensures
        pairs_sorted(entries(final(v)@)),
        entries(final(v)@).to_multiset() == entries(old(v)@).to_multiset().insert((p.0@, p.1@)),
{
    let ghost prev = entries(v@);
    let ghost e = (p.0@, p.1@);
    let mut i: usize = 0;
    while i < v.len() && !is_pair_lt(&p, &v[i])
        invariant
            i <= v@.len(),
            prev == entries(v@),
            e == (p.0@, p.1@),
            forall|k: int| 0 <= k < i ==> !pair_lt(e, #[trigger] prev[k]),
        decreases v@.len() - i,
    {
        i += 1;
    }
    v.insert(i, p);
    proof {
        let now = entries(v@);
        assert(now =~= prev.insert(i as int, e));
        vstd::seq_lib::to_multiset_insert(prev, i as int, e);
        assert forall|k: int| i <= k < prev.len() implies !pair_lt(#[trigger] prev[k], e) by {
            lemma_pair_order(prev[k], e, prev[i as int]);
        }
    }
}

/// `out` is what is left of the included networks once the excluded ones are punched out: each in
/// text form with its label, in the order of strings.
pub open spec fn is_resolution(
    included: Seq<(Cidr, Seq<char>)>,
    excs: Seq<Cidr>,
    out: Seq<(Seq<char>, Seq<char>)>,
) -> bool {
    &&& pairs_sorted(out)
    &&& out.to_multiset() == left_over(included, excs, included.len() as int).to_multiset()
}

/// `excs` is what the networks of an aggregate collapse to, whatever their labels.
pub open spec fn are_exclusions(agg: Seq<(Cidr, Seq<char>)>, excs: Seq<Cidr>) -> bool {
    cidr::collapses_to(Seq::new(agg.len(), |i: int| agg[i].0), excs)
}

/// `out` is what including one set of findings and excluding another gives.
pub open spec fn resolves_to(
    found: Seq<(Seq<char>, Seq<char>)>,
    excluded: Seq<(Seq<char>, Seq<char>)>,
    out: Seq<(Seq<char>, Seq<char>)>,
) -> bool {
    exists|inc: Seq<(Cidr, Seq<char>)>, exc: Seq<(Cidr, Seq<char>)>, nets: Seq<Cidr>|
        is_aggregate(found, inc) && is_aggregate(excluded, exc) && inc.len() > 0
            && #[trigger] are_exclusions(exc, nets) && #[trigger] is_resolution(inc, nets, out)
}

/// Punches what was found to exclude out of what was found to include. Fails where there is
/// nothing to include: a source has likely failed, and no bypass is better than an empty one.
#[verifier::loop_isolation(false)]
pub fn resolve(found: &Vec<(String, String)>, excluded: &Vec<(String, String)>) -> (r: Result<
    Vec<(String, String)>,
    SourceError,
>)
    ensures
        match r {
            Ok(out) => resolves_to(entries(found@), entries(excluded@), entries(out@)),
            Err(e) => e == SourceError::NoPrefixes && forall|c: Cidr, l: Seq<char>|
                !#[trigger] remains(entries(found@), c, l),
        },
{
    let included = dedupe_and_aggregate(found);
    let ghost inc = routes(included@);
    if included.len() == 0 {
        proof {
            assert forall|c: Cidr, l: Seq<char>| !#[trigger] remains(entries(found@), c, l) by {
                assert(!inc.contains((c, l)));
            }
        }
        return Err(SourceError::NoPrefixes);
    }
    let ex = dedupe_and_aggregate(excluded);
    let ghost exc = routes(ex@);
    let mut nets: Vec<Cidr> = Vec::new();
    let mut i: usize = 0;
    while i < ex.len()
        invariant
            i <= ex@.len(),
            nets@.len() == i,
            forall|k: int| 0 <= k < i ==> #[trigger] nets@[k] == ex@[k].0,
        decreases ex@.len() - i,
    {
        nets.push(ex[i].0);
        i += 1;
    }
    assert(nets@ =~= Seq::new(exc.len(), |i: int| exc[i].0));
    proof {
        assert forall|k: int| 0 <= k < nets@.len() implies (#[trigger] nets@[k]).1 <= 32 by {
            assert(ex@[k].0.1 <= 32);
        }
    }
    let excs = cidr::collapse(nets.as_slice());
    proof {
        cidr::lemma_collapse_bounds(nets@, excs@);
    }
    let mut out: Vec<(String, String)> = Vec::new();
    let mut j: usize = 0;
    let ghost done = Seq::<(Seq<char>, Seq<char>)>::empty();
    assert(entries(out@) =~= done);
    while j < included.len()
        invariant
            j <= included@.len(),
            done == left_over(inc, excs@, j as int),
            pairs_sorted(entries(out@)),
            entries(out@).to_multiset() == done.to_multiset(),
        decreases included@.len() - j,
    {
        assert(included@[j as int].0.1 <= 32);
        let left = punch(included[j].0, &excs);
        let label = included[j].1.as_str();
        let ghost add_all = formatted(left@, label@);
        let ghost base = done;
        let mut k: usize = 0;
        assert(base + add_all.take(0) =~= base);
        while k < left.len()
            invariant
                k <= left@.len(),
                pairs_sorted(entries(out@)),
                entries(out@).to_multiset() == (base + add_all.take(k as int)).to_multiset(),
            decreases left@.len() - k,
        {
            let p = (format_cidr(left[k]), label.to_owned());
            let ghost prev = base + add_all.take(k as int);
            insert_pair(&mut out, p);
            proof {
                prev.to_multiset_ensures();
                assert(base + add_all.take(k + 1) =~= prev.push(add_all[k as int]));
            }
            k += 1;
        }
        proof {
            assert(add_all.take(k as int) =~= add_all);
            done = left_over(inc, excs@, j + 1);
            assert(inc[j as int] == (included@[j as int].0, label@));
        }
        j += 1;
    }
    proof {
        assert(is_aggregate(entries(found@), inc));
        assert(is_aggregate(entries(excluded@), exc));
        assert(are_exclusions(exc, excs@));
        assert(is_resolution(inc, excs@, entries(out@)));
    }
    Ok(out)
}

} // verus!
