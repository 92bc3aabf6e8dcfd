//! Links, addresses and routes of the host, as far as decisions go: which to keep, which to remove.

use crate::common::addr::IpAddr;
use crate::common::cidr;
use crate::common::cidr::CidrError;
use crate::text;
use vstd::prelude::*;

verus! {

/// An address with a prefix length.
pub type Prefixed = (IpAddr, u8);

/// Marks the routes that the interface daemon installs: a number that no other routing daemon uses,
/// so that its own routes are known to it across a restart.
pub const ROUTE_PROTOCOL: u8 = 200;

/// Those of the first `n` entries that are not wanted, in order.
pub open spec fn unwanted(current: Seq<Prefixed>, desired: Seq<Prefixed>, n: int) -> Seq<Prefixed>
    decreases n,
{
    if n <= 0 {
        Seq::empty()
    } else if desired.contains(current[n - 1]) {
        unwanted(current, desired, n - 1)
    } else {
        unwanted(current, desired, n - 1).push(current[n - 1])
    }
}

fn has_address(v: &[Prefixed], a: Prefixed) -> (r: bool)
    ensures
        r == v@.contains(a),
{
    let mut i: usize = 0;
    while i < v.len()
        invariant
            i <= v@.len(),
            forall|k: int| 0 <= k < i ==> v@[k] != a,
        decreases v@.len() - i,
    {
        if v[i].0 == a.0 && v[i].1 == a.1 {
            assert(v@[i as int] == a);
            return true;
        }
        i += 1;
    }
    false
}

/// Which of the current addresses have to go so that only the desired ones remain.
pub fn to_remove(current: &[Prefixed], desired: &[Prefixed]) -> (r: Vec<Prefixed>)
    ensures
        r@ == unwanted(current@, desired@, current@.len() as int),
{
    let mut out: Vec<Prefixed> = Vec::new();
    let mut i: usize = 0;
    while i < current.len()
        invariant
            i <= current@.len(),
            out@ == unwanted(current@, desired@, i as int),
        decreases current@.len() - i,
    {
        if !has_address(desired, current[i]) {
            out.push(current[i]);
        }
        i += 1;
    }
    out
}

/// Law: what is removed is exactly what is there and not wanted.
pub proof fn removal_leaves_only_desired(current: Seq<Prefixed>, desired: Seq<Prefixed>, a: Prefixed)
    ensures
        unwanted(current, desired, current.len() as int).contains(a) <==> current.contains(a)
            && !desired.contains(a),
{
    lemma_unwanted(current, desired, current.len() as int, a);
    assert(current.take(current.len() as int) =~= current);
}

proof fn lemma_unwanted(current: Seq<Prefixed>, desired: Seq<Prefixed>, n: int, a: Prefixed)
    requires
        0 <= n <= current.len(),
    ensures
        unwanted(current, desired, n).contains(a) <==> current.take(n).contains(a)
            && !desired.contains(a),
    decreases n,
{
    if n > 0 {
        lemma_unwanted(current, desired, n - 1, a);
        let prev = unwanted(current, desired, n - 1);
        let last = current[n - 1];
        assert(current.take(n) =~= current.take(n - 1).push(last));
        assert(current.take(n).contains(a) <==> current.take(n - 1).contains(a) || a == last) by {
            if current.take(n - 1).contains(a) {
                let head = current.take(n - 1);
                let k = choose|k: int| 0 <= k < head.len() && head[k] == a;
                assert(current.take(n)[k] == a);
            }
            if a == last {
                assert(current.take(n)[n - 1] == a);
            }
        }
        if !desired.contains(last) {
            let next = prev.push(last);
            assert(next.contains(a) <==> prev.contains(a) || a == last) by {
                if prev.contains(a) {
                    let k = choose|k: int| 0 <= k < prev.len() && prev[k] == a;
                    assert(next[k] == a);
                }
                if a == last {
                    assert(next[prev.len() as int] == a);
                }
            }
        }
    } else {
        assert(current.take(0) =~= Seq::empty());
    }
}

/// Addresses by family: each family's only ever displace stale ones of its own.
#[derive(Debug, PartialEq)]
pub struct Families {
    pub v4: Vec<Prefixed>,
    pub v6: Vec<Prefixed>,
}

/// The first of the texts, from `i` on, that is not a CIDR.
pub open spec fn cidr_error(v: Seq<String>, i: int) -> Option<CidrError>
    decreases v.len() - i,
{
    if i >= v.len() {
        None
    } else {
        match cidr::cidr_text(v[i]@) {
            Err(e) => Some(e),
            Ok(_) => cidr_error(v, i + 1),
        }
    }
}

/// The addresses of one family among the first `n` texts.
pub open spec fn of_family(v: Seq<String>, ipv4: bool, n: int) -> Seq<Prefixed>
    decreases n,
{
    if n <= 0 {
        Seq::empty()
    } else {
        let rest = of_family(v, ipv4, n - 1);
        match cidr::cidr_text(v[n - 1]@) {
            Ok(a) => if a.0 is V4 == ipv4 {
                rest.push(a)
            } else {
                rest
            },
            Err(_) => rest,
        }
    }
}

/// Sorts addresses by family, in order.
pub fn split_families(cidrs: &Vec<String>) -> (r: Result<Families, CidrError>)
    ensures
        match r {
            Ok(f) => {
                &&& cidr_error(cidrs@, 0) is None
                &&& f.v4@ == of_family(cidrs@, true, cidrs@.len() as int)
                &&& f.v6@ == of_family(cidrs@, false, cidrs@.len() as int)
            },
            Err(e) => cidr_error(cidrs@, 0) == Some(e),
        },
{
    let mut v4: Vec<Prefixed> = Vec::new();
    let mut v6: Vec<Prefixed> = Vec::new();
    let mut i: usize = 0;
    while i < cidrs.len()
        invariant
            i <= cidrs@.len(),
            cidr_error(cidrs@, 0) == cidr_error(cidrs@, i as int),
            v4@ == of_family(cidrs@, true, i as int),
            v6@ == of_family(cidrs@, false, i as int),
        decreases cidrs@.len() - i,
    {
        match cidr::parse_cidr(cidrs[i].as_str()) {
            Ok(a) => {
                if a.0.is_ipv4() {
                    v4.push(a);
                } else {
                    v6.push(a);
                }
            },
            Err(e) => {
                return Err(e);
            },
        }
        i += 1;
    }
    Ok(Families { v4, v6 })
}

/// The kernel's answer that a link does not exist (ENODEV).
pub const NO_SUCH_LINK: i32 = -19;

/// The kernel's answer that a route does not exist (ESRCH).
pub const NO_SUCH_ROUTE: i32 = -3;

/// Looking up a link gave this error: it does not exist.
pub fn is_missing_link(code: i32) -> (r: bool)
    ensures
        r == (code == -19),
{
    code == NO_SUCH_LINK
}

/// Deleting a route gave this error: it was not there, which is as good.
pub fn is_missing_route(code: i32) -> (r: bool)
    ensures
        r == (code == -3),
{
    code == NO_SUCH_ROUTE
}

/// One attribute of a link.
#[derive(Debug, PartialEq)]
pub enum LinkAttr {
    Name(String),
    Kind(String),
    Other,
}

/// A link as the kernel lists it.
#[derive(Debug, PartialEq)]
pub struct Link {
    pub index: u32,
    pub attributes: Vec<LinkAttr>,
}

/// The first name, from `i` on.
pub open spec fn name_in(v: Seq<LinkAttr>, i: int) -> Option<Seq<char>>
    decreases v.len() - i,
{
    if i >= v.len() {
        None
    } else {
        match v[i] {
            LinkAttr::Name(s) => Some(s@),
            _ => name_in(v, i + 1),
        }
    }
}

/// The first kind, from `i` on.
pub open spec fn kind_in(v: Seq<LinkAttr>, i: int) -> Option<Seq<char>>
    decreases v.len() - i,
{
    if i >= v.len() {
        None
    } else {
        match v[i] {
            LinkAttr::Kind(s) => Some(s@),
            _ => kind_in(v, i + 1),
        }
    }
}

fn find_name(v: &Vec<LinkAttr>) -> (r: Option<&String>)
    ensures
        match r {
            Some(s) => name_in(v@, 0) == Some(s@),
            None => name_in(v@, 0) is None,
        },
{
    let mut i: usize = 0;
    while i < v.len()
        invariant
            i <= v@.len(),
            name_in(v@, 0) == name_in(v@, i as int),
        decreases v@.len() - i,
    {
        if let LinkAttr::Name(s) = &v[i] {
            return Some(s);
        }
        i += 1;
    }
    None
}

fn find_kind(v: &Vec<LinkAttr>) -> (r: Option<&String>)
    ensures
        match r {
            Some(s) => kind_in(v@, 0) == Some(s@),
            None => kind_in(v@, 0) is None,
        },
{
    let mut i: usize = 0;
    while i < v.len()
        invariant
            i <= v@.len(),
            kind_in(v@, 0) == kind_in(v@, i as int),
        decreases v@.len() - i,
    {
        if let LinkAttr::Kind(s) = &v[i] {
            return Some(s);
        }
        i += 1;
    }
    None
}

/// A link is to be listed: it has a name, and the kind asked for, if any.
pub open spec fn is_listed(l: Link, kind: Option<Seq<char>>) -> bool {
    name_in(l.attributes@, 0) is Some && (kind is None || kind_in(l.attributes@, 0) == kind)
}

/// Names and indices of the listed links among the first `n`.
pub open spec fn listed(links: Seq<Link>, kind: Option<Seq<char>>, n: int) -> Seq<(Seq<char>, u32)>
    decreases n,
{
    if n <= 0 {
        Seq::empty()
    } else if is_listed(links[n - 1], kind) {
        listed(links, kind, n - 1).push(
            (name_in(links[n - 1].attributes@, 0)->0, links[n - 1].index),
        )
    } else {
        listed(links, kind, n - 1)
    }
}

/// Names and indices.
pub open spec fn named(v: Seq<(String, u32)>) -> Seq<(Seq<char>, u32)> {
    Seq::new(v.len(), |i: int| (v[i].0@, v[i].1))
}

/// Every link of the host.
pub fn list_links(links: &Vec<Link>) -> (r: Vec<(String, u32)>)
    ensures
        named(r@) == listed(links@, None, links@.len() as int),
{
    let mut out: Vec<(String, u32)> = Vec::new();
    let mut i: usize = 0;
    assert(named(out@) =~= Seq::empty());
    while i < links.len()
        invariant
            i <= links@.len(),
            named(out@) == listed(links@, None, i as int),
        decreases links@.len() - i,
    {
        if let Some(name) = find_name(&links[i].attributes) {
            let ghost prev = named(out@);
            out.push((name.clone(), links[i].index));
            assert(named(out@) =~= prev.push((name@, links@[i as int].index)));
        }
        i += 1;
    }
    out
}

/// Every link of the host of a kind.
pub fn list_links_by_kind(links: &Vec<Link>, kind: &str) -> (r: Vec<(String, u32)>)
    ensures
        named(r@) == listed(links@, Some(kind@), links@.len() as int),
{
    let mut out: Vec<(String, u32)> = Vec::new();
    let mut i: usize = 0;
    assert(named(out@) =~= Seq::empty());
    while i < links.len()
        invariant
            i <= links@.len(),
            named(out@) == listed(links@, Some(kind@), i as int),
        decreases links@.len() - i,
    {
        if let (Some(name), Some(k)) = (
            find_name(&links[i].attributes),
            find_kind(&links[i].attributes),
        ) {
            if text::str_eq(k.as_str(), kind) {
                let ghost prev = named(out@);
                out.push((name.clone(), links[i].index));
                assert(named(out@) =~= prev.push((name@, links@[i as int].index)));
            }
        }
        i += 1;
    }
    out
}

/// One attribute of a route.
#[derive(Clone, Copy, Debug, PartialEq, Eq, Structural)]
pub enum RouteAttr {
    OutputInterface(u32),
    Destination(IpAddr),
    Other,
}

/// A route as the kernel lists it.
#[derive(Debug, PartialEq)]
pub struct KernelRoute {
    pub protocol: u8,
    pub prefix_len: u8,
    pub attributes: Vec<RouteAttr>,
}

/// The first output interface, from `i` on.
pub open spec fn interface_in(v: Seq<RouteAttr>, i: int) -> Option<u32>
    decreases v.len() - i,
{
    if i >= v.len() {
        None
    } else {
        match v[i] {
            RouteAttr::OutputInterface(n) => Some(n),
            _ => interface_in(v, i + 1),
        }
    }
}

/// The first destination, from `i` on.
pub open spec fn destination_in(v: Seq<RouteAttr>, i: int) -> Option<IpAddr>
    decreases v.len() - i,
{
    if i >= v.len() {
        None
    } else {
        match v[i] {
            RouteAttr::Destination(a) => Some(a),
            _ => destination_in(v, i + 1),
        }
    }
}

fn interface_of(route: &KernelRoute) -> (r: Option<u32>)
    ensures
        r == interface_in(route.attributes@, 0),
{
    let mut i: usize = 0;
    while i < route.attributes.len()
        invariant
            i <= route.attributes@.len(),
            interface_in(route.attributes@, 0) == interface_in(route.attributes@, i as int),
        decreases route.attributes@.len() - i,
    {
        if let RouteAttr::OutputInterface(n) = route.attributes[i] {
            return Some(n);
        }
        i += 1;
    }
    None
}

/// Where a route leads, with the prefix length of the route.
pub fn destination_of(route: &KernelRoute) -> (r: Option<Prefixed>)
    ensures
        r == (match destination_in(route.attributes@, 0) {
            Some(a) => Some((a, route.prefix_len)),
            None => None,
        }),
{
    let mut i: usize = 0;
    while i < route.attributes.len()
        invariant
            i <= route.attributes@.len(),
            destination_in(route.attributes@, 0) == destination_in(route.attributes@, i as int),
        decreases route.attributes@.len() - i,
    {
        if let RouteAttr::Destination(a) = route.attributes[i] {
            return Some((a, route.prefix_len));
        }
        i += 1;
    }
    None
}

/// A route is one that the daemon installed on an interface.
pub open spec fn is_own(route: KernelRoute, index: u32, protocol: u8) -> bool {
    route.protocol == protocol && interface_in(route.attributes@, 0) == Some(index)
        && destination_in(route.attributes@, 0) is Some
}

/// Where those of the first `n` routes lead that the daemon installed on an interface.
pub open spec fn own_routes(routes: Seq<KernelRoute>, index: u32, protocol: u8, n: int) -> Seq<Seq<char>>
    decreases n,
{
    if n <= 0 {
        Seq::empty()
    } else if is_own(routes[n - 1], index, protocol) {
        own_routes(routes, index, protocol, n - 1).push(
            cidr::cidr_format(
                destination_in(routes[n - 1].attributes@, 0)->0,
                routes[n - 1].prefix_len,
            ),
        )
    } else {
        own_routes(routes, index, protocol, n - 1)
    }
}

/// Where the routes lead that the daemon installed on an interface: those that carry its mark.
pub fn routes_matching(routes: &Vec<KernelRoute>, index: u32, protocol: u8) -> (r: Vec<String>)
    ensures
        text::texts(r@) == own_routes(routes@, index, protocol, routes@.len() as int),
{
    let mut out: Vec<String> = Vec::new();
    let mut i: usize = 0;
    assert(text::texts(out@) =~= Seq::empty());
    while i < routes.len()
        invariant
            i <= routes@.len(),
            text::texts(out@) == own_routes(routes@, index, protocol, i as int),
        decreases routes@.len() - i,
    {
        let route = &routes[i];
        if route.protocol == protocol && interface_of(route) == Some(index) {
            if let Some((a, p)) = destination_of(route) {
                let ghost prev = text::texts(out@);
                let s = cidr::format_cidr(a, p);
                out.push(s);
                assert(text::texts(out@) =~= prev.push(s@));
            }
        }
        i += 1;
    }
    out
}

/// The interface of the first default route, from `i` on.
pub open spec fn default_in(routes: Seq<KernelRoute>, i: int) -> Option<u32>
    decreases routes.len() - i,
{
    if i >= routes.len() {
        None
    } else if routes[i].prefix_len == 0 && interface_in(routes[i].attributes@, 0) is Some {
        interface_in(routes[i].attributes@, 0)
    } else {
        default_in(routes, i + 1)
    }
}

/// The interface that the routes of one family lead out of by default.
pub fn default_iface(routes: &Vec<KernelRoute>) -> (r: Option<u32>)
    ensures
        r == default_in(routes@, 0),
{
    let mut i: usize = 0;
    while i < routes.len()
        invariant
            i <= routes@.len(),
            default_in(routes@, 0) == default_in(routes@, i as int),
        decreases routes@.len() - i,
    {
        if routes[i].prefix_len == 0 {
            if let Some(index) = interface_of(&routes[i]) {
                return Some(index);
            }
        }
        i += 1;
    }
    None
}

} // verus!
