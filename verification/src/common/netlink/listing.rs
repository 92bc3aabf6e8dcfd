//! What is read from the kernel's lists of links and routes.

use crate::common::addr::IpAddr;
use crate::common::cidr;
use crate::common::cidr::CidrError;
use crate::common::netlink::rt;
use crate::common::netlink::rt::KernelRoute;
use crate::common::netlink::rt::Link;
use crate::common::netlink::rt::LinkAttr;
use crate::common::netlink::rt::Prefixed;
use crate::common::netlink::rt::RouteAttr;
use vstd::prelude::*;

verus! {

/// The first name of a link, at `at`.
proof fn lemma_name(v: Seq<LinkAttr>, from: int, at: int)
    requires
        0 <= from <= at < v.len(),
        v[at] is Name,
        forall|k: int| from <= k < at ==> !((#[trigger] v[k]) is Name),
    ensures
        rt::name_in(v, from) == Some(v[at]->Name_0@),
    decreases at - from,
{
    if from < at {
        assert(!(v[from] is Name));
        lemma_name(v, from + 1, at);
    }
}

proof fn lemma_kind(v: Seq<LinkAttr>, from: int, at: int)
    requires
        0 <= from <= at < v.len(),
        v[at] is Kind,
        forall|k: int| from <= k < at ==> !((#[trigger] v[k]) is Kind),
    ensures
        rt::kind_in(v, from) == Some(v[at]->Kind_0@),
    decreases at - from,
{
    if from < at {
        assert(!(v[from] is Kind));
        lemma_kind(v, from + 1, at);
    }
}

/// What is listed is a link of its name and index.
proof fn lemma_listed(
    links: Seq<Link>,
    kind: Option<Seq<char>>,
    n: int,
    name: Seq<char>,
    index: u32,
)
    requires
        0 <= n <= links.len(),
    ensures
        rt::listed(links, kind, n).contains((name, index)) <==> exists|i: int|
            0 <= i < n && rt::is_listed(#[trigger] links[i], kind) && links[i].index == index
                && rt::name_in(links[i].attributes@, 0) == Some(name),
    decreases n,
{
    if n > 0 {
        lemma_listed(links, kind, n - 1, name, index);
        let before = rt::listed(links, kind, n - 1);
        let now = rt::listed(links, kind, n);
        assert(links[n - 1].index == links[n - 1].index);
        if before.contains((name, index)) {
            let k = choose|k: int| 0 <= k < before.len() && before[k] == (name, index);
            assert(now[k] == (name, index));
        }
        if now.len() > before.len() {
            assert(now[before.len() as int] == (
                rt::name_in(links[n - 1].attributes@, 0)->0,
                links[n - 1].index,
            ));
        }
        if now.contains((name, index)) {
            let k = choose|k: int| 0 <= k < now.len() && now[k] == (name, index);
            if k < before.len() {
                assert(before[k] == (name, index));
            }
        }
    }
}

/// Law: a link with a name is listed under that name and its index where its kind is the one asked
/// for, and where no kind is asked for. Of several names or kinds the first counts.
pub proof fn link_is_listed(
    links: Seq<Link>,
    wanted: Option<Seq<char>>,
    i: int,
    name: int,
    kind: int,
)
    requires
        0 <= i < links.len(),
        0 <= name < links[i].attributes@.len(),
        links[i].attributes@[name] is Name,
        forall|k: int| 0 <= k < name ==> !((#[trigger] links[i].attributes@[k]) is Name),
        wanted is Some ==> 0 <= kind < links[i].attributes@.len()
            && links[i].attributes@[kind] is Kind && links[i].attributes@[kind]->Kind_0@
            == wanted->0 && forall|k: int|
            0 <= k < kind ==> !((#[trigger] links[i].attributes@[k]) is Kind),
    ensures
        rt::listed(links, wanted, links.len() as int).contains(
            (links[i].attributes@[name]->Name_0@, links[i].index),
        ),
{
    let v = links[i].attributes@;
    lemma_name(v, 0, name);
    if wanted is Some {
        lemma_kind(v, 0, kind);
    }
    assert(rt::is_listed(links[i], wanted));
    lemma_listed(links, wanted, links.len() as int, v[name]->Name_0@, links[i].index);
}

proof fn lemma_no_kind(v: Seq<LinkAttr>, from: int, kind: Seq<char>)
    requires
        0 <= from <= v.len(),
        rt::kind_in(v, from) == Some(kind),
    ensures
        exists|k: int|
            from <= k < v.len() && (#[trigger] v[k]) is Kind && v[k]->Kind_0@ == kind,
    decreases v.len() - from,
{
    if v[from] is Kind {
        assert(v[from]->Kind_0@ == kind);
    } else {
        lemma_no_kind(v, from + 1, kind);
    }
}

proof fn lemma_has_name(v: Seq<LinkAttr>, from: int, name: Seq<char>)
    requires
        0 <= from <= v.len(),
        rt::name_in(v, from) == Some(name),
    ensures
        exists|k: int|
            from <= k < v.len() && (#[trigger] v[k]) is Name && v[k]->Name_0@ == name,
    decreases v.len() - from,
{
    if v[from] is Name {
        assert(v[from]->Name_0@ == name);
    } else {
        lemma_has_name(v, from + 1, name);
    }
}

/// Law: what is listed is a link that has this name and this index, and the kind that was asked for.
pub proof fn listed_link_is_there(
    links: Seq<Link>,
    wanted: Option<Seq<char>>,
    name: Seq<char>,
    index: u32,
)
    requires
        rt::listed(links, wanted, links.len() as int).contains((name, index)),
    ensures
        exists|i: int|
            0 <= i < links.len() && (#[trigger] links[i]).index == index && (exists|k: int|
                0 <= k < links[i].attributes@.len() && (
                #[trigger] links[i].attributes@[k]) is Name && links[i].attributes@[k]->Name_0@
                    == name) && (wanted is Some ==> exists|k: int|
                0 <= k < links[i].attributes@.len() && (
                #[trigger] links[i].attributes@[k]) is Kind && links[i].attributes@[k]->Kind_0@
                    == wanted->0),
{
    lemma_listed(links, wanted, links.len() as int, name, index);
    let i = choose|i: int|
        0 <= i < links.len() && rt::is_listed(#[trigger] links[i], wanted) && links[i].index
            == index && rt::name_in(links[i].attributes@, 0) == Some(name);
    lemma_has_name(links[i].attributes@, 0, name);
    if wanted is Some {
        lemma_no_kind(links[i].attributes@, 0, wanted->0);
    }
    assert(links[i].index == index);
}

proof fn lemma_interface(v: Seq<RouteAttr>, from: int, at: int)
    requires
        0 <= from <= at < v.len(),
        v[at] is OutputInterface,
        forall|k: int| from <= k < at ==> !((#[trigger] v[k]) is OutputInterface),
    ensures
        rt::interface_in(v, from) == Some(v[at]->OutputInterface_0),
    decreases at - from,
{
    if from < at {
        assert(!(v[from] is OutputInterface));
        lemma_interface(v, from + 1, at);
    }
}

proof fn lemma_destination(v: Seq<RouteAttr>, from: int, at: int)
    requires
        0 <= from <= at < v.len(),
        v[at] is Destination,
        forall|k: int| from <= k < at ==> !((#[trigger] v[k]) is Destination),
    ensures
        rt::destination_in(v, from) == Some(v[at]->Destination_0),
    decreases at - from,
{
    if from < at {
        assert(!(v[from] is Destination));
        lemma_destination(v, from + 1, at);
    }
}

proof fn lemma_own(routes: Seq<KernelRoute>, index: u32, protocol: u8, n: int, c: Seq<char>)
    requires
        0 <= n <= routes.len(),
    ensures
        rt::own_routes(routes, index, protocol, n).contains(c) <==> exists|i: int|
            0 <= i < n && rt::is_own(#[trigger] routes[i], index, protocol) && c
                == cidr::cidr_format(
                rt::destination_in(routes[i].attributes@, 0)->0,
                routes[i].prefix_len,
            ),
    decreases n,
{
    if n > 0 {
        lemma_own(routes, index, protocol, n - 1, c);
        let before = rt::own_routes(routes, index, protocol, n - 1);
        let now = rt::own_routes(routes, index, protocol, n);
        assert(routes[n - 1].protocol == routes[n - 1].protocol);
        if before.contains(c) {
            let k = choose|k: int| 0 <= k < before.len() && before[k] == c;
            assert(now[k] == c);
        }
        if now.len() > before.len() {
            assert(now[before.len() as int] == cidr::cidr_format(
                rt::destination_in(routes[n - 1].attributes@, 0)->0,
                routes[n - 1].prefix_len,
            ));
        }
        if now.contains(c) {
            let k = choose|k: int| 0 <= k < now.len() && now[k] == c;
            if k < before.len() {
                assert(before[k] == c);
            }
        }
    }
}

/// Law: a route that carries the daemon's mark and leads out of an interface is found installed
/// there, as its destination with its prefix length.
pub proof fn marked_route_is_found(
    routes: Seq<KernelRoute>,
    index: u32,
    protocol: u8,
    i: int,
    out: int,
    to: int,
)
    requires
        0 <= i < routes.len(),
        routes[i].protocol == protocol,
        0 <= out < routes[i].attributes@.len(),
        routes[i].attributes@[out] == RouteAttr::OutputInterface(index),
        forall|k: int|
            0 <= k < out ==> !((#[trigger] routes[i].attributes@[k]) is OutputInterface),
        0 <= to < routes[i].attributes@.len(),
        routes[i].attributes@[to] is Destination,
        forall|k: int| 0 <= k < to ==> !((#[trigger] routes[i].attributes@[k]) is Destination),
    ensures
        rt::own_routes(routes, index, protocol, routes.len() as int).contains(
            cidr::cidr_format(routes[i].attributes@[to]->Destination_0, routes[i].prefix_len),
        ),
{
    let v = routes[i].attributes@;
    lemma_interface(v, 0, out);
    lemma_destination(v, 0, to);
    assert(rt::is_own(routes[i], index, protocol));
    lemma_own(
        routes,
        index,
        protocol,
        routes.len() as int,
        cidr::cidr_format(v[to]->Destination_0, routes[i].prefix_len),
    );
}

proof fn lemma_has_interface(v: Seq<RouteAttr>, from: int, index: u32)
    requires
        0 <= from <= v.len(),
        rt::interface_in(v, from) == Some(index),
    ensures
        v.contains(RouteAttr::OutputInterface(index)),
    decreases v.len() - from,
{
    if v[from] is OutputInterface {
        assert(v[from] == RouteAttr::OutputInterface(index));
    } else {
        lemma_has_interface(v, from + 1, index);
    }
}

proof fn lemma_has_destination(v: Seq<RouteAttr>, from: int, a: IpAddr)
    requires
        0 <= from <= v.len(),
        rt::destination_in(v, from) == Some(a),
    ensures
        v.contains(RouteAttr::Destination(a)),
    decreases v.len() - from,
{
    if v[from] is Destination {
        assert(v[from] == RouteAttr::Destination(a));
    } else {
        lemma_has_destination(v, from + 1, a);
    }
}

/// Law: what is found installed on an interface is a route that carries the daemon's mark and names
/// that interface: no route of another is ever taken for the daemon's.
pub proof fn found_route_is_marked(
    routes: Seq<KernelRoute>,
    index: u32,
    protocol: u8,
    c: Seq<char>,
)
    requires
        rt::own_routes(routes, index, protocol, routes.len() as int).contains(c),
    ensures
        exists|i: int, a: IpAddr|
            0 <= i < routes.len() && (#[trigger] routes[i]).protocol == protocol
                && routes[i].attributes@.contains(RouteAttr::OutputInterface(index))
                && routes[i].attributes@.contains(RouteAttr::Destination(a)) && c == (
            #[trigger] cidr::cidr_format(a, routes[i].prefix_len)),
{
    lemma_own(routes, index, protocol, routes.len() as int, c);
    let i = choose|i: int|
        0 <= i < routes.len() && rt::is_own(#[trigger] routes[i], index, protocol) && c
            == cidr::cidr_format(
            rt::destination_in(routes[i].attributes@, 0)->0,
            routes[i].prefix_len,
        );
    let a = rt::destination_in(routes[i].attributes@, 0)->0;
    lemma_has_interface(routes[i].attributes@, 0, index);
    lemma_has_destination(routes[i].attributes@, 0, a);
    assert(c == cidr::cidr_format(a, routes[i].prefix_len));
}

/// Law: the default interface is that of the first route of prefix length zero that has one.
pub proof fn default_is_the_first_default_route(
    routes: Seq<KernelRoute>,
    from: int,
    at: int,
    out: int,
)
    requires
        0 <= from <= at < routes.len(),
        routes[at].prefix_len == 0,
        0 <= out < routes[at].attributes@.len(),
        routes[at].attributes@[out] is OutputInterface,
        forall|k: int|
            0 <= k < out ==> !((#[trigger] routes[at].attributes@[k]) is OutputInterface),
        forall|j: int| from <= j < at ==> (#[trigger] routes[j]).prefix_len != 0,
    ensures
        rt::default_in(routes, from) == Some(routes[at].attributes@[out]->OutputInterface_0),
    decreases at - from,
{
    if from < at {
        assert(routes[from].prefix_len != 0);
        default_is_the_first_default_route(routes, from + 1, at, out);
    } else {
        lemma_interface(routes[at].attributes@, 0, out);
    }
}

/// Law: without a route of prefix length zero there is no default interface.
pub proof fn no_default_route_no_interface(routes: Seq<KernelRoute>, from: int)
    requires
        0 <= from <= routes.len(),
        forall|j: int| from <= j < routes.len() ==> (#[trigger] routes[j]).prefix_len != 0,
    ensures
        rt::default_in(routes, from) is None,
    decreases routes.len() - from,
{
    if from < routes.len() {
        assert(routes[from].prefix_len != 0);
        no_default_route_no_interface(routes, from + 1);
    }
}

/// Law: the addresses of a family are those of the texts that spell one of it, and no others.
pub proof fn families_are_told_apart(v: Seq<String>, ipv4: bool, n: int, a: Prefixed)
    requires
        0 <= n <= v.len(),
    ensures
        rt::of_family(v, ipv4, n).contains(a) <==> a.0 is V4 == ipv4 && exists|i: int|
            0 <= i < n && cidr::cidr_text((#[trigger] v[i])@) == Ok::<Prefixed, CidrError>(a),
    decreases n,
{
    if n > 0 {
        families_are_told_apart(v, ipv4, n - 1, a);
        let before = rt::of_family(v, ipv4, n - 1);
        let now = rt::of_family(v, ipv4, n);
        assert(v[n - 1]@ == v[n - 1]@);
        if before.contains(a) {
            let k = choose|k: int| 0 <= k < before.len() && before[k] == a;
            assert(now[k] == a);
        }
        if now.len() > before.len() {
            assert(now[before.len() as int] == cidr::cidr_text(v[n - 1]@)->Ok_0);
        }
        if now.contains(a) {
            let k = choose|k: int| 0 <= k < now.len() && now[k] == a;
            if k < before.len() {
                assert(before[k] == a);
            }
        }
    }
}

} // verus!
