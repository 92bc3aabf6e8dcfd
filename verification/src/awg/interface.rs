//! Brings one interface's peer set to what the config asks for, against whatever the kernel
//! reports.

use crate::awg::config::{InterfaceEntry, PeerEntry};
use crate::common::addr;
use crate::common::addr::{IpAddr, SocketAddr};
use crate::common::cidr;
use crate::common::keys;
use crate::common::keys::KeyError;
use crate::common::netlink::awg;
use crate::common::netlink::awg::{AllowedIp, DeviceAttr, PeerAttr};
use crate::text;
use vstd::prelude::*;

verus! {

pub const WGPEER_F_REMOVE_ME: u32 = 1;

pub const WGPEER_F_REPLACE_ALLOWEDIPS: u32 = 2;

/// The request sets advanced security, rather than leaving it as it is.
pub const WGPEER_F_HAS_ADVANCED_SECURITY: u32 = 8;

pub const PERSISTENT_KEEPALIVE_SECS: u32 = 25;

/// One peer, resolved to what the kernel needs: `allowed_ips` is concrete and `endpoint` is an
/// address. Advanced security is never read back from the kernel.
#[derive(Debug, PartialEq, Eq, PartialOrd, Ord)]
pub struct Peer {
    pub public_key: String,
    pub allowed_ips: Vec<String>,
    pub endpoint: Option<String>,
    pub advanced_security: bool,
}

/// The same peer, field by field.
pub open spec fn same_peer(a: Peer, b: Peer) -> bool {
    &&& a.public_key@ == b.public_key@
    &&& text::texts(a.allowed_ips@) == text::texts(b.allowed_ips@)
    &&& text::text_opt(a.endpoint) == text::text_opt(b.endpoint)
    &&& a.advanced_security == b.advanced_security
}

impl Clone for Peer {
    fn clone(&self) -> (r: Self)
        ensures
            same_peer(r, *self),
    {
        Peer {
            public_key: self.public_key.clone(),
            allowed_ips: text::clone_texts(&self.allowed_ips),
            endpoint: match &self.endpoint {
                Some(e) => Some(e.clone()),
                None => None,
            },
            advanced_security: self.advanced_security,
        }
    }
}

/// Every IPv4 and every IPv6 address.
pub open spec fn full_tunnel() -> Seq<Seq<char>> {
    seq!["0.0.0.0/0"@, "::/0"@]
}

/// What a mesh peer accepts: everything.
pub fn full_tunnel_allowed_ips() -> (r: Vec<String>)
    ensures
        text::texts(r@) == full_tunnel(),
{
    let mut r: Vec<String> = Vec::new();
    r.push("0.0.0.0/0".to_owned());
    r.push("::/0".to_owned());
    assert(text::texts(r@) =~= full_tunnel());
    r
}

/// The CIDRs of a config entry: its own, or everything.
pub open spec fn entry_allowed_ips(entry: PeerEntry) -> Seq<Seq<char>> {
    match entry.allowed_ips {
        Some(ips) => text::texts(ips@),
        None => full_tunnel(),
    }
}

/// `peer` is the config entry with the given resolved endpoint.
pub open spec fn is_resolved(entry: PeerEntry, endpoint: Option<Seq<char>>, peer: Peer) -> bool {
    &&& peer.public_key@ == entry.public_key@
    &&& text::texts(peer.allowed_ips@) == entry_allowed_ips(entry)
    &&& text::text_opt(peer.endpoint) == endpoint
    &&& peer.advanced_security == entry.advanced_security
}

/// The peer that a config entry asks for, once its endpoint has been looked up.
pub fn resolve_peer(entry: &PeerEntry, endpoint: Option<String>) -> (peer: Peer)
    ensures
        is_resolved(*entry, text::text_opt(endpoint), peer),
{
    let allowed_ips = match &entry.allowed_ips {
        Some(ips) => text::clone_texts(ips),
        None => full_tunnel_allowed_ips(),
    };
    Peer {
        public_key: entry.public_key.clone(),
        allowed_ips,
        endpoint,
        advanced_security: entry.advanced_security,
    }
}

/// The CIDR as the kernel takes it.
pub fn cidr_to_allowed_ip(cidr: &str) -> (r: Result<AllowedIp, cidr::CidrError>)
    ensures
        match r {
            Ok(a) => cidr::cidr_text(cidr@) == Ok::<(IpAddr, u8), cidr::CidrError>(
                (a.addr, a.prefix),
            ),
            Err(e) => cidr::cidr_text(cidr@) == Err::<(IpAddr, u8), cidr::CidrError>(e),
        },
{
    match cidr::parse_cidr(cidr) {
        Ok((addr, prefix)) => Ok(AllowedIp { addr, prefix }),
        Err(e) => Err(e),
    }
}

/// An attribute of one allowed range in a dump.
#[derive(Clone, Copy, Debug, PartialEq, Eq, Structural)]
pub enum AllowedIpAttr {
    IpAddr(IpAddr),
    Cidr(u8),
    Other,
}

/// An attribute of one peer in a dump.
#[derive(Debug, PartialEq)]
pub enum DumpAttr {
    PublicKey([u8; 32]),
    AllowedIps(Vec<Vec<AllowedIpAttr>>),
    Endpoint(SocketAddr),
    /// Unix seconds.
    LastHandshake(i64),
    RxBytes(u64),
    TxBytes(u64),
    Other,
}

pub open spec fn first_ip(attrs: Seq<AllowedIpAttr>) -> Option<IpAddr>
    decreases attrs.len(),
{
    if attrs.len() == 0 {
        None
    } else if attrs[0] is IpAddr {
        Some(attrs[0]->IpAddr_0)
    } else {
        first_ip(attrs.skip(1))
    }
}

pub open spec fn first_prefix(attrs: Seq<AllowedIpAttr>) -> Option<u8>
    decreases attrs.len(),
{
    if attrs.len() == 0 {
        None
    } else if attrs[0] is Cidr {
        Some(attrs[0]->Cidr_0)
    } else {
        first_prefix(attrs.skip(1))
    }
}

/// A dumped range in text form; nothing where the address or the prefix length is missing.
pub open spec fn dumped_cidr(attrs: Seq<AllowedIpAttr>) -> Option<Seq<char>> {
    match (first_ip(attrs), first_prefix(attrs)) {
        (Some(a), Some(p)) => Some(cidr::cidr_format(a, p)),
        _ => None,
    }
}

/// The text form of a dumped range.
pub fn allowed_ip_to_cidr(attrs: &Vec<AllowedIpAttr>) -> (r: Option<String>)
    ensures
        text::text_opt(r) == dumped_cidr(attrs@),
{
    let mut ip: Option<IpAddr> = None;
    let mut prefix: Option<u8> = None;
    let mut i: usize = 0;
    assert(attrs@.skip(0) =~= attrs@);
    while i < attrs.len()
        invariant
            i <= attrs@.len(),
            first_ip(attrs@) == (if ip is Some {
                ip
            } else {
                first_ip(attrs@.skip(i as int))
            }),
            first_prefix(attrs@) == (if prefix is Some {
                prefix
            } else {
                first_prefix(attrs@.skip(i as int))
            }),
        decreases attrs@.len() - i,
    {
        assert(attrs@.skip(i as int).skip(1) =~= attrs@.skip(i + 1));
        match attrs[i] {
            AllowedIpAttr::IpAddr(a) => {
                if ip.is_none() {
                    ip = Some(a);
                }
            },
            AllowedIpAttr::Cidr(p) => {
                if prefix.is_none() {
                    prefix = Some(p);
                }
            },
            AllowedIpAttr::Other => {},
        }
        i += 1;
    }
    match (ip, prefix) {
        (Some(a), Some(p)) => Some(cidr::format_cidr(a, p)),
        _ => None,
    }
}

/// The ranges of a dump in text form, without those that are incomplete.
pub open spec fn dumped_cidrs(ranges: Seq<Vec<AllowedIpAttr>>) -> Seq<Seq<char>>
    decreases ranges.len(),
{
    if ranges.len() == 0 {
        Seq::empty()
    } else {
        let rest = dumped_cidrs(ranges.drop_last());
        match dumped_cidr(ranges.last()@) {
            Some(c) => rest.push(c),
            None => rest,
        }
    }
}

fn cidrs_of(ranges: &Vec<Vec<AllowedIpAttr>>) -> (r: Vec<String>)
    ensures
        text::texts(r@) == dumped_cidrs(ranges@),
{
    let mut r: Vec<String> = Vec::new();
    let mut i: usize = 0;
    assert(text::texts(r@) =~= dumped_cidrs(ranges@.take(0)));
    while i < ranges.len()
        invariant
            i <= ranges@.len(),
            text::texts(r@) == dumped_cidrs(ranges@.take(i as int)),
        decreases ranges@.len() - i,
    {
        assert(ranges@.take(i + 1).drop_last() =~= ranges@.take(i as int));
        if let Some(c) = allowed_ip_to_cidr(&ranges[i]) {
            let ghost prev = r@;
            r.push(c);
            assert(text::texts(r@) =~= text::texts(prev).push(c@));
        }
        i += 1;
    }
    assert(ranges@.take(i as int) =~= ranges@);
    r
}

/// The last public key among the first attributes of a dumped peer.
pub open spec fn dumped_key(attrs: Seq<DumpAttr>) -> Option<[u8; 32]>
    decreases attrs.len(),
{
    if attrs.len() == 0 {
        None
    } else if attrs.last() is PublicKey {
        Some(attrs.last()->PublicKey_0)
    } else {
        dumped_key(attrs.drop_last())
    }
}

pub open spec fn dumped_allowed_ips(attrs: Seq<DumpAttr>) -> Seq<Seq<char>>
    decreases attrs.len(),
{
    if attrs.len() == 0 {
        Seq::empty()
    } else if attrs.last() is AllowedIps {
        dumped_cidrs(attrs.last()->AllowedIps_0@)
    } else {
        dumped_allowed_ips(attrs.drop_last())
    }
}

pub open spec fn dumped_endpoint(attrs: Seq<DumpAttr>) -> Option<Seq<char>>
    decreases attrs.len(),
{
    if attrs.len() == 0 {
        None
    } else if attrs.last() is Endpoint {
        Some(addr::socket_format(attrs.last()->Endpoint_0))
    } else {
        dumped_endpoint(attrs.drop_last())
    }
}

/// `peer` is what the kernel reports in `attrs`.
pub open spec fn is_dumped(attrs: Seq<DumpAttr>, peer: Peer) -> bool {
    &&& dumped_key(attrs) matches Some(k) && peer.public_key@ == keys::base64_encoded(k@)
    &&& text::texts(peer.allowed_ips@) == dumped_allowed_ips(attrs)
    &&& text::text_opt(peer.endpoint) == dumped_endpoint(attrs)
    &&& !peer.advanced_security
}

/// The peer of one dump entry; nothing where it has no key.
pub fn dumped_peer(attrs: &Vec<DumpAttr>) -> (r: Option<Peer>)
    ensures
        match r {
            Some(peer) => is_dumped(attrs@, peer),
            None => dumped_key(attrs@) is None,
        },
{
    let mut key: Option<[u8; 32]> = None;
    let mut allowed_ips: Vec<String> = Vec::new();
    let mut endpoint: Option<String> = None;
    let mut i: usize = 0;
    assert(text::texts(allowed_ips@) =~= dumped_allowed_ips(attrs@.take(0)));
    while i < attrs.len()
        invariant
            i <= attrs@.len(),
            key == dumped_key(attrs@.take(i as int)),
            text::texts(allowed_ips@) == dumped_allowed_ips(attrs@.take(i as int)),
            text::text_opt(endpoint) == dumped_endpoint(attrs@.take(i as int)),
        decreases attrs@.len() - i,
    {
        assert(attrs@.take(i + 1).drop_last() =~= attrs@.take(i as int));
        assert(attrs@.take(i + 1).last() == attrs@[i as int]);
        match &attrs[i] {
            DumpAttr::PublicKey(k) => {
                key = Some(*k);
            },
            DumpAttr::AllowedIps(ranges) => {
                allowed_ips = cidrs_of(ranges);
            },
            DumpAttr::Endpoint(a) => {
                endpoint = Some(addr::format_socket(a));
            },
            _ => {},
        }
        i += 1;
    }
    assert(attrs@.take(i as int) =~= attrs@);
    match key {
        Some(k) => Some(
            Peer {
                public_key: keys::encode_key(&k),
                allowed_ips,
                endpoint,
                advanced_security: false,
            },
        ),
        None => None,
    }
}

pub open spec fn opt_lt(a: Option<Seq<char>>, b: Option<Seq<char>>) -> bool {
    match (a, b) {
        (None, Some(_)) => true,
        (Some(x), Some(y)) => text::lex_lt(x, y),
        _ => false,
    }
}

/// The order of peers: by key, ranges, endpoint and flag.
pub open spec fn peer_lt(a: Peer, b: Peer) -> bool {
    let ai = text::texts(a.allowed_ips@);
    let bi = text::texts(b.allowed_ips@);
    let ae = text::text_opt(a.endpoint);
    let be = text::text_opt(b.endpoint);
    ||| text::lex_lt(a.public_key@, b.public_key@)
    ||| a.public_key@ == b.public_key@ && text::list_lt(ai, bi)
    ||| a.public_key@ == b.public_key@ && ai == bi && opt_lt(ae, be)
    ||| a.public_key@ == b.public_key@ && ai == bi && ae == be && !a.advanced_security
        && b.advanced_security
}

proof fn lemma_peer_transitive(a: Peer, b: Peer, c: Peer)
    requires
        peer_lt(a, b),
        peer_lt(b, c),
    ensures
        peer_lt(a, c),
{
    if text::lex_lt(a.public_key@, b.public_key@) && text::lex_lt(b.public_key@, c.public_key@) {
        text::lemma_lex_transitive(a.public_key@, b.public_key@, c.public_key@);
    }
    let ai = text::texts(a.allowed_ips@);
    let bi = text::texts(b.allowed_ips@);
    let ci = text::texts(c.allowed_ips@);
    if text::list_lt(ai, bi) && text::list_lt(bi, ci) {
        text::lemma_list_transitive(ai, bi, ci);
    }
    let ae = text::text_opt(a.endpoint);
    let be = text::text_opt(b.endpoint);
    let ce = text::text_opt(c.endpoint);
    if ae is Some && be is Some && ce is Some && text::lex_lt(ae->0, be->0) && text::lex_lt(
        be->0,
        ce->0,
    ) {
        text::lemma_lex_transitive(ae->0, be->0, ce->0);
    }
}

fn is_peer_lt(a: &Peer, b: &Peer) -> (r: bool)
    ensures
        r == peer_lt(*a, *b),
{
    if text::str_lt(a.public_key.as_str(), b.public_key.as_str()) {
        return true;
    }
    if !text::str_eq(a.public_key.as_str(), b.public_key.as_str()) {
        return false;
    }
    if text::texts_lt(&a.allowed_ips, &b.allowed_ips) {
        return true;
    }
    if !text::texts_eq(&a.allowed_ips, &b.allowed_ips) {
        return false;
    }
    let endpoint_lt = match (&a.endpoint, &b.endpoint) {
        (None, Some(_)) => true,
        (Some(x), Some(y)) => text::str_lt(x.as_str(), y.as_str()),
        _ => false,
    };
    endpoint_lt || (text::opt_eq(&a.endpoint, &b.endpoint) && !a.advanced_security
        && b.advanced_security)
}

/// Ascending in the order of peers.
pub open spec fn sorted(v: Seq<Peer>) -> bool {
    forall|i: int, j: int| 0 <= i < j < v.len() ==> !peer_lt(#[trigger] v[j], #[trigger] v[i])
}

fn insert_peer(v: &mut Vec<Peer>, p: Peer)
    requires
        sorted(old(v)@),
    ensures
        sorted(final(v)@),
        exists|i: int| 0 <= i <= old(v)@.len() && final(v)@ == #[trigger] old(v)@.insert(i, p),
{
    let mut i: usize = 0;
    while i < v.len() && !is_peer_lt(&p, &v[i])
        invariant
            i <= v@.len(),
            forall|k: int| 0 <= k < i ==> !peer_lt(p, #[trigger] v@[k]),
        decreases v@.len() - i,
    {
        i += 1;
    }
    let ghost prev = v@;
    v.insert(i, p);
    proof {
        assert(v@ =~= prev.insert(i as int, p));
        assert forall|k: int| i <= k < prev.len() implies !peer_lt(#[trigger] prev[k], p) by {
            if peer_lt(prev[k], p) {
                lemma_peer_transitive(prev[k], p, prev[i as int]);
                if k == i {
                    lemma_peer_irreflexive(prev[k]);
                }
            }
        }
    }
}

proof fn lemma_peer_irreflexive(a: Peer)
    ensures
        !peer_lt(a, a),
{
    text::lemma_lex_irreflexive(a.public_key@);
    lemma_list_irreflexive(text::texts(a.allowed_ips@));
    if a.endpoint is Some {
        text::lemma_lex_irreflexive(a.endpoint->0@);
    }
}

proof fn lemma_list_irreflexive(a: Seq<Seq<char>>)
    ensures
        !text::list_lt(a, a),
    decreases a.len(),
{
    if a.len() > 0 {
        lemma_list_irreflexive(a.skip(1));
    }
}

/// Sorts peers.
pub fn sort_peers(peers: Vec<Peer>) -> (out: Vec<Peer>)
    ensures
        sorted(out@),
        out@.to_multiset() == peers@.to_multiset(),
{
    let ghost all = peers@;
    let mut rest = peers;
    let mut out: Vec<Peer> = Vec::new();
    let n: usize = rest.len();
    let mut i: usize = 0;
    proof {
        all.to_multiset_ensures();
        out@.to_multiset_ensures();
        assert(out@.to_multiset().add(rest@.to_multiset()) =~= all.to_multiset());
    }
    while i < n
        invariant
            i <= n,
            rest@.len() == n - i,
            sorted(out@),
            out@.to_multiset().add(rest@.to_multiset()) == all.to_multiset(),
        decreases n - i,
    {
        let ghost before = rest@;
        let ghost prev = out@;
        if let Some(p) = rest.pop() {
            insert_peer(&mut out, p);
            proof {
                let k = choose|k: int|
                    0 <= k <= prev.len() && out@ == #[trigger] prev.insert(k, p);
                vstd::seq_lib::to_multiset_insert(prev, k, p);
                assert(out@.to_multiset() =~= prev.to_multiset().insert(p));
                rest@.to_multiset_ensures();
                assert(before =~= rest@.push(p));
                assert(before.to_multiset() =~= rest@.to_multiset().insert(p));
                assert(out@.to_multiset().add(rest@.to_multiset()) =~= prev.to_multiset().add(
                    before.to_multiset(),
                ));
            }
        }
        i += 1;
    }
    proof {
        assert(rest@ =~= Seq::empty());
        rest@.to_multiset_ensures();
        assert(out@.to_multiset() =~= all.to_multiset());
    }
    out
}

/// The entries of a dump that have a key.
pub open spec fn keyed(dump: Seq<Vec<DumpAttr>>) -> Seq<Vec<DumpAttr>> {
    dump.filter(|attrs: Vec<DumpAttr>| dumped_key(attrs@) is Some)
}

/// `peers` are those that a dump reports, sorted: `unsorted` lists them in dump order.
pub open spec fn are_current(dump: Seq<Vec<DumpAttr>>, unsorted: Seq<Peer>, peers: Seq<Peer>) -> bool {
    &&& unsorted.len() == keyed(dump).len()
    &&& forall|i: int|
        0 <= i < unsorted.len() ==> is_dumped(keyed(dump)[i]@, #[trigger] unsorted[i])
    &&& sorted(peers)
    &&& peers.to_multiset() == unsorted.to_multiset()
}

/// The peer set that the kernel reports, sorted.
pub fn current_peers(dump: &Vec<Vec<DumpAttr>>) -> (peers: Vec<Peer>)
    ensures
        exists|unsorted: Seq<Peer>| #[trigger] are_current(dump@, unsorted, peers@),
{
    let ghost has_key = |attrs: Vec<DumpAttr>| dumped_key(attrs@) is Some;
    let mut found: Vec<Peer> = Vec::new();
    let mut i: usize = 0;
    proof {
        reveal(Seq::filter);
    }
    while i < dump.len()
        invariant
            i <= dump@.len(),
            has_key == (|attrs: Vec<DumpAttr>| dumped_key(attrs@) is Some),
            found@.len() == dump@.take(i as int).filter(has_key).len(),
            forall|k: int|
                0 <= k < found@.len() ==> is_dumped(
                    dump@.take(i as int).filter(has_key)[k]@,
                    #[trigger] found@[k],
                ),
        decreases dump@.len() - i,
    {
        proof {
            reveal(Seq::filter);
            assert(dump@.take(i + 1).drop_last() =~= dump@.take(i as int));
        }
        if let Some(p) = dumped_peer(&dump[i]) {
            found.push(p);
        }
        i += 1;
    }
    let ghost unsorted = found@;
    let peers = sort_peers(found);
    proof {
        assert(dump@.take(i as int) =~= dump@);
        assert(are_current(dump@, unsorted, peers@));
    }
    peers
}

/// The last of the peers with a given key.
pub open spec fn find_last(peers: Seq<Peer>, key: Seq<char>) -> Option<Peer>
    decreases peers.len(),
{
    if peers.len() == 0 {
        None
    } else if peers.last().public_key@ == key {
        Some(peers.last())
    } else {
        find_last(peers.drop_last(), key)
    }
}

fn last_with_key<'a>(peers: &'a Vec<Peer>, key: &str) -> (r: Option<&'a Peer>)
    ensures
        match r {
            Some(p) => find_last(peers@, key@) == Some(*p),
            None => find_last(peers@, key@) is None,
        },
{
    let mut i: usize = peers.len();
    assert(peers@.take(i as int) =~= peers@);
    while i > 0
        invariant
            i <= peers@.len(),
            find_last(peers@, key@) == find_last(peers@.take(i as int), key@),
        decreases i,
    {
        assert(peers@.take(i as int).drop_last() =~= peers@.take(i - 1));
        if text::str_eq(peers[i - 1].public_key.as_str(), key) {
            return Some(&peers[i - 1]);
        }
        i -= 1;
    }
    None
}

proof fn lemma_find_last(peers: Seq<Peer>, key: Seq<char>)
    ensures
        find_last(peers, key) is Some <==> has_key(peers, key),
        find_last(peers, key) matches Some(p) ==> p.public_key@ == key,
    decreases peers.len(),
{
    if peers.len() > 0 {
        lemma_find_last(peers.drop_last(), key);
        if peers.last().public_key@ == key {
            assert(peers[peers.len() - 1].public_key@ == key);
        } else if has_key(peers, key) {
            let i = choose|i: int| 0 <= i < peers.len() && (#[trigger] peers[i]).public_key@ == key;
            assert(peers.drop_last()[i].public_key@ == key);
        } else if has_key(peers.drop_last(), key) {
            let i = choose|i: int|
                0 <= i < peers.drop_last().len() && (#[trigger] peers.drop_last()[i]).public_key@
                    == key;
            assert(peers[i].public_key@ == key);
        }
    }
}

pub open spec fn has_key(peers: Seq<Peer>, key: Seq<char>) -> bool {
    exists|i: int| 0 <= i < peers.len() && (#[trigger] peers[i]).public_key@ == key
}

/// Nothing to do for a peer: the same ranges in any order, the same endpoint and flag.
pub open spec fn unchanged(prev: Peer, peer: Peer) -> bool {
    &&& text::same_set(text::texts(prev.allowed_ips@), text::texts(peer.allowed_ips@))
    &&& text::text_opt(prev.endpoint) == text::text_opt(peer.endpoint)
    &&& prev.advanced_security == peer.advanced_security
}

/// The peer with this key has to be sent.
pub open spec fn needs_update(previous: Seq<Peer>, desired: Seq<Peer>, key: Seq<char>) -> bool {
    match (find_last(previous, key), find_last(desired, key)) {
        (Some(old_peer), Some(peer)) => !unchanged(old_peer, peer),
        (None, Some(_)) => true,
        _ => false,
    }
}

/// The peer with this key has to go.
pub open spec fn needs_removal(previous: Seq<Peer>, desired: Seq<Peer>, key: Seq<char>) -> bool {
    has_key(previous, key) && !has_key(desired, key)
}

/// The keys of operations.
pub open spec fn op_keys(ops: Seq<(String, Option<Peer>)>) -> Seq<Seq<char>> {
    Seq::new(ops.len(), |i: int| ops[i].0@)
}

/// `ops` holds first the peers to send and then the keys to remove, each in ascending order; `n`
/// peers are sent.
pub open spec fn is_diff(
    previous: Seq<Peer>,
    desired: Seq<Peer>,
    ops: Seq<(String, Option<Peer>)>,
    n: int,
) -> bool {
    let sent = op_keys(ops).take(n);
    let removed = op_keys(ops).skip(n);
    &&& 0 <= n <= ops.len()
    &&& text::ascending(sent)
    &&& text::ascending(removed)
    &&& forall|k: Seq<char>| #[trigger] sent.contains(k) <==> needs_update(previous, desired, k)
    &&& forall|k: Seq<char>| #[trigger] removed.contains(k) <==> needs_removal(previous, desired, k)
    &&& forall|i: int|
        0 <= i < n ==> (#[trigger] ops[i]).1 is Some && same_peer(
            ops[i].1->0,
            find_last(desired, ops[i].0@)->0,
        )
    &&& forall|i: int| n <= i < ops.len() ==> (#[trigger] ops[i]).1 is None
}

/// The operations that lead from `previous` to `desired`.
pub open spec fn are_diff(
    previous: Seq<Peer>,
    desired: Seq<Peer>,
    ops: Seq<(String, Option<Peer>)>,
) -> bool {
    exists|n: int| #[trigger] is_diff(previous, desired, ops, n)
}

fn keys_of(peers: &Vec<Peer>) -> (r: Vec<String>)
    ensures
        text::ascending(text::texts(r@)),
        forall|k: Seq<char>| #[trigger] text::texts(r@).contains(k) <==> has_key(peers@, k),
{
    let mut r: Vec<String> = Vec::new();
    let mut i: usize = 0;
    while i < peers.len()
        invariant
            i <= peers@.len(),
            text::ascending(text::texts(r@)),
            forall|k: Seq<char>| #[trigger]
                text::texts(r@).contains(k) <==> has_key(peers@.take(i as int), k),
        decreases peers@.len() - i,
    {
        let ghost prev = text::texts(r@);
        text::insert_text(&mut r, peers[i].public_key.as_str());
        proof {
            let a = peers@.take(i as int);
            let b = peers@.take(i + 1);
            assert forall|k: Seq<char>| #[trigger] text::texts(r@).contains(k) <==> has_key(b, k) by {
                if has_key(a, k) {
                    let j = choose|j: int| 0 <= j < a.len() && (#[trigger] a[j]).public_key@ == k;
                    assert(b[j].public_key@ == k);
                }
                if has_key(b, k) {
                    let j = choose|j: int| 0 <= j < b.len() && (#[trigger] b[j]).public_key@ == k;
                    if j < i {
                        assert(a[j].public_key@ == k);
                    }
                }
                assert(b[i as int].public_key@ == peers@[i as int].public_key@);
                assert(prev.contains(k) <==> has_key(a, k));
            }
        }
        i += 1;
    }
    assert(peers@.take(i as int) =~= peers@);
    r
}

fn is_unchanged(prev: &Peer, peer: &Peer) -> (r: bool)
    ensures
        r == unchanged(*prev, *peer),
{
    text::is_same_set(&prev.allowed_ips, &peer.allowed_ips) && text::opt_eq(
        &prev.endpoint,
        &peer.endpoint,
    ) && prev.advanced_security == peer.advanced_security
}

/// One entry per peer that has to change: `Some(peer)` to add or replace, `None` to remove. The
/// last of several peers with one key counts.
pub fn diff_peers(previous: &Vec<Peer>, desired: &Vec<Peer>) -> (ops: Vec<(String, Option<Peer>)>)
    ensures
        are_diff(previous@, desired@, ops@),
{
    let mut ops: Vec<(String, Option<Peer>)> = Vec::new();
    let wanted = keys_of(desired);
    let ghost w = text::texts(wanted@);
    let mut i: usize = 0;
    while i < wanted.len()
        invariant
            i <= wanted@.len(),
            w == text::texts(wanted@),
            text::ascending(w),
            forall|k: Seq<char>| #[trigger] w.contains(k) <==> has_key(desired@, k),
            text::ascending(op_keys(ops@)),
            forall|k: Seq<char>| #[trigger]
                op_keys(ops@).contains(k) <==> w.take(i as int).contains(k) && needs_update(
                    previous@,
                    desired@,
                    k,
                ),
            forall|j: int|
                0 <= j < ops@.len() ==> (#[trigger] ops@[j]).1 is Some && same_peer(
                    ops@[j].1->0,
                    find_last(desired@, ops@[j].0@)->0,
                ),
        decreases wanted@.len() - i,
    {
        let key = wanted[i].as_str();
        proof {
            assert(w.contains(w[i as int]));
            lemma_find_last(desired@, key@);
        }
        let ghost prev_ops = ops@;
        if let Some(peer) = last_with_key(desired, key) {
            let same = match last_with_key(previous, key) {
                Some(old_peer) => is_unchanged(old_peer, peer),
                None => false,
            };
            if !same {
                ops.push((key.to_owned(), Some(peer.clone())));
                proof {
                    assert(op_keys(ops@) =~= op_keys(prev_ops).push(key@));
                    lemma_push_ascending(op_keys(prev_ops), w, i as int);
                }
            }
            proof {
                lemma_contains_step(op_keys(prev_ops), op_keys(ops@), w, i as int, !same);
                assert(needs_update(previous@, desired@, key@) == !same);
            }
        }
        i += 1;
    }
    let ghost n = ops@.len() as int;
    let ghost first = ops@;
    proof {
        assert(w.take(i as int) =~= w);
        assert forall|k: Seq<char>| #[trigger] op_keys(first).contains(k) <==> needs_update(
            previous@,
            desired@,
            k,
        ) by {
            lemma_find_last(desired@, k);
        }
    }
    let present = keys_of(previous);
    let ghost p = text::texts(present@);
    let mut j: usize = 0;
    assert(op_keys(ops@).skip(n) =~= Seq::empty());
    while j < present.len()
        invariant
            j <= present@.len(),
            n == first.len(),
            n <= ops@.len(),
            ops@.take(n) == first,
            p == text::texts(present@),
            text::ascending(p),
            forall|k: Seq<char>| #[trigger] p.contains(k) <==> has_key(previous@, k),
            w == text::texts(wanted@),
            forall|k: Seq<char>| #[trigger] w.contains(k) <==> has_key(desired@, k),
            text::ascending(op_keys(ops@).skip(n)),
            forall|k: Seq<char>| #[trigger]
                op_keys(ops@).skip(n).contains(k) <==> p.take(j as int).contains(k) && !has_key(
                    desired@,
                    k,
                ),
            forall|i: int| n <= i < ops@.len() ==> (#[trigger] ops@[i]).1 is None,
        decreases present@.len() - j,
    {
        let key = present[j].as_str();
        let gone = !text::has_text(&wanted, key);
        let ghost prev_ops = ops@;
        if gone {
            ops.push((key.to_owned(), None));
            proof {
                assert(op_keys(ops@).skip(n) =~= op_keys(prev_ops).skip(n).push(key@));
                assert(ops@.take(n) =~= first);
                lemma_push_ascending(op_keys(prev_ops).skip(n), p, j as int);
            }
        }
        proof {
            assert(w.contains(key@) <==> has_key(desired@, key@));
            lemma_contains_step(
                op_keys(prev_ops).skip(n),
                op_keys(ops@).skip(n),
                p,
                j as int,
                gone,
            );
        }
        j += 1;
    }
    proof {
        assert(p.take(j as int) =~= p);
        assert(op_keys(ops@).take(n) =~= op_keys(first));
        assert forall|i: int| 0 <= i < n implies (#[trigger] ops@[i]).1 is Some && same_peer(
            ops@[i].1->0,
            find_last(desired@, ops@[i].0@)->0,
        ) by {
            assert(ops@.take(n)[i] == first[i]);
        }
        assert(is_diff(previous@, desired@, ops@, n));
    }
    ops
}

proof fn lemma_push_ascending(v: Seq<Seq<char>>, w: Seq<Seq<char>>, i: int)
    requires
        0 <= i < w.len(),
        text::ascending(v),
        text::ascending(w),
        forall|k: Seq<char>| #[trigger] v.contains(k) ==> w.take(i).contains(k),
    ensures
        text::ascending(v.push(w[i])),
{
    assert forall|a: int, b: int| 0 <= a < b < v.len() + 1 implies text::lex_lt(
        #[trigger] v.push(w[i])[a],
        #[trigger] v.push(w[i])[b],
    ) by {
        if b == v.len() {
            assert(v.contains(v[a]));
            let q = choose|q: int| 0 <= q < w.take(i).len() && w.take(i)[q] == v[a];
            assert(text::lex_lt(w[q], w[i]));
        }
    }
}

proof fn lemma_contains_step(
    v: Seq<Seq<char>>,
    v2: Seq<Seq<char>>,
    w: Seq<Seq<char>>,
    i: int,
    pushed: bool,
)
    requires
        0 <= i < w.len(),
        v2 == (if pushed {
            v.push(w[i])
        } else {
            v
        }),
    ensures
        forall|k: Seq<char>| #[trigger]
            v2.contains(k) <==> v.contains(k) || (pushed && k == w[i]),
        forall|k: Seq<char>| #[trigger]
            w.take(i + 1).contains(k) <==> w.take(i).contains(k) || k == w[i],
{
    text::lemma_take_contains(w, i);
    text::lemma_push_contains(v, w[i]);
}

/// Law: a peer set that is already as desired needs no operation.
pub proof fn no_difference_no_ops(peers: Seq<Peer>, ops: Seq<(String, Option<Peer>)>)
    requires
        are_diff(peers, peers, ops),
    ensures
        ops.len() == 0,
{
    let n = choose|n: int| #[trigger] is_diff(peers, peers, ops, n);
    if ops.len() > 0 {
        let k = op_keys(ops)[0];
        if n > 0 {
            assert(op_keys(ops).take(n)[0] == k);
            assert(op_keys(ops).take(n).contains(k));
            assert(needs_update(peers, peers, k));
        } else {
            assert(op_keys(ops).skip(n)[0] == k);
            assert(op_keys(ops).skip(n).contains(k));
            assert(needs_removal(peers, peers, k));
        }
    }
}

/// Law: a peer that is the same on both sides is never mentioned.
pub proof fn unrelated_peers_are_untouched(
    previous: Seq<Peer>,
    desired: Seq<Peer>,
    ops: Seq<(String, Option<Peer>)>,
    key: Seq<char>,
)
    requires
        are_diff(previous, desired, ops),
        find_last(previous, key) is Some,
        find_last(desired, key) is Some,
        unchanged(find_last(previous, key)->0, find_last(desired, key)->0),
    ensures
        !op_keys(ops).contains(key),
{
    let n = choose|n: int| #[trigger] is_diff(previous, desired, ops, n);
    lemma_find_last(desired, key);
    if op_keys(ops).contains(key) {
        let i = choose|i: int| 0 <= i < ops.len() && op_keys(ops)[i] == key;
        if i < n {
            assert(op_keys(ops).take(n)[i] == key);
            assert(op_keys(ops).take(n).contains(key));
        } else {
            assert(op_keys(ops).skip(n)[i - n] == key);
            assert(op_keys(ops).skip(n).contains(key));
        }
    }
}

/// An operation that can be sent: its key decodes and its ranges parse.
pub open spec fn sendable(op: (String, Option<Peer>)) -> bool {
    &&& keys::key_of(op.0@) is Ok
    &&& op.1 is Some ==> crate::awg::config::all_cidrs(op.1->0.allowed_ips@)
}

/// The ranges of a peer as the kernel takes them.
pub open spec fn parsed_ranges(ips: Seq<String>) -> Seq<AllowedIp> {
    Seq::new(
        ips.len(),
        |i: int|
            {
                let c = cidr::cidr_text(ips[i]@)->Ok_0;
                AllowedIp { addr: c.0, prefix: c.1 }
            },
    )
}

/// The attributes behind a peer's key, flags and ranges.
pub open spec fn trailing_attrs(peer: Peer) -> Seq<PeerAttr> {
    (if peer.advanced_security {
        seq![PeerAttr::AdvancedSecurity]
    } else {
        Seq::empty()
    }) + (match peer.endpoint {
        Some(e) => match addr::socket_text(e@) {
            Some(a) => seq![
                PeerAttr::Endpoint(a),
                PeerAttr::PersistentKeepaliveRange(PERSISTENT_KEEPALIVE_SECS),
            ],
            None => Seq::empty(),
        },
        None => Seq::empty(),
    })
}

/// `attrs` asks the kernel for the operation `op`.
pub open spec fn is_request(op: (String, Option<Peer>), attrs: Seq<PeerAttr>) -> bool {
    match op.1 {
        Some(peer) => {
            &&& attrs.len() == 3 + trailing_attrs(peer).len()
            &&& attrs[0] == PeerAttr::PublicKey(keys::key_of(op.0@)->Ok_0)
            &&& attrs[1] == PeerAttr::Flags(
                (WGPEER_F_REPLACE_ALLOWEDIPS + WGPEER_F_HAS_ADVANCED_SECURITY) as u32,
            )
            &&& attrs[2] is AllowedIps
            &&& attrs[2]->AllowedIps_0@ == parsed_ranges(peer.allowed_ips@)
            &&& attrs.skip(3) == trailing_attrs(peer)
        },
        None => attrs == seq![
            PeerAttr::PublicKey(keys::key_of(op.0@)->Ok_0),
            PeerAttr::Flags(WGPEER_F_REMOVE_ME),
        ],
    }
}

fn parse_ranges(ips: &Vec<String>) -> (r: Option<Vec<AllowedIp>>)
    ensures
        match r {
            Some(v) => crate::awg::config::all_cidrs(ips@) && v@ == parsed_ranges(ips@),
            None => !crate::awg::config::all_cidrs(ips@),
        },
{
    let mut v: Vec<AllowedIp> = Vec::new();
    let mut i: usize = 0;
    while i < ips.len()
        invariant
            i <= ips@.len(),
            v@.len() == i,
            forall|k: int| 0 <= k < i ==> cidr::cidr_text((#[trigger] ips@[k])@) is Ok,
            forall|k: int| 0 <= k < i ==> #[trigger] v@[k] == parsed_ranges(ips@)[k],
        decreases ips@.len() - i,
    {
        match cidr_to_allowed_ip(ips[i].as_str()) {
            Ok(a) => v.push(a),
            Err(_) => {
                assert(cidr::cidr_text(ips@[i as int]@) is Err);
                return None;
            },
        }
        i += 1;
    }
    assert(v@ =~= parsed_ranges(ips@));
    Some(v)
}

/// The request for one operation; nothing where its key or one of its ranges is malformed.
pub fn peer_request(op: &(String, Option<Peer>)) -> (r: Option<Vec<PeerAttr>>)
    ensures
        match r {
            Some(attrs) => sendable(*op) && is_request(*op, attrs@),
            None => !sendable(*op),
        },
{
    let key = match keys::decode_key(op.0.as_str()) {
        Ok(k) => k,
        Err(_) => {
            return None;
        },
    };
    let mut attrs: Vec<PeerAttr> = Vec::new();
    attrs.push(PeerAttr::PublicKey(key));
    match &op.1 {
        Some(peer) => {
            let ranges = match parse_ranges(&peer.allowed_ips) {
                Some(v) => v,
                None => {
                    return None;
                },
            };
            attrs.push(
                PeerAttr::Flags(WGPEER_F_REPLACE_ALLOWEDIPS + WGPEER_F_HAS_ADVANCED_SECURITY),
            );
            attrs.push(PeerAttr::AllowedIps(ranges));
            if peer.advanced_security {
                attrs.push(PeerAttr::AdvancedSecurity);
            }
            if let Some(e) = &peer.endpoint {
                if let Some(a) = addr::parse_socket(e.as_str()) {
                    attrs.push(PeerAttr::Endpoint(a));
                    attrs.push(PeerAttr::PersistentKeepaliveRange(PERSISTENT_KEEPALIVE_SECS));
                }
            }
            assert(attrs@.skip(3) =~= trailing_attrs(*peer));
        },
        None => {
            attrs.push(PeerAttr::Flags(WGPEER_F_REMOVE_ME));
            assert(attrs@ =~= seq![
                PeerAttr::PublicKey(keys::key_of(op.0@)->Ok_0),
                PeerAttr::Flags(WGPEER_F_REMOVE_ME),
            ]);
        },
    }
    Some(attrs)
}

/// The requests for a list of operations: one for each that can be sent, in order.
pub open spec fn are_requests(
    ops: Seq<(String, Option<Peer>)>,
    requests: Seq<Vec<PeerAttr>>,
) -> bool {
    let good = ops.filter(|op: (String, Option<Peer>)| sendable(op));
    &&& requests.len() == good.len()
    &&& forall|i: int| 0 <= i < good.len() ==> is_request(good[i], (#[trigger] requests[i])@)
}

/// The peer requests that turn `previous` into `desired`: exactly the peers that changed, without
/// those that cannot be sent. Nothing is to be sent where the list is empty.
pub fn sync_peers(previous: &Vec<Peer>, desired: &Vec<Peer>) -> (requests: Vec<Vec<PeerAttr>>)
    ensures
        exists|ops: Seq<(String, Option<Peer>)>| #[trigger]
            are_diff(previous@, desired@, ops) && are_requests(ops, requests@),
{
    let ops = diff_peers(previous, desired);
    let ghost good = |op: (String, Option<Peer>)| sendable(op);
    let mut requests: Vec<Vec<PeerAttr>> = Vec::new();
    let mut i: usize = 0;
    proof {
        reveal(Seq::filter);
    }
    while i < ops.len()
        invariant
            i <= ops@.len(),
            good == (|op: (String, Option<Peer>)| sendable(op)),
            requests@.len() == ops@.take(i as int).filter(good).len(),
            forall|k: int|
                0 <= k < requests@.len() ==> is_request(
                    ops@.take(i as int).filter(good)[k],
                    (#[trigger] requests@[k])@,
                ),
        decreases ops@.len() - i,
    {
        proof {
            reveal(Seq::filter);
            assert(ops@.take(i + 1).drop_last() =~= ops@.take(i as int));
        }
        if let Some(r) = peer_request(&ops[i]) {
            requests.push(r);
        }
        i += 1;
    }
    assert(ops@.take(i as int) =~= ops@);
    requests
}

/// What sets the device's identity: its name, key, port and obfuscation.
pub open spec fn identity(iface: InterfaceEntry) -> Seq<DeviceAttr> {
    seq![
        DeviceAttr::IfName(iface.name),
        DeviceAttr::PrivateKey(keys::key_of(iface.private_key@)->Ok_0),
        DeviceAttr::ListenPort(iface.listen_port),
    ] + awg::obfuscation_attrs(iface.obfuscation)
}

/// The request that sets the device's private key, listen port and obfuscation. Fails where the
/// private key, or else the header protection key, is not a key.
pub fn set_identity(iface: &InterfaceEntry) -> (r: Result<Vec<DeviceAttr>, KeyError>)
    ensures
        match (keys::key_of(iface.private_key@), iface.obfuscation.header_protection_key) {
            (Err(e), _) => r == Err::<Vec<DeviceAttr>, KeyError>(e),
            (Ok(_), Some(k)) => match keys::key_of(k@) {
                Ok(_) => r is Ok && r->Ok_0@ == identity(*iface),
                Err(e) => r == Err::<Vec<DeviceAttr>, KeyError>(e),
            },
            (Ok(_), None) => r is Ok && r->Ok_0@ == identity(*iface),
        },
{
    let key = match keys::decode_key(iface.private_key.as_str()) {
        Ok(k) => k,
        Err(e) => {
            return Err(e);
        },
    };
    let mut attrs: Vec<DeviceAttr> = Vec::new();
    attrs.push(DeviceAttr::IfName(iface.name.clone()));
    attrs.push(DeviceAttr::PrivateKey(key));
    attrs.push(DeviceAttr::ListenPort(iface.listen_port));
    match awg::push_obfuscation_attrs(&mut attrs, &iface.obfuscation) {
        Ok(_) => {
            assert(attrs@ =~= identity(*iface));
            Ok(attrs)
        },
        Err(e) => Err(e),
    }
}

/// What looking a peer's endpoint up has given. A peer without one is resolved to none.
#[derive(Debug, PartialEq)]
pub enum Lookup {
    Resolved(Option<String>),
    Failed,
}

/// The first of the peers with a given key.
pub open spec fn find_first(peers: Seq<Peer>, key: Seq<char>) -> Option<Peer>
    decreases peers.len(),
{
    if peers.len() == 0 {
        None
    } else if peers[0].public_key@ == key {
        Some(peers[0])
    } else {
        find_first(peers.skip(1), key)
    }
}

/// `peer` is what an entry asks for: resolved, or else as the kernel has it, so that one failed
/// lookup tears no live session down.
pub open spec fn is_desired(
    entry: PeerEntry,
    lookup: Lookup,
    previous: Seq<Peer>,
    peer: Peer,
) -> bool {
    match lookup {
        Lookup::Resolved(endpoint) => is_resolved(entry, text::text_opt(endpoint), peer),
        Lookup::Failed => find_first(previous, entry.public_key@) matches Some(p) && same_peer(
            peer,
            p,
        ),
    }
}

/// The peer that one entry asks for, given what its lookup gave; nothing for a new peer whose
/// lookup failed.
pub fn desired_peer(entry: &PeerEntry, lookup: Lookup, previous: &Vec<Peer>) -> (r: Option<Peer>)
    ensures
        match r {
            Some(peer) => is_desired(*entry, lookup, previous@, peer),
            None => lookup is Failed && !has_key(previous@, entry.public_key@),
        },
{
    match lookup {
        Lookup::Resolved(endpoint) => Some(resolve_peer(entry, endpoint)),
        Lookup::Failed => {
            let mut i: usize = 0;
            assert(previous@.skip(0) =~= previous@);
            while i < previous.len()
                invariant
                    i <= previous@.len(),
                    lookup is Failed,
                    find_first(previous@, entry.public_key@) == find_first(
                        previous@.skip(i as int),
                        entry.public_key@,
                    ),
                    forall|k: int|
                        0 <= k < i ==> (#[trigger] previous@[k]).public_key@ != entry.public_key@,
                decreases previous@.len() - i,
            {
                if text::str_eq(previous[i].public_key.as_str(), entry.public_key.as_str()) {
                    return Some(previous[i].clone());
                }
                assert(previous@.skip(i as int).skip(1) =~= previous@.skip(i + 1));
                i += 1;
            }
            None
        },
    }
}

/// A peer that is found has its key among the peers.
proof fn lemma_found_has_key(peers: Seq<Peer>, key: Seq<char>)
    requires
        find_first(peers, key) is Some,
    ensures
        has_key(peers, key),
    decreases peers.len(),
{
    if peers.len() > 0 && peers[0].public_key@ != key {
        lemma_found_has_key(peers.skip(1), key);
        let i = choose|i: int|
            0 <= i < peers.skip(1).len() && (#[trigger] peers.skip(1)[i]).public_key@ == key;
        assert(peers[i + 1].public_key@ == key);
    }
}

/// `out` are the peers that the first `n` entries ask for, in their order.
pub open spec fn are_desired(
    entries: Seq<PeerEntry>,
    lookups: Seq<Lookup>,
    previous: Seq<Peer>,
    n: int,
    out: Seq<Peer>,
) -> bool
    decreases n,
{
    if n <= 0 {
        out.len() == 0
    } else if lookups[n - 1] is Failed && !has_key(previous, entries[n - 1].public_key@) {
        are_desired(entries, lookups, previous, n - 1, out)
    } else {
        &&& out.len() > 0
        &&& is_desired(entries[n - 1], lookups[n - 1], previous, out.last())
        &&& are_desired(entries, lookups, previous, n - 1, out.drop_last())
    }
}

/// The peers that an interface is to have, given what each entry's lookup gave and what the kernel
/// has: a failed lookup keeps that peer as it is, and holds no other peer up.
pub fn desired_peers(entries: &Vec<PeerEntry>, lookups: &Vec<Lookup>, previous: &Vec<Peer>) -> (out:
    Vec<Peer>)
    requires
        lookups@.len() == entries@.len(),
    ensures
        are_desired(entries@, lookups@, previous@, entries@.len() as int, out@),
{
    let mut out: Vec<Peer> = Vec::new();
    let mut i: usize = 0;
    while i < entries.len()
        invariant
            i <= entries@.len(),
            lookups@.len() == entries@.len(),
            are_desired(entries@, lookups@, previous@, i as int, out@),
        decreases entries@.len() - i,
    {
        let lookup = match &lookups[i] {
            Lookup::Resolved(endpoint) => Lookup::Resolved(endpoint.clone()),
            Lookup::Failed => Lookup::Failed,
        };
        let ghost before = out@;
        if let Some(peer) = desired_peer(&entries[i], lookup, previous) {
            out.push(peer);
            assert(out@.drop_last() =~= before);
            proof {
                if lookup is Failed {
                    lemma_found_has_key(previous@, entries@[i as int].public_key@);
                }
            }
        }
        i += 1;
    }
    out
}

/// What to do after a device's settings were sent.
#[derive(Clone, Copy, Debug, PartialEq, Eq, Structural)]
pub enum DeviceStep {
    Done,
    /// Send them again, without the two switches that an older kernel module refuses.
    RetryWithoutSwitches,
    Fail,
}

/// Settings that are refused are sent once more without the two switches: an interface without them
/// is better than none. Attempts count from zero.
pub fn after_set_device(attempt: u8, refused: bool) -> (r: DeviceStep)
    ensures
        r == (if !refused {
            DeviceStep::Done
        } else if attempt == 0 {
            DeviceStep::RetryWithoutSwitches
        } else {
            DeviceStep::Fail
        }),
{
    if !refused {
        DeviceStep::Done
    } else if attempt == 0 {
        DeviceStep::RetryWithoutSwitches
    } else {
        DeviceStep::Fail
    }
}

} // verus!
