//! A pool's clients: adding and removing entries, and the configs that clients import.
//!
//! Each pool is its own document in the topology file. An edit changes that one document, and
//! leaves the rest of it as the operator wrote it.

use crate::assoc;
use crate::common::addr;
use crate::common::addr::IpAddr;
use crate::common::cidr;
use crate::common::keys;
use crate::common::keys::KeyError;
use crate::common::obfuscation::Obfuscation;
use crate::patches::mesh_config::MeshConfig;
use crate::patches::mesh_config::RoadwarriorClient;
use crate::patches::mesh_config::RoadwarriorPool;
use crate::patches::render;
use crate::taloscfg::addressing;
use crate::taloscfg::amend;
use crate::taloscfg::emit;
use crate::taloscfg::emit::EmitError;
use crate::taloscfg::existing;
use crate::taloscfg::locate;
use crate::taloscfg::locate::Found;
use crate::taloscfg::locate::Step;
use crate::taloscfg::locate::StepModel;
use crate::taloscfg::merge;
use crate::taloscfg::secrets::ResolvedSecrets;
use crate::text;
use crate::value;
use crate::value::Tree;
use crate::value::Value;
use crate::yaml;
use vstd::prelude::*;

verus! {

/// A client's private key: known where it was generated or given, else unknown.
#[derive(Debug, PartialEq)]
pub enum ClientPrivateKey {
    Known(String),
    Unknown,
}

/// Why a client cannot be added, removed or shown.
#[derive(Clone, Copy, Debug, PartialEq, Eq, Structural)]
pub enum RoadwarriorError {
    /// A private key would be generated and shown to nobody.
    KeyWouldBeLost,
    UnknownPool,
    UnknownClient,
    InvalidAllowedIp,
    DuplicateName,
    DuplicateKey,
    NoPoolKey,
    InvalidPoolKey(KeyError),
    UnknownNode,
    /// A node of the pool has no endpoint.
    NoEndpoint,
    /// The endpoint asked for is not one of the pool's nodes.
    NotAnEndpoint,
    InvalidPrivateKey(KeyError),
    /// The private key given is not the client's.
    KeyMismatch,
    /// The pool's document does not take the client.
    NotAdded(EmitError),
    /// The client could not be taken out of the pool's document.
    NotRemoved,
}

/// There is nothing of this name; these names there are.
#[derive(Debug, PartialEq)]
pub struct UnknownName {
    pub known: Vec<String>,
}

/// The names of pools.
pub open spec fn pool_names(v: Seq<RoadwarriorPool>) -> Seq<Seq<char>> {
    Seq::new(v.len(), |i: int| v[i].name@)
}

/// The names of clients.
pub open spec fn client_names(v: Seq<RoadwarriorClient>) -> Seq<Seq<char>> {
    Seq::new(v.len(), |i: int| v[i].name@)
}

fn list_pools(v: &Vec<RoadwarriorPool>) -> (r: Vec<String>)
    ensures
        text::texts(r@) == pool_names(v@),
{
    let mut known: Vec<String> = Vec::new();
    let mut k: usize = 0;
    while k < v.len()
        invariant
            k <= v@.len(),
            known@.len() == k,
            forall|j: int| 0 <= j < k ==> (#[trigger] known@[j])@ == v@[j].name@,
        decreases v@.len() - k,
    {
        known.push(v[k].name.clone());
        k += 1;
    }
    assert(text::texts(known@) =~= pool_names(v@));
    known
}

fn list_clients(v: &Vec<RoadwarriorClient>) -> (r: Vec<String>)
    ensures
        text::texts(r@) == client_names(v@),
{
    let mut known: Vec<String> = Vec::new();
    let mut k: usize = 0;
    while k < v.len()
        invariant
            k <= v@.len(),
            known@.len() == k,
            forall|j: int| 0 <= j < k ==> (#[trigger] known@[j])@ == v@[j].name@,
        decreases v@.len() - k,
    {
        known.push(v[k].name.clone());
        k += 1;
    }
    assert(text::texts(known@) =~= client_names(v@));
    known
}

/// Finds a pool by its name. An error gives the names that there are.
#[verifier::loop_isolation(false)]
pub fn find_pool<'a>(mesh: &'a MeshConfig, if_: &str) -> (r: Result<
    &'a RoadwarriorPool,
    UnknownName,
>)
    ensures
        match r {
            Ok(p) => existing::pool_named(mesh.roadwarriors@, if_@, 0) == Some(*p),
            Err(e) => existing::pool_named(mesh.roadwarriors@, if_@, 0) is None && text::texts(
                e.known@,
            ) == pool_names(mesh.roadwarriors@),
        },
{
    let pools = &mesh.roadwarriors;
    let mut i: usize = 0;
    while i < pools.len()
        invariant
            i <= pools@.len(),
            existing::pool_named(pools@, if_@, 0) == existing::pool_named(pools@, if_@, i as int),
        decreases pools@.len() - i,
    {
        if text::str_eq(pools[i].name.as_str(), if_) {
            return Ok(&pools[i]);
        }
        i += 1;
    }
    Err(UnknownName { known: list_pools(pools) })
}

/// The position of the first client, from `i` on, of this name.
pub open spec fn client_named(v: Seq<RoadwarriorClient>, name: Seq<char>, i: int) -> Option<int>
    decreases v.len() - i,
{
    if i >= v.len() {
        None
    } else if v[i].name@ == name {
        Some(i)
    } else {
        client_named(v, name, i + 1)
    }
}

/// Finds a client of a pool by its name. An error gives the names that there are.
#[verifier::loop_isolation(false)]
pub fn find_client_index(pool: &RoadwarriorPool, name: &str) -> (r: Result<usize, UnknownName>)
    ensures
        match r {
            Ok(i) => client_named(pool.clients@, name@, 0) == Some(i as int) && i
                < pool.clients@.len(),
            Err(e) => client_named(pool.clients@, name@, 0) is None && text::texts(e.known@)
                == client_names(pool.clients@),
        },
{
    let v = &pool.clients;
    let mut i: usize = 0;
    while i < v.len()
        invariant
            i <= v@.len(),
            client_named(v@, name@, 0) == client_named(v@, name@, i as int),
        decreases v@.len() - i,
    {
        if text::str_eq(v[i].name.as_str(), name) {
            return Ok(i);
        }
        i += 1;
    }
    Err(UnknownName { known: list_clients(v) })
}

/// An address a client may use: with the prefix it has, else as a single host.
pub open spec fn allowed_ip_text(s: Seq<char>) -> Option<Seq<char>> {
    let t = text::trimmed(s);
    if t.contains('/') {
        match cidr::cidr_text(t) {
            Ok((a, p)) => Some(cidr::cidr_format(a, p)),
            Err(_) => None,
        }
    } else {
        match addr::ip_text(t) {
            Some(a) => Some(
                cidr::cidr_format(
                    a,
                    if a is V4 {
                        32
                    } else {
                        128
                    },
                ),
            ),
            None => None,
        }
    }
}

fn allowed_ip(s: &[char]) -> (r: Option<String>)
    ensures
        text::text_opt(r) == allowed_ip_text(s@),
{
    let v = text::trim_chars(s);
    let slash: usize = text::find(v.as_slice(), '/', 0);
    proof {
        text::lemma_find_from(v@, '/', 0);
    }
    if slash < v.len() {
        assert(v@[slash as int] == '/');
        let t = text::string_of(v.as_slice());
        match cidr::parse_cidr(t.as_str()) {
            Ok((a, p)) => Some(cidr::format_cidr(a, p)),
            Err(_) => None,
        }
    } else {
        match addr::parse_ip_chars(v.as_slice()) {
            Some(a) => {
                let p: u8 = if a.is_ipv4() {
                    32
                } else {
                    128
                };
                Some(cidr::format_cidr(a, p))
            },
            None => None,
        }
    }
}

/// Puts an address in the form that entries have: a bare one is a single host.
pub fn parse_allowed_ip(input: &str) -> (r: Result<String, RoadwarriorError>)
    ensures
        match r {
            Ok(s) => allowed_ip_text(input@) == Some(s@),
            Err(e) => e == RoadwarriorError::InvalidAllowedIp && allowed_ip_text(input@) is None,
        },
{
    let v = text::chars_of(input);
    match allowed_ip(v.as_slice()) {
        Some(s) => Ok(s),
        None => Err(RoadwarriorError::InvalidAllowedIp),
    }
}

/// The addresses in a list. `None` where one is not valid.
pub open spec fn allowed_ip_texts(parts: Seq<Seq<char>>, n: int) -> Option<Seq<Seq<char>>>
    decreases n,
{
    if n <= 0 {
        Some(Seq::empty())
    } else {
        match (allowed_ip_texts(parts, n - 1), allowed_ip_text(parts[n - 1])) {
            (Some(v), Some(s)) => Some(v.push(s)),
            _ => None,
        }
    }
}

/// The addresses in a comma-separated list.
pub open spec fn allowed_ips_in(s: Seq<char>) -> Option<Seq<Seq<char>>> {
    let parts = text::split_on(s, ',');
    allowed_ip_texts(parts, parts.len() as int)
}

proof fn lemma_ips_none(parts: Seq<Seq<char>>, n: int, m: int)
    requires
        n <= m,
        allowed_ip_texts(parts, n) is None,
    ensures
        allowed_ip_texts(parts, m) is None,
    decreases m - n,
{
    if n < m {
        lemma_ips_none(parts, n, m - 1);
    }
}

fn parse_allowed_ips(s: &str) -> (r: Option<Vec<String>>)
    ensures
        match r {
            Some(v) => allowed_ips_in(s@) == Some(text::texts(v@)),
            None => allowed_ips_in(s@) is None,
        },
{
    let chars = text::chars_of(s);
    let parts = text::split(chars.as_slice(), ',');
    let ghost p = text::split_on(s@, ',');
    let mut out: Vec<String> = Vec::new();
    let mut i: usize = 0;
    assert(text::texts(out@) =~= Seq::empty());
    while i < parts.len()
        invariant
            i <= parts@.len(),
            p == text::pieces(parts@),
            p == text::split_on(s@, ','),
            allowed_ip_texts(p, i as int) == Some(text::texts(out@)),
        decreases parts@.len() - i,
    {
        assert(p[i as int] == parts@[i as int]@);
        match allowed_ip(parts[i].as_slice()) {
            Some(ip) => {
                let ghost prev = text::texts(out@);
                out.push(ip);
                assert(text::texts(out@) =~= prev.push(ip@));
            },
            None => {
                proof {
                    lemma_ips_none(p, i + 1, p.len() as int);
                }
                return None;
            },
        }
        i += 1;
    }
    Some(out)
}

/// What stands in the way of a client of this name and key.
pub open spec fn duplicate_error(
    pool: RoadwarriorPool,
    name: Seq<char>,
    public_key: Seq<char>,
) -> Option<RoadwarriorError> {
    if exists|i: int| 0 <= i < pool.clients@.len() && (#[trigger] pool.clients@[i]).name@ == name {
        Some(RoadwarriorError::DuplicateName)
    } else if exists|i: int|
        0 <= i < pool.clients@.len() && (#[trigger] pool.clients@[i]).public_key@ == public_key {
        Some(RoadwarriorError::DuplicateKey)
    } else {
        None
    }
}

/// Refuses a client whose name or public key the pool already has.
pub fn check_not_duplicate(pool: &RoadwarriorPool, name: &str, public_key: &str) -> (r: Result<
    (),
    RoadwarriorError,
>)
    ensures
        match r {
            Ok(_) => duplicate_error(*pool, name@, public_key@) is None,
            Err(e) => duplicate_error(*pool, name@, public_key@) == Some(e),
        },
{
    let mut same_key = false;
    let mut i: usize = 0;
    while i < pool.clients.len()
        invariant
            i <= pool.clients@.len(),
            forall|k: int| 0 <= k < i ==> (#[trigger] pool.clients@[k]).name@ != name@,
            same_key == exists|k: int|
                0 <= k < i && (#[trigger] pool.clients@[k]).public_key@ == public_key@,
        decreases pool.clients@.len() - i,
    {
        if text::str_eq(pool.clients[i].name.as_str(), name) {
            return Err(RoadwarriorError::DuplicateName);
        }
        if text::str_eq(pool.clients[i].public_key.as_str(), public_key) {
            same_key = true;
        }
        i += 1;
    }
    if same_key {
        return Err(RoadwarriorError::DuplicateKey);
    }
    Ok(())
}

/// A pool's own key and obfuscation, from the resolved secrets: never a second set of values.
pub fn pool_identity(pool: &RoadwarriorPool, secrets: &ResolvedSecrets) -> (r: Result<
    (String, Obfuscation),
    RoadwarriorError,
>)
    ensures
        match r {
            Ok((key, o)) => {
                &&& assoc::value_of(secrets.roadwarrior_private_keys@, pool.name@) == Some(key)
                &&& o == render::or_unset(
                    assoc::value_of(secrets.roadwarrior_obfuscation@, pool.name@),
                )
            },
            Err(e) => e == RoadwarriorError::NoPoolKey && assoc::value_of(
                secrets.roadwarrior_private_keys@,
                pool.name@,
            ) is None,
        },
{
    let key = match assoc::lookup(&secrets.roadwarrior_private_keys, pool.name.as_str()) {
        Some(k) => k.clone(),
        None => {
            return Err(RoadwarriorError::NoPoolKey);
        },
    };
    let obfuscation = match assoc::lookup(&secrets.roadwarrior_obfuscation, pool.name.as_str()) {
        Some(o) => o.clone(),
        None => Obfuscation::default(),
    };
    Ok((key, obfuscation))
}

/// Where clients reach a pool on a node.
pub open spec fn endpoint_on(mesh: MeshConfig, host: Seq<char>, port: u16) -> Result<
    Seq<char>,
    RoadwarriorError,
> {
    let i = render::node_index(mesh.nodes@, host);
    if i >= mesh.nodes@.len() {
        Err(RoadwarriorError::UnknownNode)
    } else {
        match mesh.nodes@[i].endpoint {
            Some(e) => Ok(render::endpoint_text(e@, port)),
            None => Err(RoadwarriorError::NoEndpoint),
        }
    }
}

/// Where clients reach a pool on the first `n` of its nodes.
pub open spec fn endpoints_on(mesh: MeshConfig, pool: RoadwarriorPool, n: int) -> Result<
    Seq<Seq<char>>,
    RoadwarriorError,
>
    decreases n,
{
    if n <= 0 {
        Ok(Seq::empty())
    } else {
        match endpoints_on(mesh, pool, n - 1) {
            Err(e) => Err(e),
            Ok(v) => match endpoint_on(mesh, pool.node_hostnames@[n - 1]@, pool.listen_port) {
                Ok(e) => Ok(v.push(e)),
                Err(e) => Err(e),
            },
        }
    }
}

proof fn lemma_endpoints_err(
    mesh: MeshConfig,
    pool: RoadwarriorPool,
    n: int,
    m: int,
    e: RoadwarriorError,
)
    requires
        n <= m,
        endpoints_on(mesh, pool, n) == Err::<Seq<Seq<char>>, RoadwarriorError>(e),
    ensures
        endpoints_on(mesh, pool, m) == Err::<Seq<Seq<char>>, RoadwarriorError>(e),
    decreases m - n,
{
    if n < m {
        lemma_endpoints_err(mesh, pool, n, m - 1, e);
    }
}

proof fn lemma_endpoints_len(mesh: MeshConfig, pool: RoadwarriorPool, n: int)
    requires
        0 <= n,
        endpoints_on(mesh, pool, n) is Ok,
    ensures
        endpoints_on(mesh, pool, n)->Ok_0.len() == n,
    decreases n,
{
    if n > 0 {
        lemma_endpoints_len(mesh, pool, n - 1);
    }
}

/// The first position, from `i` on, of a name; `None` where it is not there.
pub open spec fn name_at(v: Seq<String>, name: Seq<char>, i: int) -> Option<int>
    decreases v.len() - i,
{
    if i >= v.len() {
        None
    } else if v[i]@ == name {
        Some(i)
    } else {
        name_at(v, name, i + 1)
    }
}

/// A list with one of its entries put first.
pub open spec fn promoted(v: Seq<Seq<char>>, i: int) -> Seq<Seq<char>> {
    seq![v[i]] + v.remove(i)
}

/// Where clients reach a pool, the node they are to use first put first.
pub open spec fn endpoints_of(
    mesh: MeshConfig,
    pool: RoadwarriorPool,
    primary: Option<Seq<char>>,
) -> Result<Seq<Seq<char>>, RoadwarriorError> {
    match endpoints_on(mesh, pool, pool.node_hostnames@.len() as int) {
        Err(e) => Err(e),
        Ok(v) => match primary {
            None => Ok(v),
            Some(host) => match name_at(pool.node_hostnames@, host, 0) {
                Some(i) => Ok(promoted(v, i)),
                None => Err(RoadwarriorError::NotAnEndpoint),
            },
        },
    }
}

/// A text that may be given.
pub open spec fn given(s: Option<&str>) -> Option<Seq<char>> {
    match s {
        Some(s) => Some(s@),
        None => None,
    }
}

fn find_name(v: &Vec<String>, name: &str) -> (r: Option<usize>)
    ensures
        match r {
            Some(i) => name_at(v@, name@, 0) == Some(i as int) && i < v@.len(),
            None => name_at(v@, name@, 0) is None,
        },
{
    let mut i: usize = 0;
    while i < v.len()
        invariant
            i <= v@.len(),
            name_at(v@, name@, 0) == name_at(v@, name@, i as int),
        decreases v@.len() - i,
    {
        if text::str_eq(v[i].as_str(), name) {
            return Some(i);
        }
        i += 1;
    }
    None
}

/// Where clients reach a pool: each of its nodes' endpoints, the first of them the one to use.
#[verifier::loop_isolation(false)]
pub fn pool_endpoints(mesh: &MeshConfig, pool: &RoadwarriorPool, primary: Option<&str>) -> (r:
    Result<Vec<String>, RoadwarriorError>)
    ensures
        match r {
            Ok(v) => endpoints_of(*mesh, *pool, given(primary)) == Ok::<
                Seq<Seq<char>>,
                RoadwarriorError,
            >(text::texts(v@)) && v@.len() == pool.node_hostnames@.len(),
            Err(e) => endpoints_of(*mesh, *pool, given(primary)) == Err::<
                Seq<Seq<char>>,
                RoadwarriorError,
            >(e),
        },
{
    let mut out: Vec<String> = Vec::new();
    let mut i: usize = 0;
    assert(text::texts(out@) =~= Seq::empty());
    while i < pool.node_hostnames.len()
        invariant
            i <= pool.node_hostnames@.len(),
            out@.len() == i,
            endpoints_on(*mesh, *pool, i as int) == Ok::<Seq<Seq<char>>, RoadwarriorError>(
                text::texts(out@),
            ),
        decreases pool.node_hostnames@.len() - i,
    {
        let ghost n = pool.node_hostnames@.len() as int;
        let node = match render::find_node(&mesh.nodes, pool.node_hostnames[i].as_str()) {
            Some(node) => node,
            None => {
                proof {
                    lemma_endpoints_err(*mesh, *pool, i + 1, n, RoadwarriorError::UnknownNode);
                }
                return Err(RoadwarriorError::UnknownNode);
            },
        };
        match &node.endpoint {
            Some(e) => {
                let ghost prev = text::texts(out@);
                let s = render::format_endpoint(e.as_str(), pool.listen_port);
                out.push(s);
                assert(text::texts(out@) =~= prev.push(s@));
            },
            None => {
                proof {
                    lemma_endpoints_err(*mesh, *pool, i + 1, n, RoadwarriorError::NoEndpoint);
                }
                return Err(RoadwarriorError::NoEndpoint);
            },
        }
        i += 1;
    }
    if let Some(host) = primary {
        match find_name(&pool.node_hostnames, host) {
            Some(k) => {
                let ghost before = text::texts(out@);
                let first = out.remove(k);
                out.insert(0, first);
                assert(text::texts(out@) =~= promoted(before, k as int));
            },
            None => {
                return Err(RoadwarriorError::NotAnEndpoint);
            },
        }
    }
    Ok(out)
}

/// What clients of a pool resolve names with: what the pool says, else the tenth address of the
/// service range, where clusters put their own name server. `None` where neither is there.
pub open spec fn dns_of(mesh: MeshConfig, pool: RoadwarriorPool) -> Option<Seq<char>> {
    match (pool.dns, mesh.cluster.service_subnet) {
        (Some(dns), _) => Some(dns@),
        (None, Some(net)) => match cidr::cidr_text(net@) {
            Ok((IpAddr::V4(a), p)) => Some(
                addr::ipv4_format(addressing::with_host(a as int, 32 - p, 10)),
            ),
            _ => None,
        },
        _ => None,
    }
}

/// What clients of a pool resolve names with.
pub fn resolve_dns(mesh: &MeshConfig, pool: &RoadwarriorPool) -> (r: Option<String>)
    ensures
        text::text_opt(r) == dns_of(*mesh, *pool),
{
    if let Some(dns) = &pool.dns {
        return Some(dns.clone());
    }
    match &mesh.cluster.service_subnet {
        None => None,
        Some(net) => match cidr::parse_cidr(net.as_str()) {
            Ok((IpAddr::V4(a), p)) => Some(addr::format_ipv4(addressing::ipv4_loopback(a, p, 10))),
            _ => None,
        },
    }
}

/// A line of a config, where there is a number for it.
#[verifier::opaque]
pub open spec fn number_line(label: Seq<char>, n: Option<int>) -> Seq<char> {
    match n {
        Some(n) => label + " = "@ + text::decimal(n) + "\n"@,
        None => Seq::empty(),
    }
}

fn push_number(out: &mut String, label: &str, n: Option<u32>)
    ensures
        final(out)@ == old(out)@ + number_line(label@, wide32(n)),
{
    let ghost start = out@;
    proof {
        reveal(number_line);
    }
    if let Some(n) = n {
        out.push_str(label);
        out.push_str(" = ");
        text::push_decimal(out, n as u64);
        out.push_str("\n");
        assert(out@ =~= start + number_line(label@, Some(n as int)));
    } else {
        assert(out@ =~= start + number_line(label@, None));
    }
}

/// A 16-bit number that may be given.
pub open spec fn wide(n: Option<u16>) -> Option<int> {
    match n {
        Some(n) => Some(n as int),
        None => None,
    }
}

pub open spec fn wide32(n: Option<u32>) -> Option<int> {
    match n {
        Some(n) => Some(n as int),
        None => None,
    }
}

fn widen(n: Option<u16>) -> (r: Option<u32>)
    ensures
        wide(n) == wide32(r),
{
    match n {
        Some(n) => Some(n as u32),
        None => None,
    }
}

/// The lines that AmneziaWG adds to a config: none where nothing is set.
pub open spec fn obfuscation_lines(o: Obfuscation) -> Seq<char> {
    number_line("Jc"@, wide(o.jc)) + number_line("Jmin"@, wide(o.jmin)) + number_line(
        "Jmax"@,
        wide(o.jmax),
    ) + number_line("S1"@, wide(o.s1)) + number_line("S2"@, wide(o.s2)) + number_line(
        "H1"@,
        wide32(o.h1),
    ) + number_line("H2"@, wide32(o.h2)) + number_line("H3"@, wide32(o.h3)) + number_line(
        "H4"@,
        wide32(o.h4),
    )
}

proof fn lemma_assoc(a: Seq<char>, b: Seq<char>, c: Seq<char>)
    ensures
        (a + b) + c == a + (b + c),
{
    assert((a + b) + c =~= a + (b + c));
}

fn push_obfuscation(out: &mut String, o: &Obfuscation)
    ensures
        final(out)@ == old(out)@ + obfuscation_lines(*o),
{
    let ghost start = out@;
    push_number(out, "Jc", widen(o.jc));
    let ghost l1 = number_line("Jc"@, wide(o.jc));
    push_number(out, "Jmin", widen(o.jmin));
    let ghost l2 = l1 + number_line("Jmin"@, wide(o.jmin));
    proof {
        lemma_assoc(start, l1, number_line("Jmin"@, wide(o.jmin)));
    }
    push_number(out, "Jmax", widen(o.jmax));
    let ghost l3 = l2 + number_line("Jmax"@, wide(o.jmax));
    proof {
        lemma_assoc(start, l2, number_line("Jmax"@, wide(o.jmax)));
    }
    push_number(out, "S1", widen(o.s1));
    let ghost l4 = l3 + number_line("S1"@, wide(o.s1));
    proof {
        lemma_assoc(start, l3, number_line("S1"@, wide(o.s1)));
    }
    push_number(out, "S2", widen(o.s2));
    let ghost l5 = l4 + number_line("S2"@, wide(o.s2));
    proof {
        lemma_assoc(start, l4, number_line("S2"@, wide(o.s2)));
    }
    push_number(out, "H1", o.h1);
    let ghost l6 = l5 + number_line("H1"@, wide32(o.h1));
    proof {
        lemma_assoc(start, l5, number_line("H1"@, wide32(o.h1)));
    }
    push_number(out, "H2", o.h2);
    let ghost l7 = l6 + number_line("H2"@, wide32(o.h2));
    proof {
        lemma_assoc(start, l6, number_line("H2"@, wide32(o.h2)));
    }
    push_number(out, "H3", o.h3);
    let ghost l8 = l7 + number_line("H3"@, wide32(o.h3));
    proof {
        lemma_assoc(start, l7, number_line("H3"@, wide32(o.h3)));
    }
    push_number(out, "H4", o.h4);
    let ghost l9 = l8 + number_line("H4"@, wide32(o.h4));
    proof {
        lemma_assoc(start, l8, number_line("H4"@, wide32(o.h4)));
    }
}

/// A list with commas between its entries.
pub open spec fn comma_joined(v: Seq<Seq<char>>) -> Seq<char>
    decreases v.len(),
{
    if v.len() == 0 {
        Seq::empty()
    } else if v.len() == 1 {
        v[0]
    } else {
        comma_joined(v.drop_last()) + ", "@ + v.last()
    }
}

fn push_joined(out: &mut String, v: &Vec<String>)
    ensures
        final(out)@ == old(out)@ + comma_joined(text::texts(v@)),
{
    let ghost start = out@;
    let ghost t = text::texts(v@);
    let mut i: usize = 0;
    assert(t.take(0) =~= Seq::empty());
    assert(start + comma_joined(t.take(0)) =~= start);
    while i < v.len()
        invariant
            i <= v@.len(),
            t == text::texts(v@),
            out@ == start + comma_joined(t.take(i as int)),
        decreases v@.len() - i,
    {
        assert(t.take(i + 1).drop_last() =~= t.take(i as int));
        assert(t.take(i + 1).last() == v@[i as int]@);
        if i > 0 {
            out.push_str(", ");
        }
        out.push_str(v[i].as_str());
        assert(out@ =~= start + comma_joined(t.take(i + 1)));
        i += 1;
    }
    assert(t.take(i as int) =~= t);
}

/// Further endpoints from `i` on, each ready to be commented in.
pub open spec fn alternates(v: Seq<Seq<char>>, i: int) -> Seq<char>
    decreases v.len() - i,
{
    if i >= v.len() {
        Seq::empty()
    } else {
        "#Endpoint = "@ + v[i] + "\n"@ + alternates(v, i + 1)
    }
}

/// A client's private key, where it is known.
pub open spec fn known_key(k: ClientPrivateKey) -> Option<Seq<char>> {
    match k {
        ClientPrivateKey::Known(s) => Some(s@),
        ClientPrivateKey::Unknown => None,
    }
}

/// What stands for a private key in a config.
pub open spec fn key_text(k: Option<Seq<char>>) -> Seq<char> {
    match k {
        Some(s) => s,
        None => "<enter your private key here>"@,
    }
}

pub open spec fn dns_line(dns: Option<Seq<char>>) -> Seq<char> {
    match dns {
        Some(s) => "DNS = "@ + s + "\n"@,
        None => Seq::empty(),
    }
}

/// A config that a client imports. Clients are behind NAT, so it keeps the mapping alive.
pub open spec fn client_config(
    key: Option<Seq<char>>,
    address: Seq<Seq<char>>,
    dns: Option<Seq<char>>,
    server_public_key: Seq<char>,
    endpoints: Seq<Seq<char>>,
    obfuscation: Obfuscation,
) -> Seq<char> {
    "[Interface]\nPrivateKey = "@ + key_text(key) + "\nAddress = "@ + comma_joined(address) + "\n"@
        + dns_line(dns) + obfuscation_lines(obfuscation) + "\n[Peer]\nPublicKey = "@
        + server_public_key + "\nEndpoint = "@ + endpoints[0] + "\n"@ + alternates(endpoints, 1)
        + "AllowedIPs = 0.0.0.0/0, ::/0\nPersistentKeepalive = 25\n"@
}

fn push_alternates(out: &mut String, v: &Vec<String>)
    requires
        v@.len() > 0,
    ensures
        final(out)@ == old(out)@ + alternates(text::texts(v@), 1),
{
    let ghost start = out@;
    let ghost t = text::texts(v@);
    let mut i: usize = 1;
    assert(out@ + alternates(t, 1) =~= start + alternates(t, 1));
    while i < v.len()
        invariant
            1 <= i <= v@.len(),
            t == text::texts(v@),
            out@ + alternates(t, i as int) == start + alternates(t, 1),
        decreases v@.len() - i,
    {
        let ghost prev = out@;
        out.push_str("#Endpoint = ");
        out.push_str(v[i].as_str());
        out.push_str("\n");
        assert(t[i as int] == v@[i as int]@);
        assert(out@ + alternates(t, i + 1) =~= prev + alternates(t, i as int));
        i += 1;
    }
    assert(out@ =~= out@ + alternates(t, i as int));
}

/// Renders a config that a client imports. The first endpoint is in use; the others are there to be
/// commented in.
pub fn render_client_config(
    private_key: &ClientPrivateKey,
    address: &Vec<String>,
    dns: Option<&str>,
    server_public_key: &str,
    endpoints: &Vec<String>,
    obfuscation: &Obfuscation,
) -> (r: String)
    requires
        endpoints@.len() > 0,
    ensures
        r@ == client_config(
            known_key(*private_key),
            text::texts(address@),
            given(dns),
            server_public_key@,
            text::texts(endpoints@),
            *obfuscation,
        ),
{
    let mut out = "[Interface]\nPrivateKey = ".to_owned();
    match private_key {
        ClientPrivateKey::Known(k) => out.push_str(k.as_str()),
        ClientPrivateKey::Unknown => out.push_str("<enter your private key here>"),
    }
    out.push_str("\nAddress = ");
    push_joined(&mut out, address);
    out.push_str("\n");
    let ghost head = out@;
    if let Some(dns) = dns {
        out.push_str("DNS = ");
        out.push_str(dns);
        out.push_str("\n");
        assert(out@ =~= head + dns_line(given(Some(dns))));
    } else {
        assert(out@ =~= head + dns_line(None));
    }
    push_obfuscation(&mut out, obfuscation);
    out.push_str("\n[Peer]\nPublicKey = ");
    out.push_str(server_public_key);
    out.push_str("\nEndpoint = ");
    assert(text::texts(endpoints@)[0] == endpoints@[0]@);
    out.push_str(endpoints[0].as_str());
    out.push_str("\n");
    push_alternates(&mut out, endpoints);
    out.push_str("AllowedIPs = 0.0.0.0/0, ::/0\nPersistentKeepalive = 25\n");
    out
}

/// A text as a QR code, drawn with block characters, dark on light or light on dark. Nothing where
/// the text does not fit into one.
pub uninterp spec fn qr_code(s: Seq<char>, invert: bool) -> Option<Seq<char>>;

/// A `qrcode::QrCode` of the text, rendered with `qrcode::render::unicode::Dense1x2`, its colours
/// swapped where asked for. What it gives depends on its arguments alone. Nothing more is said of
/// the code that is drawn.
#[verifier::external_body]
pub fn render_qr(config_text: &str, invert: bool) -> (r: Option<String>)
    ensures
        text::text_opt(r) == qr_code(config_text@, invert),
{
    let code = qrcode::QrCode::new(config_text).ok()?;
    let mut renderer = code.render::<qrcode::render::unicode::Dense1x2>();
    let pixels = [qrcode::render::unicode::Dense1x2::Dark, qrcode::render::unicode::Dense1x2::Light];
    renderer.dark_color(pixels[invert as usize]).light_color(pixels[!invert as usize]);
    Some(renderer.build())
}

/// The config that a client of a pool imports.
pub open spec fn config_for(
    mesh: MeshConfig,
    pool: RoadwarriorPool,
    secrets: ResolvedSecrets,
    key: Option<Seq<char>>,
    address: Seq<Seq<char>>,
    endpoint: Option<Seq<char>>,
) -> Result<Seq<char>, RoadwarriorError> {
    match assoc::value_of(secrets.roadwarrior_private_keys@, pool.name@) {
        None => Err(RoadwarriorError::NoPoolKey),
        Some(private) => match keys::public_of(private@) {
            Err(e) => Err(RoadwarriorError::InvalidPoolKey(e)),
            Ok(public) => match endpoints_of(mesh, pool, endpoint) {
                Err(e) => Err(e),
                Ok(endpoints) => Ok(
                    client_config(
                        key,
                        address,
                        dns_of(mesh, pool),
                        public,
                        endpoints,
                        render::or_unset(
                            assoc::value_of(secrets.roadwarrior_obfuscation@, pool.name@),
                        ),
                    ),
                ),
            },
        },
    }
}

fn show_config(
    mesh: &MeshConfig,
    pool: &RoadwarriorPool,
    secrets: &ResolvedSecrets,
    key: &ClientPrivateKey,
    address: &Vec<String>,
    endpoint: Option<&str>,
) -> (r: Result<String, RoadwarriorError>)
    requires
        pool.node_hostnames@.len() > 0,
    ensures
        match r {
            Ok(s) => config_for(
                *mesh,
                *pool,
                *secrets,
                known_key(*key),
                text::texts(address@),
                given(endpoint),
            ) == Ok::<Seq<char>, RoadwarriorError>(s@),
            Err(e) => config_for(
                *mesh,
                *pool,
                *secrets,
                known_key(*key),
                text::texts(address@),
                given(endpoint),
            ) == Err::<Seq<char>, RoadwarriorError>(e),
        },
{
    let (private, obfuscation) = match pool_identity(pool, secrets) {
        Ok(x) => x,
        Err(e) => {
            return Err(e);
        },
    };
    let public = match keys::public_key_from_private(private.as_str()) {
        Ok(p) => p,
        Err(e) => {
            return Err(RoadwarriorError::InvalidPoolKey(e));
        },
    };
    let endpoints = match pool_endpoints(mesh, pool, endpoint) {
        Ok(v) => v,
        Err(e) => {
            return Err(e);
        },
    };
    let dns = resolve_dns(mesh, pool);
    let dns_text: Option<&str> = match &dns {
        Some(s) => Some(s.as_str()),
        None => None,
    };
    Ok(render_client_config(key, address, dns_text, public.as_str(), &endpoints, &obfuscation))
}

/// A client's entry.
pub open spec fn client_tree(name: Seq<char>, public_key: Seq<char>, ips: Seq<Seq<char>>) -> Tree {
    Tree::Mapping(
        seq![
            (Tree::Text("name"@), Tree::Text(name)),
            (Tree::Text("public_key"@), Tree::Text(public_key)),
            (
                Tree::Text("allowed_ips"@),
                Tree::Sequence(Seq::new(ips.len(), |i: int| Tree::Text(ips[i]))),
            ),
        ],
    )
}

fn client_value(name: &str, public_key: &str, ips: &Vec<String>) -> (r: Value)
    ensures
        value::tree(r) == client_tree(name@, public_key@, text::texts(ips@)),
{
    let ghost t = text::texts(ips@);
    let mut items: Vec<Value> = Vec::new();
    let mut i: usize = 0;
    while i < ips.len()
        invariant
            i <= ips@.len(),
            items@.len() == i,
            forall|k: int| 0 <= k < i ==> value::tree(#[trigger] items@[k]) == Tree::Text(ips@[k]@),
        decreases ips@.len() - i,
    {
        items.push(Value::Text(ips[i].clone()));
        i += 1;
    }
    let list = Value::Sequence(items);
    proof {
        value::lemma_tree(list);
        assert(value::trees(items@) =~= Seq::new(t.len(), |i: int| Tree::Text(t[i])));
    }
    let mut entries: Vec<(Value, Value)> = Vec::new();
    entries.push((Value::Text("name".to_owned()), Value::Text(name.to_owned())));
    entries.push((Value::Text("public_key".to_owned()), Value::Text(public_key.to_owned())));
    entries.push((Value::Text("allowed_ips".to_owned()), list));
    let r = Value::Mapping(entries);
    proof {
        value::lemma_tree(r);
        assert(value::pairs(entries@) =~= client_tree(name@, public_key@, t)->Mapping_0);
    }
    r
}

/// The route to a pool's clients.
pub open spec fn clients_route() -> Seq<StepModel> {
    seq![StepModel::Key("clients"@)]
}

/// The clients that a pool's document lists: none where it has no list. Nothing where what it has
/// is not a list.
pub open spec fn clients_in(t: Tree) -> Option<Seq<Tree>> {
    match value::field(t, "clients"@) {
        None => Some(Seq::empty()),
        Some(v) => match value::untagged(v) {
            Tree::Null => Some(Seq::empty()),
            Tree::Sequence(items) => Some(items),
            _ => None,
        },
    }
}

/// A pool's document with something else as its clients.
pub open spec fn with_clients(t: Tree, v: Tree) -> Tree {
    value::retagged(
        t,
        Tree::Mapping(merge::inserted(value::entries_of(t), Tree::Text("clients"@), v)),
    )
}

/// What a document says has one client more, at the end, and is otherwise the same.
pub open spec fn is_added(before: Option<Tree>, after: Option<Tree>, client: Tree) -> bool {
    match (before, after) {
        (Some(b), Some(a)) => match clients_in(b) {
            Some(items) => a == with_clients(b, Tree::Sequence(items.push(client))),
            None => false,
        },
        _ => false,
    }
}

/// What a document says lacks a client, and is otherwise the same. The list may be gone with the
/// last of them.
pub open spec fn is_removed(before: Option<Tree>, after: Option<Tree>, i: int) -> bool {
    match (before, after) {
        (Some(b), Some(a)) => match clients_in(b) {
            Some(items) => 0 <= i < items.len() && (a == with_clients(
                b,
                Tree::Sequence(items.remove(i)),
            ) || (items.len() == 1 && a == with_clients(b, Tree::Null))),
            None => false,
        },
        _ => false,
    }
}

fn copy_clients(v: &Value) -> (r: Option<Vec<Value>>)
    ensures
        match r {
            Some(items) => clients_in(value::tree(*v)) == Some(value::trees(items@)),
            None => clients_in(value::tree(*v)) is None,
        },
{
    proof {
        value::lemma_field(*v, "clients"@);
    }
    let mut out: Vec<Value> = Vec::new();
    assert(value::trees(out@) =~= Seq::empty());
    match value::get(v, "clients") {
        None => Some(out),
        Some(x) => {
            proof {
                value::lemma_untagged(*x);
                value::lemma_tree(value::bare(*x));
            }
            match value::untag(x) {
                Value::Null => Some(out),
                Value::Sequence(items) => {
                    let mut i: usize = 0;
                    assert(value::trees(items@).take(0) =~= Seq::empty());
                    while i < items.len()
                        invariant
                            i <= items@.len(),
                            value::trees(out@) == value::trees(items@).take(i as int),
                        decreases items@.len() - i,
                    {
                        let ghost before = value::trees(out@);
                        let c = value::copy(&items[i]);
                        out.push(c);
                        assert(value::trees(out@) =~= before.push(value::tree(c)));
                        assert(value::trees(out@) =~= value::trees(items@).take(i + 1));
                        i += 1;
                    }
                    assert(value::trees(items@).take(i as int) =~= value::trees(items@));
                    Some(out)
                },
                _ => None,
            }
        },
    }
}

fn set_clients(v: &Value, clients: Value) -> (r: Value)
    ensures
        value::tree(r) == with_clients(value::tree(*v), value::tree(clients)),
{
    let mut entries = value::copy_entries(v);
    let key = Value::Text("clients".to_owned());
    merge::insert_entry(&mut entries, &key, clients);
    let inner = Value::Mapping(entries);
    proof {
        value::lemma_tree(inner);
    }
    value::retag(v, inner)
}

/// What a text says, where it is one document.
pub open spec fn said(v: Option<Value>) -> Option<Tree> {
    match v {
        Some(v) => Some(value::tree(v)),
        None => None,
    }
}

fn has_added(before: &Option<Value>, after: &Option<Value>, client: &Value) -> (r: bool)
    ensures
        r == is_added(said(*before), said(*after), value::tree(*client)),
{
    match (before, after) {
        (Some(b), Some(a)) => match copy_clients(b) {
            Some(items) => {
                let mut items = items;
                let ghost old_items = value::trees(items@);
                let c = value::copy(client);
                items.push(c);
                assert(value::trees(items@) =~= old_items.push(value::tree(c)));
                let list = Value::Sequence(items);
                proof {
                    value::lemma_tree(list);
                }
                let expected = set_clients(b, list);
                value::same(a, &expected)
            },
            None => false,
        },
        _ => false,
    }
}

fn has_removed(before: &Option<Value>, after: &Option<Value>, i: usize) -> (r: bool)
    ensures
        r == is_removed(said(*before), said(*after), i as int),
{
    match (before, after) {
        (Some(b), Some(a)) => match copy_clients(b) {
            Some(items) => {
                assert(value::trees(items@).len() == items@.len());
                if i >= items.len() {
                    return false;
                }
                let single = items.len() == 1;
                let mut items = items;
                let ghost old_items = value::trees(items@);
                items.remove(i);
                assert(value::trees(items@) =~= old_items.remove(i as int));
                let list = Value::Sequence(items);
                proof {
                    value::lemma_tree(list);
                }
                let expected = set_clients(b, list);
                if value::same(a, &expected) {
                    return true;
                }
                let none = set_clients(b, Value::Null);
                single && value::same(a, &none)
            },
            None => false,
        },
        _ => false,
    }
}

/// A pool's document with a client written in: at the end of its list, or as the list that it lacks.
pub open spec fn client_written(document: Seq<char>, client: Tree) -> Result<Seq<char>, EmitError> {
    match locate::place(document, clients_route()) {
        Found::Absent => amend::field_set(
            document,
            Seq::empty(),
            "clients"@,
            Tree::Sequence(seq![client]),
        ),
        _ => amend::item_added(document, clients_route(), client),
    }
}

/// A pool's document with a client added. What cannot be added so that the document says just that
/// is not added.
pub open spec fn with_client(document: Seq<char>, client: Tree) -> Result<Seq<char>, EmitError> {
    match client_written(document, client) {
        Ok(s) => if is_added(yaml::yaml_tree(document), yaml::yaml_tree(s), client) {
            Ok(s)
        } else {
            Err(EmitError::NotAdded)
        },
        Err(e) => Err(e),
    }
}

fn write_client(document: &str, client: &Value) -> (r: Result<String, EmitError>)
    ensures
        emit::same_result(r, client_written(document@, value::tree(*client))),
{
    let mut route: Vec<Step> = Vec::new();
    route.push(Step::Key("clients".to_owned()));
    assert(locate::route_model(route@) =~= clients_route());
    match locate::find(document, &route) {
        Found::Absent => {
            let mut items: Vec<Value> = Vec::new();
            items.push(value::copy(client));
            let list = Value::Sequence(items);
            proof {
                value::lemma_tree(list);
                assert(value::trees(items@) =~= seq![value::tree(*client)]);
            }
            let top: Vec<Step> = Vec::new();
            assert(locate::route_model(top@) =~= Seq::empty());
            amend::set_field(document, &top, "clients", &list)
        },
        _ => amend::add_item(document, &route, client),
    }
}

/// Adds a client to a pool's document. Everything outside its list of clients stays as it is.
pub fn add_client_to_yaml(document: &str, name: &str, public_key: &str, ips: &Vec<String>) -> (r:
    Result<String, EmitError>)
    ensures
        emit::same_result(
            r,
            with_client(document@, client_tree(name@, public_key@, text::texts(ips@))),
        ),
{
    let client = client_value(name, public_key, ips);
    match write_client(document, &client) {
        Ok(s) => {
            let before = yaml::parse(document);
            let after = yaml::parse(s.as_str());
            if has_added(&before, &after, &client) {
                Ok(s)
            } else {
                Err(EmitError::NotAdded)
            }
        },
        Err(e) => Err(e),
    }
}

/// A pool's document without a client: its entry is cut out, and nothing else. What cannot be cut
/// out so that the document says just that is not removed.
pub open spec fn without_client(document: Seq<char>, i: int) -> Option<Seq<char>> {
    match amend::item_removed(document, clients_route(), i) {
        Some(s) => if is_removed(yaml::yaml_tree(document), yaml::yaml_tree(s), i) {
            Some(s)
        } else {
            None
        },
        None => None,
    }
}

/// Takes a client out of a pool's document: line and all where the line is its own, else its entry.
pub fn remove_client_from_yaml(document: &str, client_index: usize) -> (r: Result<
    String,
    RoadwarriorError,
>)
    ensures
        match r {
            Ok(s) => without_client(document@, client_index as int) == Some(s@),
            Err(e) => e == RoadwarriorError::NotRemoved && without_client(
                document@,
                client_index as int,
            ) is None,
        },
{
    let mut route: Vec<Step> = Vec::new();
    route.push(Step::Key("clients".to_owned()));
    assert(locate::route_model(route@) =~= clients_route());
    match amend::remove_item(document, &route, client_index) {
        Some(s) => {
            let before = yaml::parse(document);
            let after = yaml::parse(s.as_str());
            if has_removed(&before, &after, client_index) {
                Ok(s)
            } else {
                Err(RoadwarriorError::NotRemoved)
            }
        },
        None => Err(RoadwarriorError::NotRemoved),
    }
}

proof fn lemma_with_clients(t: Tree, v: Tree)
    ensures
        value::field(with_clients(t, v), "clients"@) == Some(v),
{
    let entries = value::entries_of(t);
    let key = Tree::Text("clients"@);
    let new = merge::inserted(entries, key, v);
    value::lemma_retagged(t, Tree::Mapping(new));
    value::lemma_position(entries, key);
    let i = value::position(entries, key);
    assert forall|k: int| 0 <= k < i implies (#[trigger] new[k]).0 != key by {
        assert(new[k] == entries[k]);
    }
    value::lemma_position_is(new, key, i);
}

/// Law: a document with a client added lists the clients that it listed before and then that one,
/// and every character of it stays but for what stood for no list.
pub proof fn added_client_comes_last(document: Seq<char>, client: Tree)
    requires
        with_client(document, client) is Ok,
    ensures
        ({
            let before = yaml::yaml_tree(document);
            let after = yaml::yaml_tree(with_client(document, client)->Ok_0);
            &&& before is Some && after is Some
            &&& clients_in(before->0) is Some
            &&& clients_in(after->0) == Some(clients_in(before->0)->0.push(client))
            &&& amend::only_adds(document, with_client(document, client)->Ok_0)
        }),
{
    if locate::place(document, clients_route()) is Absent {
        amend::setting_keeps_the_rest(
            document,
            Seq::empty(),
            "clients"@,
            Tree::Sequence(seq![client]),
        );
    } else {
        amend::adding_keeps_the_rest(document, clients_route(), client);
    }
    let b = yaml::yaml_tree(document)->0;
    let items = clients_in(b)->0;
    lemma_with_clients(b, Tree::Sequence(items.push(client)));
}

/// Law: taking a client out leaves every character outside its entry as it was, and the document
/// lists all the other clients, in their order.
pub proof fn removed_client_leaves_the_rest(document: Seq<char>, i: int)
    requires
        without_client(document, i) is Some,
    ensures
        ({
            let s = without_client(document, i)->0;
            let (from, to) = amend::item_cut(document, clients_route(), i)->0;
            let before = yaml::yaml_tree(document);
            let after = yaml::yaml_tree(s);
            &&& 0 <= from <= to <= document.len()
            &&& s.take(from) == document.take(from)
            &&& s.skip(from) == document.skip(to)
            &&& before is Some && after is Some
            &&& clients_in(before->0) is Some && 0 <= i < clients_in(before->0)->0.len()
            &&& clients_in(after->0) == Some(clients_in(before->0)->0.remove(i))
        }),
{
    amend::removal_keeps_the_rest(document, clients_route(), i);
    let b = yaml::yaml_tree(document)->0;
    let items = clients_in(b)->0;
    lemma_with_clients(b, Tree::Sequence(items.remove(i)));
    lemma_with_clients(b, Tree::Null);
    if items.len() == 1 {
        assert(items.remove(i) =~= Seq::empty());
    }
}

/// What is asked for when a client is added.
pub struct Request {
    pub pool: Seq<char>,
    pub name: Seq<char>,
    pub allowed_ips: Seq<char>,
    pub public_key: Option<Seq<char>>,
    pub endpoint: Option<Seq<char>>,
    /// The client's config is shown.
    pub shown: bool,
}

/// The pool's document with the client added, and the client's private key and config where they
/// are shown.
pub type Added = (Seq<char>, Option<(Option<Seq<char>>, Seq<char>)>);

/// What adding a client comes to; `fresh` is the private key that it gets where it has none.
pub open spec fn added(
    mesh: MeshConfig,
    document: Seq<char>,
    secrets: ResolvedSecrets,
    q: Request,
    fresh: Seq<char>,
) -> Result<Added, RoadwarriorError> {
    let (key, public) = match q.public_key {
        Some(public) => (None::<Seq<char>>, public),
        None => (Some(fresh), keys::public_of(fresh)->Ok_0),
    };
    if q.public_key is None && !q.shown {
        Err(RoadwarriorError::KeyWouldBeLost)
    } else {
        match (existing::pool_named(mesh.roadwarriors@, q.pool, 0), allowed_ips_in(q.allowed_ips)) {
            (None, _) => Err(RoadwarriorError::UnknownPool),
            (_, None) => Err(RoadwarriorError::InvalidAllowedIp),
            (Some(pool), Some(ips)) => match duplicate_error(pool, q.name, public) {
                Some(e) => Err(e),
                None => match with_client(document, client_tree(q.name, public, ips)) {
                    Err(e) => Err(RoadwarriorError::NotAdded(e)),
                    Ok(s) => if !q.shown {
                        Ok((s, None))
                    } else {
                        match config_for(mesh, pool, secrets, key, ips, q.endpoint) {
                            Ok(text) => Ok((s, Some((key, text)))),
                            Err(e) => Err(e),
                        }
                    },
                },
            },
        }
    }
}

/// Why a request is refused, and, where it names something that is not there, the names that there
/// are instead.
#[derive(Debug, PartialEq)]
pub struct Refused {
    pub why: RoadwarriorError,
    pub known: Vec<String>,
}

/// The names that there are: pools, clients of the pool, or nodes of the pool, whichever the request
/// misses.
pub open spec fn known_names(mesh: MeshConfig, pool: Seq<char>, why: RoadwarriorError) -> Seq<
    Seq<char>,
> {
    match (why, existing::pool_named(mesh.roadwarriors@, pool, 0)) {
        (RoadwarriorError::UnknownPool, _) => pool_names(mesh.roadwarriors@),
        (RoadwarriorError::UnknownClient, Some(p)) => client_names(p.clients@),
        (RoadwarriorError::NotAnEndpoint, Some(p)) => text::texts(p.node_hostnames@),
        _ => Seq::empty(),
    }
}

fn refuse(mesh: &MeshConfig, if_: &str, why: RoadwarriorError) -> (r: Refused)
    ensures
        r.why == why,
        text::texts(r.known@) == known_names(*mesh, if_@, why),
{
    let known = match (why, find_pool(mesh, if_)) {
        (RoadwarriorError::UnknownPool, _) => list_pools(&mesh.roadwarriors),
        (RoadwarriorError::UnknownClient, Ok(pool)) => list_clients(&pool.clients),
        (RoadwarriorError::NotAnEndpoint, Ok(pool)) => text::clone_texts(&pool.node_hostnames),
        _ => {
            let none: Vec<String> = Vec::new();
            assert(text::texts(none@) =~= Seq::empty());
            none
        },
    };
    Refused { why, known }
}

/// A result of adding a client, as a mathematical value.
pub open spec fn added_model(
    r: Result<(String, Option<(ClientPrivateKey, String)>), Refused>,
) -> Result<Added, RoadwarriorError> {
    match r {
        Err(e) => Err(e.why),
        Ok((s, None)) => Ok((s@, None)),
        Ok((s, Some((k, t)))) => Ok((s@, Some((known_key(k), t@)))),
    }
}

spec fn attempted_model(
    r: Result<(String, Option<(ClientPrivateKey, String)>), RoadwarriorError>,
) -> Result<Added, RoadwarriorError> {
    match r {
        Err(e) => Err(e),
        Ok((s, None)) => Ok((s@, None)),
        Ok((s, Some((k, t)))) => Ok((s@, Some((known_key(k), t@)))),
    }
}

/// The pool has nodes, where there is such a pool.
pub open spec fn has_nodes(mesh: MeshConfig, pool: Seq<char>) -> bool {
    match existing::pool_named(mesh.roadwarriors@, pool, 0) {
        Some(p) => p.node_hostnames@.len() > 0,
        None => true,
    }
}

fn try_add(
    mesh: &MeshConfig,
    document: &str,
    secrets: &ResolvedSecrets,
    if_: &str,
    name: &str,
    allowed_ips_raw: &str,
    public_key: Option<&str>,
    endpoint: Option<&str>,
    shown: bool,
    fresh: &str,
) -> (r: Result<(String, Option<(ClientPrivateKey, String)>), RoadwarriorError>)
    requires
        has_nodes(*mesh, if_@),
        keys::key_of(fresh@) is Ok,
    ensures
        attempted_model(r) == added(
            *mesh,
            document@,
            *secrets,
            (Request {
                pool: if_@,
                name: name@,
                allowed_ips: allowed_ips_raw@,
                public_key: given(public_key),
                endpoint: given(endpoint),
                shown,
            }),
            fresh@,
        ),
{
    if public_key.is_none() && !shown {
        return Err(RoadwarriorError::KeyWouldBeLost);
    }
    let pool = match find_pool(mesh, if_) {
        Ok(p) => p,
        Err(_) => {
            return Err(RoadwarriorError::UnknownPool);
        },
    };
    let ips = match parse_allowed_ips(allowed_ips_raw) {
        Some(v) => v,
        None => {
            return Err(RoadwarriorError::InvalidAllowedIp);
        },
    };
    let (key, public) = match public_key {
        Some(p) => (ClientPrivateKey::Unknown, p.to_owned()),
        None => match keys::public_key_from_private(fresh) {
            Ok(p) => (ClientPrivateKey::Known(fresh.to_owned()), p),
            Err(e) => {
                return Err(RoadwarriorError::InvalidPrivateKey(e));
            },
        },
    };
    match check_not_duplicate(pool, name, public.as_str()) {
        Ok(_) => {},
        Err(e) => {
            return Err(e);
        },
    }
    let updated = match add_client_to_yaml(document, name, public.as_str(), &ips) {
        Ok(s) => s,
        Err(e) => {
            return Err(RoadwarriorError::NotAdded(e));
        },
    };
    if !shown {
        return Ok((updated, None));
    }
    match show_config(mesh, pool, secrets, &key, &ips, endpoint) {
        Ok(text) => Ok((updated, Some((key, text)))),
        Err(e) => Err(e),
    }
}

/// Adds a client to a pool, with a given private key where it has none of its own.
pub fn add_with(
    mesh: &MeshConfig,
    document: &str,
    secrets: &ResolvedSecrets,
    if_: &str,
    name: &str,
    allowed_ips_raw: &str,
    public_key: Option<&str>,
    endpoint: Option<&str>,
    shown: bool,
    fresh: &str,
) -> (r: Result<(String, Option<(ClientPrivateKey, String)>), Refused>)
    requires
        has_nodes(*mesh, if_@),
        keys::key_of(fresh@) is Ok,
    ensures
        added_model(r) == added(
            *mesh,
            document@,
            *secrets,
            (Request {
                pool: if_@,
                name: name@,
                allowed_ips: allowed_ips_raw@,
                public_key: given(public_key),
                endpoint: given(endpoint),
                shown,
            }),
            fresh@,
        ),
        r matches Err(e) ==> text::texts(e.known@) == known_names(*mesh, if_@, e.why),
{
    match try_add(
        mesh,
        document,
        secrets,
        if_,
        name,
        allowed_ips_raw,
        public_key,
        endpoint,
        shown,
        fresh,
    ) {
        Ok(x) => Ok(x),
        Err(why) => Err(refuse(mesh, if_, why)),
    }
}

/// Adds a client to a pool: generates its keys where it brings no public key of its own, and renders
/// its config where that is asked for.
pub fn add(
    mesh: &MeshConfig,
    document: &str,
    secrets: &ResolvedSecrets,
    if_: &str,
    name: &str,
    allowed_ips_raw: &str,
    public_key: Option<&str>,
    endpoint: Option<&str>,
    export: bool,
    qr: bool,
) -> (r: Result<(String, Option<(ClientPrivateKey, String)>), Refused>)
    requires
        has_nodes(*mesh, if_@),
    ensures
        exists|fresh: Seq<char>| #[trigger]
            keys::key_of(fresh) is Ok && added_model(r) == added(
                *mesh,
                document@,
                *secrets,
                (Request {
                    pool: if_@,
                    name: name@,
                    allowed_ips: allowed_ips_raw@,
                    public_key: given(public_key),
                    endpoint: given(endpoint),
                    shown: export || qr,
                }),
                fresh,
            ),
        r matches Err(e) ==> text::texts(e.known@) == known_names(*mesh, if_@, e.why),
{
    let fresh = keys::generate_private_key();
    add_with(
        mesh,
        document,
        secrets,
        if_,
        name,
        allowed_ips_raw,
        public_key,
        endpoint,
        export || qr,
        fresh.as_str(),
    )
}

/// What `del` gives: the pool's document without the client, and the client's public key.
pub open spec fn deleted(
    mesh: MeshConfig,
    document: Seq<char>,
    pool_name: Seq<char>,
    name: Seq<char>,
) -> Result<(Seq<char>, Seq<char>), RoadwarriorError> {
    match existing::pool_named(mesh.roadwarriors@, pool_name, 0) {
        None => Err(RoadwarriorError::UnknownPool),
        Some(pool) => match client_named(pool.clients@, name, 0) {
            None => Err(RoadwarriorError::UnknownClient),
            Some(i) => match without_client(document, i) {
                Some(s) => Ok((s, pool.clients@[i].public_key@)),
                None => Err(RoadwarriorError::NotRemoved),
            },
        },
    }
}

/// Removes a client from a pool, and returns the pool's document and the client's public key.
pub fn del(mesh: &MeshConfig, document: &str, if_: &str, name: &str) -> (r: Result<
    (String, String),
    Refused,
>)
    ensures
        deleted(*mesh, document@, if_@, name@) == (match r {
            Ok((s, key)) => Ok((s@, key@)),
            Err(e) => Err(e.why),
        }),
        r matches Err(e) ==> text::texts(e.known@) == known_names(*mesh, if_@, e.why),
{
    let pool = match find_pool(mesh, if_) {
        Ok(p) => p,
        Err(_) => {
            return Err(refuse(mesh, if_, RoadwarriorError::UnknownPool));
        },
    };
    let i: usize = match find_client_index(pool, name) {
        Ok(i) => i,
        Err(_) => {
            return Err(refuse(mesh, if_, RoadwarriorError::UnknownClient));
        },
    };
    match remove_client_from_yaml(document, i) {
        Ok(s) => Ok((s, pool.clients[i].public_key.clone())),
        Err(e) => Err(refuse(mesh, if_, e)),
    }
}

/// The config of a client that a pool has; a private key that is given must be the client's.
pub open spec fn inspected(
    mesh: MeshConfig,
    secrets: ResolvedSecrets,
    pool_name: Seq<char>,
    name: Seq<char>,
    private_key: Option<Seq<char>>,
    endpoint: Option<Seq<char>>,
) -> Result<Seq<char>, RoadwarriorError> {
    match existing::pool_named(mesh.roadwarriors@, pool_name, 0) {
        None => Err(RoadwarriorError::UnknownPool),
        Some(pool) => match client_named(pool.clients@, name, 0) {
            None => Err(RoadwarriorError::UnknownClient),
            Some(i) => {
                let client = pool.clients@[i];
                match config_for(
                    mesh,
                    pool,
                    secrets,
                    private_key,
                    text::texts(client.allowed_ips@),
                    endpoint,
                ) {
                    Err(e) => Err(e),
                    Ok(text) => match private_key {
                        None => Ok(text),
                        Some(key) => match keys::public_of(key) {
                            Err(e) => Err(RoadwarriorError::InvalidPrivateKey(e)),
                            Ok(public) => if public == client.public_key@ {
                                Ok(text)
                            } else {
                                Err(RoadwarriorError::KeyMismatch)
                            },
                        },
                    },
                }
            },
        },
    }
}

fn try_inspect(
    mesh: &MeshConfig,
    secrets: &ResolvedSecrets,
    if_: &str,
    name: &str,
    private_key: Option<&str>,
    endpoint: Option<&str>,
) -> (r: Result<String, RoadwarriorError>)
    requires
        has_nodes(*mesh, if_@),
    ensures
        match r {
            Ok(s) => inspected(
                *mesh,
                *secrets,
                if_@,
                name@,
                given(private_key),
                given(endpoint),
            ) == Ok::<Seq<char>, RoadwarriorError>(s@),
            Err(e) => inspected(
                *mesh,
                *secrets,
                if_@,
                name@,
                given(private_key),
                given(endpoint),
            ) == Err::<Seq<char>, RoadwarriorError>(e),
        },
{
    let pool = match find_pool(mesh, if_) {
        Ok(p) => p,
        Err(_) => {
            return Err(RoadwarriorError::UnknownPool);
        },
    };
    let i: usize = match find_client_index(pool, name) {
        Ok(i) => i,
        Err(_) => {
            return Err(RoadwarriorError::UnknownClient);
        },
    };
    let client = &pool.clients[i];
    let key = match private_key {
        Some(k) => ClientPrivateKey::Known(k.to_owned()),
        None => ClientPrivateKey::Unknown,
    };
    let text = match show_config(mesh, pool, secrets, &key, &client.allowed_ips, endpoint) {
        Ok(s) => s,
        Err(e) => {
            return Err(e);
        },
    };
    if let Some(k) = private_key {
        match keys::public_key_from_private(k) {
            Ok(public) => {
                if !text::str_eq(public.as_str(), client.public_key.as_str()) {
                    return Err(RoadwarriorError::KeyMismatch);
                }
            },
            Err(e) => {
                return Err(RoadwarriorError::InvalidPrivateKey(e));
            },
        }
    }
    Ok(text)
}

/// Renders the config of a client that a pool has. Private keys are never stored: without one, the
/// config says where to enter it.
pub fn inspect(
    mesh: &MeshConfig,
    secrets: &ResolvedSecrets,
    if_: &str,
    name: &str,
    private_key: Option<&str>,
    endpoint: Option<&str>,
) -> (r: Result<String, Refused>)
    requires
        has_nodes(*mesh, if_@),
    ensures
        inspected(*mesh, *secrets, if_@, name@, given(private_key), given(endpoint)) == (match r {
            Ok(s) => Ok(s@),
            Err(e) => Err(e.why),
        }),
        r matches Err(e) ==> text::texts(e.known@) == known_names(*mesh, if_@, e.why),
{
    match try_inspect(mesh, secrets, if_, name, private_key, endpoint) {
        Ok(s) => Ok(s),
        Err(why) => Err(refuse(mesh, if_, why)),
    }
}

/// The topology with a client added to the end of the pool at position `at`.
pub open spec fn is_enlarged(
    mesh: MeshConfig,
    larger: MeshConfig,
    at: int,
    name: Seq<char>,
    public_key: Seq<char>,
    ips: Seq<Seq<char>>,
) -> bool {
    let pool = mesh.roadwarriors@[at];
    let grown = larger.roadwarriors@[at];
    let client = grown.clients@.last();
    &&& larger == (MeshConfig { roadwarriors: larger.roadwarriors, ..mesh })
    &&& larger.roadwarriors@ == mesh.roadwarriors@.update(at, grown)
    &&& grown == (RoadwarriorPool { clients: grown.clients, ..pool })
    &&& grown.clients@ == pool.clients@.push(client)
    &&& client.name@ == name
    &&& client.public_key@ == public_key
    &&& text::texts(client.allowed_ips@) == ips
}

/// The pool at position `at` is the first of its name.
pub open spec fn is_first_named(v: Seq<RoadwarriorPool>, name: Seq<char>, at: int) -> bool {
    &&& 0 <= at < v.len()
    &&& v[at].name@ == name
    &&& forall|k: int| 0 <= k < at ==> (#[trigger] v[k]).name@ != name
}

proof fn lemma_first_named(v: Seq<RoadwarriorPool>, name: Seq<char>, at: int, i: int)
    requires
        is_first_named(v, name, at),
        0 <= i <= at,
    ensures
        existing::pool_named(v, name, i) == Some(v[at]),
    decreases at - i,
{
    if i < at {
        assert(v[i].name@ != name);
        lemma_first_named(v, name, at, i + 1);
    }
}

proof fn lemma_last_client(v: Seq<RoadwarriorClient>, name: Seq<char>, i: int)
    requires
        0 <= i < v.len(),
        v.last().name@ == name,
        forall|k: int| 0 <= k < v.len() - 1 ==> (#[trigger] v[k]).name@ != name,
    ensures
        client_named(v, name, i) == Some(v.len() - 1),
    decreases v.len() - i,
{
    if i < v.len() - 1 {
        assert(v[i].name@ != name);
        lemma_last_client(v, name, i + 1);
    }
}

/// Where clients reach a pool does not depend on the clients.
proof fn lemma_same_endpoints(
    mesh: MeshConfig,
    larger: MeshConfig,
    pool: RoadwarriorPool,
    grown: RoadwarriorPool,
    n: int,
)
    requires
        larger == (MeshConfig { roadwarriors: larger.roadwarriors, ..mesh }),
        grown == (RoadwarriorPool { clients: grown.clients, ..pool }),
    ensures
        endpoints_on(mesh, pool, n) == endpoints_on(larger, grown, n),
    decreases n,
{
    if n > 0 {
        lemma_same_endpoints(mesh, larger, pool, grown, n - 1);
    }
}

/// What follows the private key in a config.
spec fn config_tail(
    address: Seq<Seq<char>>,
    dns: Option<Seq<char>>,
    server_public_key: Seq<char>,
    endpoints: Seq<Seq<char>>,
    obfuscation: Obfuscation,
) -> Seq<char> {
    "\nAddress = "@ + comma_joined(address) + "\n"@ + dns_line(dns) + obfuscation_lines(obfuscation)
        + "\n[Peer]\nPublicKey = "@ + server_public_key + "\nEndpoint = "@ + endpoints[0] + "\n"@
        + alternates(endpoints, 1) + "AllowedIPs = 0.0.0.0/0, ::/0\nPersistentKeepalive = 25\n"@
}

proof fn lemma_config_tail(
    key: Option<Seq<char>>,
    address: Seq<Seq<char>>,
    dns: Option<Seq<char>>,
    server_public_key: Seq<char>,
    endpoints: Seq<Seq<char>>,
    obfuscation: Obfuscation,
)
    ensures
        client_config(key, address, dns, server_public_key, endpoints, obfuscation)
            == "[Interface]\nPrivateKey = "@ + key_text(key) + config_tail(
            address,
            dns,
            server_public_key,
            endpoints,
            obfuscation,
        ),
{
    let h = "[Interface]\nPrivateKey = "@ + key_text(key);
    let t0 = "\nAddress = "@;
    let t1 = t0 + comma_joined(address);
    lemma_assoc(h, t0, comma_joined(address));
    let t2 = t1 + "\n"@;
    lemma_assoc(h, t1, "\n"@);
    let t3 = t2 + dns_line(dns);
    lemma_assoc(h, t2, dns_line(dns));
    let t4 = t3 + obfuscation_lines(obfuscation);
    lemma_assoc(h, t3, obfuscation_lines(obfuscation));
    let t5 = t4 + "\n[Peer]\nPublicKey = "@;
    lemma_assoc(h, t4, "\n[Peer]\nPublicKey = "@);
    let t6 = t5 + server_public_key;
    lemma_assoc(h, t5, server_public_key);
    let t7 = t6 + "\nEndpoint = "@;
    lemma_assoc(h, t6, "\nEndpoint = "@);
    let t8 = t7 + endpoints[0];
    lemma_assoc(h, t7, endpoints[0]);
    let t9 = t8 + "\n"@;
    lemma_assoc(h, t8, "\n"@);
    let t10 = t9 + alternates(endpoints, 1);
    lemma_assoc(h, t9, alternates(endpoints, 1));
    let t11 = t10 + "AllowedIPs = 0.0.0.0/0, ::/0\nPersistentKeepalive = 25\n"@;
    lemma_assoc(h, t10, "AllowedIPs = 0.0.0.0/0, ::/0\nPersistentKeepalive = 25\n"@);
}

/// Law: once a client has been added, inspecting it with the private key that was shown gives the
/// config that was shown. Without the key, a note stands where the key was; a key that is not the
/// client's is refused.
pub proof fn added_client_is_inspected(
    mesh: MeshConfig,
    larger: MeshConfig,
    at: int,
    document: Seq<char>,
    secrets: ResolvedSecrets,
    q: Request,
    fresh: Seq<char>,
)
    requires
        keys::key_of(fresh) is Ok,
        is_first_named(mesh.roadwarriors@, q.pool, at),
        added(mesh, document, secrets, q, fresh) matches Ok((_, Some(_))),
        is_enlarged(
            mesh,
            larger,
            at,
            q.name,
            (match q.public_key {
                Some(public) => public,
                None => keys::public_of(fresh)->Ok_0,
            }),
            allowed_ips_in(q.allowed_ips)->0,
        ),
    ensures
        ({
            let (key, text) = ((added(mesh, document, secrets, q, fresh)->Ok_0).1)->0;
            let public = match q.public_key {
                Some(public) => public,
                None => keys::public_of(fresh)->Ok_0,
            };
            &&& inspected(larger, secrets, q.pool, q.name, key, q.endpoint) == Ok::<
                Seq<char>,
                RoadwarriorError,
            >(text)
            &&& exists|tail: Seq<char>|
                text == "[Interface]\nPrivateKey = "@ + key_text(key) + tail && inspected(
                    larger,
                    secrets,
                    q.pool,
                    q.name,
                    None,
                    q.endpoint,
                ) == Ok::<Seq<char>, RoadwarriorError>(
                    #[trigger] ("[Interface]\nPrivateKey = "@ + "<enter your private key here>"@
                        + tail),
                )
            &&& forall|other: Seq<char>|
                keys::public_of(other) != Ok::<Seq<char>, KeyError>(public) ==> (
                #[trigger] inspected(larger, secrets, q.pool, q.name, Some(other), q.endpoint)) is Err
        }),
{
    let pool = mesh.roadwarriors@[at];
    let grown = larger.roadwarriors@[at];
    let ips = allowed_ips_in(q.allowed_ips)->0;
    let (key, text) = ((added(mesh, document, secrets, q, fresh)->Ok_0).1)->0;
    lemma_first_named(mesh.roadwarriors@, q.pool, at, 0);
    assert(is_first_named(larger.roadwarriors@, q.pool, at)) by {
        assert forall|k: int| 0 <= k < at implies (#[trigger] larger.roadwarriors@[k]).name@
            != q.pool by {
            assert(larger.roadwarriors@[k] == mesh.roadwarriors@[k]);
        }
    }
    lemma_first_named(larger.roadwarriors@, q.pool, at, 0);
    assert forall|k: int| 0 <= k < grown.clients@.len() - 1 implies (
    #[trigger] grown.clients@[k]).name@ != q.name by {
        assert(grown.clients@[k] == pool.clients@[k]);
    }
    lemma_last_client(grown.clients@, q.name, 0);
    lemma_same_endpoints(mesh, larger, pool, grown, pool.node_hostnames@.len() as int);
    assert(forall|k: Option<Seq<char>>| #[trigger]
        config_for(larger, grown, secrets, k, ips, q.endpoint) == config_for(
            mesh,
            pool,
            secrets,
            k,
            ips,
            q.endpoint,
        ));
    let private = assoc::value_of(secrets.roadwarrior_private_keys@, pool.name@)->0;
    let server = keys::public_of(private@)->Ok_0;
    let endpoints = endpoints_of(mesh, pool, q.endpoint)->Ok_0;
    let obfuscation = render::or_unset(
        assoc::value_of(secrets.roadwarrior_obfuscation@, pool.name@),
    );
    let dns = dns_of(mesh, pool);
    let tail = config_tail(ips, dns, server, endpoints, obfuscation);
    lemma_config_tail(key, ips, dns, server, endpoints, obfuscation);
    lemma_config_tail(None, ips, dns, server, endpoints, obfuscation);
    assert(text == "[Interface]\nPrivateKey = "@ + key_text(key) + tail);
    assert(inspected(larger, secrets, q.pool, q.name, None, q.endpoint) == Ok::<
        Seq<char>,
        RoadwarriorError,
    >("[Interface]\nPrivateKey = "@ + "<enter your private key here>"@ + tail));
}

} // verus!
