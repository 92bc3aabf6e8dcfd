//! What an earlier run left in the patch files: the keys and the obfuscation of the interfaces
//! that it configured. Nothing else is read back: the rest follows from the topology alone.

use crate::assoc;
use crate::awg::config::AwgConfig;
use crate::awg::config::InterfaceEntry;
use crate::common::obfuscation::Obfuscation;
use crate::patches::mesh_config::MeshConfig;
use crate::patches::mesh_config::RoadwarriorPool;
use crate::patches::render::ExistingState;
use crate::text;
use vstd::prelude::*;

verus! {

/// The interface configs that were found, by node.
#[derive(Debug, PartialEq)]
pub struct FileExistingState<'a> {
    pub mesh: &'a MeshConfig,
    pub configs: Vec<(String, AwgConfig)>,
}

/// The first interface, from `i` on, of this name.
pub open spec fn named(v: Seq<InterfaceEntry>, name: Seq<char>, i: int) -> Option<InterfaceEntry>
    decreases v.len() - i,
{
    if i >= v.len() {
        None
    } else if v[i].name@ == name {
        Some(v[i])
    } else {
        named(v, name, i + 1)
    }
}

/// The first interface, from `i` on, that belongs to a mesh link.
pub open spec fn first_mesh(v: Seq<InterfaceEntry>, i: int) -> Option<InterfaceEntry>
    decreases v.len() - i,
{
    if i >= v.len() {
        None
    } else if text::begins_with(v[i].name@, "mesh-"@) {
        Some(v[i])
    } else {
        first_mesh(v, i + 1)
    }
}

/// The first pool, from `i` on, of this name.
pub open spec fn pool_named(v: Seq<RoadwarriorPool>, name: Seq<char>, i: int) -> Option<
    RoadwarriorPool,
>
    decreases v.len() - i,
{
    if i >= v.len() {
        None
    } else if v[i].name@ == name {
        Some(v[i])
    } else {
        pool_named(v, name, i + 1)
    }
}

/// The interface of this name that a node had.
pub open spec fn interface_on(
    configs: Seq<(String, AwgConfig)>,
    node: Seq<char>,
    name: Seq<char>,
) -> Option<InterfaceEntry> {
    match assoc::value_of(configs, node) {
        Some(c) => named(c.interfaces@, name, 0),
        None => None,
    }
}

/// The interface of this name on the first node, from `i` on, that had one.
pub open spec fn first_on(
    configs: Seq<(String, AwgConfig)>,
    hosts: Seq<String>,
    name: Seq<char>,
    i: int,
) -> Option<InterfaceEntry>
    decreases hosts.len() - i,
{
    if i >= hosts.len() {
        None
    } else if interface_on(configs, hosts[i]@, name) is Some {
        interface_on(configs, hosts[i]@, name)
    } else {
        first_on(configs, hosts, name, i + 1)
    }
}

/// The interface that a pool had, on the first of its nodes that had one.
pub open spec fn pool_interface(s: FileExistingState, pool: Seq<char>) -> Option<InterfaceEntry> {
    match pool_named(s.mesh.roadwarriors@, pool, 0) {
        Some(p) => first_on(s.configs@, p.node_hostnames@, "rw-"@ + pool, 0),
        None => None,
    }
}

/// The interface that a link had, on either end.
pub open spec fn link_interface(
    configs: Seq<(String, AwgConfig)>,
    a: Seq<char>,
    b: Seq<char>,
) -> Option<InterfaceEntry> {
    match interface_on(configs, a, "mesh-"@ + b) {
        Some(i) => Some(i),
        None => interface_on(configs, b, "mesh-"@ + a),
    }
}

fn find_named<'a>(v: &'a Vec<InterfaceEntry>, name: &str) -> (r: Option<&'a InterfaceEntry>)
    ensures
        match r {
            Some(i) => named(v@, name@, 0) == Some(*i),
            None => named(v@, name@, 0) is None,
        },
{
    let mut i: usize = 0;
    while i < v.len()
        invariant
            i <= v@.len(),
            named(v@, name@, 0) == named(v@, name@, i as int),
        decreases v@.len() - i,
    {
        if text::str_eq(v[i].name.as_str(), name) {
            return Some(&v[i]);
        }
        i += 1;
    }
    None
}

fn find_first_mesh(v: &Vec<InterfaceEntry>) -> (r: Option<&InterfaceEntry>)
    ensures
        match r {
            Some(i) => first_mesh(v@, 0) == Some(*i),
            None => first_mesh(v@, 0) is None,
        },
{
    let prefix = text::chars_of("mesh-");
    let mut i: usize = 0;
    while i < v.len()
        invariant
            i <= v@.len(),
            prefix@ == "mesh-"@,
            first_mesh(v@, 0) == first_mesh(v@, i as int),
        decreases v@.len() - i,
    {
        let name = text::chars_of(v[i].name.as_str());
        if text::starts_with(name.as_slice(), prefix.as_slice()) {
            return Some(&v[i]);
        }
        i += 1;
    }
    None
}

fn find_on<'a>(configs: &'a Vec<(String, AwgConfig)>, node: &str, name: &str) -> (r: Option<
    &'a InterfaceEntry,
>)
    ensures
        match r {
            Some(i) => interface_on(configs@, node@, name@) == Some(*i),
            None => interface_on(configs@, node@, name@) is None,
        },
{
    match assoc::lookup(configs, node) {
        Some(c) => find_named(&c.interfaces, name),
        None => None,
    }
}

impl<'a> FileExistingState<'a> {
    fn find_pool_interface(&self, pool: &str) -> (r: Option<&InterfaceEntry>)
        ensures
            match r {
                Some(i) => pool_interface(*self, pool@) == Some(*i),
                None => pool_interface(*self, pool@) is None,
            },
    {
        let pools = &self.mesh.roadwarriors;
        let mut p: usize = 0;
        while p < pools.len()
            invariant
                p <= pools@.len(),
                *pools == self.mesh.roadwarriors,
                pool_named(pools@, pool@, 0) == pool_named(pools@, pool@, p as int),
            decreases pools@.len() - p,
        {
            if text::str_eq(pools[p].name.as_str(), pool) {
                let name = text::join2("rw-", pool);
                let hosts = &pools[p].node_hostnames;
                let mut i: usize = 0;
                while i < hosts.len()
                    invariant
                        i <= hosts@.len(),
                        first_on(self.configs@, hosts@, name@, 0) == first_on(
                            self.configs@,
                            hosts@,
                            name@,
                            i as int,
                        ),
                        pool_interface(*self, pool@) == first_on(self.configs@, hosts@, name@, 0),
                    decreases hosts@.len() - i,
                {
                    let found = find_on(&self.configs, hosts[i].as_str(), name.as_str());
                    if found.is_some() {
                        return found;
                    }
                    i += 1;
                }
                return None;
            }
            p += 1;
        }
        None
    }
}

impl<'a> ExistingState for FileExistingState<'a> {
    open spec fn stored_mesh_key(&self, node_name: Seq<char>) -> Option<Seq<char>> {
        match assoc::value_of(self.configs@, node_name) {
            Some(c) => match first_mesh(c.interfaces@, 0) {
                Some(i) => Some(i.private_key@),
                None => None,
            },
            None => None,
        }
    }

    open spec fn stored_link(&self, a: Seq<char>, b: Seq<char>) -> Option<Obfuscation> {
        match link_interface(self.configs@, a, b) {
            Some(i) => Some(i.obfuscation),
            None => None,
        }
    }

    open spec fn stored_pool_key(&self, pool_name: Seq<char>) -> Option<Seq<char>> {
        match pool_interface(*self, pool_name) {
            Some(i) => Some(i.private_key@),
            None => None,
        }
    }

    open spec fn stored_pool(&self, pool_name: Seq<char>) -> Option<Obfuscation> {
        match pool_interface(*self, pool_name) {
            Some(i) => Some(i.obfuscation),
            None => None,
        }
    }

    fn mesh_private_key(&self, node_name: &str) -> (r: Option<String>) {
        match assoc::lookup(&self.configs, node_name) {
            Some(c) => match find_first_mesh(&c.interfaces) {
                Some(i) => Some(i.private_key.clone()),
                None => None,
            },
            None => None,
        }
    }

    fn mesh_link_obfuscation(&self, pair: &[String; 2]) -> (r: Option<Obfuscation>) {
        let a = pair[0].as_str();
        let b = pair[1].as_str();
        let to_b = text::join2("mesh-", b);
        if let Some(i) = find_on(&self.configs, a, to_b.as_str()) {
            return Some(i.obfuscation.clone());
        }
        let to_a = text::join2("mesh-", a);
        match find_on(&self.configs, b, to_a.as_str()) {
            Some(i) => Some(i.obfuscation.clone()),
            None => None,
        }
    }

    fn roadwarrior_private_key(&self, pool_name: &str) -> (r: Option<String>) {
        match self.find_pool_interface(pool_name) {
            Some(i) => Some(i.private_key.clone()),
            None => None,
        }
    }

    fn roadwarrior_obfuscation(&self, pool_name: &str) -> (r: Option<Obfuscation>) {
        match self.find_pool_interface(pool_name) {
            Some(i) => Some(i.obfuscation.clone()),
            None => None,
        }
    }
}

/// Law: the interface of a name that is found is the first that has it.
pub proof fn found_interface_is_the_first(
    v: Seq<InterfaceEntry>,
    name: Seq<char>,
    from: int,
    at: int,
)
    requires
        0 <= from <= at < v.len(),
        v[at].name@ == name,
        forall|k: int| from <= k < at ==> (#[trigger] v[k]).name@ != name,
    ensures
        named(v, name, from) == Some(v[at]),
    decreases at - from,
{
    if from < at {
        assert(v[from].name@ != name);
        found_interface_is_the_first(v, name, from + 1, at);
    }
}

proof fn lemma_named(v: Seq<InterfaceEntry>, name: Seq<char>, from: int)
    requires
        0 <= from <= v.len(),
    ensures
        named(v, name, from) matches Some(e) ==> e.name@ == name && v.contains(e),
    decreases v.len() - from,
{
    if from < v.len() {
        if v[from].name@ == name {
            assert(v.contains(v[from]));
        } else {
            lemma_named(v, name, from + 1);
        }
    }
}

/// Law: what is taken for the interface of a link stood on one of its ends, under the name of the
/// other, and the order in which the ends are named matters only where both have one.
pub proof fn link_is_found_on_an_end(
    configs: Seq<(String, AwgConfig)>,
    a: Seq<char>,
    b: Seq<char>,
)
    ensures
        link_interface(configs, a, b) is Some <==> link_interface(configs, b, a) is Some,
        link_interface(configs, a, b) matches Some(e) ==> {
            ||| e.name@ == "mesh-"@ + b && assoc::value_of(configs, a) is Some && assoc::value_of(
                configs,
                a,
            )->0.interfaces@.contains(e)
            ||| e.name@ == "mesh-"@ + a && assoc::value_of(configs, b) is Some && assoc::value_of(
                configs,
                b,
            )->0.interfaces@.contains(e)
        },
{
    if assoc::value_of(configs, a) is Some {
        lemma_named(assoc::value_of(configs, a)->0.interfaces@, "mesh-"@ + b, 0);
    }
    if assoc::value_of(configs, b) is Some {
        lemma_named(assoc::value_of(configs, b)->0.interfaces@, "mesh-"@ + a, 0);
    }
}

/// Law: a pool's interface is taken from the first of its nodes that had one.
pub proof fn pool_is_found_on_the_first_node(
    configs: Seq<(String, AwgConfig)>,
    hosts: Seq<String>,
    name: Seq<char>,
    from: int,
    at: int,
)
    requires
        0 <= from <= at < hosts.len(),
        interface_on(configs, hosts[at]@, name) is Some,
        forall|k: int| from <= k < at ==> interface_on(configs, (#[trigger] hosts[k])@, name) is None,
    ensures
        first_on(configs, hosts, name, from) == interface_on(configs, hosts[at]@, name),
    decreases at - from,
{
    if from < at {
        assert(interface_on(configs, hosts[from]@, name) is None);
        pool_is_found_on_the_first_node(configs, hosts, name, from + 1, at);
    }
}

/// Law: the first interface of a mesh link is the first whose name begins with `mesh-`.
pub proof fn first_mesh_interface_is_the_first(v: Seq<InterfaceEntry>, from: int, at: int)
    requires
        0 <= from <= at < v.len(),
        text::begins_with(v[at].name@, "mesh-"@),
        forall|k: int|
            from <= k < at ==> !text::begins_with((#[trigger] v[k]).name@, "mesh-"@),
    ensures
        first_mesh(v, from) == Some(v[at]),
    decreases at - from,
{
    if from < at {
        assert(!text::begins_with(v[from].name@, "mesh-"@));
        first_mesh_interface_is_the_first(v, from + 1, at);
    }
}

} // verus!
