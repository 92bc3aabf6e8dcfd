//! Minted values as text: each written into the field of the file that it belongs to, everything
//! else left as the operator wrote it.

use crate::taloscfg::amend;
use crate::taloscfg::emit;
use crate::taloscfg::emit::EmitError;
use crate::taloscfg::locate;
use crate::taloscfg::locate::Found;
use crate::taloscfg::locate::NodeKind;
use crate::taloscfg::locate::Step;
use crate::taloscfg::locate::StepModel;
use crate::taloscfg::minted::GeneratedObfuscation;
use crate::taloscfg::minted::Minted;
use crate::taloscfg::minted::PoolMinted;
use crate::text;
use crate::value;
use crate::value::Tree;
use crate::value::Value;
use vstd::prelude::*;

verus! {

/// One field, where it is set.
pub open spec fn field_entry(name: Seq<char>, n: Option<int>) -> Seq<(Seq<char>, Tree)> {
    match n {
        Some(n) => seq![(name, Tree::Number(text::decimal(n)))],
        None => Seq::empty(),
    }
}

pub open spec fn small(n: Option<u16>) -> Option<int> {
    match n {
        Some(n) => Some(n as int),
        None => None,
    }
}

pub open spec fn large(n: Option<u32>) -> Option<int> {
    match n {
        Some(n) => Some(n as int),
        None => None,
    }
}

/// The fields that are set, in the order in which they are written.
pub open spec fn field_entries(g: GeneratedObfuscation) -> Seq<(Seq<char>, Tree)> {
    field_entry("jc"@, small(g.jc)) + field_entry("jmin"@, small(g.jmin)) + field_entry(
        "jmax"@,
        small(g.jmax),
    ) + field_entry("s1"@, small(g.s1)) + field_entry("s2"@, small(g.s2)) + field_entry(
        "h1"@,
        large(g.h1),
    ) + field_entry("h2"@, large(g.h2)) + field_entry("h3"@, large(g.h3)) + field_entry(
        "h4"@,
        large(g.h4),
    )
}

fn push_field(out: &mut Vec<(String, Value)>, name: &str, n: Option<u32>)
    ensures
        locate::entry_models(final(out)@) == locate::entry_models(old(out)@) + field_entry(
            name@,
            large(n),
        ),
{
    let ghost before = locate::entry_models(out@);
    if let Some(n) = n {
        let mut s = String::new();
        text::push_decimal(&mut s, n as u64);
        assert(s@ =~= text::decimal(n as int));
        out.push((name.to_owned(), Value::Number(s)));
        assert(locate::entry_models(out@) =~= before + field_entry(name@, large(Some(n))));
    } else {
        assert(locate::entry_models(out@) =~= before + field_entry(name@, None));
    }
}

fn widen(n: Option<u16>) -> (r: Option<u32>)
    ensures
        small(n) == large(r),
{
    match n {
        Some(n) => Some(n as u32),
        None => None,
    }
}

fn fields_of(g: &GeneratedObfuscation) -> (r: Vec<(String, Value)>)
    ensures
        locate::entry_models(r@) == field_entries(*g),
{
    let mut out: Vec<(String, Value)> = Vec::new();
    push_field(&mut out, "jc", widen(g.jc));
    assert(locate::entry_models(out@) =~= field_entry("jc"@, small(g.jc)));
    push_field(&mut out, "jmin", widen(g.jmin));
    push_field(&mut out, "jmax", widen(g.jmax));
    push_field(&mut out, "s1", widen(g.s1));
    push_field(&mut out, "s2", widen(g.s2));
    push_field(&mut out, "h1", g.h1);
    push_field(&mut out, "h2", g.h2);
    push_field(&mut out, "h3", g.h3);
    push_field(&mut out, "h4", g.h4);
    out
}

/// Entries as one mapping.
pub open spec fn as_mapping(entries: Seq<(Seq<char>, Tree)>) -> Tree {
    Tree::Mapping(Seq::new(entries.len(), |i: int| (Tree::Text(entries[i].0), entries[i].1)))
}

fn mapping_of(entries: Vec<(String, Value)>) -> (r: Value)
    ensures
        value::tree(r) == as_mapping(locate::entry_models(entries@)),
{
    let ghost m = locate::entry_models(entries@);
    let mut out: Vec<(Value, Value)> = Vec::new();
    let mut i: usize = 0;
    while i < entries.len()
        invariant
            i <= entries@.len(),
            out@.len() == i,
            m == locate::entry_models(entries@),
            forall|k: int|
                0 <= k < i ==> value::tree((#[trigger] out@[k]).0) == Tree::Text(m[k].0)
                    && value::tree(out@[k].1) == m[k].1,
        decreases entries@.len() - i,
    {
        out.push((Value::Text(entries[i].0.clone()), value::copy(&entries[i].1)));
        i += 1;
    }
    let r = Value::Mapping(out);
    proof {
        value::lemma_tree(r);
        assert(value::pairs(out@) =~= as_mapping(m)->Mapping_0);
    }
    r
}

/// The document with the first `n` of some fields of the mapping at a route set.
pub open spec fn fields_set(
    document: Seq<char>,
    own: Seq<StepModel>,
    entries: Seq<(Seq<char>, Tree)>,
    n: int,
) -> Result<Seq<char>, EmitError>
    decreases n,
{
    if n <= 0 {
        Ok(document)
    } else {
        match fields_set(document, own, entries, n - 1) {
            Err(e) => Err(e),
            Ok(d) => amend::field_set(d, own, entries[n - 1].0, entries[n - 1].1),
        }
    }
}

proof fn lemma_fields_err(
    document: Seq<char>,
    own: Seq<StepModel>,
    entries: Seq<(Seq<char>, Tree)>,
    n: int,
    m: int,
    e: EmitError,
)
    requires
        n <= m,
        fields_set(document, own, entries, n) == Err::<Seq<char>, EmitError>(e),
    ensures
        fields_set(document, own, entries, m) == Err::<Seq<char>, EmitError>(e),
    decreases m - n,
{
    if n < m {
        lemma_fields_err(document, own, entries, n, m - 1, e);
    }
}

fn set_fields(document: &str, own: &Vec<Step>, fields: &Vec<(String, Value)>) -> (r: Result<
    String,
    EmitError,
>)
    ensures
        emit::same_result(
            r,
            fields_set(
                document@,
                locate::route_model(own@),
                locate::entry_models(fields@),
                fields@.len() as int,
            ),
        ),
{
    let ghost route = locate::route_model(own@);
    let ghost entries = locate::entry_models(fields@);
    let mut current = document.to_owned();
    let mut i: usize = 0;
    while i < fields.len()
        invariant
            i <= fields@.len(),
            route == locate::route_model(own@),
            entries == locate::entry_models(fields@),
            fields_set(document@, route, entries, i as int) == Ok::<Seq<char>, EmitError>(current@),
        decreases fields@.len() - i,
    {
        assert(entries[i as int] == (fields@[i as int].0@, value::tree(fields@[i as int].1)));
        match amend::set_field(current.as_str(), own, fields[i].0.as_str(), &fields[i].1) {
            Ok(s) => {
                current = s;
            },
            Err(e) => {
                proof {
                    lemma_fields_err(document@, route, entries, i + 1, fields@.len() as int, e);
                }
                return Err(e);
            },
        }
        i += 1;
    }
    Ok(current)
}

/// The document with generated fields written in: each into the `obfuscation` of an entry, or all
/// of them as the one that it lacks.
#[verifier::opaque]
pub open spec fn with_obfuscation(
    document: Seq<char>,
    entry: Seq<StepModel>,
    g: GeneratedObfuscation,
) -> Result<Seq<char>, EmitError> {
    let own = entry.push(StepModel::Key("obfuscation"@));
    let fields = field_entries(g);
    match locate::place(document, own) {
        Found::At(NodeKind::BlockMapping, _, _) => fields_set(
            document,
            own,
            fields,
            fields.len() as int,
        ),
        Found::At(NodeKind::FlowMapping, _, _) => fields_set(
            document,
            own,
            fields,
            fields.len() as int,
        ),
        _ => amend::field_set(document, entry, "obfuscation"@, as_mapping(fields)),
    }
}

fn write_obfuscation(document: &str, entry: &Vec<Step>, g: &GeneratedObfuscation) -> (r: Result<
    String,
    EmitError,
>)
    ensures
        emit::same_result(
            r,
            with_obfuscation(document@, locate::route_model(entry@), *g),
        ),
{
    proof {
        reveal(with_obfuscation);
    }
    let own = amend::with_step(entry, Step::Key("obfuscation".to_owned()));
    let fields = fields_of(g);
    assert(locate::entry_models(fields@).len() == fields@.len());
    match locate::find(document, &own) {
        Found::At(NodeKind::BlockMapping, _, _) => set_fields(document, &own, &fields),
        Found::At(NodeKind::FlowMapping, _, _) => set_fields(document, &own, &fields),
        _ => {
            let whole = mapping_of(fields);
            amend::set_field(document, entry, "obfuscation", &whole)
        },
    }
}

/// The document with a key written into an entry.
#[verifier::opaque]
pub open spec fn with_private_key(
    document: Seq<char>,
    entry: Seq<StepModel>,
    field: Seq<char>,
    key: Seq<char>,
) -> Result<Seq<char>, EmitError> {
    amend::field_set(document, entry, field, Tree::Text(key))
}

fn write_key(document: &str, entry: &Vec<Step>, field: &str, key: &str) -> (r: Result<
    String,
    EmitError,
>)
    ensures
        emit::same_result(
            r,
            with_private_key(document@, locate::route_model(entry@), field@, key@),
        ),
{
    proof {
        reveal(with_private_key);
    }
    let value = Value::Text(key.to_owned());
    amend::set_field(document, entry, field, &value)
}

pub open spec fn node_entry(i: int) -> Seq<StepModel> {
    seq![StepModel::Key("nodes"@), StepModel::Index(i)]
}

pub open spec fn link_entry(i: int) -> Seq<StepModel> {
    seq![StepModel::Key("mesh"@), StepModel::Key("links"@), StepModel::Index(i)]
}

/// The network document with the first `n` keys written into their nodes.
pub open spec fn nodes_recorded(document: Seq<char>, keys: Seq<(usize, String)>, n: int) -> Result<
    Seq<char>,
    EmitError,
>
    decreases n,
{
    if n <= 0 {
        Ok(document)
    } else {
        match nodes_recorded(document, keys, n - 1) {
            Err(e) => Err(e),
            Ok(d) => with_private_key(
                d,
                node_entry(keys[n - 1].0 as int),
                "mesh_private_key"@,
                keys[n - 1].1@,
            ),
        }
    }
}

/// The network document with the first `n` sets of generated fields written into their links.
pub open spec fn links_recorded(
    document: Seq<char>,
    values: Seq<(usize, GeneratedObfuscation)>,
    n: int,
) -> Result<Seq<char>, EmitError>
    decreases n,
{
    if n <= 0 {
        Ok(document)
    } else {
        match links_recorded(document, values, n - 1) {
            Err(e) => Err(e),
            Ok(d) => with_obfuscation(d, link_entry(values[n - 1].0 as int), values[n - 1].1),
        }
    }
}

/// The network document with everything that was minted for nodes and links written in.
pub open spec fn network_recorded(document: Seq<char>, m: Minted) -> Result<Seq<char>, EmitError> {
    match nodes_recorded(document, m.node_keys@, m.node_keys@.len() as int) {
        Err(e) => Err(e),
        Ok(d) => links_recorded(d, m.link_obfuscation@, m.link_obfuscation@.len() as int),
    }
}

proof fn lemma_nodes_err(document: Seq<char>, keys: Seq<(usize, String)>, n: int, m: int, e: EmitError)
    requires
        n <= m,
        nodes_recorded(document, keys, n) == Err::<Seq<char>, EmitError>(e),
    ensures
        nodes_recorded(document, keys, m) == Err::<Seq<char>, EmitError>(e),
    decreases m - n,
{
    if n < m {
        lemma_nodes_err(document, keys, n, m - 1, e);
    }
}

proof fn lemma_links_err(
    document: Seq<char>,
    values: Seq<(usize, GeneratedObfuscation)>,
    n: int,
    m: int,
    e: EmitError,
)
    requires
        n <= m,
        links_recorded(document, values, n) == Err::<Seq<char>, EmitError>(e),
    ensures
        links_recorded(document, values, m) == Err::<Seq<char>, EmitError>(e),
    decreases m - n,
{
    if n < m {
        lemma_links_err(document, values, n, m - 1, e);
    }
}

fn record_nodes(document: &str, keys: &Vec<(usize, String)>) -> (r: Result<String, EmitError>)
    ensures
        emit::same_result(r, nodes_recorded(document@, keys@, keys@.len() as int)),
{
    let mut current = document.to_owned();
    let mut i: usize = 0;
    while i < keys.len()
        invariant
            i <= keys@.len(),
            nodes_recorded(document@, keys@, i as int) == Ok::<Seq<char>, EmitError>(current@),
        decreases keys@.len() - i,
    {
        let mut entry: Vec<Step> = Vec::new();
        entry.push(Step::Key("nodes".to_owned()));
        entry.push(Step::Index(keys[i].0));
        assert(locate::route_model(entry@) =~= node_entry(keys@[i as int].0 as int));
        match write_key(current.as_str(), &entry, "mesh_private_key", keys[i].1.as_str()) {
            Ok(s) => {
                current = s;
            },
            Err(e) => {
                proof {
                    lemma_nodes_err(document@, keys@, i + 1, keys@.len() as int, e);
                }
                return Err(e);
            },
        }
        i += 1;
    }
    Ok(current)
}

fn record_links(document: &str, values: &Vec<(usize, GeneratedObfuscation)>) -> (r: Result<
    String,
    EmitError,
>)
    ensures
        emit::same_result(r, links_recorded(document@, values@, values@.len() as int)),
{
    let mut current = document.to_owned();
    let mut j: usize = 0;
    while j < values.len()
        invariant
            j <= values@.len(),
            links_recorded(document@, values@, j as int) == Ok::<Seq<char>, EmitError>(current@),
        decreases values@.len() - j,
    {
        let mut entry: Vec<Step> = Vec::new();
        entry.push(Step::Key("mesh".to_owned()));
        entry.push(Step::Key("links".to_owned()));
        entry.push(Step::Index(values[j].0));
        assert(locate::route_model(entry@) =~= link_entry(values@[j as int].0 as int));
        match write_obfuscation(current.as_str(), &entry, &values[j].1) {
            Ok(s) => {
                current = s;
            },
            Err(e) => {
                proof {
                    lemma_links_err(document@, values@, j + 1, values@.len() as int, e);
                }
                return Err(e);
            },
        }
        j += 1;
    }
    Ok(current)
}

/// Writes everything that was minted for nodes and links into the network document.
pub fn record_network(document: &str, m: &Minted) -> (r: Result<String, EmitError>)
    ensures
        emit::same_result(r, network_recorded(document@, *m)),
{
    match record_nodes(document, &m.node_keys) {
        Ok(s) => record_links(s.as_str(), &m.link_obfuscation),
        Err(e) => Err(e),
    }
}

/// A pool's document with what was minted for it written in.
pub open spec fn pool_recorded(document: Seq<char>, p: PoolMinted) -> Result<Seq<char>, EmitError> {
    let keyed = match p.private_key {
        Some(k) => with_private_key(document, Seq::empty(), "private_key"@, k@),
        None => Ok(document),
    };
    match (keyed, p.obfuscation) {
        (Err(e), _) => Err(e),
        (Ok(d), Some(g)) => with_obfuscation(d, Seq::empty(), g),
        (Ok(d), None) => Ok(d),
    }
}

/// Writes what was minted for a pool into its document.
pub fn record_pool(document: &str, p: &PoolMinted) -> (r: Result<String, EmitError>)
    ensures
        emit::same_result(r, pool_recorded(document@, *p)),
{
    let top: Vec<Step> = Vec::new();
    assert(locate::route_model(top@) =~= Seq::empty());
    let current = match &p.private_key {
        Some(k) => match write_key(document, &top, "private_key", k.as_str()) {
            Ok(s) => s,
            Err(e) => {
                return Err(e);
            },
        },
        None => document.to_owned(),
    };
    match &p.obfuscation {
        Some(g) => write_obfuscation(current.as_str(), &top, g),
        None => Ok(current),
    }
}

/// `s` comes of `source` by `n` texts put in, one after the other, with nothing taken out but what
/// stood for no value.
pub open spec fn grows_into(source: Seq<char>, s: Seq<char>, n: nat) -> bool
    decreases n,
{
    if n == 0 {
        s == source
    } else {
        exists|mid: Seq<char>|
            grows_into(source, mid, (n - 1) as nat) && #[trigger] amend::only_adds(mid, s)
    }
}

/// `s` is `source` with texts put in, and nothing taken out but what stood for no value.
pub open spec fn is_grown(source: Seq<char>, s: Seq<char>) -> bool {
    exists|n: nat| #[trigger] grows_into(source, s, n)
}

proof fn lemma_unchanged(source: Seq<char>)
    ensures
        is_grown(source, source),
{
    assert(grows_into(source, source, 0));
}

proof fn lemma_grown_step(source: Seq<char>, mid: Seq<char>, s: Seq<char>)
    requires
        is_grown(source, mid),
        amend::only_adds(mid, s),
    ensures
        is_grown(source, s),
{
    let n = choose|n: nat| #[trigger] grows_into(source, mid, n);
    assert(grows_into(source, s, n + 1));
}

proof fn lemma_fields_grow(
    source: Seq<char>,
    document: Seq<char>,
    own: Seq<StepModel>,
    entries: Seq<(Seq<char>, Tree)>,
    n: int,
)
    requires
        is_grown(source, document),
        fields_set(document, own, entries, n) is Ok,
    ensures
        is_grown(source, fields_set(document, own, entries, n)->Ok_0),
    decreases n,
{
    if n > 0 {
        lemma_fields_grow(source, document, own, entries, n - 1);
        let mid = fields_set(document, own, entries, n - 1)->Ok_0;
        amend::setting_keeps_the_rest(mid, own, entries[n - 1].0, entries[n - 1].1);
        lemma_grown_step(source, mid, fields_set(document, own, entries, n)->Ok_0);
    }
}

proof fn lemma_obfuscation_grows(
    source: Seq<char>,
    document: Seq<char>,
    entry: Seq<StepModel>,
    g: GeneratedObfuscation,
)
    requires
        is_grown(source, document),
        with_obfuscation(document, entry, g) is Ok,
    ensures
        is_grown(source, with_obfuscation(document, entry, g)->Ok_0),
{
    reveal(with_obfuscation);
    let own = entry.push(StepModel::Key("obfuscation"@));
    let fields = field_entries(g);
    match locate::place(document, own) {
        Found::At(NodeKind::BlockMapping, _, _) => {
            lemma_fields_grow(source, document, own, fields, fields.len() as int);
        },
        Found::At(NodeKind::FlowMapping, _, _) => {
            lemma_fields_grow(source, document, own, fields, fields.len() as int);
        },
        _ => {
            amend::setting_keeps_the_rest(document, entry, "obfuscation"@, as_mapping(fields));
            lemma_grown_step(source, document, with_obfuscation(document, entry, g)->Ok_0);
        },
    }
}

proof fn lemma_key_grows(
    source: Seq<char>,
    document: Seq<char>,
    entry: Seq<StepModel>,
    field: Seq<char>,
    key: Seq<char>,
)
    requires
        is_grown(source, document),
        with_private_key(document, entry, field, key) is Ok,
    ensures
        is_grown(source, with_private_key(document, entry, field, key)->Ok_0),
{
    reveal(with_private_key);
    amend::setting_keeps_the_rest(document, entry, field, Tree::Text(key));
    lemma_grown_step(source, document, with_private_key(document, entry, field, key)->Ok_0);
}

proof fn lemma_nodes_grow(document: Seq<char>, keys: Seq<(usize, String)>, n: int)
    requires
        nodes_recorded(document, keys, n) is Ok,
    ensures
        is_grown(document, nodes_recorded(document, keys, n)->Ok_0),
    decreases n,
{
    if n > 0 {
        lemma_nodes_grow(document, keys, n - 1);
        lemma_key_grows(
            document,
            nodes_recorded(document, keys, n - 1)->Ok_0,
            node_entry(keys[n - 1].0 as int),
            "mesh_private_key"@,
            keys[n - 1].1@,
        );
    } else {
        lemma_unchanged(document);
    }
}

proof fn lemma_links_grow(
    source: Seq<char>,
    document: Seq<char>,
    values: Seq<(usize, GeneratedObfuscation)>,
    n: int,
)
    requires
        is_grown(source, document),
        links_recorded(document, values, n) is Ok,
    ensures
        is_grown(source, links_recorded(document, values, n)->Ok_0),
    decreases n,
{
    if n > 0 {
        lemma_links_grow(source, document, values, n - 1);
        lemma_obfuscation_grows(
            source,
            links_recorded(document, values, n - 1)->Ok_0,
            link_entry(values[n - 1].0 as int),
            values[n - 1].1,
        );
    }
}

/// Law: recording what was minted for nodes and links takes nothing out of the network document but
/// what stood for no value. Every other character stays, in its order.
pub proof fn recording_keeps_the_network(document: Seq<char>, m: Minted)
    requires
        network_recorded(document, m) is Ok,
    ensures
        is_grown(document, network_recorded(document, m)->Ok_0),
{
    lemma_nodes_grow(document, m.node_keys@, m.node_keys@.len() as int);
    lemma_links_grow(
        document,
        nodes_recorded(document, m.node_keys@, m.node_keys@.len() as int)->Ok_0,
        m.link_obfuscation@,
        m.link_obfuscation@.len() as int,
    );
}

/// Law: recording what was minted for a pool takes nothing out of its document but what stood for no
/// value. Every other character stays, in its order.
pub proof fn recording_keeps_the_pool(document: Seq<char>, p: PoolMinted)
    requires
        pool_recorded(document, p) is Ok,
    ensures
        is_grown(document, pool_recorded(document, p)->Ok_0),
{
    lemma_unchanged(document);
    let keyed = match p.private_key {
        Some(k) => with_private_key(document, Seq::empty(), "private_key"@, k@),
        None => Ok(document),
    };
    if let Some(k) = p.private_key {
        lemma_key_grows(document, document, Seq::empty(), "private_key"@, k@);
    }
    if let Some(g) = p.obfuscation {
        lemma_obfuscation_grows(document, keyed->Ok_0, Seq::empty(), g);
    }
}

} // verus!
