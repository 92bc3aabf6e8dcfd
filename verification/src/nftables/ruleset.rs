//! Which tables a ruleset declares, and whether they are all there. Nothing else of a ruleset is
//! looked at.

use crate::text;
use vstd::prelude::*;

verus! {

/// A table: its family and its name.
pub type Table = (Seq<char>, Seq<char>);

/// What follows `table ` at the start of a line: the first two words.
pub open spec fn table_after_keyword(line: Seq<char>) -> Option<Table> {
    if text::begins_with(line, "table "@) {
        let w = text::words(line.skip(6));
        if w.len() >= 2 {
            Some((w[0], w[1]))
        } else {
            None
        }
    } else {
        None
    }
}

/// The table that a line of a ruleset declares, whatever its indentation. A comment declares none.
pub open spec fn declared_in(line: Seq<char>) -> Option<Table> {
    table_after_keyword(text::trimmed_start(line))
}

/// The table that a line of a listing names.
pub open spec fn listed_in(line: Seq<char>) -> Option<Table> {
    table_after_keyword(text::trimmed(line))
}

/// What `f` finds in a list of lines, in order.
pub open spec fn found_in(lines: Seq<Seq<char>>, f: spec_fn(Seq<char>) -> Option<Table>) -> Seq<Table>
    decreases lines.len(),
{
    if lines.len() == 0 {
        Seq::empty()
    } else {
        let rest = found_in(lines.drop_last(), f);
        match f(lines.last()) {
            Some(t) => rest.push(t),
            None => rest,
        }
    }
}

/// The tables that a ruleset declares, in order.
pub open spec fn declared(ruleset: Seq<char>) -> Seq<Table> {
    found_in(text::lines(ruleset), |l: Seq<char>| declared_in(l))
}

/// The tables of a listing.
pub open spec fn listed(listing: Seq<char>) -> Seq<Table> {
    found_in(text::lines(listing), |l: Seq<char>| listed_in(l))
}

pub open spec fn tables(v: Seq<(String, String)>) -> Seq<Table> {
    Seq::new(v.len(), |i: int| (v[i].0@, v[i].1@))
}

fn parse_table(line: &Vec<char>) -> (r: Option<(String, String)>)
    ensures
        match r {
            Some(t) => table_after_keyword(line@) == Some((t.0@, t.1@)),
            None => table_after_keyword(line@) is None,
        },
{
    let keyword = text::chars_of("table ");
    proof {
        reveal_strlit("table ");
    }
    if !text::starts_with(line.as_slice(), keyword.as_slice()) {
        return None;
    }
    let rest = text::copy(line.as_slice(), 6, line.len());
    assert(rest@ =~= line@.skip(6));
    let w = text::words_of(rest.as_slice());
    assert(text::pieces(w@).len() == w@.len());
    if w.len() < 2 {
        return None;
    }
    assert(text::pieces(w@)[0] == w@[0]@ && text::pieces(w@)[1] == w@[1]@);
    Some((text::string_of(w[0].as_slice()), text::string_of(w[1].as_slice())))
}

proof fn lemma_tables_push(v: Seq<(String, String)>, t: (String, String))
    ensures
        tables(v.push(t)) == tables(v).push((t.0@, t.1@)),
{
    assert(tables(v.push(t)) =~= tables(v).push((t.0@, t.1@)));
}

/// The tables that a ruleset declares: a `table <family> <name>` at the start of a line.
pub fn declared_tables(ruleset: &str) -> (r: Vec<(String, String)>)
    ensures
        tables(r@) == declared(ruleset@),
{
    let v = text::chars_of(ruleset);
    let lines = text::lines_of(v.as_slice());
    let ghost all = text::lines(ruleset@);
    let ghost f = |l: Seq<char>| declared_in(l);
    let mut r: Vec<(String, String)> = Vec::new();
    let mut i: usize = 0;
    assert(text::pieces(lines@).len() == lines@.len());
    assert(tables(r@) =~= found_in(all.take(0), f));
    while i < lines.len()
        invariant
            i <= lines@.len(),
            all == text::pieces(lines@),
            f == (|l: Seq<char>| declared_in(l)),
            tables(r@) == found_in(all.take(i as int), f),
        decreases lines@.len() - i,
    {
        proof {
            assert(all.take(i + 1).drop_last() =~= all.take(i as int));
            assert(all.take(i + 1).last() == lines@[i as int]@);
        }
        let line = text::trim_start_chars(lines[i].as_slice());
        if let Some(t) = parse_table(&line) {
            proof {
                lemma_tables_push(r@, t);
            }
            r.push(t);
        }
        i += 1;
    }
    assert(all.take(i as int) =~= all);
    r
}

/// The tables of a listing.
fn listed_tables(listing: &str) -> (r: Vec<(String, String)>)
    ensures
        tables(r@) == listed(listing@),
{
    let v = text::chars_of(listing);
    let lines = text::lines_of(v.as_slice());
    let ghost all = text::lines(listing@);
    let ghost f = |l: Seq<char>| listed_in(l);
    let mut r: Vec<(String, String)> = Vec::new();
    let mut i: usize = 0;
    assert(text::pieces(lines@).len() == lines@.len());
    assert(tables(r@) =~= found_in(all.take(0), f));
    while i < lines.len()
        invariant
            i <= lines@.len(),
            all == text::pieces(lines@),
            f == (|l: Seq<char>| listed_in(l)),
            tables(r@) == found_in(all.take(i as int), f),
        decreases lines@.len() - i,
    {
        proof {
            assert(all.take(i + 1).drop_last() =~= all.take(i as int));
            assert(all.take(i + 1).last() == lines@[i as int]@);
        }
        let line = text::trim_chars(lines[i].as_slice());
        if let Some(t) = parse_table(&line) {
            proof {
                lemma_tables_push(r@, t);
            }
            r.push(t);
        }
        i += 1;
    }
    assert(all.take(i as int) =~= all);
    r
}

/// Whether every table that a ruleset declares is in a listing of the live ones.
#[verifier::loop_isolation(false)]
pub fn all_present(ruleset: &str, listing: &str) -> (r: bool)
    ensures
        r == (forall|i: int|
            0 <= i < declared(ruleset@).len() ==> listed(listing@).contains(
                #[trigger] declared(ruleset@)[i],
            )),
{
    let wanted = declared_tables(ruleset);
    let existing = listed_tables(listing);
    let ghost w = declared(ruleset@);
    let ghost e = listed(listing@);
    assert(tables(wanted@).len() == wanted@.len());
    assert(tables(existing@).len() == existing@.len());
    let mut i: usize = 0;
    while i < wanted.len()
        invariant
            i <= wanted@.len(),
            w == tables(wanted@),
            e == tables(existing@),
            forall|k: int| 0 <= k < i ==> e.contains(#[trigger] w[k]),
        decreases wanted@.len() - i,
    {
        let mut found = false;
        let mut j: usize = 0;
        while j < existing.len()
            invariant
                i < wanted@.len(),
                j <= existing@.len(),
                w == tables(wanted@),
                e == tables(existing@),
                found == e.take(j as int).contains(w[i as int]),
            decreases existing@.len() - j,
        {
            if text::str_eq(existing[j].0.as_str(), wanted[i].0.as_str()) && text::str_eq(
                existing[j].1.as_str(),
                wanted[i].1.as_str(),
            ) {
                found = true;
            }
            proof {
                let a = e.take(j as int);
                let b = e.take(j + 1);
                let t = w[i as int];
                if a.contains(t) {
                    let k = choose|k: int| 0 <= k < a.len() && a[k] == t;
                    assert(b[k] == t);
                }
                if b.contains(t) {
                    let k = choose|k: int| 0 <= k < b.len() && b[k] == t;
                    if k < j {
                        assert(a[k] == t);
                    }
                }
                assert(b[j as int] == e[j as int]);
            }
            j += 1;
        }
        assert(e.take(j as int) =~= e);
        if !found {
            assert(!e.contains(w[i as int]));
            return false;
        }
        i += 1;
    }
    true
}

/// One run of `nft`.
#[derive(Debug, PartialEq)]
pub enum Run {
    /// Deletes a table. It fails harmlessly where the table does not exist yet.
    Delete(String, String),
    /// Loads a ruleset, which it reads from its input.
    Load(String),
}

/// A run as a mathematical value.
pub enum RunModel {
    Delete(Table),
    Load(Seq<char>),
}

pub open spec fn run_model(r: Run) -> RunModel {
    match r {
        Run::Delete(family, name) => RunModel::Delete((family@, name@)),
        Run::Load(ruleset) => RunModel::Load(ruleset@),
    }
}

pub open spec fn run_models(v: Seq<Run>) -> Seq<RunModel> {
    Seq::new(v.len(), |i: int| run_model(v[i]))
}

/// The runs that apply a ruleset: each table that it declares is deleted, in order, and then it is
/// loaded. Tables of others are left alone.
pub open spec fn runs_of(ruleset: Seq<char>) -> Seq<RunModel> {
    let t = declared(ruleset);
    Seq::new(t.len(), |i: int| RunModel::Delete(t[i])).push(RunModel::Load(ruleset))
}

/// The runs that apply a ruleset.
pub fn runs(ruleset: &str) -> (r: Vec<Run>)
    ensures
        run_models(r@) == runs_of(ruleset@),
{
    let found = declared_tables(ruleset);
    let ghost t = declared(ruleset@);
    let mut out: Vec<Run> = Vec::new();
    let mut i: usize = 0;
    while i < found.len()
        invariant
            i <= found@.len(),
            tables(found@) == t,
            out@.len() == i,
            forall|k: int|
                0 <= k < i ==> run_model(#[trigger] out@[k]) == RunModel::Delete(t[k]),
        decreases found@.len() - i,
    {
        assert(t[i as int] == (found@[i as int].0@, found@[i as int].1@));
        out.push(Run::Delete(found[i].0.clone(), found[i].1.clone()));
        i += 1;
    }
    out.push(Run::Load(ruleset.to_owned()));
    assert(run_models(out@) =~= runs_of(ruleset@));
    out
}

/// The arguments of a run.
pub open spec fn arguments_of(r: RunModel) -> Seq<Seq<char>> {
    match r {
        RunModel::Delete(t) => seq!["delete"@, "table"@, t.0, t.1],
        RunModel::Load(_) => seq!["-f"@, "-"@],
    }
}

/// The arguments of a run.
pub fn arguments(run: &Run) -> (r: Vec<String>)
    ensures
        text::texts(r@) == arguments_of(run_model(*run)),
{
    let r = match run {
        Run::Delete(family, name) => vec![
            "delete".to_owned(),
            "table".to_owned(),
            family.clone(),
            name.clone(),
        ],
        Run::Load(_) => vec!["-f".to_owned(), "-".to_owned()],
    };
    assert(text::texts(r@) =~= arguments_of(run_model(*run)));
    r
}

/// Whether applying goes on after a run: only a load has to succeed.
pub fn goes_on(run: &Run, succeeded: bool) -> (r: bool)
    ensures
        r == (succeeded || run_model(*run) is Delete),
{
    match run {
        Run::Delete(_, _) => true,
        Run::Load(_) => succeeded,
    }
}

/// Law: applying a ruleset deletes no table but those that it declares, and loads it last, once.
pub proof fn only_own_tables_are_deleted(ruleset: Seq<char>, i: int)
    requires
        0 <= i < runs_of(ruleset).len(),
    ensures
        match runs_of(ruleset)[i] {
            RunModel::Delete(t) => i < runs_of(ruleset).len() - 1 && declared(ruleset).contains(t),
            RunModel::Load(s) => i == runs_of(ruleset).len() - 1 && s == ruleset,
        },
{
    let t = declared(ruleset);
    if i < t.len() {
        assert(t.contains(t[i]));
    }
}

/// What is found in lines is found in one of them.
proof fn lemma_found(lines: Seq<Seq<char>>, f: spec_fn(Seq<char>) -> Option<Table>, t: Table)
    ensures
        found_in(lines, f).contains(t) <==> exists|i: int|
            0 <= i < lines.len() && f(#[trigger] lines[i]) == Some(t),
    decreases lines.len(),
{
    if lines.len() > 0 {
        let n = lines.len() - 1;
        let init = lines.drop_last();
        lemma_found(init, f, t);
        let before = found_in(init, f);
        let now = found_in(lines, f);
        if before.contains(t) {
            let k = choose|k: int| 0 <= k < before.len() && before[k] == t;
            assert(now[k] == t);
            let i = choose|i: int| 0 <= i < init.len() && f(#[trigger] init[i]) == Some(t);
            assert(lines[i] == init[i]);
        }
        if f(lines[n]) == Some(t) {
            assert(now[before.len() as int] == t);
        }
        if now.contains(t) {
            let k = choose|k: int| 0 <= k < now.len() && now[k] == t;
            if k < before.len() {
                assert(before[k] == t);
            } else {
                assert(f(lines[n]) == Some(t));
            }
        }
        if exists|i: int| 0 <= i < lines.len() && f(#[trigger] lines[i]) == Some(t) {
            let i = choose|i: int| 0 <= i < lines.len() && f(#[trigger] lines[i]) == Some(t);
            if i < n {
                assert(init[i] == lines[i]);
            }
        }
    }
}

/// Law: a table is declared if and only if a line says so: `table ` at its start, whitespace aside,
/// and behind it the family and the name, in this order.
pub proof fn declared_iff_a_line_says_so(ruleset: Seq<char>, family: Seq<char>, name: Seq<char>)
    ensures
        declared(ruleset).contains((family, name)) <==> exists|i: int|
            {
                let line = text::trimmed_start(#[trigger] text::lines(ruleset)[i]);
                &&& 0 <= i < text::lines(ruleset).len()
                &&& text::begins_with(line, "table "@)
                &&& text::words(line.skip(6)).len() >= 2
                &&& text::words(line.skip(6))[0] == family
                &&& text::words(line.skip(6))[1] == name
            },
{
    lemma_found(text::lines(ruleset), |l: Seq<char>| declared_in(l), (family, name));
    let v = text::lines(ruleset);
    let f = |l: Seq<char>| declared_in(l);
    if declared(ruleset).contains((family, name)) {
        let i = choose|i: int| 0 <= i < v.len() && f(#[trigger] v[i]) == Some((family, name));
        assert(declared_in(text::lines(ruleset)[i]) == Some((family, name)));
    }
    if exists|i: int|
        {
            let line = text::trimmed_start(#[trigger] text::lines(ruleset)[i]);
            &&& 0 <= i < text::lines(ruleset).len()
            &&& text::begins_with(line, "table "@)
            &&& text::words(line.skip(6)).len() >= 2
            &&& text::words(line.skip(6))[0] == family
            &&& text::words(line.skip(6))[1] == name
        } {
        let i = choose|i: int|
            {
                let line = text::trimmed_start(#[trigger] text::lines(ruleset)[i]);
                &&& 0 <= i < text::lines(ruleset).len()
                &&& text::begins_with(line, "table "@)
                &&& text::words(line.skip(6)).len() >= 2
                &&& text::words(line.skip(6))[0] == family
                &&& text::words(line.skip(6))[1] == name
            };
        assert(f(v[i]) == Some((family, name)));
    }
}

/// Law: every table that a ruleset declares is deleted, by its family and its name, before the
/// ruleset is loaded.
pub proof fn declared_tables_are_deleted(ruleset: Seq<char>, t: Table)
    requires
        declared(ruleset).contains(t),
    ensures
        exists|i: int|
            0 <= i < runs_of(ruleset).len() - 1 && (#[trigger] runs_of(ruleset)[i])
                == RunModel::Delete(t) && arguments_of(runs_of(ruleset)[i]) == seq![
                "delete"@,
                "table"@,
                t.0,
                t.1,
            ],
{
    let v = declared(ruleset);
    let i = choose|i: int| 0 <= i < v.len() && v[i] == t;
    assert(runs_of(ruleset)[i] == RunModel::Delete(t));
}

} // verus!
