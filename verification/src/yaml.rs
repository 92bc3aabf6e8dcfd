//! YAML text to plain data and back.

use crate::value;
use crate::value::Tree;
use crate::value::Value;
use vstd::prelude::*;
use yaml_serde::value::Tag;
use yaml_serde::value::TaggedValue;
use yaml_serde::Value as Yaml;

verus! {

/// What one document of YAML says; nothing where the text is not one valid document.
pub uninterp spec fn yaml_tree(s: Seq<char>) -> Option<Tree>;

/// How data is written as YAML; nothing where it cannot be written.
pub uninterp spec fn yaml_text(t: Tree) -> Option<Seq<char>>;

/// A node of a YAML document, as the parser gives it.
#[verifier::external_type_specification]
#[verifier::external_body]
pub struct ExYaml(Yaml);

/// A `yaml_serde::Value` as plain data: each variant becomes the one of the same meaning, a number
/// its text, a tag its name without the mark that opens it.
#[verifier::external_body]
fn plain(v: Yaml) -> Value {
    match v {
        Yaml::Null => Value::Null,
        Yaml::Bool(b) => Value::Bool(b),
        Yaml::Number(n) => Value::Number(n.to_string()),
        Yaml::String(s) => Value::Text(s),
        Yaml::Sequence(items) => Value::Sequence(items.into_iter().map(plain).collect()),
        Yaml::Mapping(m) => Value::Mapping(
            m.into_iter().map(|(k, v)| (plain(k), plain(v))).collect(),
        ),
        Yaml::Tagged(t) => Value::Tagged(t.tag.to_string().split_off(1), Box::new(plain(t.value))),
    }
}

/// Plain data as a `yaml_serde::Value`, variant by variant.
#[verifier::external_body]
pub(crate) fn outside(v: &Value) -> Yaml {
    match v {
        Value::Null => Yaml::Null,
        Value::Bool(b) => Yaml::Bool(*b),
        Value::Number(n) => n.parse().map_or(Yaml::Null, Yaml::Number),
        Value::Text(s) => Yaml::String(s.clone()),
        Value::Sequence(items) => Yaml::Sequence(items.iter().map(outside).collect()),
        Value::Mapping(m) => Yaml::Mapping(
            m.iter().map(|(k, v)| (outside(k), outside(v))).collect(),
        ),
        Value::Tagged(tag, v) => Yaml::Tagged(
            Box::new(TaggedValue { tag: Tag::new(format!("!{tag}")), value: outside(v) }),
        ),
    }
}

/// `yaml_serde::from_str` for a `yaml_serde::Value`: what the text says, or an error where it is
/// not one valid document. What it gives depends on the text alone. Nothing more is said of how
/// YAML is read.
#[verifier::external_body]
pub(crate) fn parse(text: &str) -> (r: Option<Value>)
    ensures
        match r {
            Some(v) => yaml_tree(text@) == Some(value::tree(v)),
            None => yaml_tree(text@) is None,
        },
{
    yaml_serde::from_str::<Yaml>(text).ok().map(plain)
}

/// `yaml_serde::to_string` on a `yaml_serde::Value`: the data as YAML. What it gives depends on
/// the data alone. Nothing more is said of how YAML is written.
#[verifier::external_body]
pub(crate) fn format(v: &Value) -> (r: Option<String>)
    ensures
        match r {
            Some(s) => yaml_text(value::tree(*v)) == Some(s@),
            None => yaml_text(value::tree(*v)) is None,
        },
{
    yaml_serde::to_string(&outside(v)).ok()
}

} // verus!
