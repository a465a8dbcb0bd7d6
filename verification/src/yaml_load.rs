//! Loading YAML text into documents, through yaml-rust2's loader.

use vstd::prelude::*;
use crate::yaml_fields::YamlNode;

verus! {

#[verifier::external_type_specification]
#[verifier::external_body]
pub struct ExYaml(yaml_rust2::Yaml);

/// What yaml-rust2's loader makes of a text: its documents as the library's
/// values, or the text of its error.
pub uninterp spec fn yaml_documents(text: Seq<char>) -> Result<Seq<YamlNode>, Seq<char>>;

/// One of the loader's nodes as the library's value, variant for variant;
/// a mapping keeps its entries in document order.
#[verifier::external_body]
fn yaml_node(y: &yaml_rust2::Yaml) -> YamlNode {
    match y {
        yaml_rust2::Yaml::Real(s) => YamlNode::Real(s.clone()),
        yaml_rust2::Yaml::Integer(i) => YamlNode::Integer(*i),
        yaml_rust2::Yaml::String(s) => YamlNode::String(s.clone()),
        yaml_rust2::Yaml::Boolean(b) => YamlNode::Boolean(*b),
        yaml_rust2::Yaml::Array(items) => YamlNode::Array(items.iter().map(yaml_node).collect()),
        yaml_rust2::Yaml::Hash(h) => YamlNode::Hash(h.iter().map(|(k, v)| (yaml_node(k), yaml_node(v))).collect()),
        yaml_rust2::Yaml::Alias(n) => YamlNode::Alias(*n),
        yaml_rust2::Yaml::Null => YamlNode::Null,
        yaml_rust2::Yaml::BadValue => YamlNode::BadValue,
    }
}

/// yaml-rust2's `YamlLoader::load_from_str`: the documents of `text`, or
/// the text of the scan error. Claimed: the outcome is a function of the
/// text alone, named [`yaml_documents`]; nothing more is stated of it.
#[verifier::external_body]
pub(crate) fn load_yaml(text: &str) -> (r: Result<Vec<YamlNode>, String>)
    ensures
        match r {
            Ok(d) => yaml_documents(text@) == Ok::<Seq<YamlNode>, Seq<char>>(d@),
            Err(m) => yaml_documents(text@) == Err::<Seq<YamlNode>, Seq<char>>(m@),
        },
{
    match yaml_rust2::YamlLoader::load_from_str(text) {
        Ok(docs) => Ok(docs.iter().map(yaml_node).collect()),
        Err(e) => Err(e.to_string()),
    }
}

} // verus!
