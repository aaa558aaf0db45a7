//! Configuration documents: the tree that a YAML text parses to, held as
//! plain values.

use vstd::prelude::*;

verus! {

/// `yaml_rust::Yaml`, a node as the parser builds it. Nothing is said of
/// what a value holds.
#[verifier::external_type_specification]
#[verifier::external_body]
pub struct ExYaml(yaml_rust::Yaml);

/// `yaml_rust::ScanError`, the fault that the parser reports. Nothing is
/// said of what a value holds.
#[verifier::external_type_specification]
#[verifier::external_body]
pub struct ExScanError(yaml_rust::ScanError);

/// A node of a document: a text scalar, a sequence of nodes, a mapping held
/// as its entries in the order of the document, or anything else.
#[derive(Debug, PartialEq, Eq)]
pub enum Node {
    Text(String),
    List(Vec<Node>),
    Table(Vec<(Node, Node)>),
    Other,
}

/// The documents that the YAML parser reads from a text, or `None` where it
/// rejects the text.
pub uninterp spec fn yaml_documents(source: Seq<char>) -> Option<Seq<Node>>;

/// Copies a `yaml_rust::Yaml` value into a `Node`, variant by variant: a
/// `Yaml::String` becomes a text, a `Yaml::Array` a list of its items, a
/// `Yaml::Hash` a table of its entries in iteration order, and every other
/// variant `Node::Other`. Nothing is claimed of the result here.
#[verifier::external_body]
fn node_of(yaml: &yaml_rust::Yaml) -> Node {
    match yaml {
        yaml_rust::Yaml::String(text) => Node::Text(text.clone()),
        yaml_rust::Yaml::Array(items) => Node::List(items.iter().map(node_of).collect()),
        yaml_rust::Yaml::Hash(entries) => Node::Table(
            entries.iter().map(|(key, value)| (node_of(key), node_of(value))).collect(),
        ),
        _ => Node::Other,
    }
}

/// Calls `yaml_rust::YamlLoader::load_from_str`, which parses a text into
/// its documents or fails with a `ScanError`. The contract only names the
/// outcome: the documents are those that the parser reads from this text.
#[verifier::external_body]
pub(crate) fn load_from_str(source: &str) -> (r: Result<Vec<Node>, yaml_rust::ScanError>)
    ensures
        match r {
            Ok(documents) => yaml_documents(source@) == Some(documents@),
            Err(_) => yaml_documents(source@) is None,
        },
{
    Ok(yaml_rust::YamlLoader::load_from_str(source)?.iter().map(node_of).collect())
}

/// Calls `to_string` on a `yaml_rust::ScanError`, which writes the parser's
/// message and the place of the fault. Nothing is claimed of the text.
#[verifier::external_body]
pub(crate) fn describe(error: &yaml_rust::ScanError) -> String {
    error.to_string()
}

} // verus!
