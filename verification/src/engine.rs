use vstd::prelude::*;

use crate::node::Node;

verus! {

#[verifier::external_type_specification]
#[verifier::external_body]
pub struct ExYaml(yaml_rust2::Yaml);

#[verifier::external_type_specification]
#[verifier::external_body]
pub struct ExScanError(yaml_rust2::ScanError);

#[verifier::external_type_specification]
#[verifier::external_body]
pub struct ExYamlLoader(yaml_rust2::YamlLoader);

/// The content of a grammar-engine node, as a node of this crate: the
/// same tree, with a mapping's pairs in the engine's insertion order.
pub uninterp spec fn node_of(y: yaml_rust2::Yaml) -> Node;

/// What the grammar engine makes of a text: the parsed document list,
/// or a grammar-error diagnostic. Parsing is a pure function of the
/// text.
pub uninterp spec fn yaml_load(text: Seq<char>) -> Result<Seq<yaml_rust2::Yaml>, Seq<char>>;

/// The diagnostic text of a grammar error, a pure function of the error
/// value.
pub uninterp spec fn scan_error_msg(e: yaml_rust2::ScanError) -> Seq<char>;

/// Relies on `yaml_rust2::YamlLoader::load_from_str`: it parses the text
/// into a list of document trees, one per YAML document, and reports a
/// `ScanError` when the text violates the YAML grammar; its result
/// depends on the text alone.
pub assume_specification[ yaml_rust2::YamlLoader::load_from_str ](source: &str) -> (r: Result<
    Vec<yaml_rust2::Yaml>,
    yaml_rust2::ScanError,
>)
    ensures
        (r matches Ok(docs) ==> yaml_load(source@) == Ok::<Seq<yaml_rust2::Yaml>, Seq<char>>(
            docs@,
        )),
        (r matches Err(e) ==> yaml_load(source@) == Err::<Seq<yaml_rust2::Yaml>, Seq<char>>(
            scan_error_msg(e),
        )),
;

/// Relies on `yaml_rust2::Yaml`: reading which variant a node is and
/// moving its content over, one variant to one variant; a `Hash` is
/// walked with its iterator, which yields its pairs in insertion order.
#[verifier::external_body]
pub(crate) fn node_of_yaml(y: &yaml_rust2::Yaml) -> (r: Node)
    ensures
        r == node_of(*y),
{
    match y {
        yaml_rust2::Yaml::Null => Node::Null,
        yaml_rust2::Yaml::Boolean(b) => Node::Bool(*b),
        yaml_rust2::Yaml::Integer(i) => Node::Int(*i),
        yaml_rust2::Yaml::Real(s) => Node::Float(s.clone()),
        yaml_rust2::Yaml::String(s) => Node::Str(s.clone()),
        yaml_rust2::Yaml::Array(a) => Node::Sequence(a.iter().map(node_of_yaml).collect()),
        yaml_rust2::Yaml::Hash(h) => Node::Mapping(
            h.iter().map(|(k, v)| (node_of_yaml(k), node_of_yaml(v))).collect(),
        ),
        yaml_rust2::Yaml::Alias(i) => Node::Alias(*i),
        yaml_rust2::Yaml::BadValue => Node::BadValue,
    }
}

/// Relies on `yaml_rust2::ScanError`'s `Display` implementation: the
/// diagnostic text is a pure function of the error value.
#[verifier::external_body]
pub(crate) fn scan_error_text(e: &yaml_rust2::ScanError) -> (r: String)
    ensures
        r@ == scan_error_msg(*e),
{
    e.to_string()
}

} // verus!
