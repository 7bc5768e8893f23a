use yamlrustler::convert::{convert, ConvertError};
use yamlrustler::parse::{parse_documents, AliasMode, KeyPolicy, ParseFailure};
use yamlrustler::resolve::{resolve_aliases, ResolveError};
use yamlrustler::{Node, Value};

fn ns(x: &str) -> Node {
    Node::Str(x.to_string())
}

fn vs(x: &str) -> Value {
    Value::Str(x.to_string())
}

#[test]
fn transitive_alias_chain_resolves_to_concrete_value() {
    let docs = vec![Node::Alias(1), Node::Alias(2), Node::Int(5)];
    let r = resolve_aliases(&docs[0], &docs, true).unwrap();
    assert_eq!(r, Node::Int(5));
    let v = parse_documents(&docs, AliasMode::Strict, KeyPolicy::OrderedPairs).unwrap();
    assert_eq!(v, Value::Int(5));
}

#[test]
fn direct_cycle_is_reported() {
    let docs = vec![Node::Alias(0)];
    let r = resolve_aliases(&docs[0], &docs, true);
    assert_eq!(r, Err(ResolveError::CyclicAlias));
    let v = parse_documents(&docs, AliasMode::Strict, KeyPolicy::OrderedPairs);
    assert_eq!(v, Err(ParseFailure::CyclicAlias));
}

#[test]
fn indirect_cycle_is_reported() {
    let docs = vec![
        Node::Mapping(vec![(ns("k"), Node::Alias(1))]),
        Node::Sequence(vec![Node::Alias(0)]),
    ];
    let r = resolve_aliases(&docs[0], &docs, true);
    assert_eq!(r, Err(ResolveError::CyclicAlias));
}

#[test]
fn dangling_alias_strict_and_lenient() {
    let docs = vec![Node::Alias(5)];
    assert_eq!(
        resolve_aliases(&docs[0], &docs, true),
        Err(ResolveError::DanglingAlias(5))
    );
    assert_eq!(resolve_aliases(&docs[0], &docs, false), Ok(Node::Null));
    assert_eq!(
        parse_documents(&docs, AliasMode::Strict, KeyPolicy::OrderedPairs),
        Err(ParseFailure::DanglingAlias(5))
    );
    assert_eq!(
        parse_documents(&docs, AliasMode::Lenient, KeyPolicy::OrderedPairs),
        Ok(Value::Null)
    );
}

#[test]
fn alias_target_resolves_like_alias() {
    let docs = vec![
        Node::Sequence(vec![Node::Alias(1), Node::Int(9)]),
        Node::Str("shared".to_string()),
    ];
    let whole = resolve_aliases(&docs[0], &docs, true).unwrap();
    assert_eq!(whole, Node::Sequence(vec![ns("shared"), Node::Int(9)]));
}

#[test]
fn multiple_merge_keys_apply_in_order() {
    let m = Node::Mapping(vec![
        (ns("<<"), Node::Mapping(vec![(ns("a"), Node::Int(1))])),
        (ns("<<"), Node::Mapping(vec![(ns("a"), Node::Int(5)), (ns("b"), Node::Int(2))])),
    ]);
    let docs = vec![m];
    let v = parse_documents(&docs, AliasMode::Strict, KeyPolicy::OrderedPairs).unwrap();
    assert_eq!(
        v,
        Value::Table(vec![(vs("a"), Value::Int(1)), (vs("b"), Value::Int(2))])
    );
}

#[test]
fn duplicate_keys_ordered_pairs_policy() {
    let m = Node::Mapping(vec![(ns("a"), Node::Int(1)), (ns("a"), Node::Int(2))]);
    let v = convert(&m, false).unwrap();
    assert_eq!(
        v,
        Value::Table(vec![(vs("a"), Value::Int(1)), (vs("a"), Value::Int(2))])
    );
}

#[test]
fn duplicate_keys_collapsing_map_policy() {
    let m = Node::Mapping(vec![
        (ns("a"), Node::Int(1)),
        (ns("b"), Node::Int(3)),
        (ns("a"), Node::Int(2)),
    ]);
    let v = convert(&m, true).unwrap();
    assert_eq!(
        v,
        Value::Table(vec![(vs("a"), Value::Int(2)), (vs("b"), Value::Int(3))])
    );
}

#[test]
fn invalid_float_text_is_a_number_error() {
    let n = Node::Float("abc".to_string());
    assert_eq!(
        convert(&n, false),
        Err(ConvertError::Number("abc".to_string()))
    );
    let n2 = Node::Float(".inf".to_string());
    assert_eq!(
        convert(&n2, false),
        Err(ConvertError::Number(".inf".to_string()))
    );
}

#[test]
fn valid_float_texts_convert() {
    for t in ["1.5", "-0.0", "2.5e3", "+12.", ".5", "1e-9", "inf", "-Infinity", "NaN"] {
        assert_eq!(
            convert(&Node::Float(t.to_string()), false),
            Ok(Value::Float(t.to_string())),
            "text {:?} should convert",
            t
        );
    }
    for t in ["", ".", "e3", "1.2.3", "1e", "--1", "in", "infx"] {
        assert_eq!(
            convert(&Node::Float(t.to_string()), false),
            Err(ConvertError::Number(t.to_string())),
            "text {:?} should be rejected",
            t
        );
    }
}

#[test]
fn bad_value_becomes_sentinel_string() {
    assert_eq!(
        convert(&Node::BadValue, false),
        Ok(Value::Str("<<bad_value>>".to_string()))
    );
}

#[test]
fn empty_document_list_is_null() {
    let docs: Vec<Node> = vec![];
    assert_eq!(
        parse_documents(&docs, AliasMode::Strict, KeyPolicy::OrderedPairs),
        Ok(Value::Null)
    );
}

#[test]
fn deep_eq_agrees_with_structural_equality() {
    let a = Node::Sequence(vec![ns("x"), Node::Int(1)]);
    let b = Node::Sequence(vec![ns("x"), Node::Int(1)]);
    let c = Node::Sequence(vec![ns("x"), Node::Int(2)]);
    assert!(a.deep_eq(&b));
    assert!(!a.deep_eq(&c));
}

#[test]
fn clone_value_copies_deeply() {
    let v = Value::Table(vec![(
        vs("k"),
        Value::List(vec![Value::Int(1), Value::Float("2.5".to_string())]),
    )]);
    let c = yamlrustler::convert::clone_value(&v);
    assert_eq!(c, v);
    assert!(c.deep_eq(&v));
}
