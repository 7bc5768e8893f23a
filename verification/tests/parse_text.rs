use yamlrustler::parse::{parse, parse_with, AliasMode, KeyPolicy, ParseFailure};
use yamlrustler::Value;

fn s(x: &str) -> Value {
    Value::Str(x.to_string())
}

fn table(pairs: Vec<(Value, Value)>) -> Value {
    Value::Table(pairs)
}

#[test]
fn scalar_null_round_trip() {
    assert_eq!(parse("~").unwrap(), Value::Null);
    assert_eq!(parse("null").unwrap(), Value::Null);
}

#[test]
fn scalar_bool_round_trip() {
    assert_eq!(parse("true").unwrap(), Value::Bool(true));
    assert_eq!(parse("false").unwrap(), Value::Bool(false));
}

#[test]
fn scalar_int_round_trip() {
    assert_eq!(parse("0").unwrap(), Value::Int(0));
    assert_eq!(parse("-7").unwrap(), Value::Int(-7));
    assert_eq!(parse("9223372036854775807").unwrap(), Value::Int(i64::MAX));
    assert_eq!(parse("-9223372036854775808").unwrap(), Value::Int(i64::MIN));
}

#[test]
fn scalar_float_round_trip() {
    assert_eq!(parse("1.5").unwrap(), Value::Float("1.5".to_string()));
    assert_eq!(parse("-0.0").unwrap(), Value::Float("-0.0".to_string()));
    assert_eq!(parse("2.5e3").unwrap(), Value::Float("2.5e3".to_string()));
}

#[test]
fn scalar_string_round_trip() {
    assert_eq!(parse("hello").unwrap(), s("hello"));
    assert_eq!(parse("\"1.5\"").unwrap(), s("1.5"));
}

#[test]
fn sequence_round_trip() {
    assert_eq!(
        parse("- 1\n- two\n- 3.5").unwrap(),
        Value::List(vec![Value::Int(1), s("two"), Value::Float("3.5".to_string())])
    );
}

#[test]
fn merge_precedence() {
    let r = parse("<<: {a: 1, b: 2}\na: 9").unwrap();
    assert_eq!(
        r,
        table(vec![(s("a"), Value::Int(9)), (s("b"), Value::Int(2))])
    );
}

#[test]
fn explicit_after_merge_precedence() {
    let r = parse("<<: {a: 1}\nb: 2\na: 9").unwrap();
    assert_eq!(
        r,
        table(vec![(s("a"), Value::Int(9)), (s("b"), Value::Int(2))])
    );
}

#[test]
fn merge_does_not_overwrite_earlier_explicit_key() {
    let r = parse("a: 9\n<<: {a: 1}").unwrap();
    assert_eq!(r, table(vec![(s("a"), Value::Int(9))]));
}

#[test]
fn merge_key_with_non_mapping_value_is_consumed() {
    let r = parse("<<: 5\na: 1").unwrap();
    assert_eq!(r, table(vec![(s("a"), Value::Int(1))]));
}

#[test]
fn merge_in_nested_mapping() {
    let r = parse("x:\n  <<: {a: 1}\n").unwrap();
    assert_eq!(
        r,
        table(vec![(s("x"), table(vec![(s("a"), Value::Int(1))]))])
    );
}

fn xy_table() -> Value {
    table(vec![(s("x"), Value::Int(1)), (s("y"), Value::Int(2))])
}

#[test]
fn alias_equivalence() {
    let r = parse("base: &b {x: 1, y: 2}\nother: *b").unwrap();
    assert_eq!(r, table(vec![(s("base"), xy_table()), (s("other"), xy_table())]));
    match parse("base: &b {x: 1, y: 2}\nother: *b").unwrap() {
        Value::Table(pairs) => assert_eq!(pairs[0].1, pairs[1].1),
        other => panic!("expected a table, got {:?}", other),
    }
}

#[test]
fn multi_document_keeps_only_first() {
    let r = parse("x: 1\n---\ny: 2").unwrap();
    assert_eq!(r, table(vec![(s("x"), Value::Int(1))]));
}

#[test]
fn malformed_input_is_a_grammar_error() {
    let r = parse("a: [1, 2\nb: ]junk: :");
    assert!(matches!(r, Err(ParseFailure::Grammar(_))));
}

#[test]
fn empty_input_is_null() {
    assert_eq!(parse("").unwrap(), Value::Null);
    assert_eq!(parse("# only a comment\n").unwrap(), Value::Null);
}

#[test]
fn nested_structures() {
    let r = parse("outer:\n  - inner: true\n  - [1, 2]").unwrap();
    assert_eq!(
        r,
        table(vec![(
            s("outer"),
            Value::List(vec![
                table(vec![(s("inner"), Value::Bool(true))]),
                Value::List(vec![Value::Int(1), Value::Int(2)]),
            ])
        )])
    );
}

#[test]
fn parse_with_collapsing_map_on_text() {
    let r = parse_with(
        "<<: {a: 1, b: 2}\na: 9",
        AliasMode::Strict,
        KeyPolicy::CollapsingMap,
    )
    .unwrap();
    assert_eq!(
        r,
        table(vec![(s("a"), Value::Int(9)), (s("b"), Value::Int(2))])
    );
}
