use converter_core::ingestion::ir::{Node, Primitive};
use converter_core::ingestion::toml_input::parse;
use converter_core::ConvertError;
use converter_core::ingestion::toml_input::{from_parse_result, value_to_node};
use toml::Value;

#[test]
fn parses_flat_table() {
    let toml = r#"
name    = "Alice"
age     = 30
active  = true
"#;
    let node = parse(toml).unwrap();
    let rec = node.as_record().expect("expected record");
    assert_eq!(rec.fields.len(), 3);
}

#[test]
fn parses_nested_table() {
    let toml = r#"
[server]
host = "localhost"
port = 8080
"#;
    let node = parse(toml).unwrap();
    let rec = node.as_record().unwrap();
    let server = rec.get("server").unwrap();
    assert!(server.is_record());
    let srv_rec = server.as_record().unwrap();
    assert!(srv_rec.get("host").is_some());
    assert!(srv_rec.get("port").is_some());
}

#[test]
fn parses_array_of_tables() {
    let toml = r#"
[[weapons]]
name = "Sword"
damage = 25

[[weapons]]
name = "Bow"
damage = 20
"#;
    let node = parse(toml).unwrap();
    let rec = node.as_record().unwrap();
    let weapons = rec.get("weapons").unwrap();
    let arr = weapons.as_array().expect("expected array");
    assert_eq!(arr.len(), 2);
}

#[test]
fn integer_maps_to_int() {
    let node = parse("x = 42").unwrap();
    let rec = node.as_record().unwrap();
    match rec.get("x").unwrap() {
        Node::Primitive(Primitive::Int(42)) => {}
        other => panic!("expected Int(42), got {:?}", other),
    }
}

#[test]
fn float_maps_to_float() {
    let node = parse("pi = 3.14").unwrap();
    let rec = node.as_record().unwrap();
    assert!(matches!(rec.get("pi").unwrap(), Node::Primitive(Primitive::Float(_))));
}

#[test]
fn datetime_maps_to_str() {
    let node = parse("ts = 2024-01-01T00:00:00Z").unwrap();
    let rec = node.as_record().unwrap();
    assert!(matches!(rec.get("ts").unwrap(), Node::Primitive(Primitive::Str(_))));
}

#[test]
fn invalid_toml_returns_parse_error() {
    let result = parse("[[[[invalid");
    assert!(matches!(result, Err(ConvertError::Parse(_))));
}

#[test]
fn inline_array_of_strings() {
    let node = parse(r#"tags = ["web", "api", "v1"]"#).unwrap();
    let rec = node.as_record().unwrap();
    let arr = rec.get("tags").unwrap().as_array().expect("expected array");
    assert_eq!(arr.len(), 3);
}

// ── Values as the tree holds them ───────────────────────────────────────────

#[test]
fn toml_datetime_text_and_order() {
    let node = parse("z = 1\nts = 2024-01-01T00:00:00Z\na = \"x\"").unwrap();
    let rec = node.as_record().unwrap();
    assert_eq!(rec.keys(), vec!["z", "ts", "a"]);
    assert!(matches!(rec.get("ts").unwrap(), Node::Primitive(p) if p.as_str() == Some("2024-01-01T00:00:00Z")));
    assert!(matches!(rec.get("a").unwrap(), Node::Primitive(p) if p.as_str() == Some("x")));
}

#[test]
fn toml_float_text() {
    let node = parse("pi = 3.14\nb = false").unwrap();
    let rec = node.as_record().unwrap();
    match rec.get("pi").unwrap() {
        Node::Primitive(Primitive::Float(f)) => assert_eq!(f.text, "3.14"),
        other => panic!("expected a float, got {:?}", other),
    }
    assert!(matches!(rec.get("b").unwrap(), Node::Primitive(p) if p.as_bool() == Some(false)));
}

#[test]
fn toml_error_message_has_prefix() {
    match parse("[[[[invalid") {
        Err(ConvertError::Parse(m)) => assert!(m.starts_with("TOML parse error: "), "{}", m),
        other => panic!("expected a parse error, got {:?}", other),
    }
}

// ── What follows the parser's call ──────────────────────────────────────────

#[test]
fn toml_parser_error_text_is_wrapped() {
    match from_parse_result(Err("bad".to_string())) {
        Err(ConvertError::Parse(m)) => assert_eq!(m, "TOML parse error: bad"),
        other => panic!("expected a parse error, got {:?}", other),
    }
}

#[test]
fn toml_values_become_trees() {
    let v = Value::Array(vec![Value::Integer(7), Value::Boolean(false), Value::String("t".to_string())]);
    let node = from_parse_result(Ok(v.clone())).unwrap();
    let arr = node.as_array().unwrap();
    assert_eq!(arr.len(), 3);
    assert!(matches!(&arr[0], Node::Primitive(Primitive::Int(7))));
    assert!(matches!(&arr[1], Node::Primitive(Primitive::Bool(false))));
    assert!(value_to_node(v, 1).is_none());
    assert!(value_to_node(Value::Float(0.5), 1).is_some());
}

#[test]
fn toml_records_have_distinct_keys() {
    let node = parse("a = 1\n[t]\nx = 1\ny = 2\n").unwrap();
    let rec = node.as_record().unwrap();
    assert_eq!(rec.keys(), vec!["a", "t"]);
    let t = rec.get("t").unwrap().as_record().unwrap();
    assert_eq!(t.keys(), vec!["x", "y"]);
    // A repeated key is an error in TOML.
    assert!(matches!(parse("a = 1\na = 2"), Err(ConvertError::Parse(_))));
}
