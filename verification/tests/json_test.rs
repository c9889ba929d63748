use converter_core::ingestion::ir::{Node, Primitive};
use converter_core::ingestion::json::parse;
use converter_core::ConvertError;
use converter_core::ingestion::json::{from_parse_result, value_to_node};
use serde_json::Value;

#[test]
fn parses_flat_object() {
    let node = parse(r#"{"name":"Alice","age":30,"active":true}"#).unwrap();
    let rec = node.as_record().expect("expected record");
    assert_eq!(rec.fields.len(), 3);
}

#[test]
fn parses_nested_object() {
    let node = parse(r#"{"server":{"host":"localhost","port":8080}}"#).unwrap();
    let rec = node.as_record().unwrap();
    let server = rec.get("server").unwrap();
    assert!(server.is_record());
}

#[test]
fn parses_array_of_objects() {
    let node = parse(r#"[{"id":1},{"id":2},{"id":3}]"#).unwrap();
    let arr = node.as_array().expect("expected array");
    assert_eq!(arr.len(), 3);
}

#[test]
fn integer_stays_int() {
    let node = parse("42").unwrap();
    assert!(matches!(node, Node::Primitive(Primitive::Int(42))));
}

#[test]
fn float_stays_float() {
    let node = parse("3.14").unwrap();
    assert!(matches!(node, Node::Primitive(Primitive::Float(_))));
}

#[test]
fn null_maps_to_null() {
    let node = parse("null").unwrap();
    assert!(node.is_null());
}

#[test]
fn invalid_json_returns_parse_error() {
    let result = parse("{broken");
    assert!(matches!(result, Err(ConvertError::Parse(_))));
}

#[test]
fn insertion_order_preserved() {
    let node = parse(r#"{"z":1,"a":2,"m":3}"#).unwrap();
    let rec = node.as_record().unwrap();
    let keys: Vec<&str> = rec.keys().into_iter().collect();
    assert_eq!(keys, vec!["z", "a", "m"]);
}

// ── Values as the tree holds them ───────────────────────────────────────────

#[test]
fn json_scalars_map_exactly() {
    match parse("3.14").unwrap() {
        Node::Primitive(Primitive::Float(f)) => {
            assert_eq!(f.text, "3.14");
            assert_eq!(f.bits, 3.14f64.to_bits());
        }
        other => panic!("expected a float, got {:?}", other),
    }
    assert!(matches!(parse("-7").unwrap(), Node::Primitive(Primitive::Int(-7))));
    assert!(matches!(parse("true").unwrap(), Node::Primitive(Primitive::Bool(true))));
    match parse(r#""héllo""#).unwrap() {
        Node::Primitive(Primitive::Str(s)) => assert_eq!(s, "héllo"),
        other => panic!("expected a string, got {:?}", other),
    }
}

#[test]
fn json_number_beyond_i64_becomes_float() {
    match parse("18446744073709551615").unwrap() {
        Node::Primitive(Primitive::Float(f)) => assert_eq!(f.text, "18446744073709552000"),
        other => panic!("expected a float, got {:?}", other),
    }
}

#[test]
fn json_array_items_keep_order() {
    let node = parse(r#"[3, "b", null, [1]]"#).unwrap();
    let arr = node.as_array().unwrap();
    assert_eq!(arr.len(), 4);
    assert!(matches!(&arr[0], Node::Primitive(p) if p.as_int() == Some(3)));
    assert!(matches!(&arr[1], Node::Primitive(p) if p.as_str() == Some("b")));
    assert!(arr[2].is_null());
    assert!(arr[3].is_array());
}

#[test]
fn json_error_message_has_prefix() {
    match parse("{broken") {
        Err(ConvertError::Parse(m)) => {
            assert!(m.starts_with("JSON parse error: "), "{}", m);
            assert!(m.len() > "JSON parse error: ".len(), "{}", m);
        }
        other => panic!("expected a parse error, got {:?}", other),
    }
}

#[test]
fn json_deep_nesting_is_refused() {
    // serde_json refuses this depth itself (its recursion limit is 128).
    let deep = format!("{}{}", "[".repeat(300), "]".repeat(300));
    assert!(matches!(parse(&deep), Err(ConvertError::Parse(_))));
    let ok = format!("{}{}", "[".repeat(100), "]".repeat(100));
    assert!(parse(&ok).is_ok());
}

// ── What follows the parser's call ──────────────────────────────────────────

#[test]
fn json_parser_error_text_is_wrapped() {
    match from_parse_result(Err("boom".to_string())) {
        Err(ConvertError::Parse(m)) => assert_eq!(m, "JSON parse error: boom"),
        other => panic!("expected a parse error, got {:?}", other),
    }
}

#[test]
fn json_values_become_trees() {
    let v = Value::Array(vec![Value::Null, Value::Bool(true), Value::String("s".to_string())]);
    let node = from_parse_result(Ok(v.clone())).unwrap();
    let arr = node.as_array().unwrap();
    assert_eq!(arr.len(), 3);
    assert!(arr[0].is_null());
    assert!(matches!(&arr[1], Node::Primitive(Primitive::Bool(true))));
    assert!(matches!(&arr[2], Node::Primitive(p) if p.as_str() == Some("s")));
    // One level of budget holds a scalar but not an array.
    assert!(value_to_node(v.clone(), 1).is_none());
    assert!(value_to_node(v, 2).is_some());
    assert!(value_to_node(Value::Null, 1).is_some());
    assert!(value_to_node(Value::Null, 0).is_none());
}

#[test]
fn json_objects_keep_key_order_in_trees() {
    let mut m = serde_json::Map::new();
    m.insert("zeta".to_string(), Value::from(1));
    m.insert("alpha".to_string(), Value::from(2.5));
    let node = value_to_node(Value::Object(m), 2).unwrap();
    let rec = node.as_record().unwrap();
    assert_eq!(rec.keys(), vec!["zeta", "alpha"]);
    assert!(matches!(rec.get("zeta").unwrap(), Node::Primitive(Primitive::Int(1))));
    match rec.get("alpha").unwrap() {
        Node::Primitive(Primitive::Float(f)) => assert_eq!(f.text, "2.5"),
        other => panic!("expected a float, got {:?}", other),
    }
}

#[test]
fn json_duplicate_keys_leave_one_field() {
    let node = parse(r#"{"a": 1, "b": 0, "a": 2}"#).unwrap();
    let rec = node.as_record().unwrap();
    assert_eq!(rec.keys(), vec!["a", "b"]);
    assert!(matches!(rec.get("a").unwrap(), Node::Primitive(Primitive::Int(2))));
}
