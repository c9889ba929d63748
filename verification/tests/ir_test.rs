use converter_core::ingestion::ir::{FloatValue, Node, Primitive, Record};
use converter_core::ingestion::json::parse;

fn float(x: f64) -> Node {
    Node::Primitive(Primitive::Float(FloatValue { bits: x.to_bits(), text: format!("{}", x) }))
}

#[test]
fn floats_compare_as_f64() {
    assert_eq!(float(0.0), float(-0.0));
    assert_ne!(float(f64::NAN), float(f64::NAN));
    assert_eq!(float(1.5), float(1.5));
    assert_ne!(float(1.5), float(2.5));
    assert_ne!(float(1.0), Node::Primitive(Primitive::Int(1)));
}

#[test]
fn clones_are_equal_and_deep() {
    let node = parse(r#"{"a": [1, {"b": "c"}], "d": null, "e": 2.5}"#).unwrap();
    let copy = node.clone();
    assert_eq!(copy, node);
    let rec = node.as_record().unwrap().clone();
    assert_eq!(&rec, node.as_record().unwrap());
    assert_eq!(rec.keys(), vec!["a", "d", "e"]);
}

#[test]
fn records_differ_by_order_keys_or_values() {
    let mut a = Record::new();
    a.insert("x".to_string(), Node::Null);
    a.insert("y".to_string(), Node::Primitive(Primitive::Bool(true)));
    let mut b = Record::new();
    b.insert("y".to_string(), Node::Primitive(Primitive::Bool(true)));
    b.insert("x".to_string(), Node::Null);
    assert_ne!(a, b);
    let mut c = a.clone();
    assert_eq!(a, c);
    c.insert("z".to_string(), Node::Null);
    assert_ne!(a, c);
    assert_ne!(Node::Record(a.clone()), Node::Array(vec![]));
    assert_eq!(Node::Array(vec![Node::Null]), Node::Array(vec![Node::Null]));
}

#[test]
fn records_are_ordered_maps() {
    let mut r = Record::new();
    r.insert("a".to_string(), Node::Null);
    r.insert("b".to_string(), Node::Null);
    r.insert("a".to_string(), Node::Primitive(Primitive::Int(1)));
    assert_eq!(r.keys(), vec!["a", "b"]);
    assert_eq!(r.fields.len(), 2);
    assert!(matches!(r.get("a").unwrap(), Node::Primitive(Primitive::Int(1))));
    assert!(r.get("b").unwrap().is_null());
    r.insert("c".to_string(), Node::Primitive(Primitive::Bool(true)));
    assert_eq!(r.keys(), vec!["a", "b", "c"]);
}

#[test]
fn keys_lists_repeated_field_keys_once() {
    let r = Record {
        fields: vec![
            ("x".to_string(), Node::Null),
            ("y".to_string(), Node::Null),
            ("x".to_string(), Node::Primitive(Primitive::Int(2))),
        ],
    };
    assert_eq!(r.keys(), vec!["x", "y"]);
    assert!(r.get("x").unwrap().is_null());
}
