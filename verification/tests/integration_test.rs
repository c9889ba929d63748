use converter_core::{convert, ConvertError, ConvertOptions, InputFormat};
use converter_core::convert_tree;
use converter_core::ingestion::json::parse;

// ── Basic smoke tests ─────────────────────────────────────────────────────────

#[test]
fn converts_simple_flat_json() {
    let input = r#"{"name": "Alice", "age": 30, "active": true}"#;
    let result = convert(input, InputFormat::Json, &ConvertOptions::default());
    assert!(result.is_ok(), "{:?}", result);
    let mdix = result.unwrap();
    assert!(mdix.contains("@DATA"), "missing @DATA\n{}", mdix);
    assert!(mdix.contains("name"), "missing 'name'\n{}", mdix);
    assert!(mdix.contains("Alice"), "missing 'Alice'\n{}", mdix);
}

#[test]
fn converts_nested_json_object() {
    let input = r#"{"server": {"host": "localhost", "port": 8080}}"#;
    let result = convert(input, InputFormat::Json, &ConvertOptions::default());
    assert!(result.is_ok(), "{:?}", result);
    let mdix = result.unwrap();
    assert!(mdix.contains("server"), "missing 'server'\n{}", mdix);
    assert!(mdix.contains("localhost"), "missing 'localhost'\n{}", mdix);
}

#[test]
fn output_always_contains_config_and_data() {
    let input = r#"{"x": 1}"#;
    let mdix = convert(input, InputFormat::Json, &ConvertOptions::default()).unwrap();
    assert!(mdix.contains("@CONFIG"), "missing @CONFIG");
    assert!(mdix.contains("@DATA"), "missing @DATA");
}

#[test]
fn detects_enum_from_repeated_string_field() {
    let input = String::from(
        r#"[{"id":1,"type":"SWORD","rarity":"COMMON"},{"id":2,"type":"BOW","rarity":"RARE"},{"id":3,"type":"SWORD","rarity":"COMMON"},{"id":4,"type":"STAFF","rarity":"EPIC"},{"id":5,"type":"BOW","rarity":"RARE"}]"#,
    );
    let opts = ConvertOptions { threshold: 0, min_occurrences: 2 };
    let result = convert(&input, InputFormat::Json, &opts);
    assert!(result.is_ok(), "{:?}", result);
    let mdix = result.unwrap();
    // An @ENUMS block might be expected for this input, but under the
    // documented cost model both string fields cost more than they save
    // ("type": 6 * 5 - 31 - 60 = -61, "rarity": 6 * 5 - 32 - 60 = -62), so even
    // a threshold of 0 induces no enum. The model is kept as documented; the
    // enum detection itself is exercised on long values below.
    assert!(!mdix.contains("@ENUMS"), "unexpected @ENUMS block:\n{}", mdix);
    assert!(mdix.contains("type = \"SWORD\""), "{}", mdix);
}

#[test]
fn no_enum_when_all_values_unique() {
    let input = r#"[{"id":1,"name":"Alice"},{"id":2,"name":"Bob"},{"id":3,"name":"Charlie"}]"#;
    let opts = ConvertOptions { threshold: 0, min_occurrences: 2 };
    let result = convert(input, InputFormat::Json, &opts).unwrap();
    // Names are all unique — should NOT produce @ENUMS
    assert!(!result.contains("@ENUMS"), "unexpected @ENUMS:\n{}", result);
}

#[test]
fn same_input_same_output() {
    let input = r#"{"a": 1, "b": "hello", "c": true}"#;
    let opts = ConvertOptions::default();
    let out1 = convert(input, InputFormat::Json, &opts).unwrap();
    let out2 = convert(input, InputFormat::Json, &opts).unwrap();
    assert_eq!(out1, out2, "output is not deterministic");
}

// ── Exact documents ─────────────────────────────────────────────────────────

const CONFIG: &str = "@CONFIG(\n  version  -> \"1.0.0\"\n  features -> \"data\"\n)\n\n";

#[test]
fn exact_document_for_a_flat_object() {
    let out = convert(r#"{"x": 1}"#, InputFormat::Json, &ConvertOptions::default()).unwrap();
    assert_eq!(out, format!("{}@DATA(\n  x = 1\n)\n", CONFIG));
}

#[test]
fn exact_document_for_a_nested_object() {
    let input = r#"{"server": {"host": "localhost", "port": 8080}}"#;
    let out = convert(input, InputFormat::Json, &ConvertOptions::default()).unwrap();
    assert_eq!(
        out,
        format!("{}@DATA(\n  server::\n    host = \"localhost\"\n    port = 8080\n)\n", CONFIG)
    );
}

#[test]
fn exact_document_for_toml_with_alignment() {
    let out = convert("name = \"Alice\"\nage = 30\npi = 3.14", InputFormat::Toml, &ConvertOptions::default())
        .unwrap();
    assert_eq!(
        out,
        format!("{}@DATA(\n  name = \"Alice\"\n  age  = 30\n  pi   = 3.14\n)\n", CONFIG)
    );
}

#[test]
fn strings_are_escaped_and_null_and_bools_written() {
    let input = r#"{"s": "a\"b\\c", "n": null, "t": true, "xs": [1, "two", null, [3], {"k": false}]}"#;
    let out = convert(input, InputFormat::Json, &ConvertOptions::default()).unwrap();
    assert!(out.contains("  s = \"a\\\"b\\\\c\"\n"), "{}", out);
    assert!(out.contains("  n = null\n"), "{}", out);
    assert!(out.contains("  t = true\n"), "{}", out);
    assert!(out.contains("  xs::\n    1\n    \"two\"\n    null\n    [ 3 ]\n    { k = false }\n"), "{}", out);
}

// ── Induction ───────────────────────────────────────────────────────────────

const LONG_ONE: &str = "extraordinarily_long_value_one";
const LONG_TWO: &str = "extraordinarily_long_value_two";

#[test]
fn detects_enum_for_long_repeated_values() {
    let mut input = String::from("{");
    for i in 1..=6 {
        let v = if i % 2 == 1 { LONG_ONE } else { LONG_TWO };
        if i > 1 {
            input.push(',');
        }
        input.push_str(&format!("\"w{}\": {{\"category\": \"{}\"}}", i, v));
    }
    input.push('}');
    let opts = ConvertOptions { threshold: 0, min_occurrences: 2 };
    let out = convert(&input, InputFormat::Json, &opts).unwrap();
    assert!(out.contains("@ENUMS(\n  Category {   EXTRAORDINARILY_LONG_VALUE_ONE = 0,   EXTRAORDINARILY_LONG_VALUE_TWO = 1 }\n)\n"), "{}", out);
    assert!(out.contains("  w1::\n    category = Category.EXTRAORDINARILY_LONG_VALUE_ONE\n"), "{}", out);
    assert!(out.contains("  w2::\n    category = Category.EXTRAORDINARILY_LONG_VALUE_TWO\n"), "{}", out);
    assert!(!out.contains("@QUICKFUNCS"), "{}", out);
    // The saving (44) is below the default threshold: no enum then.
    let plain = convert(&input, InputFormat::Json, &ConvertOptions::default()).unwrap();
    assert!(!plain.contains("@ENUMS"), "{}", plain);
}

#[test]
fn detects_quickfunc_for_homogeneous_array() {
    let mut input = String::from("{\"weapons\": [");
    for i in 0..10 {
        if i > 0 {
            input.push(',');
        }
        input.push_str(&format!("{{\"name\": \"W{}\", \"dmg\": {}, \"kind\": \"x\"}}", i, i * 5));
    }
    input.push_str("]}");
    let out = convert(&input, InputFormat::Json, &ConvertOptions::default()).unwrap();
    assert!(
        out.contains("@QUICKFUNCS(\n  ~weapon<object>(dmg, name) {\n    return {\n      dmg  = dmg\n      name = name\n      kind = \"x\"\n    }\n  }\n)\n"),
        "{}",
        out
    );
    assert!(out.contains("  weapons::\n    { name = \"W0\", dmg = 0, kind = \"x\" }\n"), "{}", out);
    assert!(!out.contains("@ENUMS"), "{}", out);
}

#[test]
fn no_quickfunc_for_arrays_with_non_record_items() {
    let mut items = String::new();
    for i in 0..10 {
        items.push_str(&format!("{{\"a\": {}, \"b\": {}}},", i, i + 1));
    }
    let mixed = format!("{{\"xs\": [{}7]}}", items);
    let opts = ConvertOptions { threshold: 0, min_occurrences: 2 };
    let out = convert(&mixed, InputFormat::Json, &opts).unwrap();
    assert!(!out.contains("@QUICKFUNCS"), "{}", out);
    let plain = format!("{{\"xs\": [{}]}}", items.trim_end_matches(','));
    let out = convert(&plain, InputFormat::Json, &opts).unwrap();
    assert!(out.contains("@QUICKFUNCS"), "{}", out);
}

#[test]
fn deep_documents_convert() {
    // Every depth the parsers accept converts (the toml crate's own recursion
    // limit refuses a 300-segment dotted key before the tree is built).
    let key = vec!["a"; 50].join(".");
    let input = format!("{} = 1\n", key);
    let out = convert(&input, InputFormat::Toml, &ConvertOptions::default());
    assert!(out.is_ok(), "{:?}", out);
    let deep = format!("{}{}", "[".repeat(120), "]".repeat(120));
    let out = convert(&deep, InputFormat::Json, &ConvertOptions::default());
    assert!(out.is_ok(), "{:?}", out);
    let key = vec!["a"; 300].join(".");
    let input = format!("{} = 1\n", key);
    assert!(matches!(convert(&input, InputFormat::Toml, &ConvertOptions::default()), Err(ConvertError::Parse(_))));
}

#[test]
fn no_quickfunc_when_every_key_is_constant() {
    let input = r#"{"xs": [{"a": 1}, {"a": 1}, {"a": 1}, {"a": 1}]}"#;
    let opts = ConvertOptions { threshold: 0, min_occurrences: 2 };
    let out = convert(input, InputFormat::Json, &opts).unwrap();
    assert!(!out.contains("@QUICKFUNCS"), "{}", out);
}

// ── Errors and options ──────────────────────────────────────────────────────

#[test]
fn parse_errors_carry_the_parser_message() {
    match convert("{broken", InputFormat::Json, &ConvertOptions::default()) {
        Err(e @ ConvertError::Parse(_)) => {
            let text = e.to_string();
            assert!(text.starts_with("Parse error: JSON parse error: "), "{}", text);
        }
        other => panic!("expected a parse error, got {:?}", other),
    }
    match convert("[[[[invalid", InputFormat::Toml, &ConvertOptions::default()) {
        Err(ConvertError::Parse(m)) => assert!(m.starts_with("TOML parse error: "), "{}", m),
        other => panic!("expected a parse error, got {:?}", other),
    }
}

#[test]
fn error_text_has_its_kind() {
    assert_eq!(ConvertError::Emit("x".to_string()).to_string(), "Emit error: x");
    assert_eq!(ConvertError::Parse("y".to_string()).to_string(), "Parse error: y");
}

#[test]
fn format_names_ignore_case() {
    assert_eq!(InputFormat::from_str("json"), Some(InputFormat::Json));
    assert_eq!(InputFormat::from_str("JSON"), Some(InputFormat::Json));
    assert_eq!(InputFormat::from_str("Toml"), Some(InputFormat::Toml));
    assert_eq!(InputFormat::from_str("yaml"), None);
    assert_eq!(InputFormat::from_str(""), None);
    assert_eq!(InputFormat::from_lowercase("toml"), Some(InputFormat::Toml));
    assert_eq!(InputFormat::from_lowercase("TOML"), None);
}

#[test]
fn default_options() {
    let o = ConvertOptions::default();
    assert_eq!(o.threshold, 50);
    assert_eq!(o.min_occurrences, 3);
}

#[test]
fn converted_documents_are_formatted() {
    let input = r#"{"alpha": 1, "b": 2, "nested": {"k": 1, "longer_key": 2}}"#;
    let out = convert(input, InputFormat::Json, &ConvertOptions::default()).unwrap();
    assert_eq!(converter_core::emitter::formatter::format(&out), out);
    assert!(out.contains("  alpha = 1\n  b     = 2\n"), "{}", out);
    assert!(out.contains("    k          = 1\n    longer_key = 2\n"), "{}", out);
}

#[test]
fn convert_tree_matches_convert() {
    let input = r#"{"x": 1, "yy": "z"}"#;
    let opts = ConvertOptions::default();
    let tree = parse(input).unwrap();
    assert_eq!(convert_tree(&tree, &opts), convert(input, InputFormat::Json, &opts).unwrap());
    assert_eq!(convert_tree(&tree, &opts), format!("{}@DATA(\n  x  = 1\n  yy = \"z\"\n)\n", CONFIG));
}
