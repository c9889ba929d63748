use converter_core::induction::analyse;
use converter_core::induction::enums;
use converter_core::induction::functions;
use converter_core::ingestion::ir::{Node, Primitive, Record};
use converter_core::ingestion::json::parse;
use converter_core::naming::resolve;
use converter_core::ConvertOptions;

fn long_enum_doc() -> Node {
    // "category" repeats two long values (saving 44); "tier" repeats three
    // longer ones (saving 48); "id" is an integer and never an enum.
    let cats = ["extraordinarily_long_value_one", "extraordinarily_long_value_two"];
    let tiers = [
        "a_really_quite_remarkably_long_tier_name_a",
        "a_really_quite_remarkably_long_tier_name_b",
        "a_really_quite_remarkably_long_tier_name_c",
    ];
    let mut text = String::from("{");
    for i in 0..6 {
        if i > 0 {
            text.push(',');
        }
        text.push_str(&format!(
            "\"w{}\": {{\"id\": {}, \"category\": \"{}\", \"tier\": \"{}\"}}",
            i,
            i,
            cats[i % 2],
            tiers[i % 3]
        ));
    }
    text.push('}');
    parse(&text).unwrap()
}

#[test]
fn enum_candidates_come_by_saving_and_qualify() {
    let root = long_enum_doc();
    let opts = ConvertOptions { threshold: 0, min_occurrences: 2 };
    let found = enums::detect(&root, &opts);
    assert_eq!(found.len(), 2);
    // Ordered by descending saving.
    assert!(found.windows(2).all(|w| w[0].saving >= w[1].saving));
    assert_eq!(found[0].keys, vec!["tier".to_string()]);
    assert_eq!(found[1].keys, vec!["category".to_string()]);
    assert_eq!(found[0].saving, 48);
    assert_eq!(found[1].saving, 44);
    for c in &found {
        assert_eq!(c.keys.len(), 1);
        assert!(c.saving >= 0);
        assert!(c.values.len() <= 16);
        // Sorted and distinct.
        assert!(c.values.windows(2).all(|w| w[0] < w[1]));
        assert!(c.name.is_empty());
    }
    assert_eq!(found[1].values, vec![
        "extraordinarily_long_value_one".to_string(),
        "extraordinarily_long_value_two".to_string(),
    ]);
    // A threshold above both savings leaves none.
    let strict = ConvertOptions { threshold: 1000, min_occurrences: 2 };
    assert!(enums::detect(&root, &strict).is_empty());
    // Too few occurrences leaves none.
    let rare = ConvertOptions { threshold: 0, min_occurrences: 7 };
    assert!(enums::detect(&root, &rare).is_empty());
}

#[test]
fn enum_candidates_skip_keys_with_many_values() {
    let mut text = String::from("[");
    for i in 0..17 {
        if i > 0 {
            text.push(',');
        }
        text.push_str(&format!("{{\"k\": \"a_long_distinct_value_number_{:02}\"}}", i));
    }
    text.push(']');
    let root = parse(&text).unwrap();
    let opts = ConvertOptions { threshold: 0, min_occurrences: 1 };
    assert!(enums::detect(&root, &opts).is_empty());
}

#[test]
fn func_candidates_split_keys_into_params_and_defaults() {
    let mut text = String::from("{\"weapons\": [");
    for i in 0..10 {
        if i > 0 {
            text.push(',');
        }
        text.push_str(&format!("{{\"name\": \"W{}\", \"dmg\": {}, \"kind\": \"x\"}}", i, i * 5));
    }
    text.push_str("], \"few\": [{\"a\": 1}, {\"a\": 2}]}");
    let root = parse(&text).unwrap();
    let opts = ConvertOptions::default();
    let found = functions::detect(&root, &opts);
    assert_eq!(found.len(), 1);
    let f = &found[0];
    assert_eq!(f.name, "weapons");
    assert_eq!(f.param_keys, vec!["dmg".to_string(), "name".to_string()]);
    assert_eq!(f.defaults.len(), 1);
    assert_eq!(f.defaults[0].0, "kind");
    assert!(matches!(&f.defaults[0].1, Node::Primitive(p) if p.as_str() == Some("x")));
    assert_eq!(f.instances.len(), 10);
    // (2*12 + 20 + 4) * 10 - (2*12 + 20 + 30) - (2*8 + 6) * 10
    assert_eq!(f.saving, 186);
}

#[test]
fn func_candidates_need_every_item_a_record() {
    let mut text = String::from("{\"xs\": [");
    for i in 0..10 {
        text.push_str(&format!("{{\"a\": {}, \"b\": {}}}, ", i, i + 1));
    }
    text.push_str("null]}");
    let root = parse(&text).unwrap();
    let opts = ConvertOptions { threshold: 0, min_occurrences: 2 };
    assert!(functions::detect(&root, &opts).is_empty());
}

#[test]
fn func_candidates_need_one_skeleton() {
    let text = r#"{"xs": [{"a": 1, "b": 2}, {"a": 3, "b": 4}, {"a": 5, "c": 6}, {"a": 7, "b": 8}]}"#;
    let root = parse(text).unwrap();
    let opts = ConvertOptions { threshold: 0, min_occurrences: 2 };
    assert!(functions::detect(&root, &opts).is_empty());
    // Key order does not matter for the skeleton; ten records are enough for a
    // saving: (2*12 + 4) * 10 - (2*12 + 30) - (2*8 + 6) * 10 = 6.
    let mut text = String::from("{\"xs\": [");
    for i in 0..10 {
        if i > 0 {
            text.push(',');
        }
        if i % 2 == 0 {
            text.push_str(&format!("{{\"a\": {}, \"b\": {}}}", i, i + 1));
        } else {
            text.push_str(&format!("{{\"b\": {}, \"a\": {}}}", i, i + 1));
        }
    }
    text.push_str("]}");
    let root = parse(&text).unwrap();
    let found = functions::detect(&root, &opts);
    assert_eq!(found.len(), 1);
    assert_eq!(found[0].param_keys, vec!["a".to_string(), "b".to_string()]);
    assert_eq!(found[0].saving, 6);
}

#[test]
fn candidates_sorted_by_saving_across_arrays() {
    let mut small = String::new();
    let mut large = String::new();
    for i in 0..5 {
        if i > 0 {
            small.push(',');
            large.push(',');
        }
        small.push_str(&format!("{{\"v\": {}}}", i));
        large.push_str(&format!("{{\"v\": {}, \"w\": {}, \"s\": 0}}", i, i));
    }
    let text = format!("{{\"small\": [{}], \"large\": [{}]}}", small, large);
    let root = parse(&text).unwrap();
    let opts = ConvertOptions { threshold: 0, min_occurrences: 2 };
    let found = functions::detect(&root, &opts);
    assert!(found.windows(2).all(|w| w[0].saving >= w[1].saving));
    assert_eq!(found[0].name, "large");
}

#[test]
fn analyse_and_resolve_name_the_candidates() {
    let root = long_enum_doc();
    let opts = ConvertOptions { threshold: 0, min_occurrences: 2 };
    let induced = analyse(&root, &opts).unwrap();
    let named = resolve(induced, &opts);
    let names: Vec<&str> = named.result.enums.iter().map(|e| e.name.as_str()).collect();
    assert_eq!(names, vec!["Tier", "Category"]);
}

#[test]
fn records_keep_insertion_order_and_sorted_skeleton() {
    let mut r = Record::new();
    r.insert("zeta".to_string(), Node::Null);
    r.insert("alpha".to_string(), Node::Primitive(Primitive::Int(1)));
    r.insert("mid".to_string(), Node::Primitive(Primitive::Bool(true)));
    assert_eq!(r.keys(), vec!["zeta", "alpha", "mid"]);
    assert_eq!(r.skeleton(), vec!["alpha", "mid", "zeta"]);
    assert!(r.get("alpha").is_some());
    assert!(r.get("beta").is_none());
}
