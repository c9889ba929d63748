use converter_core::induction::math::{enum_saving, func_saving};

#[test]
fn enum_saving_positive_for_repeated_values() {
    let mut values: Vec<(String, usize)> = Vec::new();
    values.push(("SWORD".to_string(), 5usize));
    values.push(("BOW".to_string(), 3));
    values.push(("STAFF".to_string(), 2));
    let saving = enum_saving(&values, 10);
    // A positive saving might be expected for this input, but the documented
    // cost model cannot give one: references cost about 12 characters each
    // (`EnumName.FIELD`), more than the 6-character quoted values they replace,
    // so 6 * 10 - (19 + 12) - 12 * 10 = -91. The model is kept as documented;
    // this asserts the model's value.
    assert_eq!(saving, -91, "unexpected saving {}", saving);
}

#[test]
fn func_saving_positive_for_large_arrays() {
    // 10 objects, each with 4 params and 3 static fields
    let saving = func_saving(4, 3, 10);
    assert!(saving > 0, "expected positive saving, got {}", saving);
}

#[test]
fn func_saving_negative_for_small_arrays() {
    // Only 2 instances — defining a function costs more than it saves
    let saving = func_saving(3, 2, 2);
    // May or may not be negative depending on field counts; just verify it computes
    let _ = saving;
}

// ── Exact values of the documented cost models ─────────────────────────────

#[test]
fn func_saving_exact_values() {
    // (4*12 + 3*20 + 4) * 10 - (4*12 + 3*20 + 30) - (4*8 + 6) * 10
    assert_eq!(func_saving(4, 3, 10), 1120 - 138 - 380);
    // 2 * 80 - 106 - 2 * 30
    assert_eq!(func_saving(3, 2, 2), -6);
    assert_eq!(func_saving(0, 0, 0), -30);
}

fn counted(values: &[(&str, usize)]) -> Vec<(String, usize)> {
    values.iter().map(|(s, n)| (s.to_string(), *n)).collect()
}

#[test]
fn enum_saving_negative_for_unrepeated_values() {
    // Alice, Bob, Charlie once each: 7 * 3 - (7 + 5 + 9 + 12) - 12 * 3
    let values = counted(&[("Alice", 1), ("Bob", 1), ("Charlie", 1)]);
    assert_eq!(enum_saving(&values, 3), -48);
}

#[test]
fn enum_saving_positive_for_long_values() {
    // avg quoted length 32; definition 32 + 32 + 12 = 76; 32 * 6 - 76 - 12 * 6
    let values = counted(&[
        ("extraordinarily_long_value_one", 3),
        ("extraordinarily_long_value_two", 3),
    ]);
    assert_eq!(enum_saving(&values, 6), 44);
}

#[test]
fn enum_saving_zero_without_values_or_uses() {
    assert_eq!(enum_saving(&Vec::new(), 5), 0);
    assert_eq!(enum_saving(&counted(&[("A", 1)]), 0), 0);
}

#[test]
fn enum_saving_counts_bytes() {
    // "é" is two bytes: quoted length 2 + 2 = 4; definition 4 + 12 = 16
    let values = counted(&[("é", 4)]);
    assert_eq!(enum_saving(&values, 4), 4 * 4 - 16 - 12 * 4);
}
