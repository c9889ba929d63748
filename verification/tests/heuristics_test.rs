use converter_core::naming::heuristics::{name_enum, name_func, singularize, to_pascal};

#[test]
fn pascal_converts_snake_case() {
    assert_eq!(to_pascal("weapon_type"), "WeaponType");
}

#[test]
fn pascal_converts_kebab_case() {
    assert_eq!(to_pascal("damage-type"), "DamageType");
}

#[test]
fn singular_strips_ies() {
    assert_eq!(singularize("enemies"), "enemy");
}

#[test]
fn singular_strips_plain_s() {
    assert_eq!(singularize("weapons"), "weapon");
}

#[test]
fn singular_leaves_short_words() {
    assert_eq!(singularize("is"), "is");
}

// ── More cases of the documented rules ──────────────────────────────────────

#[test]
fn pascal_handles_spaces_runs_and_edges() {
    assert_eq!(to_pascal("rarity"), "Rarity");
    assert_eq!(to_pascal("a b"), "AB");
    assert_eq!(to_pascal("__x--y  z_"), "XYZ");
    assert_eq!(to_pascal(""), "");
    assert_eq!(to_pascal("_"), "");
    assert_eq!(to_pascal("already_Pascal"), "AlreadyPascal");
    assert_eq!(to_pascal("éclair_ß"), "ÉclairSS");
}

#[test]
fn singular_other_suffixes() {
    assert_eq!(singularize("categories"), "category");
    assert_eq!(singularize("entries"), "entry");
    assert_eq!(singularize("wolves"), "wolf");
    assert_eq!(singularize("buses"), "bus");
    assert_eq!(singularize("boxes"), "box");
    assert_eq!(singularize("quizzes"), "quizz");
    assert_eq!(singularize("item"), "item");
    assert_eq!(singularize("ss"), "ss");
    assert_eq!(singularize("és"), "é");
    assert_eq!(singularize(""), "");
}

#[test]
fn name_enum_uses_first_key() {
    assert_eq!(name_enum(&["weapon_type".to_string(), "other".to_string()]), "WeaponType");
    assert_eq!(name_enum(&["rarity".to_string()]), "Rarity");
    assert_eq!(name_enum(&[]), "MyEnum");
}

#[test]
fn name_func_uses_first_key() {
    assert_eq!(name_func(&["weapons".to_string()]), "weapon");
    assert_eq!(name_func(&["enemies".to_string(), "x".to_string()]), "enemy");
    assert_eq!(name_func(&[]), "make_entry");
}

#[test]
fn pascal_of_ascii_names_is_stable() {
    for s in ["weapon_type", "damage-type", "a b", "__x--y  z_", "Rarity", "already_Pascal", "x9_y"] {
        let p = to_pascal(s);
        assert!(!p.contains(['_', '-', ' ']), "{:?} -> {:?}", s, p);
        assert_eq!(to_pascal(&p), p);
    }
}
