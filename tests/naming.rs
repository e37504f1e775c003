use ts2rs::add;
use ts2rs::fixture::{extract_type_name, has_fails_strict_marker, strip_numeric_suffix};

#[test]
fn it_works() {
    let result = add(2, 2);
    assert_eq!(result, 4);
}

#[test]
fn marker_is_detected() {
    assert!(has_fails_strict_marker("Config--fails-strict"));
    assert!(has_fails_strict_marker("Config_2--fails-strict"));
    assert!(!has_fails_strict_marker("Config_2"));
    assert!(!has_fails_strict_marker("--fails-stric"));
    assert!(!has_fails_strict_marker(""));
}

#[test]
fn plain_stem_is_the_type_name() {
    assert_eq!(extract_type_name("Person"), "Person");
}

#[test]
fn numeric_suffix_is_cut() {
    assert_eq!(extract_type_name("Person_1"), "Person");
    assert_eq!(extract_type_name("Person_12"), "Person");
    assert_eq!(extract_type_name("Shopping_Cart_3"), "Shopping_Cart");
}

#[test]
fn non_numeric_suffix_is_kept() {
    assert_eq!(extract_type_name("Shopping_Cart"), "Shopping_Cart");
    assert_eq!(extract_type_name("Item_2a"), "Item_2a");
}

#[test]
fn empty_suffix_is_cut() {
    assert_eq!(extract_type_name("Person_"), "Person");
}

#[test]
fn marker_is_removed_before_the_suffix() {
    assert_eq!(extract_type_name("Config_2--fails-strict"), "Config");
    assert_eq!(extract_type_name("Config--fails-strict"), "Config");
    assert_eq!(extract_type_name("Con--fails-strictfig_4"), "Config");
}

#[test]
fn non_ascii_names() {
    assert_eq!(extract_type_name("Größe_2"), "Größe");
    assert_eq!(extract_type_name("Item_\u{0663}"), "Item");
    assert_eq!(extract_type_name("Größe_x"), "Größe_x");
}

#[test]
fn suffix_is_cut_only_when_flagged_numeric() {
    let flags = |s: &str| -> Vec<bool> { s.chars().map(|c| c.is_ascii_digit()).collect() };
    assert_eq!(strip_numeric_suffix("Person_1", &flags("Person_1")), "Person");
    assert_eq!(strip_numeric_suffix("my_type", &flags("my_type")), "my_type");
    assert_eq!(strip_numeric_suffix("t_d", &vec![false, false, true]), "t");
    assert_eq!(strip_numeric_suffix("a_b_12", &flags("a_b_12")), "a_b");
    assert_eq!(strip_numeric_suffix("plain", &flags("plain")), "plain");
    assert_eq!(strip_numeric_suffix("x_", &vec![false, false]), "x");
}
