use hermes::text::{
    decimal_string, ends_with_str, join_strings, str_eq, str_less, to_ascii_lowercase, trim,
};

#[test]
fn trim_strips_unicode_whitespace() {
    assert_eq!(trim("  a b \t\n"), "a b");
    assert_eq!(trim("\u{3000}x\u{00A0}"), "x");
    assert_eq!(trim("   "), "");
    assert_eq!(trim(""), "");
}

#[test]
fn ascii_lowercase_leaves_other_characters() {
    assert_eq!(to_ascii_lowercase("GateFlow-É"), "gateflow-É");
}

#[test]
fn decimal_rendering() {
    assert_eq!(decimal_string(0), "0");
    assert_eq!(decimal_string(1800), "1800");
    assert_eq!(decimal_string(u64::MAX), "18446744073709551615");
}

#[test]
fn comparisons_and_joins() {
    assert!(str_eq("abc", "abc"));
    assert!(!str_eq("abc", "abd"));
    assert!(str_less("ab", "abc"));
    assert!(str_less("Zeta", "alpha"));
    assert!(!str_less("b", "a"));
    assert!(ends_with_str("tool.sha256", ".sha256"));
    assert!(!ends_with_str("sha256", ".sha256"));
    assert_eq!(join_strings(&vec!["a".to_string(), "b".to_string()], ", "), "a, b");
    assert_eq!(join_strings(&vec![], ", "), "");
}
