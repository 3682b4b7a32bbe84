use zealandia::names::{lower_string, norm_eq, valid_name};

#[test]
fn normal_form_ignores_case_and_surrounding_whitespace() {
    assert!(norm_eq("Kea", "  kEa \t"));
    assert!(norm_eq("", "   "));
    assert!(!norm_eq("Ke a", "Kea"));
    assert!(!norm_eq("Kea", "Kaka"));
}

#[test]
fn lowercasing_is_ascii_only() {
    assert_eq!(lower_string("KeA 42!"), "kea 42!");
    assert_eq!(lower_string("Ärger"), "Ärger");
}

#[test]
fn name_length_bounds() {
    assert!(!valid_name(""));
    assert!(valid_name("x"));
    assert!(valid_name(&"y".repeat(50)));
    assert!(!valid_name(&"y".repeat(51)));
}

#[test]
fn unicode_whitespace_is_trimmed() {
    assert!(norm_eq("Kea", "\u{00A0}Kea\u{2003}"));
    assert!(norm_eq("Kea", "\u{3000}kea\u{2028}"));
    assert!(!norm_eq("Ke\u{00A0}a", "Kea"));
}
