use ha_tui::app::state::titleize;
use ha_tui::text::{decimal_string, str_eq};

#[test]
fn domains_become_card_titles() {
    assert_eq!(titleize("climate"), "Climate");
    assert_eq!(titleize("binary_sensor"), "Binary Sensor");
    assert_eq!(titleize("input_boolean_x"), "Input Boolean X");
    assert_eq!(titleize(""), "");
    assert_eq!(titleize("_a"), " A");
}

#[test]
fn numbers_in_decimal() {
    assert_eq!(decimal_string(0), "0");
    assert_eq!(decimal_string(255), "255");
    assert_eq!(decimal_string(u64::MAX), u64::MAX.to_string());
}

#[test]
fn string_equality() {
    assert!(str_eq("abc", "abc"));
    assert!(!str_eq("abc", "abd"));
    assert!(!str_eq("ab", "abc"));
}
