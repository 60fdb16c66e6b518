use akafoe_menu::text::{collapse_ws_str, str_eq, trim_str};

#[test]
fn collapse_replaces_runs_with_single_spaces() {
    assert_eq!(collapse_ws_str("a  b\t\tc\r\nd"), "a b c d");
}

#[test]
fn collapse_keeps_boundary_spaces_single() {
    assert_eq!(collapse_ws_str("  a  "), " a ");
}

#[test]
fn collapse_of_empty_is_empty() {
    assert_eq!(collapse_ws_str(""), "");
}

#[test]
fn trim_removes_both_ends_only() {
    assert_eq!(trim_str("  a b  "), "a b");
    assert_eq!(trim_str("\t\n"), "");
    assert_eq!(trim_str("ab"), "ab");
}

#[test]
fn str_eq_compares_characters() {
    assert!(str_eq("abc", "abc"));
    assert!(!str_eq("abc", "abd"));
    assert!(!str_eq("abc", "ab"));
    assert!(str_eq("", ""));
}
