use epn_mod::text::{str_contains, str_equal, str_starts_with};

#[test]
fn prefixes() {
    assert!(str_starts_with("BP_Harrier_C", "BP_Harrier"));
    assert!(str_starts_with("abc", ""));
    assert!(str_starts_with("abc", "abc"));
    assert!(!str_starts_with("ab", "abc"));
    assert!(!str_starts_with("abd", "abc"));
    assert!(str_starts_with("héllo", "hé"));
}

#[test]
fn equality() {
    assert!(str_equal("", ""));
    assert!(str_equal("Human", "Human"));
    assert!(!str_equal("Human", "HumanPlayer"));
    assert!(!str_equal("Human", "human"));
}

#[test]
fn infixes() {
    assert!(str_contains("BP_Harrier_C", "Harrier"));
    assert!(str_contains("BP_Harrier_C", "BP_Harrier_C"));
    assert!(str_contains("BP_Harrier_C", ""));
    assert!(str_contains("", ""));
    assert!(!str_contains("BP_Harrier_C", "harrier"));
    assert!(!str_contains("BP", "BP_"));
    assert!(str_contains("aab", "ab"));
}
