use pg_ltree::text::str_eq;
use pg_ltree::text::str_eq_ignore_ascii_case;

#[test]
fn texts_are_equal_when_every_byte_is() {
    assert!(str_eq("", ""));
    assert!(str_eq("ltree", "ltree"));
    assert!(str_eq("caf\u{e9}", "caf\u{e9}"));
    assert!(!str_eq("ltree", "Ltree"));
    assert!(!str_eq("ltree", "ltre"));
    assert!(!str_eq("ltree", "ltreee"));
    assert!(!str_eq("", "a"));
    assert!(!str_eq("caf\u{e9}", "cafe"));
}

#[test]
fn only_the_case_of_ascii_letters_is_ignored() {
    assert!(str_eq_ignore_ascii_case("", ""));
    assert!(str_eq_ignore_ascii_case("Path", "pATH"));
    assert!(str_eq_ignore_ascii_case("a_1-z", "A_1-Z"));
    assert!(str_eq_ignore_ascii_case("AZaz", "azAZ"));
    assert!(str_eq_ignore_ascii_case("\u{e9}", "\u{e9}"));
    assert!(!str_eq_ignore_ascii_case("\u{e9}", "\u{c9}"));
    assert!(!str_eq_ignore_ascii_case("@", "`"));
    assert!(!str_eq_ignore_ascii_case("[", "{"));
    assert!(!str_eq_ignore_ascii_case("a", "ab"));
    assert!(!str_eq_ignore_ascii_case("a", "b"));
}
