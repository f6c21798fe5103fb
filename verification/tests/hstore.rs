use pg_ltree::hstore::check_framed;
use pg_ltree::hstore::Attributes;
use tokio_postgres::types::Kind;
use tokio_postgres::types::Type;

fn hstore_type() -> Type {
    Type::new("hstore".to_string(), 16500, Kind::Simple, "public".to_string())
}

fn wire(pairs: &[(&str, Option<&str>)]) -> Vec<u8> {
    let mut out = Vec::new();
    out.extend_from_slice(&(pairs.len() as i32).to_be_bytes());
    for (key, value) in pairs {
        out.extend_from_slice(&(key.len() as i32).to_be_bytes());
        out.extend_from_slice(key.as_bytes());
        match value {
            Some(v) => {
                out.extend_from_slice(&(v.len() as i32).to_be_bytes());
                out.extend_from_slice(v.as_bytes());
            }
            None => out.extend_from_slice(&(-1i32).to_be_bytes()),
        }
    }
    out
}

#[test]
fn well_framed_values_pass_the_check() {
    assert!(check_framed(&wire(&[])));
    assert!(check_framed(&wire(&[("a", Some("1"))])));
    assert!(check_framed(&wire(&[("color", None)])));
    assert!(check_framed(&wire(&[("", Some(""))])));
    assert!(check_framed(&wire(&[("a", Some("1")), ("b", None), ("long key", Some("long value"))])));
    assert!(check_framed(&[0, 0, 0, 1, 0, 0, 0, 1, b'k', 0x80, 0, 0, 0]));
}

#[test]
fn badly_framed_values_fail_the_check() {
    assert!(!check_framed(&[]));
    assert!(!check_framed(&[0, 0, 0]));
    // a negative count
    assert!(!check_framed(&[0xff, 0xff, 0xff, 0xff]));
    // a count without entries
    assert!(!check_framed(&[0, 0, 0, 1]));
    // bytes after the last entry
    let mut extra = wire(&[("a", Some("1"))]);
    extra.push(0);
    assert!(!check_framed(&extra));
    assert!(!check_framed(&[0, 0, 0, 0, 0]));
    // a key length that reaches past the end
    assert!(!check_framed(&[0, 0, 0, 1, 0, 0, 0, 9, b'k']));
    assert!(!check_framed(&[0, 0, 0, 1, 0x7f, 0xff, 0xff, 0xff]));
    // a negative key length
    assert!(!check_framed(&[0, 0, 0, 1, 0xff, 0xff, 0xff, 0xff, 0xff, 0xff, 0xff, 0xff]));
    // a value length that reaches past the end
    assert!(!check_framed(&[0, 0, 0, 1, 0, 0, 0, 1, b'k', 0, 0, 0, 2, b'v']));
    // no value length
    assert!(!check_framed(&[0, 0, 0, 1, 0, 0, 0, 1, b'k', 0, 0]));
    // fewer entries than counted
    let mut short = wire(&[("a", Some("1"))]);
    short[3] = 2;
    assert!(!check_framed(&short));
}

#[test]
fn from_sql_reads_keys_with_text_and_with_null() {
    let raw = wire(&[("color", None), ("size", Some("xl")), ("empty", Some(""))]);
    let bag = Attributes::from_sql(&hstore_type(), &raw).unwrap();
    assert_eq!(bag.len(), 3);
    assert!(!bag.is_empty());
    assert_eq!(bag.get("color"), Some(&None));
    assert_eq!(bag.get("size"), Some(&Some("xl".to_string())));
    assert_eq!(bag.get("empty"), Some(&Some(String::new())));
    assert_eq!(bag.get("weight"), None);
    assert_eq!(bag.get("Color"), None);
    assert!(bag.contains_key("color"));
    assert!(bag.contains_key("size"));
    assert!(!bag.contains_key("weight"));
    assert_eq!(bag.value("color"), None);
    assert_eq!(bag.value("weight"), None);
    assert_eq!(bag.value("size"), Some(&"xl".to_string()));
}

#[test]
fn from_sql_reads_the_empty_bag() {
    let bag = Attributes::from_sql(&hstore_type(), &wire(&[])).unwrap();
    assert_eq!(bag.len(), 0);
    assert!(bag.is_empty());
    assert_eq!(bag.get(""), None);
    assert!(bag.pairs().is_empty());
}

#[test]
fn from_sql_keeps_each_key_once() {
    let raw = wire(&[("k", Some("first")), ("other", None), ("k", Some("second"))]);
    let bag = Attributes::from_sql(&hstore_type(), &raw).unwrap();
    assert_eq!(bag.len(), 2);
    assert_eq!(bag.get("k"), Some(&Some("second".to_string())));
    let mut keys: Vec<&str> = bag.pairs().iter().map(|p| p.0.as_str()).collect();
    keys.sort();
    assert_eq!(keys, vec!["k", "other"]);
}

#[test]
fn from_sql_refuses_what_is_no_hstore_value() {
    let ty = hstore_type();
    assert!(Attributes::from_sql(&ty, &[]).is_none());
    assert!(Attributes::from_sql(&ty, &[0, 0, 0, 1]).is_none());
    assert!(Attributes::from_sql(&ty, &[0xff, 0xff, 0xff, 0xff]).is_none());
    // lengths that reach past the end of the value
    assert!(Attributes::from_sql(&ty, &[0, 0, 0, 1, 0, 0, 0, 9, b'k']).is_none());
    assert!(Attributes::from_sql(&ty, &[0, 0, 0, 1, 0, 0, 0, 1, b'k', 0, 0, 0, 2, b'v']).is_none());
    // a key that is not UTF-8
    assert!(Attributes::from_sql(&ty, &[0, 0, 0, 1, 0, 0, 0, 1, 0xff, 0xff, 0xff, 0xff, 0xff]).is_none());
    // a value that is not UTF-8
    assert!(Attributes::from_sql(&ty, &[0, 0, 0, 1, 0, 0, 0, 1, b'k', 0, 0, 0, 1, 0xc3]).is_none());
}

#[test]
fn accepts_the_hstore_type_only() {
    assert!(Attributes::accepts(&hstore_type()));
    assert!(!Attributes::accepts(&Type::TEXT));
    assert!(!Attributes::accepts(&Type::JSONB));
    assert!(!Attributes::accepts(&Type::new("HSTORE".to_string(), 1, Kind::Simple, "public".to_string())));
}
