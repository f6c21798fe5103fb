use bytes::BytesMut;
use pg_ltree::error::EncodingError;
use pg_ltree::error::PathError;
use pg_ltree::path::check_label;
use pg_ltree::path::check_path_text;
use pg_ltree::path::is_short_text;
use pg_ltree::path::Ltree;
use pg_ltree::pg::IsNull;
use tokio_postgres::types::Kind;
use tokio_postgres::types::Type;

fn named(name: &str) -> Type {
    Type::new(name.to_string(), 16400, Kind::Simple, "public".to_string())
}

fn strings(labels: &[&str]) -> Vec<String> {
    labels.iter().map(|l| l.to_string()).collect()
}

#[test]
fn accepts_the_ltree_type_only() {
    assert!(Ltree::accepts(&named("ltree")));
    assert!(!Ltree::accepts(&named("LTREE")));
    assert!(!Ltree::accepts(&named("Ltree")));
    assert!(!Ltree::accepts(&named("ltre")));
    assert!(!Ltree::accepts(&named("ltree ")));
    assert!(!Ltree::accepts(&named("lquery")));
    assert!(!Ltree::accepts(&named("")));
    assert!(!Ltree::accepts(&Type::TEXT));
    assert!(!Ltree::accepts(&Type::VARCHAR));
    assert!(!Ltree::accepts(&Type::BYTEA));
}

#[test]
fn encoding_writes_the_version_byte_then_the_text() {
    let path = Ltree::new("bob.x").unwrap();
    let mut out = BytesMut::new();
    let r = path.to_sql(&named("ltree"), &mut out);
    assert_eq!(r, Ok(IsNull::No));
    assert_eq!(&out[..], &[1u8, b'b', b'o', b'b', b'.', b'x'][..]);
}

#[test]
fn encoding_appends_to_what_the_buffer_holds() {
    let path = Ltree::new("a").unwrap();
    let mut out = BytesMut::new();
    out.extend_from_slice(&[9, 8]);
    let r = path.to_sql(&named("ltree"), &mut out);
    assert_eq!(r, Ok(IsNull::No));
    assert_eq!(&out[..], &[9u8, 8, 1, b'a'][..]);
}

#[test]
fn encoding_the_empty_path_writes_the_version_byte_alone() {
    let path = Ltree::new("").unwrap();
    let mut out = BytesMut::new();
    assert_eq!(path.to_sql(&named("ltree"), &mut out), Ok(IsNull::No));
    assert_eq!(&out[..], &[1u8][..]);
}

#[test]
fn encoding_does_not_depend_on_the_target_type() {
    let path = Ltree::new("top.science").unwrap();
    let mut a = BytesMut::new();
    let mut b = BytesMut::new();
    path.to_sql(&named("ltree"), &mut a).unwrap();
    path.to_sql(&Type::TEXT, &mut b).unwrap();
    assert_eq!(&a[..], &b[..]);
    assert_eq!(a[0], 1);
    assert_eq!(&a[1..], b"top.science");
}

#[test]
fn checked_encoding_refuses_another_type() {
    let path = Ltree::new("bob").unwrap();
    let mut out = BytesMut::new();
    out.extend_from_slice(&[7]);
    assert_eq!(path.to_sql_checked(&Type::TEXT, &mut out), Err(EncodingError::WrongType));
    assert_eq!(&out[..], &[7u8][..]);
    assert_eq!(path.to_sql_checked(&named("LTREE"), &mut out), Err(EncodingError::WrongType));
    assert_eq!(&out[..], &[7u8][..]);
}

#[test]
fn checked_encoding_writes_for_the_ltree_type() {
    let path = Ltree::new("bob.y").unwrap();
    let mut out = BytesMut::new();
    assert_eq!(path.to_sql_checked(&named("ltree"), &mut out), Ok(IsNull::No));
    assert_eq!(&out[..], b"\x01bob.y");
}

#[test]
fn round_trip_through_the_binary_form() {
    for text in ["", "a", "bob", "bob.x", "Top.Science_1.astro-physics", "0.1.2.3.4.5.6.7.8.9"] {
        let path = Ltree::new(text).unwrap();
        let mut out = BytesMut::new();
        path.to_sql(&named("ltree"), &mut out).unwrap();
        let back = Ltree::from_sql(&named("ltree"), &out[..]).unwrap();
        assert_eq!(back, path);
        assert_eq!(back.as_str(), text);
        assert_eq!(back.labels(), path.labels());
    }
}

#[test]
fn round_trip_of_a_label_sequence() {
    let labels = strings(&["top", "science", "astronomy"]);
    let path = Ltree::from_labels(&labels).unwrap();
    assert_eq!(path.as_str(), "top.science.astronomy");
    let mut out = BytesMut::new();
    path.to_sql(&named("ltree"), &mut out).unwrap();
    assert_eq!(&out[..], b"\x01top.science.astronomy");
    let back = Ltree::from_sql(&named("ltree"), &out[..]).unwrap();
    assert_eq!(back.labels(), labels);
}

#[test]
fn labels_of_a_path() {
    assert_eq!(Ltree::new("").unwrap().labels(), Vec::<String>::new());
    assert_eq!(Ltree::new("bob").unwrap().labels(), strings(&["bob"]));
    assert_eq!(Ltree::new("bob.x").unwrap().labels(), strings(&["bob", "x"]));
    assert_eq!(Ltree::new("a.bc.d_e.f-g").unwrap().labels(), strings(&["a", "bc", "d_e", "f-g"]));
}

#[test]
fn from_labels_joins_with_dots() {
    assert_eq!(Ltree::from_labels(&strings(&[])).unwrap().as_str(), "");
    assert_eq!(Ltree::from_labels(&strings(&["bob"])).unwrap().as_str(), "bob");
    assert_eq!(Ltree::from_labels(&strings(&["bob", "x"])).unwrap().as_str(), "bob.x");
    assert_eq!(Ltree::from_labels(&strings(&["a", "b", "c"])), Ltree::new("a.b.c"));
}

#[test]
fn from_labels_refuses_what_is_no_label() {
    assert_eq!(Ltree::from_labels(&strings(&[""])), None);
    assert_eq!(Ltree::from_labels(&strings(&["a", ""])), None);
    assert_eq!(Ltree::from_labels(&strings(&["a.b"])), None);
    assert_eq!(Ltree::from_labels(&strings(&["a", "b c"])), None);
    assert_eq!(Ltree::from_labels(&strings(&["caf\u{e9}"])), None);
}

#[test]
fn new_refuses_what_is_no_path() {
    for text in [".", ".a", "a.", "a..b", "a b", "a.b.", "a/b", "caf\u{e9}", "a.\u{4e2d}", " ", "a.b*"] {
        assert_eq!(Ltree::new(text), None, "{:?}", text);
        assert!(!check_path_text(text), "{:?}", text);
    }
}

#[test]
fn new_takes_paths() {
    for text in ["", "a", "A", "0", "_", "-", "a.b", "top.science.astronomy", "a_b.c-d.E9"] {
        assert!(check_path_text(text), "{:?}", text);
        assert_eq!(Ltree::new(text).unwrap().as_str(), text);
    }
}

#[test]
fn labels_are_checked_by_character() {
    for text in ["a", "Z", "09", "a_b", "a-b", "_", "-"] {
        assert!(check_label(text), "{:?}", text);
    }
    for text in ["", ".", "a.b", "a b", "a@", "`", "{", "[", "/", ":", "caf\u{e9}"] {
        assert!(!check_label(text), "{:?}", text);
    }
}

#[test]
fn from_sql_reports_what_is_wrong() {
    let ty = named("ltree");
    assert_eq!(Ltree::from_sql(&ty, &[]), Err(PathError::Empty));
    assert_eq!(Ltree::from_sql(&ty, &[2, b'a']), Err(PathError::Version(2)));
    assert_eq!(Ltree::from_sql(&ty, &[0]), Err(PathError::Version(0)));
    assert_eq!(Ltree::from_sql(&ty, b"a.b"), Err(PathError::Version(b'a')));
    assert_eq!(Ltree::from_sql(&ty, &[1, 0xff]), Err(PathError::Text));
    assert_eq!(Ltree::from_sql(&ty, &[1, 0xc3]), Err(PathError::Text));
    assert_eq!(Ltree::from_sql(&ty, b"\x01a..b"), Err(PathError::Syntax));
    assert_eq!(Ltree::from_sql(&ty, "\u{1}caf\u{e9}".as_bytes()), Err(PathError::Syntax));
    assert_eq!(Ltree::from_sql(&ty, &[1, 1, b'a']), Err(PathError::Syntax));
}

#[test]
fn from_sql_reads_a_path() {
    let ty = named("ltree");
    assert_eq!(Ltree::from_sql(&ty, &[1]).unwrap().as_str(), "");
    assert_eq!(Ltree::from_sql(&ty, b"\x01bob.x").unwrap().labels(), strings(&["bob", "x"]));
}

#[test]
fn a_clone_is_the_same_path() {
    let path = Ltree::new("top.science").unwrap();
    let copy = path.clone();
    assert_eq!(copy, path);
    assert_eq!(copy.as_str(), "top.science");
}

#[test]
fn different_paths_never_share_an_encoding() {
    let texts = ["", "a", "ab", "a.b", "b.a", "a.b.c", "a.bc", "ab.c", "A.b"];
    let mut encoded: Vec<Vec<u8>> = Vec::new();
    for text in texts {
        let mut out = BytesMut::new();
        Ltree::new(text).unwrap().to_sql(&named("ltree"), &mut out).unwrap();
        encoded.push(out.to_vec());
    }
    for i in 0..encoded.len() {
        for j in 0..encoded.len() {
            assert_eq!(encoded[i] == encoded[j], i == j, "{:?} {:?}", texts[i], texts[j]);
        }
    }
}

#[test]
fn the_buffer_grows_by_one_byte_and_the_text() {
    for (held, text) in [(0usize, "bob"), (3, "bob.x"), (17, "top.science.astronomy"), (5, "")] {
        let mut out = BytesMut::new();
        out.extend_from_slice(&vec![7u8; held]);
        let r = Ltree::new(text).unwrap().to_sql(&named("ltree"), &mut out);
        assert_eq!(r, Ok(IsNull::No));
        assert_eq!(out.len(), held + 1 + text.len());
        assert_eq!(&out[..held], &vec![7u8; held][..]);
        assert_eq!(out[held], 1);
        assert_eq!(&out[held + 1..], text.as_bytes());
    }
}

#[test]
fn texts_that_a_machine_can_hold_are_short_enough() {
    assert!(is_short_text(""));
    assert!(is_short_text("bob.x"));
    assert!(is_short_text(&"a".repeat(100_000)));
    assert!(Ltree::new(&"a".repeat(100_000)).is_some());
}
