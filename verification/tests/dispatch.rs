use clipboard::codec::{load_text, serialize};
use clipboard::dispatch::{dispatch, parse_index, Outcome};
use clipboard::store::Document;

#[test]
fn empty_store_get_then_put_then_get() {
    let mut d = load_text("").unwrap();
    let o = dispatch(&mut d, "get", "foo", "", "");
    assert!(matches!(o, Outcome::NoKeyFound));
    let o = dispatch(&mut d, "put", "foo", "bar", "");
    assert!(matches!(o, Outcome::Updated));
    match dispatch(&mut d, "get", "foo", "", "") {
        Outcome::AllValues(vs) => assert_eq!(vs, vec!["bar".to_string()]),
        _ => panic!("expected all values"),
    }
}

#[test]
fn duplicate_put_keeps_single_value() {
    let mut d = Document::new();
    assert!(matches!(dispatch(&mut d, "put", "foo", "bar", ""), Outcome::Updated));
    assert!(matches!(dispatch(&mut d, "put", "foo", "bar", ""), Outcome::Updated));
    assert_eq!(d.get("foo"), Some(&vec!["bar".to_string()]));
}

#[test]
fn invalid_index_is_a_usage_error_and_changes_nothing() {
    let mut d = Document::new();
    assert!(matches!(dispatch(&mut d, "put", "foo", "bar", ""), Outcome::Updated));
    let before = serialize(&d);
    let o = dispatch(&mut d, "get", "foo", "", "abc");
    assert!(matches!(o, Outcome::InvalidIndex));
    assert_eq!(serialize(&d), before);
}

#[test]
fn get_with_index_boundaries() {
    let mut d = Document::new();
    dispatch(&mut d, "put", "k", "a", "");
    dispatch(&mut d, "put", "k", "b", "");
    match dispatch(&mut d, "get", "k", "", "1") {
        Outcome::ValueAt(v) => assert_eq!(v, "b"),
        _ => panic!("expected a value"),
    }
    match dispatch(&mut d, "get", "k", "", "+0") {
        Outcome::ValueAt(v) => assert_eq!(v, "a"),
        _ => panic!("expected a value"),
    }
    assert!(matches!(dispatch(&mut d, "get", "k", "", "2"), Outcome::IndexOutOfBounds));
    assert!(matches!(
        dispatch(&mut d, "get", "k", "", "99999999999999999999999999"),
        Outcome::InvalidIndex
    ));
}

#[test]
fn missing_fields_are_a_usage_error() {
    let mut d = Document::new();
    assert!(matches!(dispatch(&mut d, "", "foo", "x", ""), Outcome::MissingFields));
    assert!(matches!(dispatch(&mut d, "get", "", "", ""), Outcome::MissingFields));
    assert!(matches!(dispatch(&mut d, "", "", "", ""), Outcome::MissingFields));
}

#[test]
fn unknown_action_is_reported_with_its_name() {
    let mut d = Document::new();
    match dispatch(&mut d, "frobnicate", "k", "", "") {
        Outcome::InvalidAction(a) => assert_eq!(a, "frobnicate"),
        _ => panic!("expected an invalid action"),
    }
}

#[test]
fn delete_is_not_implemented_and_changes_nothing() {
    let mut d = Document::new();
    dispatch(&mut d, "put", "k", "v", "");
    let before = serialize(&d);
    assert!(matches!(dispatch(&mut d, "delete", "k", "", ""), Outcome::DeleteNotImplemented));
    assert_eq!(serialize(&d), before);
}

#[test]
fn empty_value_put_is_rejected_and_changes_nothing() {
    let mut d = Document::new();
    dispatch(&mut d, "put", "k", "v", "");
    let before = serialize(&d);
    assert!(matches!(dispatch(&mut d, "put", "k", "", ""), Outcome::ValueEmpty));
    assert_eq!(serialize(&d), before);
}

#[test]
fn parse_index_reads_decimal() {
    assert_eq!(parse_index("0"), Some(0));
    assert_eq!(parse_index("42"), Some(42));
    assert_eq!(parse_index("007"), Some(7));
    assert_eq!(parse_index("+5"), Some(5));
    assert_eq!(parse_index("18446744073709551615"), Some(usize::MAX));
}

#[test]
fn parse_index_rejects_what_is_not_an_index() {
    assert_eq!(parse_index(""), None);
    assert_eq!(parse_index("+"), None);
    assert_eq!(parse_index("abc"), None);
    assert_eq!(parse_index("1a"), None);
    assert_eq!(parse_index("-1"), None);
    assert_eq!(parse_index(" 1"), None);
    assert_eq!(parse_index("18446744073709551616"), None);
    assert_eq!(parse_index("99999999999999999999999999"), None);
}
