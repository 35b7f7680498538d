use clipboard::store::Document;

fn doc_with(pairs: &[(&str, &str)]) -> Document {
    let mut d = Document::new();
    for (k, v) in pairs {
        assert!(d.put(k, v));
    }
    d
}

#[test]
fn put_creates_key() {
    let mut d = Document::new();
    assert!(d.put("foo", "bar"));
    assert_eq!(d.get("foo"), Some(&vec!["bar".to_string()]));
}

#[test]
fn get_missing_key_is_none() {
    let d = Document::new();
    assert_eq!(d.get("foo"), None);
}

#[test]
fn put_duplicate_is_suppressed() {
    let mut d = doc_with(&[("foo", "bar")]);
    assert!(d.put("foo", "bar"));
    assert_eq!(d.get("foo"), Some(&vec!["bar".to_string()]));
}

#[test]
fn put_twice_leaves_document_identical() {
    let mut d = doc_with(&[("foo", "bar"), ("baz", "qux")]);
    assert!(d.put("foo", "bar"));
    let first = clipboard::codec::serialize(&d);
    assert!(d.put("foo", "bar"));
    let second = clipboard::codec::serialize(&d);
    assert_eq!(first, second);
}

#[test]
fn put_preserves_insertion_order() {
    let mut d = Document::new();
    assert!(d.put("k", "v1"));
    assert!(d.put("k", "v2"));
    assert!(d.put("k", "v3"));
    assert_eq!(
        d.get("k"),
        Some(&vec!["v1".to_string(), "v2".to_string(), "v3".to_string()])
    );
}

#[test]
fn put_empty_value_is_rejected() {
    let mut d = doc_with(&[("foo", "bar")]);
    let before = clipboard::codec::serialize(&d);
    assert!(!d.put("foo", ""));
    assert!(!d.put("new", ""));
    let after = clipboard::codec::serialize(&d);
    assert_eq!(before, after);
}

#[test]
fn put_appends_to_existing_key() {
    let mut d = doc_with(&[("k", "a"), ("k", "b")]);
    assert_eq!(d.get("k"), Some(&vec!["a".to_string(), "b".to_string()]));
}

#[test]
fn keys_are_independent() {
    let d = doc_with(&[("a", "1"), ("b", "2")]);
    assert_eq!(d.get("a"), Some(&vec!["1".to_string()]));
    assert_eq!(d.get("b"), Some(&vec!["2".to_string()]));
    assert_eq!(d.get("c"), None);
}

#[test]
fn get_at_boundaries() {
    let d = doc_with(&[("k", "a"), ("k", "b"), ("k", "c")]);
    let vs = d.get("k").unwrap();
    assert_eq!(Document::get_at(vs, 0).unwrap(), "a");
    assert_eq!(Document::get_at(vs, 2).unwrap(), "c");
    assert!(Document::get_at(vs, 3).is_err());
    assert!(Document::get_at(vs, 4).is_err());
}
