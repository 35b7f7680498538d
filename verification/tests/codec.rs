use clipboard::codec::{load_text, parse, serialize};
use clipboard::store::Document;

#[test]
fn serialize_empty_document() {
    let d = Document::new();
    assert_eq!(serialize(&d), "{}");
}

#[test]
fn serialize_simple_document() {
    let mut d = Document::new();
    assert!(d.put("foo", "bar"));
    assert_eq!(serialize(&d), "{\"foo\":[\"bar\"]}");
}

#[test]
fn serialize_orders_entries_and_values() {
    let mut d = Document::new();
    assert!(d.put("b", "2"));
    assert!(d.put("a", "1"));
    assert!(d.put("b", "3"));
    assert_eq!(serialize(&d), "{\"b\":[\"2\",\"3\"],\"a\":[\"1\"]}");
}

#[test]
fn empty_text_is_empty_document() {
    let d = load_text("").unwrap();
    assert_eq!(serialize(&d), "{}");
    assert_eq!(d.get("foo"), None);
}

#[test]
fn second_save_is_byte_identical() {
    let first = "{ \"foo\" : [ \"bar\", \"baz\" ], \"x\" : [] }";
    let d1 = load_text(first).unwrap();
    let save1 = serialize(&d1);
    let d2 = load_text(&save1).unwrap();
    let save2 = serialize(&d2);
    assert_eq!(save1, save2);
}

#[test]
fn roundtrip_with_escapes() {
    let mut d = Document::new();
    assert!(d.put("quotes \"and\" \\slashes\\", "line\nbreak\ttab\rret"));
    assert!(d.put("ctrl", "\u{1}\u{8}\u{b}\u{c}\u{1f}"));
    assert!(d.put("unicode", "caf\u{e9} \u{1f600}"));
    let text = serialize(&d);
    let d2 = parse(&text).unwrap();
    assert_eq!(
        d2.get("quotes \"and\" \\slashes\\"),
        Some(&vec!["line\nbreak\ttab\rret".to_string()])
    );
    assert_eq!(d2.get("ctrl"), Some(&vec!["\u{1}\u{8}\u{b}\u{c}\u{1f}".to_string()]));
    assert_eq!(d2.get("unicode"), Some(&vec!["caf\u{e9} \u{1f600}".to_string()]));
    assert_eq!(serialize(&d2), text);
}

#[test]
fn control_characters_use_short_and_hex_escapes() {
    let mut d = Document::new();
    assert!(d.put("k", "\u{8}\u{c}\n\r\t\u{1}\u{1f}"));
    assert_eq!(
        serialize(&d),
        "{\"k\":[\"\\b\\f\\n\\r\\t\\u0001\\u001f\"]}"
    );
}

#[test]
fn parse_accepts_whitespace() {
    let d = parse(" \t\r\n{ \"a\" : [ \"b\" , \"c\" ] } \n").unwrap();
    assert_eq!(d.get("a"), Some(&vec!["b".to_string(), "c".to_string()]));
}

#[test]
fn parse_decodes_unicode_escapes() {
    let d = parse("{\"a\":[\"\\u0041\\u00e9\\u2603\"]}").unwrap();
    assert_eq!(d.get("a"), Some(&vec!["A\u{e9}\u{2603}".to_string()]));
}

#[test]
fn parse_duplicate_key_last_wins() {
    let d = parse("{\"a\":[\"1\"],\"b\":[\"x\"],\"a\":[\"2\"]}").unwrap();
    assert_eq!(d.get("a"), Some(&vec!["2".to_string()]));
    assert_eq!(d.get("b"), Some(&vec!["x".to_string()]));
}

#[test]
fn parse_rejects_what_is_not_an_object_of_string_arrays() {
    assert!(parse("null").is_err());
    assert!(parse("[]").is_err());
    assert!(parse("{").is_err());
    assert!(parse("{}x").is_err());
    assert!(parse("{\"a\":1}").is_err());
    assert!(parse("{\"a\":\"b\"}").is_err());
    assert!(parse("{\"a\":[1]}").is_err());
    assert!(parse("{\"a\":[\"b\"").is_err());
    assert!(parse("{\"a\":[\"b\"],}").is_err());
    assert!(parse("{\"a\" [\"b\"]}").is_err());
    assert!(parse("").is_err());
}

#[test]
fn parse_rejects_bad_strings() {
    // a raw control character, a bad escape, a lone surrogate escape
    assert!(parse("{\"a\":[\"x\u{1}y\"]}").is_err());
    assert!(parse("{\"a\":[\"\\q\"]}").is_err());
    assert!(parse("{\"a\":[\"\\ud800\"]}").is_err());
    assert!(parse("{\"a\":[\"\\u12\"]}").is_err());
}

#[test]
fn serde_json_reads_what_the_writer_emits() {
    let mut d = Document::new();
    assert!(d.put("key \"q\"", "a\nb"));
    assert!(d.put("key \"q\"", "\u{3}plain"));
    let text = serialize(&d);
    let v: serde_json::Value = serde_json::from_str(&text).unwrap();
    assert_eq!(v["key \"q\""][0], serde_json::Value::String("a\nb".to_string()));
    assert_eq!(v["key \"q\""][1], serde_json::Value::String("\u{3}plain".to_string()));
}

#[test]
fn the_writer_emits_what_serde_json_emits() {
    let mut m = serde_json::Map::new();
    m.insert(
        "k\u{1}ey".to_string(),
        serde_json::Value::Array(vec![
            serde_json::Value::String("v1".to_string()),
            serde_json::Value::String("tab\there \"q\" \\".to_string()),
        ]),
    );
    let text = serde_json::Value::Object(m).to_string();
    let d = load_text(&text).unwrap();
    assert_eq!(serialize(&d), text);
}
