use mimir::document::{find_entry, put_entry, Document, Entry};
use mimir::error::ResolveError;
use mimir::parse::{document_of, parse_document};
use mimir::text::{has_marker, same_text, strip_marker};

fn entry(key: &str, value: Document) -> Entry {
    Entry { key: key.to_string(), value }
}

#[test]
fn parses_every_kind_of_value() {
    let doc = parse_document(
        r#"{"n": null, "t": true, "f": false, "i": 42, "neg": -7, "s": "text", "a": [1, "two", []], "o": {"k": {}}}"#,
    )
    .unwrap();
    assert_eq!(
        doc,
        Document::Mapping(vec![
            entry("n", Document::Null),
            entry("t", Document::Boolean(true)),
            entry("f", Document::Boolean(false)),
            entry("i", Document::Number(serde_json::Number::from(42u64))),
            entry("neg", Document::Number(serde_json::Number::from(-7i64))),
            entry("s", Document::Text("text".to_string())),
            entry(
                "a",
                Document::Sequence(vec![
                    Document::Number(serde_json::Number::from(1u64)),
                    Document::Text("two".to_string()),
                    Document::Sequence(vec![]),
                ])
            ),
            entry("o", Document::Mapping(vec![entry("k", Document::Mapping(vec![]))])),
        ])
    );
}

#[test]
fn parsing_keeps_the_order_of_declaration() {
    let doc = parse_document(r#"{"zeta": 1, "alpha": 2, "mid": 3}"#).unwrap();
    let keys: Vec<String> = match doc {
        Document::Mapping(entries) => entries.into_iter().map(|entry| entry.key).collect(),
        other => panic!("not a mapping: {:?}", other),
    };
    assert_eq!(keys, vec!["zeta", "alpha", "mid"]);
}

#[test]
fn parsing_keeps_one_entry_for_a_repeated_key() {
    let doc = parse_document(r#"{"k": 1, "other": true, "k": 2}"#).unwrap();
    assert_eq!(
        doc,
        Document::Mapping(vec![
            entry("k", Document::Number(serde_json::Number::from(2u64))),
            entry("other", Document::Boolean(true)),
        ])
    );
}

#[test]
fn parses_scalars_at_the_top() {
    assert_eq!(parse_document("null"), Ok(Document::Null));
    assert_eq!(parse_document(" \"x\" "), Ok(Document::Text("x".to_string())));
    assert_eq!(parse_document("[]"), Ok(Document::Sequence(vec![])));
    assert_eq!(
        parse_document("1.5"),
        Ok(Document::Number(serde_json::Number::from_f64(1.5).unwrap()))
    );
}

#[test]
fn malformed_text_is_a_parse_error() {
    for text in ["", "{", "{\"a\": }", "[1, 2", "{'a': 1}", "nul", "{\"a\": 1} trailing"] {
        match parse_document(text) {
            Err(ResolveError::Parse(message)) => assert!(!message.is_empty()),
            other => panic!("{:?} parsed as {:?}", text, other),
        }
    }
}

#[test]
fn document_of_copies_the_value() {
    let value: serde_json::Value = serde_json::from_str(r#"{"a": [1, {"b": "c"}], "d": null}"#).unwrap();
    let doc = document_of(&value);
    assert_eq!(Ok(doc), parse_document(r#"{"a": [1, {"b": "c"}], "d": null}"#));
}

#[test]
fn clone_is_equal_and_independent() {
    let source = parse_document(r#"{"a": [1, 2.5, {"b": "c"}], "d": -3}"#).unwrap();
    let mut copy = source.clone();
    assert_eq!(copy, source);
    if let Document::Mapping(entries) = &mut copy {
        entries[1].value = Document::Null;
    }
    assert_ne!(copy, source);
    assert_eq!(source, parse_document(r#"{"a": [1, 2.5, {"b": "c"}], "d": -3}"#).unwrap());
}

#[test]
fn get_finds_the_value_under_a_key() {
    let doc = parse_document(r#"{"a": 1, "b": "two"}"#).unwrap();
    assert_eq!(doc.get("b"), Some(&Document::Text("two".to_string())));
    assert_eq!(doc.get("c"), None);
    assert_eq!(doc.get(""), None);
    assert_eq!(Document::Text("a".to_string()).get("a"), None);
    assert_eq!(Document::Sequence(vec![doc.clone()]).get("a"), None);
}

#[test]
fn put_entry_replaces_in_place_or_appends() {
    let mut entries = vec![entry("a", Document::Null), entry("b", Document::Null)];
    put_entry(&mut entries, "a".to_string(), Document::Boolean(true));
    put_entry(&mut entries, "c".to_string(), Document::Boolean(false));
    assert_eq!(
        entries,
        vec![
            entry("a", Document::Boolean(true)),
            entry("b", Document::Null),
            entry("c", Document::Boolean(false)),
        ]
    );
    assert_eq!(find_entry(&entries, "b"), Some(1));
    assert_eq!(find_entry(&entries, "d"), None);
}

#[test]
fn find_entry_gives_the_first_of_equal_keys() {
    let entries = vec![entry("x", Document::Null), entry("k", Document::Null), entry("k", Document::Boolean(true))];
    assert_eq!(find_entry(&entries, "k"), Some(1));
}

#[test]
fn markers_are_recognised_and_stripped() {
    assert!(has_marker("@key", '@'));
    assert!(has_marker(">key", '>'));
    assert!(!has_marker("key@", '@'));
    assert!(!has_marker("", '@'));
    assert!(!has_marker(">key", '@'));
    assert_eq!(strip_marker("@key", '@'), "key");
    assert_eq!(strip_marker("@@@key@", '@'), "key@");
    assert_eq!(strip_marker("key", '@'), "key");
    assert_eq!(strip_marker("@", '@'), "");
    assert_eq!(strip_marker("", '@'), "");
    assert_eq!(strip_marker("@é@ü", '@'), "é@ü");
}

#[test]
fn texts_compare_by_their_characters() {
    assert!(same_text("", ""));
    assert!(same_text("id", "id"));
    assert!(same_text("schlüssel", "schlüssel"));
    assert!(!same_text("id", "ids"));
    assert!(!same_text("id", "iD"));
    assert!(!same_text("é", "e"));
}
