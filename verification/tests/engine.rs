use mimir::document::{Document, Entry};
use mimir::error::{ResolveError, ValidationError};
use mimir::index::{build_index, extract_objects, identifier_of, ObjectIndex};
use mimir::relative::{resolve_relative, strip_id};
use mimir::remote::{resolve_remote, RemoteStep};
use mimir::validate::{validate, validate_with};

const GIST: &str = "https://gist.githubusercontent.com/MrHedmad/541007818984a54a79eaf7cf15c24e2c/raw/ff2d630e1d4bd2e07076f2b3e0300ac687e20169/test_json.json";

fn text(value: &str) -> Document {
    Document::Text(value.to_string())
}

fn number(value: u64) -> Document {
    Document::Number(serde_json::Number::from(value))
}

fn mapping(entries: Vec<(&str, Document)>) -> Document {
    Document::Mapping(
        entries
            .into_iter()
            .map(|(key, value)| Entry { key: key.to_string(), value })
            .collect(),
    )
}

fn list(items: Vec<Document>) -> Document {
    Document::Sequence(items)
}

/// Answers each retrieval from `web`, as a caller with a network would.
fn resolve_with(
    doc: &Document,
    web: &[(&str, Document)],
) -> (Result<Document, ResolveError>, Vec<String>) {
    let mut fetched: Vec<Result<Document, ResolveError>> = Vec::new();
    let mut asked: Vec<String> = Vec::new();
    loop {
        match resolve_remote(doc, &fetched) {
            RemoteStep::Resolved(resolved) => return (Ok(resolved), asked),
            RemoteStep::Failed(error) => return (Err(error), asked),
            RemoteStep::Fetch(uri) => {
                let found = web.iter().find(|(known, _)| *known == uri.as_str());
                fetched.push(match found {
                    Some((_, body)) => Ok(body.clone()),
                    None => Err(ResolveError::Fetch(format!("nothing at {}", uri))),
                });
                asked.push(uri);
            }
        }
    }
}

fn has_remote_marker(doc: &Document) -> bool {
    match doc {
        Document::Mapping(entries) => entries
            .iter()
            .any(|entry| entry.key.starts_with('@') || has_remote_marker(&entry.value)),
        Document::Sequence(items) => items.iter().any(has_remote_marker),
        _ => false,
    }
}

fn count_of(objects: &[Document], wanted: &Document) -> usize {
    objects.iter().filter(|object| *object == wanted).count()
}

#[test]
fn test_resolve_remote() {
    let object = mapping(vec![
        ("@specification", text(GIST)),
        ("test", mapping(vec![("foo", text("bar")), ("@baz", text(GIST))])),
    ]);
    let web = [(GIST, mapping(vec![("hello", text("hello.txt"))]))];

    let (resolved_object, asked) = resolve_with(&object, &web);
    let resolved_object = resolved_object.unwrap();

    assert_eq!(
        resolved_object,
        mapping(vec![
            ("specification", mapping(vec![("hello", text("hello.txt"))])),
            (
                "test",
                mapping(vec![
                    ("foo", text("bar")),
                    ("baz", mapping(vec![("hello", text("hello.txt"))])),
                ])
            ),
        ])
    );
    assert_eq!(asked, vec![GIST.to_string(), GIST.to_string()]);
}

#[test]
fn test_extract_objects() {
    let expected = vec![
        mapping(vec![("hello", text("world"))]),
        mapping(vec![("id", text("testtt")), ("foo", text("bull"))]),
        mapping(vec![("id", text("test")), ("foo", text("bar"))]),
        mapping(vec![("id", text("test2")), ("foo", text("bar"))]),
    ];

    // Keys in alphabetical order: the objects come out in exactly that order.
    let sorted = mapping(vec![
        ("baz", mapping(vec![("hello", text("world"))])),
        ("ber", mapping(vec![("id", text("testtt")), ("foo", text("bull"))])),
        ("foo", text("bar")),
        (
            "test",
            list(vec![
                mapping(vec![("id", text("test")), ("foo", text("bar"))]),
                mapping(vec![("id", text("test2")), ("foo", text("bar"))]),
            ]),
        ),
    ]);
    let objects = extract_objects(&sorted);
    assert_eq!(objects, expected);

    // Keys as declared: the same objects, in the order of the declaration.
    let declared = mapping(vec![
        ("foo", text("bar")),
        ("baz", mapping(vec![("hello", text("world"))])),
        (
            "test",
            list(vec![
                mapping(vec![("id", text("test")), ("foo", text("bar"))]),
                mapping(vec![("id", text("test2")), ("foo", text("bar"))]),
            ]),
        ),
        ("ber", mapping(vec![("id", text("testtt")), ("foo", text("bull"))])),
    ]);
    let objects = extract_objects(&declared);
    assert_eq!(objects.len(), expected.len());
    for wanted in &expected {
        assert_eq!(count_of(&objects, wanted), 1);
    }
    assert_eq!(
        objects,
        vec![expected[0].clone(), expected[2].clone(), expected[3].clone(), expected[1].clone()]
    );
}

#[test]
fn test_resolve_relative() {
    let object = mapping(vec![
        ("foo", text("bar")),
        ("baz", mapping(vec![(">hello", text("testtt"))])),
        (
            "test",
            list(vec![
                mapping(vec![("id", text("test")), ("foo", text("bar"))]),
                mapping(vec![("id", text("test2")), ("foo", text("testtt"))]),
            ]),
        ),
        ("ber", mapping(vec![("id", text("testtt")), ("foo", text("bull"))])),
        (">test2", text("testtt")),
    ]);

    let resolved_object = resolve_relative(&object, None).unwrap();

    assert_eq!(
        resolved_object,
        mapping(vec![
            ("foo", text("bar")),
            ("baz", mapping(vec![(">hello", mapping(vec![("foo", text("bull"))]))])),
            (
                "test",
                list(vec![
                    mapping(vec![("id", text("test")), ("foo", text("bar"))]),
                    mapping(vec![("id", text("test2")), ("foo", text("testtt"))]),
                ]),
            ),
            ("ber", mapping(vec![("id", text("testtt")), ("foo", text("bull"))])),
            (">test2", mapping(vec![("foo", text("bull"))])),
        ])
    );
}

#[test]
fn remote_reference_asks_then_strips_the_marker() {
    let doc = mapping(vec![("@k", text("http://example/d"))]);
    assert_eq!(
        resolve_remote(&doc, &Vec::new()),
        RemoteStep::Fetch("http://example/d".to_string())
    );
    let fetched =
        vec![Ok(mapping(vec![("n", number(7)), ("list", list(vec![Document::Null]))]))];
    assert_eq!(
        resolve_remote(&doc, &fetched),
        RemoteStep::Resolved(mapping(vec![(
            "k",
            mapping(vec![("n", number(7)), ("list", list(vec![Document::Null]))])
        )]))
    );
}

#[test]
fn remote_resolution_follows_fetched_references_first() {
    let doc = mapping(vec![
        ("@a", text("u:a")),
        ("between", list(vec![mapping(vec![("@c", text("u:c"))])])),
        ("@d", text("u:d")),
    ]);
    let web = [
        ("u:a", mapping(vec![("x", number(1)), ("@inner", text("u:b"))])),
        ("u:b", mapping(vec![("deep", Document::Boolean(true))])),
        ("u:c", text("sea")),
        ("u:d", list(vec![mapping(vec![("@again", text("u:b"))])])),
    ];
    let (resolved, asked) = resolve_with(&doc, &web);
    let resolved = resolved.unwrap();
    assert_eq!(asked, vec!["u:a", "u:b", "u:c", "u:d", "u:b"]);
    assert!(!has_remote_marker(&resolved));
    assert_eq!(
        resolved,
        mapping(vec![
            (
                "a",
                mapping(vec![
                    ("x", number(1)),
                    ("inner", mapping(vec![("deep", Document::Boolean(true))])),
                ])
            ),
            ("between", list(vec![mapping(vec![("c", text("sea"))])])),
            (
                "d",
                list(vec![mapping(vec![(
                    "again",
                    mapping(vec![("deep", Document::Boolean(true))])
                )])])
            ),
        ])
    );
}

#[test]
fn remote_resolution_ignores_what_was_fetched_beyond_need() {
    let doc = mapping(vec![("plain", text("value"))]);
    let fetched = vec![Ok(text("unused")), Err(ResolveError::Fetch("unused".to_string()))];
    assert_eq!(resolve_remote(&doc, &fetched), RemoteStep::Resolved(doc.clone()));
}

#[test]
fn remote_reference_must_be_text() {
    let doc = mapping(vec![("fine", text("x")), ("@k", number(5)), ("@later", text("u"))]);
    assert_eq!(
        resolve_remote(&doc, &Vec::new()),
        RemoteStep::Failed(ResolveError::Type("@k".to_string()))
    );
    let nested = list(vec![mapping(vec![("@k", list(vec![]))])]);
    assert_eq!(
        resolve_remote(&nested, &Vec::new()),
        RemoteStep::Failed(ResolveError::Type("@k".to_string()))
    );
}

#[test]
fn failed_retrieval_ends_the_pass() {
    let doc = mapping(vec![("@a", text("u:a")), ("@b", text("u:b")), ("@c", number(1))]);
    let refused = ResolveError::Fetch("connection refused".to_string());
    let unreadable = ResolveError::Parse("expected value at line 1 column 1".to_string());
    assert_eq!(
        resolve_remote(&doc, &vec![Err(refused.clone())]),
        RemoteStep::Failed(refused.clone())
    );
    assert_eq!(
        resolve_remote(&doc, &vec![Ok(number(1)), Err(unreadable.clone())]),
        RemoteStep::Failed(unreadable)
    );
    assert_eq!(
        resolve_remote(&doc, &vec![Ok(number(1))]),
        RemoteStep::Fetch("u:b".to_string())
    );
    assert_eq!(
        resolve_remote(&doc, &vec![Ok(number(1)), Ok(number(2))]),
        RemoteStep::Failed(ResolveError::Type("@c".to_string()))
    );

    let web = [("u:a", mapping(vec![("@inner", text("u:gone"))]))];
    let (resolved, asked) = resolve_with(&doc, &web);
    assert_eq!(resolved, Err(ResolveError::Fetch("nothing at u:gone".to_string())));
    assert_eq!(asked, vec!["u:a", "u:gone"]);
}

#[test]
fn remote_marker_is_stripped_entirely() {
    let doc = mapping(vec![("@@k", text("u")), ("@", text("v"))]);
    let fetched = vec![Ok(number(1)), Ok(number(2))];
    assert_eq!(
        resolve_remote(&doc, &fetched),
        RemoteStep::Resolved(mapping(vec![("k", number(1)), ("", number(2))]))
    );
}

#[test]
fn later_entry_replaces_earlier_one_under_the_same_key() {
    let doc = mapping(vec![("@k", text("u")), ("other", Document::Null), ("k", number(1))]);
    let fetched = vec![Ok(text("fetched"))];
    assert_eq!(
        resolve_remote(&doc, &fetched),
        RemoteStep::Resolved(mapping(vec![("k", number(1)), ("other", Document::Null)]))
    );
}

#[test]
fn scalars_and_sequences_resolve_to_themselves() {
    for doc in [Document::Null, Document::Boolean(false), number(3), text("@not a key")] {
        assert_eq!(resolve_remote(&doc, &Vec::new()), RemoteStep::Resolved(doc.clone()));
        assert_eq!(resolve_relative(&doc, None), Ok(doc.clone()));
    }
    let items = list(vec![number(1), text(">x"), list(vec![])]);
    assert_eq!(resolve_remote(&items, &Vec::new()), RemoteStep::Resolved(items.clone()));
    assert_eq!(resolve_relative(&items, None), Ok(items.clone()));
}

#[test]
fn relative_reference_keeps_its_key() {
    let mut index = ObjectIndex::new();
    index.insert(
        "testtt".to_string(),
        mapping(vec![("id", text("testtt")), ("foo", text("bull"))]),
    );
    let doc = mapping(vec![(">hello", text("testtt"))]);
    assert_eq!(
        resolve_relative(&doc, Some(&index)),
        Ok(mapping(vec![(">hello", mapping(vec![("foo", text("bull"))]))]))
    );
}

#[test]
fn missing_reference_is_an_error() {
    let mut index = ObjectIndex::new();
    index.insert("other".to_string(), mapping(vec![("id", text("other"))]));
    let doc = mapping(vec![(">ref", text("nope"))]);
    assert_eq!(
        resolve_relative(&doc, Some(&index)),
        Err(ResolveError::MissingReference("nope".to_string()))
    );
    assert_eq!(
        resolve_relative(&doc, None),
        Err(ResolveError::MissingReference("nope".to_string()))
    );
}

#[test]
fn references_to_one_object_give_independent_copies() {
    let doc = mapping(vec![
        ("shared", mapping(vec![("id", text("s")), ("items", list(vec![number(1)]))])),
        (">first", text("s")),
        (">second", text("s")),
    ]);
    let resolved = resolve_relative(&doc, None).unwrap();
    let mut entries = match resolved {
        Document::Mapping(entries) => entries,
        other => panic!("not a mapping: {:?}", other),
    };
    assert_eq!(entries[1].key, ">first");
    assert_eq!(entries[2].key, ">second");
    assert_eq!(entries[1].value, entries[2].value);
    let untouched = mapping(vec![("items", list(vec![number(1)]))]);
    assert_eq!(entries[2].value, untouched);

    match &mut entries[1].value {
        Document::Mapping(inner) => {
            inner.push(Entry { key: "extra".to_string(), value: Document::Null });
            inner[0].value = text("changed");
        }
        other => panic!("not a mapping: {:?}", other),
    }
    assert_ne!(entries[1].value, entries[2].value);
    assert_eq!(entries[2].value, untouched);
    assert_eq!(
        entries[0].value,
        mapping(vec![("id", text("s")), ("items", list(vec![number(1)]))])
    );
}

#[test]
fn referenced_object_is_resolved_in_turn() {
    let doc = mapping(vec![
        ("a", mapping(vec![("id", text("a")), (">next", text("b"))])),
        ("b", mapping(vec![("id", text("b")), ("leaf", number(9))])),
        (">start", text("a")),
    ]);
    let resolved = resolve_relative(&doc, None).unwrap();
    assert_eq!(
        resolved,
        mapping(vec![
            (
                "a",
                mapping(vec![("id", text("a")), (">next", mapping(vec![("leaf", number(9))]))])
            ),
            ("b", mapping(vec![("id", text("b")), ("leaf", number(9))])),
            (">start", mapping(vec![(">next", mapping(vec![("leaf", number(9))]))])),
        ])
    );
}

#[test]
fn reference_cycle_is_an_error() {
    let doc = mapping(vec![
        ("a", mapping(vec![("id", text("a")), (">to", text("b"))])),
        ("b", mapping(vec![("id", text("b")), (">to", text("a"))])),
    ]);
    assert_eq!(resolve_relative(&doc, None), Err(ResolveError::Cycle("b".to_string())));

    let own = mapping(vec![("me", mapping(vec![("id", text("me")), (">self", text("me"))]))]);
    assert_eq!(resolve_relative(&own, None), Err(ResolveError::Cycle("me".to_string())));
}

#[test]
fn object_may_be_referenced_again_after_it_is_resolved() {
    let doc = mapping(vec![
        ("leaf", mapping(vec![("id", text("leaf")), ("v", number(1))])),
        ("pair", mapping(vec![("id", text("pair")), (">l", text("leaf")), (">r", text("leaf"))])),
        (">top", text("pair")),
        (">again", text("leaf")),
    ]);
    let resolved = resolve_relative(&doc, None).unwrap();
    let entries = match resolved {
        Document::Mapping(entries) => entries,
        other => panic!("not a mapping: {:?}", other),
    };
    let leaf = mapping(vec![("v", number(1))]);
    assert_eq!(entries[2].value, mapping(vec![(">l", leaf.clone()), (">r", leaf.clone())]));
    assert_eq!(entries[3].value, leaf);
}

#[test]
fn only_text_under_a_marked_key_is_a_reference() {
    let doc = mapping(vec![
        ("target", mapping(vec![("id", text("t"))])),
        (">number", number(4)),
        (">null", Document::Null),
        (">flag", Document::Boolean(true)),
        (">nested", mapping(vec![(">inner", text("t"))])),
        (">list", list(vec![text("t")])),
        ("plain", text("t")),
    ]);
    assert_eq!(
        resolve_relative(&doc, None),
        Ok(mapping(vec![
            ("target", mapping(vec![("id", text("t"))])),
            (">number", number(4)),
            (">null", Document::Null),
            (">flag", Document::Boolean(true)),
            (">nested", mapping(vec![(">inner", mapping(vec![]))])),
            (">list", list(vec![text("t")])),
            ("plain", text("t")),
        ]))
    );
}

#[test]
fn first_fault_in_document_order_is_reported() {
    let doc = mapping(vec![
        ("list", list(vec![mapping(vec![(">x", text("first"))])])),
        (">y", text("second")),
    ]);
    assert_eq!(
        resolve_relative(&doc, None),
        Err(ResolveError::MissingReference("first".to_string()))
    );
}

#[test]
fn index_holds_objects_with_a_text_identifier() {
    let doc = mapping(vec![
        ("a", mapping(vec![("id", text("one")), ("v", number(1))])),
        ("b", mapping(vec![("id", number(2))])),
        ("c", list(vec![
            mapping(vec![("id", text("three"))]),
            text("skip"),
            list(vec![mapping(vec![("id", text("hidden"))])]),
        ])),
        ("d", mapping(vec![("inner", mapping(vec![("id", text("four"))]))])),
    ]);
    let index = build_index(&doc);
    assert_eq!(index.get("one"), Some(&mapping(vec![("id", text("one")), ("v", number(1))])));
    assert_eq!(index.get("three"), Some(&mapping(vec![("id", text("three"))])));
    assert_eq!(index.get("four"), Some(&mapping(vec![("id", text("four"))])));
    assert_eq!(index.get("hidden"), None);
    assert_eq!(index.get("2"), None);
    assert_eq!(index.get("a"), None);
}

#[test]
fn later_object_replaces_earlier_one_in_the_index() {
    let doc = mapping(vec![
        ("a", mapping(vec![("id", text("twin")), ("which", text("first"))])),
        ("b", list(vec![mapping(vec![("id", text("twin")), ("which", text("second"))])])),
    ]);
    let index = build_index(&doc);
    assert_eq!(
        index.get("twin"),
        Some(&mapping(vec![("id", text("twin")), ("which", text("second"))]))
    );
    assert_eq!(
        resolve_relative(&mapping(vec![(">r", text("twin"))]), Some(&index)),
        Ok(mapping(vec![(">r", mapping(vec![("which", text("second"))]))]))
    );
}

#[test]
fn nothing_is_found_below_a_document_that_is_no_mapping() {
    assert_eq!(extract_objects(&text("x")), Vec::<Document>::new());
    assert_eq!(
        extract_objects(&list(vec![mapping(vec![("id", text("x"))])])),
        Vec::<Document>::new()
    );
    assert_eq!(extract_objects(&mapping(vec![])), Vec::<Document>::new());
    assert_eq!(build_index(&Document::Null).get("x"), None);
}

#[test]
fn objects_are_walked_before_their_siblings() {
    let inner = mapping(vec![("id", text("in"))]);
    let outer = mapping(vec![("id", text("out")), ("child", inner.clone())]);
    let sibling = mapping(vec![("id", text("sib"))]);
    let doc = mapping(vec![("x", outer.clone()), ("y", list(vec![sibling.clone(), number(1)]))]);
    assert_eq!(extract_objects(&doc), vec![outer, inner, sibling]);
}

#[test]
fn identifier_is_the_text_under_id() {
    assert_eq!(
        identifier_of(&mapping(vec![("x", number(1)), ("id", text("name"))])),
        Some("name".to_string())
    );
    assert_eq!(identifier_of(&mapping(vec![("id", number(1))])), None);
    assert_eq!(identifier_of(&mapping(vec![("ID", text("name"))])), None);
    assert_eq!(identifier_of(&text("id")), None);
}

#[test]
fn strip_id_removes_the_identifier_and_keeps_the_order() {
    assert_eq!(
        strip_id(&mapping(vec![("a", number(1)), ("id", text("x")), ("b", number(2)), ("c", number(3))])),
        mapping(vec![("a", number(1)), ("b", number(2)), ("c", number(3))])
    );
    assert_eq!(strip_id(&mapping(vec![("a", number(1))])), mapping(vec![("a", number(1))]));
    assert_eq!(strip_id(&text("id")), text("id"));
    assert_eq!(strip_id(&list(vec![mapping(vec![("id", text("x"))])])), list(vec![mapping(vec![("id", text("x"))])]));
}

#[test]
fn index_lookup_and_replacement() {
    let mut index = ObjectIndex::new();
    assert_eq!(index.get("a"), None);
    index.insert("a".to_string(), number(1));
    index.insert("b".to_string(), number(2));
    index.insert("a".to_string(), number(3));
    assert_eq!(index.get("a"), Some(&number(3)));
    assert_eq!(index.get("b"), Some(&number(2)));
    assert_eq!(index.get(""), None);
}

#[test]
fn validator_requires_both_sections() {
    let only_specification = mapping(vec![("specification", mapping(vec![("v", number(1))]))]);
    assert_eq!(
        validate(&only_specification),
        Err(ValidationError::MissingRequiredSection("objects".to_string()))
    );
    let both = mapping(vec![
        ("specification", mapping(vec![("v", number(1))])),
        ("objects", mapping(vec![("o", Document::Null)])),
    ]);
    assert_eq!(validate(&both), Ok(()));
    let no_object = list(vec![text("not"), text("an"), text("object")]);
    assert_eq!(validate(&no_object), Err(ValidationError::NotAnObject));
}

#[test]
fn validator_names_the_first_missing_section() {
    assert_eq!(
        validate(&mapping(vec![])),
        Err(ValidationError::MissingRequiredSection("specification".to_string()))
    );
    assert_eq!(
        validate(&mapping(vec![("objects", Document::Null)])),
        Err(ValidationError::MissingRequiredSection("specification".to_string()))
    );
    assert_eq!(validate(&text("specification")), Err(ValidationError::NotAnObject));
    assert_eq!(validate(&Document::Null), Err(ValidationError::NotAnObject));
}

#[test]
fn validator_takes_the_name_of_the_objects_section() {
    let doc = mapping(vec![("specification", Document::Null), ("data", list(vec![]))]);
    assert_eq!(validate_with(&doc, "data"), Ok(()));
    assert_eq!(
        validate_with(&doc, "objects"),
        Err(ValidationError::MissingRequiredSection("objects".to_string()))
    );
    assert_eq!(
        validate(&doc),
        Err(ValidationError::MissingRequiredSection("objects".to_string()))
    );
}

#[test]
fn errors_read_as_sentences() {
    assert_eq!(
        ResolveError::MissingReference("abc".to_string()).message(),
        "Could not find object with ID abc."
    );
    assert_eq!(ResolveError::Type("@k".to_string()).message(), "Expected a string under @k.");
    assert_eq!(
        ResolveError::Cycle("abc".to_string()).message(),
        "Object with ID abc refers to itself."
    );
    assert_eq!(
        ResolveError::Parse("eof".to_string()).message(),
        "Problem reading document: eof"
    );
    assert_eq!(
        ResolveError::Fetch("refused".to_string()).message(),
        "Problem fetching document: refused"
    );
    assert_eq!(ValidationError::NotAnObject.message(), "Expected a top-level object.");
    assert_eq!(
        ValidationError::MissingRequiredSection("specification".to_string()).message(),
        "Missing specification."
    );
}
