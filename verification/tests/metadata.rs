use mimir::metadata::is_well_separated;
use mimir::{parse_metadata, Descriptor, InvalidMetadataError, Metadata};

#[test]
fn test_parsing() {
    let meta_string =
        "type =   data\nfile  =  /path/to/file    \n  test =   test1 \n  @banana=fruit".to_string();

    let result = parse_metadata(meta_string).unwrap();

    assert_eq!(
        result,
        Metadata {
            file_path: Some("/path/to/file".to_string()),
            type_string: "data".to_string(),
            other_keys: vec![
                Descriptor {
                    key: "test".to_string(),
                    value: "test1".to_string(),
                    relative: false
                },
                Descriptor {
                    key: "banana".to_string(),
                    value: "fruit".to_string(),
                    relative: true
                }
            ]
        }
    )
}

#[test]
fn missing_type_is_an_error() {
    let parsed = parse_metadata("file = a\nother = b".to_string());
    assert!(matches!(parsed, Err(InvalidMetadataError::MissingTypeAnnotation)));
}

#[test]
fn separator_check_tells_lines_apart() {
    assert!(is_well_separated("type = data"));
    assert!(is_well_separated("a=b\nc=d"));
    assert!(!is_well_separated(""));
    assert!(!is_well_separated("type = data\n"));
    assert!(!is_well_separated("type = data\nno separator here\nfile = x"));
}

#[test]
fn value_ends_at_the_second_separator() {
    let parsed = parse_metadata("type = a = b\nkey=v1=v2=v3".to_string()).unwrap();
    assert_eq!(
        parsed,
        Metadata {
            type_string: "a".to_string(),
            file_path: None,
            other_keys: vec![Descriptor {
                relative: false,
                key: "key".to_string(),
                value: "v1".to_string()
            }],
        }
    );
}

#[test]
fn first_type_and_file_win_and_repeats_are_dropped() {
    let parsed = parse_metadata(
        "x = 1\nfile = first\n@type = kind\ntype = other\nfile = second\n@x = 2".to_string(),
    )
    .unwrap();
    assert_eq!(
        parsed,
        Metadata {
            type_string: "kind".to_string(),
            file_path: Some("first".to_string()),
            other_keys: vec![
                Descriptor { relative: false, key: "x".to_string(), value: "1".to_string() },
                Descriptor { relative: true, key: "x".to_string(), value: "2".to_string() },
            ],
        }
    );
}

#[test]
fn only_one_marker_is_taken_off_a_key() {
    let parsed = parse_metadata("type=t\n @@k = v\n@ = w\n=".to_string()).unwrap();
    assert_eq!(
        parsed.other_keys,
        vec![
            Descriptor { relative: true, key: "@k".to_string(), value: "v".to_string() },
            Descriptor { relative: true, key: "".to_string(), value: "w".to_string() },
            Descriptor { relative: false, key: "".to_string(), value: "".to_string() },
        ]
    );
}

#[test]
fn white_space_of_every_kind_is_trimmed() {
    let parsed = parse_metadata("\t type \u{a0}=\u{2003} da ta \r\n\u{3000}k\u{2028}=\tv\t".to_string()).unwrap();
    assert_eq!(
        parsed,
        Metadata {
            type_string: "da ta".to_string(),
            file_path: None,
            other_keys: vec![Descriptor {
                relative: false,
                key: "k".to_string(),
                value: "v".to_string()
            }],
        }
    );
}

#[test]
fn marker_inside_white_space_is_not_leading() {
    let parsed = parse_metadata("type=t\n a@ = 1\n@ b = 2".to_string()).unwrap();
    assert_eq!(
        parsed.other_keys,
        vec![
            Descriptor { relative: false, key: "a@".to_string(), value: "1".to_string() },
            Descriptor { relative: true, key: " b".to_string(), value: "2".to_string() },
        ]
    );
}

#[test]
fn errors_have_their_wording() {
    assert_eq!(InvalidMetadataError::MissingTypeAnnotation.message(), "Missing Type annotation.");
    assert_eq!(
        InvalidMetadataError::InvalidFileAnnotation("no such file".to_string()).message(),
        "Invalid file annotation: no such file"
    );
}
