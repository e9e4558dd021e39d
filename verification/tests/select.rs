use nbtx::path::{parse_path, PathSegment};
use nbtx::select::{
    is_descendant_path, parse_path_selector, resolve_list_targets_for_where, resolve_selector_paths, PathSelector,
};
use nbtx::tag_id;
use nbtx::tree::NbtValue;

fn sample_list_of_compounds() -> NbtValue {
    NbtValue::List {
        id: tag_id::COMPOUND,
        elements: vec![
            NbtValue::Compound(vec![
                ("id".to_string(), NbtValue::Int(123)),
                ("count".to_string(), NbtValue::Int(12)),
            ]),
            NbtValue::Compound(vec![
                ("id".to_string(), NbtValue::Int(123)),
                ("count".to_string(), NbtValue::Int(1000)),
            ]),
            NbtValue::Compound(vec![
                ("id".to_string(), NbtValue::Int(456)),
                ("count".to_string(), NbtValue::Int(1)),
            ]),
        ],
    }
}

fn sample_document() -> NbtValue {
    NbtValue::Compound(vec![("items".to_string(), sample_list_of_compounds())])
}

#[test]
fn regex_selector_matches_multiple_paths() {
    let doc = NbtValue::Compound(vec![(
        "root".to_string(),
        NbtValue::List {
            id: tag_id::COMPOUND,
            elements: vec![
                NbtValue::Compound(vec![("id".to_string(), NbtValue::Int(1))]),
                NbtValue::Compound(vec![("id".to_string(), NbtValue::Int(2))]),
            ],
        },
    )]);

    let selector = parse_path_selector(r"re:^root\[\d+\]\.id$").expect("selector should parse");
    let paths = resolve_selector_paths(&doc, &selector);
    assert_eq!(paths.len(), 2);
}

#[test]
fn where_delete_can_resolve_from_descendant_regex_matches() {
    let document = sample_document();
    let selector = parse_path_selector(r"re:^items\[\d+\]\.id$").expect("selector should parse");
    let matched_paths = resolve_selector_paths(&document, &selector);
    let list_targets = resolve_list_targets_for_where(&document, matched_paths);
    let expected = vec![parse_path("items").expect("path should parse")];
    assert_eq!(list_targets, expected);
}

#[test]
fn selector_regex_paths_come_in_document_order() {
    let document = sample_document();
    let selector = parse_path_selector("re:count").expect("selector should parse");
    let paths = resolve_selector_paths(&document, &selector);
    assert_eq!(
        paths,
        vec![
            parse_path("items[0].count").unwrap(),
            parse_path("items[1].count").unwrap(),
            parse_path("items[2].count").unwrap(),
        ]
    );
}

#[test]
fn selector_errors() {
    match parse_path_selector("re:(") {
        Err(message) => assert!(message.starts_with("invalid path regex: ")),
        Ok(_) => panic!("an unclosed group is refused"),
    }
    match parse_path_selector("a..b") {
        Err(message) => assert_eq!(message, "invalid path near position 2"),
        Ok(_) => panic!("an empty field is refused"),
    }
    match parse_path_selector("a.b") {
        Ok(PathSelector::Exact(segments)) => assert_eq!(
            segments,
            vec![PathSegment::Field("a".to_string()), PathSegment::Field("b".to_string())]
        ),
        _ => panic!("an exact path is read"),
    }
}

#[test]
fn exact_selector_is_taken_as_is() {
    let document = sample_document();
    let selector = parse_path_selector("missing.path").expect("selector should parse");
    let paths = resolve_selector_paths(&document, &selector);
    assert_eq!(paths, vec![parse_path("missing.path").unwrap()]);
}

#[test]
fn descendant_paths() {
    assert!(is_descendant_path("a.b", ""));
    assert!(is_descendant_path("a.b", "a"));
    assert!(is_descendant_path("a[0]", "a"));
    assert!(!is_descendant_path("a", "a"));
    assert!(!is_descendant_path("ab", "a"));
    assert!(!is_descendant_path("b.c", "a"));
}
