use nbtx::codec::{parse_document, write_document};
use nbtx::edit::delete_at_path;
use nbtx::path::{parse_path, path_segments_to_string, PathSegment};
use nbtx::select::parse_path_selector;
use nbtx::stream::{edit_found, transform_raw, Counts, EditError, Plan};
use nbtx::tag_id;
use nbtx::tree::{copy_value, NbtValue};
use nbtx::{ParseError, PlatformType};

const JAVA: PlatformType = PlatformType::JavaEdition;

fn text(s: &str) -> String {
    s.to_string()
}

fn document() -> NbtValue {
    NbtValue::Compound(vec![
        (text("a"), NbtValue::Int(1)),
        (text("name"), NbtValue::String(text("Steve"))),
        (
            text("items"),
            NbtValue::List {
                id: tag_id::COMPOUND,
                elements: vec![
                    NbtValue::Compound(vec![(text("count"), NbtValue::Int(12))]),
                    NbtValue::Compound(vec![(text("count"), NbtValue::Int(1000))]),
                    NbtValue::Compound(vec![(text("count"), NbtValue::Int(1))]),
                ],
            },
        ),
        (text("tags"), NbtValue::List { id: tag_id::STRING, elements: vec![NbtValue::String(text("x"))] }),
    ])
}

fn input() -> Vec<u8> {
    write_document(&document(), JAVA).expect("document writes")
}

fn never(_: &NbtValue) -> bool {
    false
}

fn run(plan: &Plan) -> Result<(NbtValue, Counts), EditError> {
    let (out, counts) = transform_raw(input(), JAVA, plan, &never)?;
    Ok((parse_document(out, JAVA).expect("edited document reads"), counts))
}

fn shown(v: &NbtValue) -> String {
    format!("{:?}", v)
}

fn field<'a>(v: &'a NbtValue, name: &str) -> Option<&'a NbtValue> {
    match v {
        NbtValue::Compound(fields) => fields.iter().find(|(n, _)| n == name).map(|(_, v)| v),
        _ => None,
    }
}

fn replacements(id: u8, value: NbtValue) -> Vec<Result<NbtValue, String>> {
    (0u8..13).map(|k| if k == id { Ok(copy_value(&value)) } else { Err(text("not a number")) }).collect()
}

fn path(p: &str) -> Vec<PathSegment> {
    parse_path(p).expect("path parses")
}

fn input_error(r: Result<(NbtValue, Counts), EditError>) -> String {
    match r {
        Err(EditError::InvalidInput(m)) => m,
        other => panic!("expected an input error, got {:?}", other.map(|(v, _)| v)),
    }
}

#[test]
fn stream_replaces_an_exact_leaf() {
    let plan = Plan::Replace {
        selector: parse_path_selector("a").unwrap(),
        values: replacements(tag_id::INT, NbtValue::Int(5)),
    };
    let (doc, counts) = run(&plan).unwrap();
    assert_eq!(shown(field(&doc, "a").unwrap()), shown(&NbtValue::Int(5)));
    assert_eq!(counts.hits, 1);
    assert!(edit_found(&plan, &counts));
}

#[test]
fn stream_replaces_every_regex_match() {
    let plan = Plan::Replace {
        selector: parse_path_selector(r"re:^items\[\d+\]\.count$").unwrap(),
        values: replacements(tag_id::INT, NbtValue::Int(0)),
    };
    let (doc, counts) = run(&plan).unwrap();
    assert_eq!(counts.hits, 3);
    match field(&doc, "items").unwrap() {
        NbtValue::List { elements, .. } => {
            for e in elements {
                assert_eq!(shown(field(e, "count").unwrap()), shown(&NbtValue::Int(0)));
            }
        },
        _ => panic!("items stays a list"),
    }
}

#[test]
fn stream_replace_refuses_containers_and_bad_values() {
    let plan = Plan::Replace {
        selector: parse_path_selector("items").unwrap(),
        values: replacements(tag_id::INT, NbtValue::Int(0)),
    };
    assert_eq!(input_error(run(&plan)), "invalid value at path 'items': only leaf values can be modified by --set");
    let plan = Plan::Replace {
        selector: parse_path_selector("name").unwrap(),
        values: replacements(tag_id::INT, NbtValue::Int(0)),
    };
    assert_eq!(input_error(run(&plan)), "invalid value at path 'name': not a number");
}

#[test]
fn stream_replace_without_match_changes_nothing() {
    let plan = Plan::Replace {
        selector: parse_path_selector("missing").unwrap(),
        values: replacements(tag_id::INT, NbtValue::Int(0)),
    };
    let (doc, counts) = run(&plan).unwrap();
    assert_eq!(counts.hits, 0);
    assert!(!edit_found(&plan, &counts));
    assert_eq!(shown(&doc), shown(&document()));
}

#[test]
fn stream_creates_a_field_and_a_nested_list() {
    let plan = Plan::Create { segments: path("extra"), value: NbtValue::Byte(7) };
    let (doc, counts) = run(&plan).unwrap();
    assert!(counts.done);
    assert_eq!(shown(field(&doc, "extra").unwrap()), shown(&NbtValue::Byte(7)));

    let plan = Plan::Create { segments: path("n[0].x"), value: NbtValue::Int(3) };
    let (doc, _) = run(&plan).unwrap();
    let expected = NbtValue::List {
        id: tag_id::COMPOUND,
        elements: vec![NbtValue::Compound(vec![(text("x"), NbtValue::Int(3))])],
    };
    assert_eq!(shown(field(&doc, "n").unwrap()), shown(&expected));
}

#[test]
fn stream_creates_at_a_list_end() {
    let plan = Plan::Create { segments: path("tags[1]"), value: NbtValue::String(text("y")) };
    let (doc, counts) = run(&plan).unwrap();
    assert!(counts.done);
    let expected = NbtValue::List {
        id: tag_id::STRING,
        elements: vec![NbtValue::String(text("x")), NbtValue::String(text("y"))],
    };
    assert_eq!(shown(field(&doc, "tags").unwrap()), shown(&expected));
}

#[test]
fn stream_create_errors() {
    let plan = Plan::Create { segments: path("a"), value: NbtValue::Int(3) };
    assert_eq!(input_error(run(&plan)), "path already exists: a");
    let plan = Plan::Create { segments: path("tags[5]"), value: NbtValue::String(text("y")) };
    assert_eq!(input_error(run(&plan)), "cannot create sparse list index: 5");
    let plan = Plan::Create { segments: path("tags[1]"), value: NbtValue::Int(1) };
    assert_eq!(input_error(run(&plan)), "list element type mismatch, expected id 8, got 3");
    let plan = Plan::Create { segments: path("a.b"), value: NbtValue::Int(1) };
    assert_eq!(input_error(run(&plan)), "path expects compound field 'b'");
    let plan = Plan::Create { segments: path("items.b"), value: NbtValue::Int(1) };
    assert_eq!(input_error(run(&plan)), "path expects compound field 'b'");
    let plan = Plan::Create { segments: path("q[2]"), value: NbtValue::Int(1) };
    assert_eq!(input_error(run(&plan)), "cannot create sparse list index: 2");
}

#[test]
fn stream_deletes_by_path() {
    let plan = Plan::Delete { targets: vec![text("items[1]"), text("name")], lists: None };
    let (doc, counts) = run(&plan).unwrap();
    assert_eq!(counts.hits, 2);
    assert!(field(&doc, "name").is_none());
    match field(&doc, "items").unwrap() {
        NbtValue::List { elements, .. } => assert_eq!(elements.len(), 2),
        _ => panic!("items stays a list"),
    }
}

#[test]
fn stream_delete_empties_a_list_to_end_kind() {
    let plan = Plan::Delete { targets: vec![text("tags[0]")], lists: None };
    let (doc, _) = run(&plan).unwrap();
    assert_eq!(shown(field(&doc, "tags").unwrap()), shown(&NbtValue::List { id: tag_id::END, elements: vec![] }));
}

#[test]
fn stream_deletes_list_elements_by_decision() {
    let plan = Plan::Delete { targets: vec![], lists: Some(vec![text("items")]) };
    let big = |v: &NbtValue| matches!(field(v, "count"), Some(NbtValue::Int(c)) if *c > 100);
    let (out, counts) = transform_raw(input(), JAVA, &plan, &big).unwrap();
    assert_eq!(counts.deleted, 1);
    assert!(edit_found(&plan, &counts));
    let doc = parse_document(out, JAVA).unwrap();
    match field(&doc, "items").unwrap() {
        NbtValue::List { elements, .. } => {
            assert_eq!(elements.len(), 2);
            assert_eq!(shown(field(&elements[1], "count").unwrap()), shown(&NbtValue::Int(1)));
        },
        _ => panic!("items stays a list"),
    }
}

#[test]
fn stream_rejects_a_leaf_root() {
    let bytes = vec![tag_id::INT, 0, 0, 0, 0, 0, 1];
    let plan = Plan::Delete { targets: vec![], lists: None };
    match transform_raw(bytes, JAVA, &plan, &never) {
        Err(EditError::Parse(ParseError::InvalidRootTag(t))) => assert_eq!(t, tag_id::INT),
        _ => panic!("a leaf root is refused"),
    }
}

#[test]
fn stream_create_agrees_with_tree_create() {
    for (path, value) in [
        ("fresh", NbtValue::Int(5)),
        ("items[1].extra", NbtValue::Byte(2)),
        ("items[3].count", NbtValue::Int(9)),
        ("tags[1]", NbtValue::String(text("y"))),
        ("deep.er[0]", NbtValue::Long(7)),
    ] {
        let segments = parse_path(path).expect("path parses");
        let (streamed, _) = run(&Plan::Create { segments: parse_path(path).unwrap(), value: copy_value(&value) })
            .expect("stream create succeeds");
        let mut tree = document();
        nbtx::edit::create_at_path(&mut tree, &segments, value).expect("tree create succeeds");
        assert_eq!(shown(&streamed), shown(&tree), "create at {}", path);
    }
}

#[test]
fn stream_set_of_one_path_agrees_with_tree_replace() {
    for (path, id, value) in [
        ("a", tag_id::INT, NbtValue::Int(77)),
        ("items[2].count", tag_id::INT, NbtValue::Int(3)),
        ("tags[0]", tag_id::STRING, NbtValue::String(text("z"))),
    ] {
        let plan = Plan::Replace { selector: parse_path_selector(path).unwrap(), values: replacements(id, copy_value(&value)) };
        let (streamed, counts) = run(&plan).expect("stream set succeeds");
        assert_eq!(counts.hits, 1);
        let mut tree = document();
        nbtx::edit::replace_at_path(&mut tree, &parse_path(path).unwrap(), value).expect("tree set succeeds");
        assert_eq!(shown(&streamed), shown(&tree), "set at {}", path);
    }
}

#[test]
fn stream_delete_agrees_with_in_memory_delete() {
    for p in ["items[1]", "items[0].count", "tags[0]", "name"] {
        let segments = path(p);
        let plan = Plan::Delete { targets: vec![path_segments_to_string(&segments)], lists: None };
        let (streamed, counts) = run(&plan).unwrap();
        assert_eq!(counts.hits, 1);
        let mut in_memory = document();
        delete_at_path(&mut in_memory, &segments).unwrap();
        assert_eq!(shown(&streamed), shown(&in_memory));
        let written = write_document(&in_memory, JAVA).unwrap();
        let (out, _) = transform_raw(input(), JAVA, &plan, &never).unwrap();
        assert_eq!(out, written);
    }
}
