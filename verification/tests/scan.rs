use nbtx::codec::write_document;
use nbtx::path::{path_segments_to_string, PathSegment};
use nbtx::scan::{resolve_list_targets_from_scan, scan_paths};
use nbtx::select::parse_path_selector;
use nbtx::tag_id;
use nbtx::tree::NbtValue;
use nbtx::{ParseError, PlatformType};

fn text(s: &str) -> String {
    s.to_string()
}

fn document() -> Vec<u8> {
    let value = NbtValue::Compound(vec![
        (text("a"), NbtValue::Int(1)),
        (
            text("items"),
            NbtValue::List {
                id: tag_id::COMPOUND,
                elements: vec![
                    NbtValue::Compound(vec![(text("id"), NbtValue::Int(1))]),
                    NbtValue::Compound(vec![(text("id"), NbtValue::Int(2))]),
                ],
            },
        ),
        (text("tags"), NbtValue::List { id: tag_id::STRING, elements: vec![NbtValue::String(text("x"))] }),
    ]);
    write_document(&value, PlatformType::BedrockEdition).unwrap()
}

fn rendered(paths: &[Vec<PathSegment>]) -> Vec<String> {
    paths.iter().map(|p| path_segments_to_string(p)).collect()
}

#[test]
fn scan_finds_regex_matches_and_lists() {
    let selector = parse_path_selector(r"re:^items\[\d+\]\.id$").unwrap();
    let scan = scan_paths(document(), PlatformType::BedrockEdition, &selector).unwrap();
    assert_eq!(rendered(&scan.matched_paths), vec!["items[0].id", "items[1].id"]);
    assert_eq!(scan.list_paths, vec![text("items"), text("tags")]);
    assert_eq!(resolve_list_targets_from_scan(&scan), vec![text("items")]);
}

#[test]
fn scan_exact_path_is_found_once() {
    let selector = parse_path_selector("tags[0]").unwrap();
    let scan = scan_paths(document(), PlatformType::BedrockEdition, &selector).unwrap();
    assert_eq!(rendered(&scan.matched_paths), vec!["tags[0]"]);
    assert_eq!(resolve_list_targets_from_scan(&scan), vec![text("tags")]);
    let missing = parse_path_selector("nope").unwrap();
    let scan = scan_paths(document(), PlatformType::BedrockEdition, &missing).unwrap();
    assert!(scan.matched_paths.is_empty());
    assert!(resolve_list_targets_from_scan(&scan).is_empty());
}

#[test]
fn scan_of_a_list_targets_the_list_itself() {
    let selector = parse_path_selector("items").unwrap();
    let scan = scan_paths(document(), PlatformType::BedrockEdition, &selector).unwrap();
    assert_eq!(resolve_list_targets_from_scan(&scan), vec![text("items")]);
}

#[test]
fn scan_errors() {
    let selector = parse_path_selector("a").unwrap();
    match scan_paths(vec![tag_id::INT, 0, 0, 1, 0, 0, 0], PlatformType::BedrockEdition, &selector) {
        Err(ParseError::InvalidRootTag(t)) => assert_eq!(t, tag_id::INT),
        _ => panic!("a leaf root is refused"),
    }
    let mut cut = document();
    cut.truncate(cut.len() - 3);
    assert!(matches!(scan_paths(cut, PlatformType::BedrockEdition, &selector), Err(ParseError::UnexpectedEOF)));
}
