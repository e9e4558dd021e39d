use nbtx::codec::{parse_document, write_document};
use nbtx::component::NbtComponent;
use nbtx::editor::{parse_path, update_document};
use nbtx::path::PathSegment;
use nbtx::tree::NbtValue;
use nbtx::{ParseError, PlatformType};

#[test]
fn editor_paths() {
    assert_eq!(
        parse_path("  a.b[1][2].c ").unwrap(),
        vec![
            PathSegment::Field("a".to_string()),
            PathSegment::Field("b".to_string()),
            PathSegment::Index(1),
            PathSegment::Index(2),
            PathSegment::Field("c".to_string()),
        ]
    );
    assert_eq!(parse_path("   ").unwrap(), Vec::<PathSegment>::new());
    assert_eq!(parse_path("a..b").unwrap_err(), "invalid path segment in 'a..b'");
    assert_eq!(parse_path("a[1]x").unwrap_err(), "invalid path segment in 'a[1]x'");
    assert_eq!(parse_path("a[x]").unwrap_err(), "invalid list index 'x'");
}

#[test]
fn update_replaces_one_value() {
    let doc = NbtValue::Compound(vec![
        ("a".to_string(), NbtValue::List { id: 0x03, elements: vec![NbtValue::Int(1), NbtValue::Int(2)] }),
        ("b".to_string(), NbtValue::String("x".to_string())),
    ]);
    let bytes = write_document(&doc, PlatformType::JavaEdition).unwrap();
    let out = update_document(bytes.clone(), "a[1]", NbtComponent::Int(9), PlatformType::JavaEdition).unwrap();
    let back = parse_document(out, PlatformType::JavaEdition).unwrap();
    let expected = NbtValue::Compound(vec![
        ("a".to_string(), NbtValue::List { id: 0x03, elements: vec![NbtValue::Int(1), NbtValue::Int(9)] }),
        ("b".to_string(), NbtValue::String("x".to_string())),
    ]);
    assert_eq!(format!("{:?}", back), format!("{:?}", expected));
    match update_document(bytes.clone(), "a[5]", NbtComponent::Int(9), PlatformType::JavaEdition) {
        Err(ParseError::Other(m)) => assert_eq!(m, "path not found: index out of range [5]"),
        _ => panic!("a missing element is reported"),
    }
    match update_document(bytes.clone(), "b.c", NbtComponent::Int(9), PlatformType::JavaEdition) {
        Err(ParseError::Other(m)) => assert_eq!(m, "cannot write field 'c' on non-compound node"),
        _ => panic!("a field under a string is refused"),
    }
    match update_document(bytes.clone(), "b", NbtComponent::Compound, PlatformType::JavaEdition) {
        Err(ParseError::Other(m)) => assert_eq!(m, "updating path only supports non-container values"),
        _ => panic!("containers are refused"),
    }
    match update_document(bytes, "", NbtComponent::Int(1), PlatformType::JavaEdition) {
        Err(ParseError::Other(m)) => assert_eq!(m, "path cannot be empty"),
        _ => panic!("the empty path is refused"),
    }
}
