use nbtx::component::NbtComponent;
use nbtx::compression::{compress, CompressionType};
use nbtx::read_path::{read_at_path, ReadOutcome};
use nbtx::reader::Reader;
use nbtx::writer::{RootType, Writer};
use nbtx::{ParseError, PlatformType};

fn document() -> Vec<u8> {
    let mut writer = Writer::new(Vec::new(), PlatformType::JavaEdition, RootType::Compound);
    writer.write("SpawnX", NbtComponent::Int(23456)).unwrap();
    writer.write("NameList", NbtComponent::List { id: 0x08, length: 3 }).unwrap();
    writer.write("", NbtComponent::String("Steve".into())).unwrap();
    writer.write("", NbtComponent::String("Alex".into())).unwrap();
    writer.write("", NbtComponent::String("Noob".into())).unwrap();
    writer.write("Empty", NbtComponent::List { id: 0x00, length: 0 }).unwrap();
    writer.write("Rank", NbtComponent::Compound).unwrap();
    writer.write("Winner", NbtComponent::String("Steve".into())).unwrap();
    writer.write("Grid", NbtComponent::List { id: 0x09, length: 1 }).unwrap();
    writer.write("", NbtComponent::List { id: 0x01, length: 2 }).unwrap();
    writer.write("", NbtComponent::Byte(4)).unwrap();
    writer.write("", NbtComponent::Byte(5)).unwrap();
    writer.end().unwrap();
    writer.write("Last", NbtComponent::Long(-1)).unwrap();
    writer.end().unwrap();
    writer.finish().unwrap();
    writer.into_bytes()
}

#[test]
fn reader_yields_flattened_paths() {
    let mut reader = Reader::try_new(document(), PlatformType::JavaEdition).expect("reader starts");
    let mut seen = Vec::new();
    while reader.has_next() {
        let (path, value) = reader.next().expect("entry reads");
        seen.push((path, value));
    }
    let expected = vec![
        ("SpawnX".to_string(), NbtComponent::Int(23456)),
        ("NameList[0]".to_string(), NbtComponent::String("Steve".into())),
        ("NameList[1]".to_string(), NbtComponent::String("Alex".into())),
        ("NameList[2]".to_string(), NbtComponent::String("Noob".into())),
        ("Rank.Winner".to_string(), NbtComponent::String("Steve".into())),
        ("Rank.Grid[0][0]".to_string(), NbtComponent::Byte(4)),
        ("Rank.Grid[0][1]".to_string(), NbtComponent::Byte(5)),
        ("Last".to_string(), NbtComponent::Long(-1)),
    ];
    assert_eq!(seen, expected);
    match reader.next() {
        Err(ParseError::UnexpectedEOF) => {},
        other => panic!("an exhausted reader reports the end: {:?}", other),
    }
}

#[test]
fn reader_errors() {
    match Reader::try_new(vec![0x03, 0, 0], PlatformType::JavaEdition) {
        Err(ParseError::InvalidRootTag(3)) => {},
        _ => panic!("an int root is refused"),
    }
    // a compound whose second field is cut short
    let bytes = vec![0x0a, 0, 0, 0x01, 0, 1, b'a', 7, 0x03, 0, 1, b'b', 0];
    let mut reader = Reader::try_new(bytes, PlatformType::JavaEdition).expect("first value reads");
    assert!(reader.has_next());
    match reader.next() {
        Err(ParseError::UnexpectedEOF) => {},
        other => panic!("the cut value is reported: {:?}", other),
    }
    assert!(!reader.has_next());
    let empty = Reader::try_new(vec![0x09, 0, 0, 0x01, 0, 0, 0, 0], PlatformType::JavaEdition).unwrap();
    assert!(!empty.has_next());
}

fn read_path(path: &str) -> ReadOutcome {
    let mut reader = Reader::try_new(document(), PlatformType::JavaEdition).expect("reader starts");
    read_at_path(&mut reader, path).expect("document reads")
}

#[test]
fn read_at_path_finds_the_exact_value() {
    match read_path("Rank.Winner") {
        ReadOutcome::Exact(c) => assert_eq!(c, NbtComponent::String("Steve".into())),
        _ => panic!("an exact value"),
    }
    match read_path("NameList[1]") {
        ReadOutcome::Exact(c) => assert_eq!(c, NbtComponent::String("Alex".into())),
        _ => panic!("an exact value"),
    }
}

#[test]
fn read_at_path_lists_the_values_below() {
    match read_path("Rank") {
        ReadOutcome::Below(found) => assert_eq!(
            found,
            vec![
                ("Rank.Winner".to_string(), NbtComponent::String("Steve".into())),
                ("Rank.Grid[0][0]".to_string(), NbtComponent::Byte(4)),
                ("Rank.Grid[0][1]".to_string(), NbtComponent::Byte(5)),
            ]
        ),
        _ => panic!("values below"),
    }
    match read_path("Rank.Grid[0]") {
        ReadOutcome::Below(found) => assert_eq!(found.len(), 2),
        _ => panic!("values below"),
    }
    assert!(matches!(read_path("Ran"), ReadOutcome::NotFound));
    assert!(matches!(read_path("Missing"), ReadOutcome::NotFound));
}

#[test]
fn reader_opens_compressed_contents() {
    for c in [CompressionType::Gzip, CompressionType::Zlib, CompressionType::Raw] {
        let stored = compress(&document(), c).expect("compresses");
        let mut reader = Reader::try_new_compressed(stored, PlatformType::JavaEdition).expect("reader starts");
        let (path, value) = reader.next().unwrap();
        assert_eq!(path, "SpawnX");
        assert_eq!(value, NbtComponent::Int(23456));
    }
    assert!(matches!(Reader::try_new_compressed(vec![0x0a], PlatformType::JavaEdition), Err(ParseError::UnexpectedEOF)));
    assert!(matches!(
        Reader::try_new_compressed(vec![0x1f, 0x8b, 0x00, 0x01], PlatformType::JavaEdition),
        Err(ParseError::Io(_))
    ));
}
