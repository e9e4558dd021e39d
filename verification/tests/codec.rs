use nbtx::codec::{parse_document, parse_value_by_id, skip_value_by_id, write_document};
use nbtx::decoder::Decoder;
use nbtx::tag_id;
use nbtx::tree::NbtValue;
use nbtx::{ParseError, PlatformType};

fn sample() -> NbtValue {
    NbtValue::Compound(vec![
        ("name".to_string(), NbtValue::String("Steve\u{0}\u{1F600}".to_string())),
        ("score".to_string(), NbtValue::Int(-42)),
        ("big".to_string(), NbtValue::Long(1 << 40)),
        ("ratio".to_string(), NbtValue::Float(0.5f32.to_bits())),
        ("bytes".to_string(), NbtValue::ByteArray(vec![1, 2, 255])),
        (
            "items".to_string(),
            NbtValue::List {
                id: tag_id::COMPOUND,
                elements: vec![NbtValue::Compound(vec![("id".to_string(), NbtValue::Short(7))])],
            },
        ),
        ("ints".to_string(), NbtValue::IntArray(vec![1, -1])),
        ("longs".to_string(), NbtValue::LongArray(vec![i64::MIN])),
        ("empty".to_string(), NbtValue::List { id: tag_id::END, elements: vec![] }),
    ])
}

fn same(a: &NbtValue, b: &NbtValue) -> bool {
    format!("{:?}", a) == format!("{:?}", b)
}

#[test]
fn written_documents_read_back() {
    for platform in [PlatformType::JavaEdition, PlatformType::BedrockEdition] {
        let value = sample();
        let bytes = write_document(&value, platform).expect("document writes");
        let back = parse_document(bytes, platform).expect("document reads");
        assert!(same(&value, &back));
    }
}

#[test]
fn java_and_bedrock_differ_in_byte_order() {
    let value = NbtValue::Compound(vec![("a".to_string(), NbtValue::Short(1))]);
    let java = write_document(&value, PlatformType::JavaEdition).unwrap();
    let bedrock = write_document(&value, PlatformType::BedrockEdition).unwrap();
    assert_eq!(java, vec![0x0a, 0, 0, 0x02, 0, 1, b'a', 0, 1, 0]);
    assert_eq!(bedrock, vec![0x0a, 0, 0, 0x02, 1, 0, b'a', 1, 0, 0]);
}

#[test]
fn document_errors() {
    match write_document(&NbtValue::Int(1), PlatformType::JavaEdition) {
        Err(ParseError::Other(m)) => assert_eq!(m, "root tag must be compound or list"),
        _ => panic!("only containers are roots"),
    }
    let mismatched = NbtValue::List { id: tag_id::INT, elements: vec![NbtValue::Byte(1)] };
    match write_document(&mismatched, PlatformType::JavaEdition) {
        Err(ParseError::Other(m)) => assert_eq!(m, "list element type mismatch, expected id 3, got 1"),
        _ => panic!("list elements must match the list's kind"),
    }
    match parse_document(vec![0x03, 0, 0, 0, 0, 0, 1], PlatformType::JavaEdition) {
        Err(ParseError::InvalidRootTag(3)) => {},
        other => panic!("an int root is refused: {:?}", other),
    }
    match parse_document(vec![0x0a, 0, 0, 0x03, 0, 1, b'a', 0], PlatformType::JavaEdition) {
        Err(ParseError::UnexpectedEOF) => {},
        other => panic!("a cut document is refused: {:?}", other),
    }
    match parse_document(vec![0x09, 0, 0, 0x01, 0xff, 0xff, 0xff, 0xff], PlatformType::JavaEdition) {
        Err(ParseError::InvalidLength(-1)) => {},
        other => panic!("a negative list length is refused: {:?}", other),
    }
    match parse_document(vec![0x0a, 0, 0, 0x20, 0, 0], PlatformType::JavaEdition) {
        Err(ParseError::UnsupportedTagId(0x20)) => {},
        other => panic!("an unknown tag is refused: {:?}", other),
    }
}

#[test]
fn an_unknown_kind_reads_nothing() {
    for id in [0u8, 13, 200] {
        let mut d = Decoder::new(vec![1, 2, 3], PlatformType::JavaEdition);
        assert!(matches!(skip_value_by_id(&mut d, id), Err(ParseError::UnsupportedTagId(x)) if x == id));
        assert_eq!(d.remaining(), 3);
        assert!(matches!(parse_value_by_id(id, &mut d), Err(ParseError::UnsupportedTagId(x)) if x == id));
        assert_eq!(d.remaining(), 3);
    }
    let mut d = Decoder::new(vec![0, 0, 0, 7, 9], PlatformType::JavaEdition);
    skip_value_by_id(&mut d, tag_id::INT).unwrap();
    assert_eq!(d.remaining(), 1);
}

#[test]
fn java_strings_are_modified_utf8() {
    let doc = NbtValue::Compound(vec![("s".to_string(), NbtValue::String("a\0é😀".to_string()))]);
    let bytes = write_document(&doc, PlatformType::JavaEdition).unwrap();
    let text: Vec<u8> = vec![b'a', 0xC0, 0x80, 0xC3, 0xA9, 0xED, 0xA0, 0xBD, 0xED, 0xB8, 0x80];
    let mut expected = vec![tag_id::COMPOUND, 0, 0, tag_id::STRING, 0, 1, b's', 0, text.len() as u8];
    expected.extend(text);
    expected.push(tag_id::END);
    assert_eq!(bytes, expected);
    match parse_document(bytes, PlatformType::JavaEdition).unwrap() {
        NbtValue::Compound(fields) => assert!(matches!(&fields[0].1, NbtValue::String(s) if s == "a\0é😀")),
        other => panic!("unexpected {:?}", other),
    }
}
