use nbtx::component::NbtComponent;
use nbtx::writer::{RootType, Writer};
use nbtx::PlatformType;
use nbtx::ParseError;
use nbtx::codec::parse_document;
use nbtx::tree::NbtValue;

#[test]
fn nbt_writer() {
    let expected: &[u8] = &[
        // **HEAD**
        0x0a, 0x00, 0x00, // Int SpawnX : 23456
        0x03, 0x00, 0x06, 0x53, 0x70, 0x61, 0x77, 0x6E, 0x58, 0x00, 0x00, 0x5b, 0xa0,
        // String Name : Notch
        0x08, 0x00, 0x04, 0x4e, 0x61, 0x6d, 0x65, 0x00, 0x05, 0x4e, 0x6f, 0x74, 0x63, 0x68,
        // Float An_Example : 1.325
        0x05, 0x00, 0x0a, 0x41, 0x6E, 0x5F, 0x45, 0x78, 0x61, 0x6D, 0x70, 0x6C, 0x65, 0x3f, 0xa9,
        0x99, 0x9a, // Int_Array Chunk [ 384 , 754 ]
        0x0b, 0x00, 0x05, 0x43, 0x68, 0x75, 0x6E, 0x6B, 0x00, 0x00, 0x00, 0x02, 0x00, 0x00, 0x01,
        0x80, 0x00, 0x00, 0x02, 0xf2, // List NameList [Steve, Alex, Noob]
        0x09, 0x00, 0x08, 0x4e, 0x61, 0x6d, 0x65, 0x4c, 0x69, 0x73, 0x74, 0x08, 0x00, 0x00, 0x00,
        0x03, 0x00, 0x05, 0x53, 0x74, 0x65, 0x76, 0x65, 0x00, 0x04, 0x41, 0x6c, 0x65, 0x78, 0x00,
        0x04, 0x4e, 0x6f, 0x6f, 0x62, // Compound **HEAD**  Rank
        0x0a, 0x00, 0x04, 0x52, 0x61, 0x6E, 0x6B, // String Winner : Steve
        0x08, 0x00, 0x06, 0x57, 0x69, 0x6E, 0x6E, 0x65, 0x72, 0x00, 0x05, 0x53, 0x74, 0x65, 0x76,
        0x65, // Short Count : 31
        0x02, 0x00, 0x05, 0x43, 0x6F, 0x75, 0x6E, 0x74, 0x00, 0x1f, // **END**
        0x00, // **END
        0x00,
    ];

    let mut writer = Writer::new(Vec::new(), PlatformType::JavaEdition, RootType::Compound);

    writer
        .write("SpawnX", NbtComponent::Int(23456))
        .expect("failed to write SpawnX");
    writer
        .write("Name", NbtComponent::String("Notch".into()))
        .expect("failed to write Name");
    writer
        .write("An_Example", NbtComponent::Float(1.325f32.to_bits()))
        .expect("failed to write An_Example");
    writer
        .write("Chunk", NbtComponent::IntArray(vec![384, 754]))
        .expect("failed to write Chunk");

    writer
        .write(
            "NameList",
            NbtComponent::List {
                id: 0x08,
                length: 3,
            },
        )
        .expect("failed to start NameList");
    writer
        .write("", NbtComponent::String("Steve".into()))
        .expect("failed to write NameList[0]");
    writer
        .write("", NbtComponent::String("Alex".into()))
        .expect("failed to write NameList[1]");
    writer
        .write("", NbtComponent::String("Noob".into()))
        .expect("failed to write NameList[2]");

    writer
        .write("Rank", NbtComponent::Compound)
        .expect("failed to start Rank");
    writer
        .write("Winner", NbtComponent::String("Steve".into()))
        .expect("failed to write Rank.Winner");
    writer
        .write("Count", NbtComponent::Short(31))
        .expect("failed to write Rank.Count");
    writer.end().expect("failed to end Rank");
    writer.end().expect("failed to end root");
    writer.finish().expect("failed to finish writer");

    let actual = writer.into_bytes();
    assert_eq!(actual, expected.to_vec());
}

fn message(result: Result<(), ParseError>) -> String {
    match result {
        Err(ParseError::Other(m)) => m,
        other => panic!("expected a message error, got {:?}", other),
    }
}

#[test]
fn writer_rejects_wrong_list_use() {
    let mut writer = Writer::new(Vec::new(), PlatformType::JavaEdition, RootType::Compound);
    writer
        .write("xs", NbtComponent::List { id: 0x03, length: 1 })
        .expect("list starts");
    assert_eq!(
        message(writer.write("named", NbtComponent::Int(1))),
        "list elements cannot have tags"
    );
    assert_eq!(
        message(writer.write("", NbtComponent::Short(1))),
        "list element type mismatch, expected id 3, got 2"
    );
    assert_eq!(
        message(writer.write("", NbtComponent::End)),
        "TAG_End cannot be written as a value"
    );
    writer.write("", NbtComponent::Int(7)).expect("element fits");
    // the list is complete, so the next value goes to the root compound
    writer.write("after", NbtComponent::Byte(1)).expect("back in the compound");
    assert!(!writer.is_finished());
    assert_eq!(
        message(writer.finish()),
        "unfinished nbt document: open containers remain"
    );
    writer.end().expect("root ends");
    assert!(writer.is_finished());
    assert_eq!(message(writer.end()), "writer is already finished");
    assert_eq!(
        message(writer.write("late", NbtComponent::Int(1))),
        "writer is already finished"
    );
}

#[test]
fn writer_list_root_and_manual_end() {
    match Writer::try_new(Vec::new(), PlatformType::BedrockEdition, RootType::List { id: 0x01, length: -1 }) {
        Err(ParseError::InvalidLength(n)) => assert_eq!(n, -1),
        _ => panic!("a negative root length is refused"),
    }
    let mut empty = Writer::new(Vec::new(), PlatformType::BedrockEdition, RootType::List { id: 0x01, length: 0 });
    assert!(empty.is_finished());
    assert!(empty.finish().is_ok());
    assert_eq!(empty.into_bytes(), vec![0x09, 0x00, 0x00, 0x01, 0x00, 0x00, 0x00, 0x00]);

    let mut writer = Writer::new(Vec::new(), PlatformType::BedrockEdition, RootType::List { id: 0x0a, length: 1 });
    writer.write("", NbtComponent::Compound).expect("element compound");
    writer.write("", NbtComponent::List { id: 0x01, length: 2 }).expect("inner list");
    assert_eq!(message(writer.end()), "cannot manually end a list scope");
    // the inner list was closed by the failed end; the compound is next
    writer.end().expect("compound ends");
    assert!(writer.is_finished());
    assert_eq!(
        writer.into_bytes(),
        vec![0x09, 0x00, 0x00, 0x0a, 0x01, 0x00, 0x00, 0x00, 0x09, 0x00, 0x00, 0x01, 0x02, 0x00, 0x00, 0x00, 0x00]
    );
}

#[test]
fn finished_writer_output_reads_back() {
    let mut writer = Writer::new(Vec::new(), PlatformType::JavaEdition, RootType::Compound);
    writer.write("Level", NbtComponent::Int(7)).expect("Level");
    writer.write("Items", NbtComponent::List { id: 0x0a, length: 2 }).expect("Items");
    writer.write("", NbtComponent::Compound).expect("Items[0]");
    writer.write("Count", NbtComponent::Byte(3)).expect("Items[0].Count");
    writer.end().expect("end Items[0]");
    writer.write("", NbtComponent::Compound).expect("Items[1]");
    writer.end().expect("end Items[1]");
    writer.write("Empty", NbtComponent::List { id: 0x08, length: 0 }).expect("Empty");
    writer.end().expect("end root");
    assert!(writer.is_finished());
    assert!(writer.finish().is_ok());

    let bytes = writer.into_bytes();
    match parse_document(bytes, PlatformType::JavaEdition).expect("the written document reads back") {
        NbtValue::Compound(fields) => {
            assert_eq!(fields.len(), 3);
            assert_eq!(fields[0].0, "Level");
            assert!(matches!(fields[0].1, NbtValue::Int(7)));
            assert_eq!(fields[1].0, "Items");
            match &fields[1].1 {
                NbtValue::List { id, elements } => {
                    assert_eq!(*id, 0x0a);
                    assert_eq!(elements.len(), 2);
                    match &elements[0] {
                        NbtValue::Compound(inner) => {
                            assert_eq!(inner.len(), 1);
                            assert_eq!(inner[0].0, "Count");
                            assert!(matches!(inner[0].1, NbtValue::Byte(3)));
                        },
                        other => panic!("unexpected element {:?}", other),
                    }
                    assert!(matches!(&elements[1], NbtValue::Compound(inner) if inner.is_empty()));
                },
                other => panic!("unexpected Items {:?}", other),
            }
            assert_eq!(fields[2].0, "Empty");
            assert!(matches!(&fields[2].1, NbtValue::List { id: 0x08, elements } if elements.is_empty()));
        },
        other => panic!("unexpected root {:?}", other),
    }
}
