use nbtx::ParseError;
use nbtx::compression::{compress, decompress, detect_compression, open_bytes, estimate_full_tree_working_set, is_gzip_magic, is_zlib_magic, CompressionType};
use nbtx::editions::{BedrockNbtDecoder, JavaNbtEncoder};

#[test]
fn compression_magic() {
    assert!(is_gzip_magic([0x1f, 0x8b]));
    assert!(!is_gzip_magic([0x78, 0x9c]));
    assert!(is_zlib_magic([0x78, 0x01]));
    assert!(is_zlib_magic([0x78, 0xda]));
    assert!(!is_zlib_magic([0x78, 0x00]));
    assert_eq!(detect_compression([0x1f, 0x8b]), CompressionType::Gzip);
    assert_eq!(detect_compression([0x78, 0x9c]), CompressionType::Zlib);
    assert_eq!(detect_compression([0x0a, 0x00]), CompressionType::Raw);
}

#[test]
fn working_set_estimate() {
    assert_eq!(estimate_full_tree_working_set(1000, CompressionType::Raw), 4000 + 64 * 1024 * 1024);
    assert_eq!(estimate_full_tree_working_set(1000, CompressionType::Gzip), 10000 + 64 * 1024 * 1024);
    assert_eq!(estimate_full_tree_working_set(u64::MAX / 2, CompressionType::Zlib), u64::MAX);
}

#[test]
fn edition_wrappers() {
    let mut decoder = BedrockNbtDecoder::new(vec![0x01, 0x00]).into_decoder();
    assert_eq!(decoder.read_short().unwrap(), 1);
    let mut encoder = JavaNbtEncoder::new(Vec::new()).into_encoder();
    encoder.write_short(1).unwrap();
    assert_eq!(encoder.into_bytes(), vec![0x00, 0x01]);
}

#[test]
fn parse_errors_display_their_messages() {
    assert_eq!(ParseError::UnexpectedEOF.to_string(), "unexpected end of nbt stream");
    assert_eq!(ParseError::Decode("bad".to_string()).to_string(), "decode error: bad");
    assert_eq!(ParseError::UnsupportedTagId(13).to_string(), "unsupported tag id: 13");
    assert_eq!(ParseError::InvalidLength(-5).to_string(), "invalid nbt length: -5");
    assert_eq!(ParseError::InvalidRootTag(3).to_string(), "root tag must be list(0x09) or compound(0x0a), got: 3");
    assert_eq!(ParseError::Other("x".to_string()).to_string(), "x");
    let io = ParseError::Io(std::io::Error::other("disk"));
    assert_eq!(io.to_string(), "io error: disk");
}

#[test]
fn compression_round_trips() {
    let data: Vec<u8> = (0..200u32).map(|i| (i * 7 % 251) as u8).collect();
    let gz = compress(&data, CompressionType::Gzip).unwrap();
    assert_eq!(&gz[..2], &[0x1f, 0x8b]);
    let mut plain = Vec::new();
    std::io::Read::read_to_end(&mut flate2::read::GzDecoder::new(&gz[..]), &mut plain).unwrap();
    assert_eq!(plain, data);
    assert_eq!(open_bytes(&gz).unwrap(), (CompressionType::Gzip, data.clone()));

    let z = compress(&data, CompressionType::Zlib).unwrap();
    assert_eq!(z[0], 0x78);
    assert_eq!(open_bytes(&z).unwrap(), (CompressionType::Zlib, data.clone()));
    assert_eq!(decompress(&z, CompressionType::Zlib).unwrap(), data);

    assert_eq!(compress(&data, CompressionType::Raw).unwrap(), data);
    let raw = vec![0x0a, 0x00, 0x00, 0x00];
    assert_eq!(open_bytes(&raw).unwrap(), (CompressionType::Raw, raw.clone()));
    assert!(matches!(open_bytes(&[0x0a]), Err(ParseError::UnexpectedEOF)));
    assert!(matches!(open_bytes(&[0x1f, 0x8b, 0x00]), Err(ParseError::Io(_))));
    assert!(matches!(decompress(&[0x78, 0x9c, 0x01], CompressionType::Zlib), Err(ParseError::Io(_))));
}
