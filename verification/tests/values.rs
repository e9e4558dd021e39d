use nbtx::tag_id;
use nbtx::tree::NbtValue;
use nbtx::value_text::{parse_set_value_for_id, parse_value_for_create, parse_value_like};

fn read_f32(text: &str) -> Result<u32, String> {
    text.parse::<f32>().map(f32::to_bits).map_err(|err| err.to_string())
}

fn read_f64(text: &str) -> Result<u64, String> {
    text.parse::<f64>().map(f64::to_bits).map_err(|err| err.to_string())
}

fn create(raw: &str) -> Result<String, String> {
    parse_value_for_create(raw, &read_f32, &read_f64).map(|v| format!("{:?}", v))
}

fn shown(v: NbtValue) -> Result<String, String> {
    Ok(format!("{:?}", v))
}

#[test]
fn create_reads_kind_prefixed_values() {
    assert_eq!(create("int:123"), shown(NbtValue::Int(123)));
    assert_eq!(create("  Byte : 5 "), shown(NbtValue::Byte(5)));
    assert_eq!(create("SHORT:-7"), shown(NbtValue::Short(-7)));
    assert_eq!(create("long:5000000000"), shown(NbtValue::Long(5_000_000_000)));
    assert_eq!(create("float:1.5"), shown(NbtValue::Float(1.5f32.to_bits())));
    assert_eq!(create("double:-0.25"), shown(NbtValue::Double((-0.25f64).to_bits())));
    assert_eq!(create("string:  hi there "), shown(NbtValue::String("hi there".to_string())));
    assert_eq!(create("bytes:[1, 2, 255]"), shown(NbtValue::ByteArray(vec![1, 2, 255])));
    assert_eq!(create("ints:[-1,2]"), shown(NbtValue::IntArray(vec![-1, 2])));
    assert_eq!(create("longs:"), shown(NbtValue::LongArray(vec![])));
    assert_eq!(create("string:a:b"), shown(NbtValue::String("a:b".to_string())));
}

#[test]
fn create_reports_bad_kinds_and_values() {
    assert_eq!(
        create("foo:1"),
        Err("unsupported create type 'foo', expected one of: byte, short, int, long, float, double, string, bytes, ints, longs".to_string())
    );
    assert_eq!(create("byte:300"), Err("invalid byte: number too large to fit in target type".to_string()));
    assert_eq!(create("int:x"), Err("invalid int: invalid digit found in string".to_string()));
    assert_eq!(create("float:abc"), Err("invalid float: invalid float literal".to_string()));
    assert_eq!(create("bytes:[1,2"), Err("array literal is missing closing ']'".to_string()));
    assert_eq!(create("bytes:1,x"), Err("failed to parse 'x': invalid digit found in string".to_string()));
}

#[test]
fn create_infers_int_long_double_or_string() {
    assert_eq!(create(" 123 "), shown(NbtValue::Int(123)));
    assert_eq!(create("5000000000"), shown(NbtValue::Long(5_000_000_000)));
    assert_eq!(create("1.5"), shown(NbtValue::Double(1.5f64.to_bits())));
    assert_eq!(create(" hello world "), shown(NbtValue::String("hello world".to_string())));
}

#[test]
fn set_reads_the_kind_of_the_target() {
    let set = |id: u8, raw: &str| parse_set_value_for_id(id, raw, &read_f32, &read_f64).map(|v| format!("{:?}", v));
    assert_eq!(set(tag_id::INT, " 42 "), shown(NbtValue::Int(42)));
    assert_eq!(set(tag_id::FLOAT, "2.5"), shown(NbtValue::Float(2.5f32.to_bits())));
    assert_eq!(set(tag_id::STRING, " a "), shown(NbtValue::String(" a ".to_string())));
    assert_eq!(set(tag_id::SHORT, "40000"), Err("invalid short: number too large to fit in target type".to_string()));
    assert_eq!(set(tag_id::LIST, "1"), Err("only leaf values can be modified by --set".to_string()));
    assert_eq!(set(tag_id::COMPOUND, "1"), Err("only leaf values can be modified by --set".to_string()));
    assert_eq!(set(13, "1"), Err("unsupported tag id: 13".to_string()));
    assert_eq!(set(tag_id::END, "1"), Err("unsupported tag id: 0".to_string()));
    let like = parse_value_like(&NbtValue::Double(0), "2.5", &read_f32, &read_f64).map(|v| format!("{:?}", v));
    assert_eq!(like, shown(NbtValue::Double(2.5f64.to_bits())));
    let like = parse_value_like(&NbtValue::Double(0), "x", &read_f32, &read_f64).map(|v| format!("{:?}", v));
    assert_eq!(like, Err("invalid double: invalid float literal".to_string()));
}
