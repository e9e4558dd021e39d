use nbtx::number::{parse_number_list, parse_trimmed_int};

#[test]
fn integers_read_as_std_reads_them() {
    assert_eq!(parse_trimmed_int(" 42 ", -128, 127), Ok(42));
    assert_eq!(parse_trimmed_int("+7", -128, 127), Ok(7));
    assert_eq!(parse_trimmed_int("-128", -128, 127), Ok(-128));
    assert_eq!(parse_trimmed_int("", -128, 127), Err("cannot parse integer from empty string".to_string()));
    assert_eq!(parse_trimmed_int("-", -128, 127), Err("invalid digit found in string".to_string()));
    assert_eq!(parse_trimmed_int("1x", -128, 127), Err("invalid digit found in string".to_string()));
    assert_eq!(parse_trimmed_int("128", -128, 127), Err("number too large to fit in target type".to_string()));
    assert_eq!(parse_trimmed_int("-129", -128, 127), Err("number too small to fit in target type".to_string()));
    assert_eq!(parse_trimmed_int("-1", 0, 255), Err("invalid digit found in string".to_string()));
    assert_eq!(parse_trimmed_int("9223372036854775807", i64::MIN, i64::MAX), Ok(i64::MAX));
    assert_eq!(parse_trimmed_int("-9223372036854775808", i64::MIN, i64::MAX), Ok(i64::MIN));
    assert_eq!(
        parse_trimmed_int("9223372036854775808", i64::MIN, i64::MAX),
        Err("number too large to fit in target type".to_string())
    );
    for text in ["0", "12", "-3", "+4", " 5", "x", "", "300", "-300"] {
        let ours = parse_trimmed_int(text, i8::MIN as i64, i8::MAX as i64);
        let std = text.trim().parse::<i8>().map(|v| v as i64).map_err(|e| e.to_string());
        assert_eq!(ours, std, "{text}");
    }
}

#[test]
fn number_lists_read_with_or_without_brackets() {
    assert_eq!(parse_number_list("[1, 2,3]", 0, 255), Ok(vec![1, 2, 3]));
    assert_eq!(parse_number_list("4,5", 0, 255), Ok(vec![4, 5]));
    assert_eq!(parse_number_list(" [ ] ", 0, 255), Ok(vec![]));
    assert_eq!(parse_number_list("", 0, 255), Ok(vec![]));
    assert_eq!(parse_number_list("[1,2", 0, 255), Err("array literal is missing closing ']'".to_string()));
    assert_eq!(
        parse_number_list("[1, x]", 0, 255),
        Err("failed to parse 'x': invalid digit found in string".to_string())
    );
    assert_eq!(
        parse_number_list("1,,2", 0, 255),
        Err("failed to parse '': cannot parse integer from empty string".to_string())
    );
    assert_eq!(
        parse_number_list("[256]", 0, 255),
        Err("failed to parse '256': number too large to fit in target type".to_string())
    );
}
