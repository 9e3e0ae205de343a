use burn::parse::literal::{parse_int, parse_string};

#[test]
fn test_parse_int() {
    assert!(parse_int("0") == Ok(0));
    assert!(parse_int("3") == Ok(3));
    assert!(parse_int("123456789") == Ok(123456789));
    assert!(parse_int("-10") == Ok(-10));
    assert!(parse_int("99999999999999999999999999999999999") == Err("Integer literal is out of range.".to_string()));
}

#[test]
fn parse_int_limits() {
    assert_eq!(parse_int("9223372036854775807"), Ok(i64::MAX));
    assert_eq!(parse_int("-9223372036854775808"), Ok(i64::MIN));
    assert!(parse_int("9223372036854775808").is_err());
    assert!(parse_int("-9223372036854775809").is_err());
}

#[test]
fn parse_int_rejects_what_is_not_a_number() {
    let error = Err("Integer literal is out of range.".to_string());
    assert_eq!(parse_int(""), error);
    assert_eq!(parse_int("-"), error);
    assert_eq!(parse_int("12a"), error);
    assert_eq!(parse_int("--1"), error);
}

#[test]
fn test_parse_string() {
    assert!(parse_string(r#""test""#) == Ok("test".to_string()));
}

#[test]
fn parse_string_escapes() {
    assert_eq!(parse_string(r#""a\nb""#), Ok("a\nb".to_string()));
    assert_eq!(parse_string(r#""a\tb""#), Ok("a\tb".to_string()));
    assert_eq!(parse_string(r#""a\\b""#), Ok("a\\b".to_string()));
    assert_eq!(parse_string(r#""a\"b""#), Ok("a\"b".to_string()));
    assert_eq!(parse_string("'it\\'s'"), Ok("it's".to_string()));
    assert_eq!(parse_string("\"héllo\""), Ok("héllo".to_string()));
}

#[test]
fn parse_string_raw() {
    assert_eq!(parse_string(r#"r"a\nb""#), Ok("a\\nb".to_string()));
    assert_eq!(parse_string(r#"r"a\"b""#), Ok("a\"b".to_string()));
}

#[test]
fn parse_string_invalid_escape() {
    assert_eq!(parse_string(r#""ab\qc""#), Err(("Invalid escape sequence".to_string(), 3)));
    assert_eq!(parse_string("\"é\\q\""), Err(("Invalid escape sequence".to_string(), 3)));
}
