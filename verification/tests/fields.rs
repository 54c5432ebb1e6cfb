use redis_parser::failure::DecodeFailure;
use redis_parser::number::{check_float_literal, decimal_to_usize};
use redis_parser::text::{as_text, split_at_space};
use redis_parser::utils::{
    parse_bytes_with_length, parse_double_with_prefix, parse_field, parse_integer_with_prefix,
    parse_literal, parse_sized, parse_str_with_length, parse_str_with_prefix, Content,
};

#[test]
fn field_reads_a_digit_run() {
    assert_eq!(
        parse_field(&b":100\r\nrest"[..], ':', Content::Digits),
        Ok((&b"rest"[..], &b"100"[..]))
    );
    assert_eq!(
        parse_field(&b":100"[..], ':', Content::Digits),
        Err(DecodeFailure::Incomplete)
    );
    assert_eq!(
        parse_field(&b":1x0\r\n"[..], ':', Content::Digits),
        Err(DecodeFailure::Malformed)
    );
}

#[test]
fn field_reads_a_line() {
    assert_eq!(
        parse_field(&b"+a b:c\r\n+d\r\n"[..], '+', Content::Line),
        Ok((&b"+d\r\n"[..], &b"a b:c"[..]))
    );
    assert_eq!(
        parse_field(&b"+\r\n"[..], '+', Content::Line),
        Err(DecodeFailure::Malformed)
    );
    assert_eq!(
        parse_field(&b""[..], '+', Content::Line),
        Err(DecodeFailure::Incomplete)
    );
}

#[test]
fn field_prefix_is_one_byte() {
    assert_eq!(
        parse_field(&b"-x\r\n"[..], '+', Content::Line),
        Err(DecodeFailure::Malformed)
    );
    assert_eq!(
        parse_field("\u{4e16}x\r\n".as_bytes(), '\u{4e16}', Content::Line),
        Err(DecodeFailure::Malformed)
    );
}

#[test]
fn str_with_prefix() {
    assert_eq!(
        parse_str_with_prefix(&b"+hello world\r\nmore"[..], '+'),
        Ok((&b"more"[..], "hello world"))
    );
    assert_eq!(
        parse_str_with_prefix(&b"+hello"[..], '+'),
        Err(DecodeFailure::Incomplete)
    );
    assert_eq!(
        parse_str_with_prefix(&b"-hello\r\n"[..], '+'),
        Err(DecodeFailure::Malformed)
    );
    assert_eq!(
        parse_str_with_prefix(&b"+\xf0\x28\x8c\x28\r\n"[..], '+'),
        Err(DecodeFailure::Malformed)
    );
}

#[test]
fn integer_with_prefix() {
    assert_eq!(
        parse_integer_with_prefix(&b"*12\r\n:1\r\n"[..], '*'),
        Ok((&b":1\r\n"[..], 12))
    );
    assert_eq!(
        parse_integer_with_prefix(&b"*0012\r\n"[..], '*'),
        Ok((&b""[..], 12))
    );
    assert_eq!(
        parse_integer_with_prefix(&b"*+12\r\n"[..], '*'),
        Err(DecodeFailure::Malformed)
    );
    assert_eq!(
        parse_integer_with_prefix(&b"*12"[..], '*'),
        Err(DecodeFailure::Incomplete)
    );
}

#[test]
fn double_with_prefix() {
    assert_eq!(
        parse_double_with_prefix(&b",-12.5e3\r\n"[..], ','),
        Ok((&b""[..], "-12.5e3"))
    );
    assert_eq!(
        parse_double_with_prefix(&b",12.5.1\r\n"[..], ','),
        Err(DecodeFailure::Malformed)
    );
    assert_eq!(
        parse_double_with_prefix(&b",12.5"[..], ','),
        Err(DecodeFailure::Incomplete)
    );
}

#[test]
fn bytes_with_length() {
    assert_eq!(
        parse_bytes_with_length(&b"abc\r\ndef"[..], 3),
        Ok((&b"def"[..], &b"abc"[..]))
    );
    assert_eq!(
        parse_bytes_with_length(&b"\r\n"[..], 0),
        Ok((&b""[..], &b""[..]))
    );
    assert_eq!(
        parse_bytes_with_length(&b"abc\r"[..], 3),
        Err(DecodeFailure::Incomplete)
    );
    assert_eq!(
        parse_bytes_with_length(&b"abcd"[..], 3),
        Err(DecodeFailure::Incomplete)
    );
    assert_eq!(
        parse_bytes_with_length(&b"abcde"[..], 3),
        Err(DecodeFailure::Malformed)
    );
    assert_eq!(
        parse_bytes_with_length(&b"abc\r\n"[..], usize::MAX),
        Err(DecodeFailure::Incomplete)
    );
}

#[test]
fn str_with_length() {
    assert_eq!(
        parse_str_with_length(&b"a c\r\n"[..], 3),
        Ok((&b""[..], "a c"))
    );
    assert_eq!(
        parse_str_with_length(&b"\xff\xff\xff\r\n"[..], 3),
        Err(DecodeFailure::Malformed)
    );
    assert_eq!(
        parse_str_with_length(&b"a c"[..], 3),
        Err(DecodeFailure::Incomplete)
    );
}

#[test]
fn sized() {
    assert_eq!(
        parse_sized(&b"$3\r\nabc\r\n+x\r\n"[..], '$'),
        Ok((&b"+x\r\n"[..], &b"abc"[..]))
    );
    assert_eq!(
        parse_sized(&b"$3\r\nab"[..], '$'),
        Err(DecodeFailure::Incomplete)
    );
    assert_eq!(
        parse_sized(&b"$x\r\nab"[..], '$'),
        Err(DecodeFailure::Malformed)
    );
}

#[test]
fn literal() {
    assert_eq!(
        parse_literal(&b"$-1\r\nrest"[..], "$-1\r\n"),
        Ok((&b"rest"[..], ()))
    );
    assert_eq!(
        parse_literal(&b"$-"[..], "$-1\r\n"),
        Err(DecodeFailure::Incomplete)
    );
    assert_eq!(
        parse_literal(&b""[..], "$-1\r\n"),
        Err(DecodeFailure::Incomplete)
    );
    assert_eq!(
        parse_literal(&b"$1"[..], "$-1\r\n"),
        Err(DecodeFailure::Malformed)
    );
    assert_eq!(parse_literal(&b"abc"[..], ""), Ok((&b"abc"[..], ())));
}

#[test]
fn decimal_digits_to_usize() {
    assert_eq!(decimal_to_usize(b""), None);
    assert_eq!(decimal_to_usize(b"12a"), None);
    assert_eq!(decimal_to_usize(b"+12"), None);
    assert_eq!(decimal_to_usize(b"0"), Some(0));
    assert_eq!(decimal_to_usize(b"65535"), Some(65535));
    assert_eq!(decimal_to_usize(b"0000000000000000000000000000042"), Some(42));
    let max = usize::MAX.to_string();
    assert_eq!(decimal_to_usize(max.as_bytes()), Some(usize::MAX));
    let beyond = format!("{}0", max);
    assert_eq!(decimal_to_usize(beyond.as_bytes()), None);
    assert_eq!(
        decimal_to_usize(b"340282366920938463463374607431768211456"),
        None
    );
}

#[test]
fn float_literals() {
    assert!(check_float_literal(b"1"));
    assert!(check_float_literal(b"-1.25"));
    assert!(check_float_literal(b"+.5E-7"));
    assert!(check_float_literal(b"3.e2"));
    assert!(!check_float_literal(b""));
    assert!(!check_float_literal(b"."));
    assert!(!check_float_literal(b"1e"));
    assert!(!check_float_literal(b"1e5x"));
    assert!(!check_float_literal(b"e5"));
    assert!(!check_float_literal(b"1,5"));
}

#[test]
fn text_of_bytes() {
    assert_eq!(as_text(b"plain"), Some("plain"));
    assert_eq!(as_text("\u{20ac}".as_bytes()), Some("\u{20ac}"));
    assert_eq!(as_text(b""), Some(""));
    assert_eq!(as_text(b"\xe2\x82"), None);
    assert_eq!(as_text(b"\xed\xa0\x80"), None);
}

#[test]
fn parting_at_the_first_space() {
    assert_eq!(split_at_space("ERR wrong number"), ("ERR", "wrong number"));
    assert_eq!(split_at_space("ERR"), ("ERR", ""));
    assert_eq!(split_at_space(""), ("", ""));
    assert_eq!(split_at_space(" "), ("", ""));
    assert_eq!(split_at_space("a  b"), ("a", " b"));
    assert_eq!(split_at_space("\u{e9}t\u{e9} \u{e0}"), ("\u{e9}t\u{e9}", "\u{e0}"));
}
