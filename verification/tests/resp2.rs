use redis_parser::failure::DecodeFailure;
use redis_parser::resp2::{parse, Resp2Type};

#[test]
fn resp2_test_parse_simple_string() {
    assert_eq!(
        parse(&b"+OK\r\n"[..]),
        Ok((&b""[..], Resp2Type::String("OK")))
    );
}

#[test]
fn resp2_test_parse_error() {
    assert_eq!(
        parse(&b"-Error message\r\n"[..]),
        Ok((&b""[..], Resp2Type::Error("Error message")))
    );
}

#[test]
fn test_parse_integer() {
    assert_eq!(
        parse(&b":100\r\n"[..]),
        Ok((&b""[..], Resp2Type::Integer(100)))
    );
}

#[test]
fn test_parse_bulk_string() {
    assert_eq!(
        parse(&b"$10\r\n1234567890\r\n"[..]),
        Ok((&b""[..], Resp2Type::BulkString(&b"1234567890"[..])))
    );
}

#[test]
fn test_parse_null_string() {
    assert_eq!(parse(&b"$-1\r\n"[..]), Ok((&b""[..], Resp2Type::Null)));
}

#[test]
fn resp2_test_parse_array_empty() {
    assert_eq!(
        parse(&b"*0\r\n"[..]),
        Ok((&b""[..], Resp2Type::Array(vec![])))
    );
}

#[test]
fn resp2_test_parse_array_mixed_objecs() {
    assert_eq!(
        parse(&b"*3\r\n:1\r\n:2\r\n$3\r\nfoo\r\n"[..]),
        Ok((
            &b""[..],
            Resp2Type::Array(vec![
                Resp2Type::Integer(1),
                Resp2Type::Integer(2),
                Resp2Type::BulkString(&b"foo"[..])
            ])
        ))
    );
}

#[test]
fn resp2_empty_input_is_incomplete() {
    assert_eq!(parse(&b""[..]), Err(DecodeFailure::Incomplete));
}

#[test]
fn resp2_unknown_prefix_is_malformed() {
    assert_eq!(parse(&b"?what\r\n"[..]), Err(DecodeFailure::Malformed));
    assert_eq!(parse(&b"_\r\n"[..]), Err(DecodeFailure::Malformed));
    assert_eq!(parse(&b"\r\n"[..]), Err(DecodeFailure::Malformed));
}

#[test]
fn resp2_each_prefix_gives_its_variant() {
    assert!(matches!(parse(&b"+a\r\n"[..]), Ok((_, Resp2Type::String("a")))));
    assert!(matches!(parse(&b"-a\r\n"[..]), Ok((_, Resp2Type::Error("a")))));
    assert!(matches!(parse(&b":0\r\n"[..]), Ok((_, Resp2Type::Integer(0)))));
    assert!(matches!(parse(&b"$0\r\n\r\n"[..]), Ok((_, Resp2Type::BulkString(b"")))));
    assert!(matches!(parse(&b"$-1\r\n"[..]), Ok((_, Resp2Type::Null))));
    assert!(matches!(parse(&b"*0\r\n"[..]), Ok((_, Resp2Type::Array(_)))));
}

#[test]
fn resp2_null_is_no_bulk_string_of_negative_length() {
    assert_eq!(
        parse(&b"$-1\r\n+next\r\n"[..]),
        Ok((&b"+next\r\n"[..], Resp2Type::Null))
    );
    assert_eq!(parse(&b"$-2\r\n"[..]), Err(DecodeFailure::Malformed));
    assert_eq!(parse(&b"$-1\n"[..]), Err(DecodeFailure::Malformed));
    assert_eq!(parse(&b"$-"[..]), Err(DecodeFailure::Incomplete));
    assert_eq!(parse(&b"$-1\r"[..]), Err(DecodeFailure::Incomplete));
}

#[test]
fn resp2_bulk_string_may_hold_line_breaks() {
    assert_eq!(
        parse(&b"$4\r\na\r\nb\r\n"[..]),
        Ok((&b""[..], Resp2Type::BulkString(&b"a\r\nb"[..])))
    );
}

#[test]
fn resp2_bulk_string_needs_its_terminator() {
    assert_eq!(parse(&b"$3\r\nfooXY"[..]), Err(DecodeFailure::Malformed));
    assert_eq!(parse(&b"$3\r\nfoo\rX"[..]), Err(DecodeFailure::Malformed));
    assert_eq!(parse(&b"$3\r\nfoo"[..]), Err(DecodeFailure::Incomplete));
    assert_eq!(parse(&b"$3\r\nfoo\r"[..]), Err(DecodeFailure::Incomplete));
    assert_eq!(parse(&b"$3\r\nfo"[..]), Err(DecodeFailure::Incomplete));
}

#[test]
fn resp2_integer_rules() {
    assert_eq!(parse(&b":007\r\n"[..]), Ok((&b""[..], Resp2Type::Integer(7))));
    assert_eq!(parse(&b":\r\n"[..]), Err(DecodeFailure::Malformed));
    assert_eq!(parse(&b":-5\r\n"[..]), Err(DecodeFailure::Malformed));
    assert_eq!(parse(&b":12a\r\n"[..]), Err(DecodeFailure::Malformed));
    assert_eq!(parse(&b":12\n"[..]), Err(DecodeFailure::Malformed));
    assert_eq!(parse(&b":12"[..]), Err(DecodeFailure::Incomplete));
    assert_eq!(parse(&b":12\r"[..]), Err(DecodeFailure::Incomplete));
}

#[test]
fn resp2_integer_that_does_not_fit_is_malformed() {
    let max = format!(":{}\r\n", usize::MAX);
    assert_eq!(
        parse(max.as_bytes()),
        Ok((&b""[..], Resp2Type::Integer(usize::MAX)))
    );
    assert_eq!(
        parse(&b":340282366920938463463374607431768211456\r\n"[..]),
        Err(DecodeFailure::Malformed)
    );
    assert_eq!(
        parse(&b":340282366920938463463374607431768211456"[..]),
        Err(DecodeFailure::Incomplete)
    );
}

#[test]
fn resp2_text_must_be_utf8() {
    assert_eq!(
        parse("+h\u{e9}llo \u{4e16}\u{754c}\r\n".as_bytes()),
        Ok((&b""[..], Resp2Type::String("h\u{e9}llo \u{4e16}\u{754c}")))
    );
    assert_eq!(parse(&b"+\xff\xfe\r\n"[..]), Err(DecodeFailure::Malformed));
    assert_eq!(parse(&b"-\xc3\r\n"[..]), Err(DecodeFailure::Malformed));
    assert_eq!(parse(&b"+\xff\xfe"[..]), Err(DecodeFailure::Incomplete));
}

#[test]
fn resp2_line_rules() {
    assert_eq!(parse(&b"+\r\n"[..]), Err(DecodeFailure::Malformed));
    assert_eq!(parse(&b"+a\nb\r\n"[..]), Err(DecodeFailure::Malformed));
    assert_eq!(parse(&b"+a\rb\r\n"[..]), Err(DecodeFailure::Malformed));
    assert_eq!(parse(&b"+"[..]), Err(DecodeFailure::Incomplete));
    assert_eq!(parse(&b"+a"[..]), Err(DecodeFailure::Incomplete));
    assert_eq!(parse(&b"+a\r"[..]), Err(DecodeFailure::Incomplete));
}

#[test]
fn resp2_nested_arrays() {
    assert_eq!(
        parse(&b"*2\r\n*2\r\n+a\r\n*0\r\n$-1\r\ntail"[..]),
        Ok((
            &b"tail"[..],
            Resp2Type::Array(vec![
                Resp2Type::Array(vec![Resp2Type::String("a"), Resp2Type::Array(vec![])]),
                Resp2Type::Null,
            ])
        ))
    );
}

#[test]
fn resp2_array_fails_as_its_element_does() {
    assert_eq!(parse(&b"*2\r\n:1\r\n"[..]), Err(DecodeFailure::Incomplete));
    assert_eq!(parse(&b"*2\r\n:1\r\n:2"[..]), Err(DecodeFailure::Incomplete));
    assert_eq!(parse(&b"*2\r\n:1\r\n?2\r\n"[..]), Err(DecodeFailure::Malformed));
    assert_eq!(parse(&b"*1\r\n*1\r\n:x\r\n"[..]), Err(DecodeFailure::Malformed));
}

#[test]
fn resp2_huge_count_on_short_input_is_incomplete() {
    let input = format!("*{}\r\n:1\r\n", usize::MAX);
    assert_eq!(parse(input.as_bytes()), Err(DecodeFailure::Incomplete));
}

#[test]
fn resp2_every_strict_prefix_is_incomplete() {
    let examples: Vec<&[u8]> = vec![
        b"+OK\r\n",
        b"-Error message\r\n",
        b":100\r\n",
        b"$10\r\n1234567890\r\n",
        b"$-1\r\n",
        b"*0\r\n",
        b"*3\r\n:1\r\n:2\r\n$3\r\nfoo\r\n",
        b"*2\r\n*1\r\n+a\r\n$-1\r\n",
    ];
    for example in examples {
        assert!(matches!(parse(example), Ok((rest, _)) if rest.is_empty()));
        for cut in 0..example.len() {
            assert_eq!(parse(&example[..cut]), Err(DecodeFailure::Incomplete));
        }
    }
}

#[test]
fn resp2_remainder_feeds_the_next_call() {
    let buffer = &b"+OK\r\n:42\r\n$3\r\nfoo\r\n*1\r\n$-1\r\n-ERR\r\n"[..];
    let mut values = Vec::new();
    let mut rest = buffer;
    let mut consumed = 0;
    while !rest.is_empty() {
        let (next, value) = parse(rest).unwrap();
        consumed += rest.len() - next.len();
        assert_eq!(next, &buffer[consumed..]);
        values.push(value);
        rest = next;
    }
    assert_eq!(consumed, buffer.len());
    assert_eq!(
        values,
        vec![
            Resp2Type::String("OK"),
            Resp2Type::Integer(42),
            Resp2Type::BulkString(&b"foo"[..]),
            Resp2Type::Array(vec![Resp2Type::Null]),
            Resp2Type::Error("ERR"),
        ]
    );
    assert_eq!(parse(rest), Err(DecodeFailure::Incomplete));
}

#[test]
fn resp2_value_does_not_depend_on_what_follows() {
    let alone = parse(&b"*2\r\n:1\r\n+two\r\n"[..]).unwrap();
    let followed = parse(&b"*2\r\n:1\r\n+two\r\n:3\r\n"[..]).unwrap();
    assert_eq!(alone.1, followed.1);
    assert_eq!(alone.0, &b""[..]);
    assert_eq!(followed.0, &b":3\r\n"[..]);
}
