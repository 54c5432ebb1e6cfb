use num_bigint::BigInt;
use redis_parser::failure::DecodeFailure;
use redis_parser::resp3::{parse, Resp3Type, VerbatimStringFormat};
use std::str::FromStr;

#[test]
fn test_parse_blob_string() {
    assert_eq!(
        parse(&b"$5\r\n12345\r\n"[..]),
        Ok((&b""[..], Resp3Type::Blob(&b"12345"[..])))
    );
}

#[test]
fn resp3_test_parse_simple_string() {
    assert_eq!(
        parse(&b"+12345\r\n"[..]),
        Ok((&b""[..], Resp3Type::String("12345")))
    );
}

#[test]
fn resp3_test_parse_error() {
    assert_eq!(
        parse(&b"-ERROR 1234\r\n"[..]),
        Ok((&b""[..], Resp3Type::Error("ERROR 1234")))
    );
}

#[test]
fn test_parse_number() {
    assert_eq!(
        parse(&b":1234\r\n"[..]),
        Ok((&b""[..], Resp3Type::Number(1234)))
    );
}

#[test]
fn test_parse_null() {
    assert_eq!(parse(&b"_\r\n"[..]), Ok((&b""[..], Resp3Type::Null)));
}

#[test]
fn test_parse_double() {
    let decoded = parse(&b",1.234\r\n"[..]);
    assert_eq!(decoded, Ok((&b""[..], Resp3Type::Double("1.234"))));
    match decoded {
        Ok((_, Resp3Type::Double(literal))) => {
            assert_eq!(literal.parse::<f64>(), Ok(1.234f64));
        }
        other => panic!("no double: {:?}", other),
    }
}

#[test]
fn test_parse_boolean() {
    assert_eq!(
        parse(&b"#t\r\n"[..]),
        Ok((&b""[..], Resp3Type::Boolean(true)))
    );
    assert_eq!(
        parse(&b"#f\r\n"[..]),
        Ok((&b""[..], Resp3Type::Boolean(false)))
    );
}

#[test]
fn test_parse_blob_error() {
    assert_eq!(
        parse(&b"!10\r\nERROR 1234\r\n"[..]),
        Ok((
            &b""[..],
            Resp3Type::BlobError {
                code: "ERROR",
                message: "1234"
            }
        ))
    );
}

#[test]
fn test_verbatim_string() {
    assert_eq!(
        parse(&b"=8\r\ntxt:1234\r\n"[..]),
        Ok((
            &b""[..],
            Resp3Type::VerbatimString {
                format: VerbatimStringFormat::Text,
                text: "1234"
            }
        ))
    );
    assert_eq!(
        parse(&b"=8\r\nmkd:1234\r\n"[..]),
        Ok((
            &b""[..],
            Resp3Type::VerbatimString {
                format: VerbatimStringFormat::Markdown,
                text: "1234"
            }
        ))
    );
}

#[test]
fn test_parse_big_number() {
    assert_eq!(
        parse(&b"(3492890328409238509324850943850943825024385\r\n"[..]),
        Ok((
            &b""[..],
            Resp3Type::BigNumber(
                BigInt::from_str("3492890328409238509324850943850943825024385").unwrap()
            )
        ))
    );
}

#[test]
fn resp3_test_parse_array_empty() {
    assert_eq!(
        parse(&b"*0\r\n"[..]),
        Ok((&b""[..], Resp3Type::Array(vec![])))
    );
}

#[test]
fn resp3_test_parse_array_mixed_objecs() {
    assert_eq!(
        parse(&b"*3\r\n:1\r\n:2\r\n$3\r\nfoo\r\n"[..]),
        Ok((
            &b""[..],
            Resp3Type::Array(vec![
                Resp3Type::Number(1),
                Resp3Type::Number(2),
                Resp3Type::Blob(&b"foo"[..])
            ])
        ))
    );
}

#[test]
fn test_parse_map() {
    assert_eq!(parse(&b"%2\r\n"[..]), Ok((&b""[..], Resp3Type::HashMap(2))));
}

#[test]
fn test_parse_set() {
    assert_eq!(parse(&b"~2\r\n"[..]), Ok((&b""[..], Resp3Type::HashSet(2))));
}

#[test]
fn test_parse_attribute() {
    assert_eq!(
        parse(&b"|2\r\n"[..]),
        Ok((&b""[..], Resp3Type::Attribute(2)))
    );
}

#[test]
fn test_parse_push() {
    assert_eq!(
        parse(&b">2\r\n:1\r\n:2\r\n"[..]),
        Ok((
            &b""[..],
            Resp3Type::Array(vec![Resp3Type::Number(1), Resp3Type::Number(2),])
        ))
    );
}

#[test]
fn test_parse_stream_array() {
    assert_eq!(
        parse(&b"*?\r\n"[..]),
        Ok((&b""[..], Resp3Type::StreamArray))
    );
}

#[test]
fn test_parse_stream_set() {
    assert_eq!(parse(&b"~?\r\n"[..]), Ok((&b""[..], Resp3Type::StreamSet)));
}

#[test]
fn test_parse_stream_map() {
    assert_eq!(parse(&b"%?\r\n"[..]), Ok((&b""[..], Resp3Type::StreamMap)));
}

#[test]
fn test_parse_stream_end() {
    assert_eq!(parse(&b".\r\n"[..]), Ok((&b""[..], Resp3Type::StreamEnd)));
}

#[test]
fn resp3_empty_input_is_incomplete() {
    assert_eq!(parse(&b""[..]), Err(DecodeFailure::Incomplete));
}

#[test]
fn resp3_unknown_prefix_is_malformed() {
    assert_eq!(parse(&b"?what\r\n"[..]), Err(DecodeFailure::Malformed));
    assert_eq!(parse(&b"\r\n"[..]), Err(DecodeFailure::Malformed));
    assert_eq!(parse(&b"$-1\r\n"[..]), Err(DecodeFailure::Malformed));
}

#[test]
fn resp3_each_prefix_gives_its_variant() {
    assert!(matches!(parse(&b"$0\r\n\r\n"[..]), Ok((b"", Resp3Type::Blob(b"")))));
    assert!(matches!(parse(&b"+a\r\n"[..]), Ok((b"", Resp3Type::String("a")))));
    assert!(matches!(parse(&b"-a\r\n"[..]), Ok((b"", Resp3Type::Error("a")))));
    assert!(matches!(parse(&b":0\r\n"[..]), Ok((b"", Resp3Type::Number(0)))));
    assert!(matches!(parse(&b"_\r\n"[..]), Ok((b"", Resp3Type::Null))));
    assert!(matches!(parse(&b",0\r\n"[..]), Ok((b"", Resp3Type::Double("0")))));
    assert!(matches!(parse(&b"#t\r\n"[..]), Ok((b"", Resp3Type::Boolean(true)))));
    assert!(matches!(
        parse(&b"!1\r\nE\r\n"[..]),
        Ok((b"", Resp3Type::BlobError { code: "E", message: "" }))
    ));
    assert!(matches!(
        parse(&b"=4\r\ntxt:\r\n"[..]),
        Ok((b"", Resp3Type::VerbatimString { format: VerbatimStringFormat::Text, text: "" }))
    ));
    assert!(matches!(parse(&b"(0\r\n"[..]), Ok((b"", Resp3Type::BigNumber(_)))));
    assert!(matches!(parse(&b"*0\r\n"[..]), Ok((b"", Resp3Type::Array(_)))));
    assert!(matches!(parse(&b"%0\r\n"[..]), Ok((b"", Resp3Type::HashMap(0)))));
    assert!(matches!(parse(&b"~0\r\n"[..]), Ok((b"", Resp3Type::HashSet(0)))));
    assert!(matches!(parse(&b"|0\r\n"[..]), Ok((b"", Resp3Type::Attribute(0)))));
    assert!(matches!(parse(&b">0\r\n"[..]), Ok((b"", Resp3Type::Array(_)))));
    assert!(matches!(parse(&b"*?\r\n"[..]), Ok((b"", Resp3Type::StreamArray))));
    assert!(matches!(parse(&b"~?\r\n"[..]), Ok((b"", Resp3Type::StreamSet))));
    assert!(matches!(parse(&b"%?\r\n"[..]), Ok((b"", Resp3Type::StreamMap))));
    assert!(matches!(parse(&b".\r\n"[..]), Ok((b"", Resp3Type::StreamEnd))));
}

#[test]
fn resp3_markers_come_before_counts() {
    assert_eq!(
        parse(&b"*?\r\n:1\r\n"[..]),
        Ok((&b":1\r\n"[..], Resp3Type::StreamArray))
    );
    assert_eq!(parse(&b"*?"[..]), Err(DecodeFailure::Incomplete));
    assert_eq!(parse(&b"*?x"[..]), Err(DecodeFailure::Malformed));
    assert_eq!(parse(&b"~?\r"[..]), Err(DecodeFailure::Incomplete));
    assert_eq!(parse(&b"%?\n"[..]), Err(DecodeFailure::Malformed));
    assert_eq!(parse(&b"%"[..]), Err(DecodeFailure::Incomplete));
}

#[test]
fn resp3_literal_rules() {
    assert_eq!(parse(&b"_"[..]), Err(DecodeFailure::Incomplete));
    assert_eq!(parse(&b"_\r"[..]), Err(DecodeFailure::Incomplete));
    assert_eq!(parse(&b"_x"[..]), Err(DecodeFailure::Malformed));
    assert_eq!(parse(&b"#"[..]), Err(DecodeFailure::Incomplete));
    assert_eq!(parse(&b"#t"[..]), Err(DecodeFailure::Incomplete));
    assert_eq!(parse(&b"#f\r"[..]), Err(DecodeFailure::Incomplete));
    assert_eq!(parse(&b"#x\r\n"[..]), Err(DecodeFailure::Malformed));
    assert_eq!(parse(&b"#t\n"[..]), Err(DecodeFailure::Malformed));
    assert_eq!(parse(&b".x"[..]), Err(DecodeFailure::Malformed));
}

#[test]
fn resp3_map_set_and_attribute_hold_the_count_only() {
    assert_eq!(
        parse(&b"%2\r\n+a\r\n:1\r\n+b\r\n:2\r\n"[..]),
        Ok((&b"+a\r\n:1\r\n+b\r\n:2\r\n"[..], Resp3Type::HashMap(2)))
    );
    assert_eq!(
        parse(&b"~1\r\n+a\r\n"[..]),
        Ok((&b"+a\r\n"[..], Resp3Type::HashSet(1)))
    );
    assert_eq!(
        parse(&b"|1\r\n+k\r\n+v\r\n"[..]),
        Ok((&b"+k\r\n+v\r\n"[..], Resp3Type::Attribute(1)))
    );
}

#[test]
fn resp3_double_keeps_the_literal() {
    let literals = [
        "0", "10", "1.", "1.5", ".5", "-1.5", "+2", "1e5", "1E5", "11e-1", "123E-02", "1.e+3",
        "-.25e10",
    ];
    for literal in literals {
        let wire = format!(",{}\r\nrest", literal);
        assert_eq!(
            parse(wire.as_bytes()),
            Ok((&b"rest"[..], Resp3Type::Double(literal)))
        );
        assert!(literal.parse::<f64>().is_ok());
    }
    match parse(&b",123E-02\r\n"[..]) {
        Ok((_, Resp3Type::Double(literal))) => assert_eq!(literal.parse::<f64>(), Ok(1.23f64)),
        other => panic!("no double: {:?}", other),
    }
}

#[test]
fn resp3_double_must_be_a_literal() {
    let wrong = [
        "", "abc", "1.5x", "1e", "1e+", "e5", ".", "+", "-", "--1", "1..2", "1.2.3", "1e5.5",
        "1 ", " 1", "inf", "nan", "0x10",
    ];
    for text in wrong {
        let wire = format!(",{}\r\n", text);
        assert_eq!(parse(wire.as_bytes()), Err(DecodeFailure::Malformed));
    }
    assert_eq!(parse(&b",1.5"[..]), Err(DecodeFailure::Incomplete));
    assert_eq!(parse(&b",1.5\r"[..]), Err(DecodeFailure::Incomplete));
}

#[test]
fn resp3_blob_error_parts_at_the_first_space() {
    assert_eq!(
        parse(&b"!21\r\nSYNTAX invalid syntax\r\n"[..]),
        Ok((
            &b""[..],
            Resp3Type::BlobError {
                code: "SYNTAX",
                message: "invalid syntax"
            }
        ))
    );
    assert_eq!(
        parse(&b"!5\r\nERROR\r\n"[..]),
        Ok((
            &b""[..],
            Resp3Type::BlobError {
                code: "ERROR",
                message: ""
            }
        ))
    );
    assert_eq!(
        parse(&b"!2\r\n a\r\n"[..]),
        Ok((
            &b""[..],
            Resp3Type::BlobError {
                code: "",
                message: "a"
            }
        ))
    );
    assert_eq!(
        parse(&b"!2\r\na \r\n"[..]),
        Ok((
            &b""[..],
            Resp3Type::BlobError {
                code: "a",
                message: ""
            }
        ))
    );
    assert_eq!(
        parse(&b"!0\r\n\r\n"[..]),
        Ok((
            &b""[..],
            Resp3Type::BlobError {
                code: "",
                message: ""
            }
        ))
    );
    assert_eq!(
        parse("!11\r\n\u{e9}\u{e9} \u{4e16}\u{754c}\r\n".as_bytes()),
        Ok((
            &b""[..],
            Resp3Type::BlobError {
                code: "\u{e9}\u{e9}",
                message: "\u{4e16}\u{754c}"
            }
        ))
    );
}

#[test]
fn resp3_blob_error_must_be_utf8() {
    assert_eq!(parse(&b"!3\r\n\xff a\r\n"[..]), Err(DecodeFailure::Malformed));
    assert_eq!(parse(&b"!3\r\n\xff a"[..]), Err(DecodeFailure::Incomplete));
}

#[test]
fn resp3_verbatim_string_needs_a_known_format() {
    assert_eq!(parse(&b"=8\r\nabc:1234\r\n"[..]), Err(DecodeFailure::Malformed));
    assert_eq!(parse(&b"=8\r\nTXT:1234\r\n"[..]), Err(DecodeFailure::Malformed));
    assert_eq!(parse(&b"=8\r\ntxt;1234\r\n"[..]), Err(DecodeFailure::Malformed));
    assert_eq!(parse(&b"=3\r\ntxt\r\n"[..]), Err(DecodeFailure::Malformed));
    assert_eq!(parse(&b"=0\r\n\r\n"[..]), Err(DecodeFailure::Malformed));
    assert_eq!(parse(&b"=5\r\nmkd:\xff\r\n"[..]), Err(DecodeFailure::Malformed));
    assert_eq!(parse(&b"=8\r\nabc:12"[..]), Err(DecodeFailure::Incomplete));
}

#[test]
fn resp3_verbatim_string_leaves_what_follows() {
    assert_eq!(
        parse(&b"=8\r\ntxt:1234\r\n:5\r\n"[..]),
        Ok((
            &b":5\r\n"[..],
            Resp3Type::VerbatimString {
                format: VerbatimStringFormat::Text,
                text: "1234"
            }
        ))
    );
    assert_eq!(
        parse("=11\r\nmkd:# h\u{e9}\r\n\r\n".as_bytes()),
        Ok((
            &b""[..],
            Resp3Type::VerbatimString {
                format: VerbatimStringFormat::Markdown,
                text: "# h\u{e9}\r\n"
            }
        ))
    );
}

#[test]
fn resp3_big_number_is_exact() {
    let expected = BigInt::from(12345678901234567890u64) * BigInt::from(1000u32)
        + BigInt::from(123u32);
    assert_eq!(
        parse(&b"(12345678901234567890123\r\n"[..]),
        Ok((&b""[..], Resp3Type::BigNumber(expected)))
    );
    let forty_five = b"(3492890328409238509324850943850943825024385\r\n";
    match parse(&forty_five[..]) {
        Ok((_, Resp3Type::BigNumber(n))) => {
            assert_eq!(n.to_string(), "3492890328409238509324850943850943825024385");
            assert!(n > BigInt::from(u128::MAX));
        }
        other => panic!("no big number: {:?}", other),
    }
    assert_eq!(
        parse(&b"(000\r\n"[..]),
        Ok((&b""[..], Resp3Type::BigNumber(BigInt::from(0))))
    );
}

#[test]
fn resp3_big_number_is_a_digit_run() {
    assert_eq!(parse(&b"(\r\n"[..]), Err(DecodeFailure::Malformed));
    assert_eq!(parse(&b"(-12\r\n"[..]), Err(DecodeFailure::Malformed));
    assert_eq!(parse(&b"(12_3\r\n"[..]), Err(DecodeFailure::Malformed));
    assert_eq!(parse(&b"(12"[..]), Err(DecodeFailure::Incomplete));
}

#[test]
fn resp3_number_that_does_not_fit_is_malformed() {
    assert_eq!(
        parse(&b":340282366920938463463374607431768211456\r\n"[..]),
        Err(DecodeFailure::Malformed)
    );
    assert_eq!(
        parse(&b"%340282366920938463463374607431768211456\r\n"[..]),
        Err(DecodeFailure::Malformed)
    );
}

#[test]
fn resp3_push_and_array_nest() {
    assert_eq!(
        parse(&b">2\r\n*1\r\n#t\r\n>1\r\n_\r\n.\r\n"[..]),
        Ok((
            &b".\r\n"[..],
            Resp3Type::Array(vec![
                Resp3Type::Array(vec![Resp3Type::Boolean(true)]),
                Resp3Type::Array(vec![Resp3Type::Null]),
            ])
        ))
    );
    assert_eq!(parse(&b">2\r\n:1\r\n"[..]), Err(DecodeFailure::Incomplete));
    assert_eq!(parse(&b"*2\r\n:1\r\n&\r\n"[..]), Err(DecodeFailure::Malformed));
}

#[test]
fn resp3_every_strict_prefix_is_incomplete() {
    let examples: Vec<&[u8]> = vec![
        b"$5\r\n12345\r\n",
        b"+12345\r\n",
        b"-ERROR 1234\r\n",
        b":1234\r\n",
        b"_\r\n",
        b",1.234\r\n",
        b",-1.5e+10\r\n",
        b"#t\r\n",
        b"#f\r\n",
        b"!10\r\nERROR 1234\r\n",
        b"=8\r\ntxt:1234\r\n",
        b"=8\r\nmkd:1234\r\n",
        b"(3492890328409238509324850943850943825024385\r\n",
        b"*0\r\n",
        b"*3\r\n:1\r\n:2\r\n$3\r\nfoo\r\n",
        b"%2\r\n",
        b"~2\r\n",
        b"|2\r\n",
        b">2\r\n:1\r\n:2\r\n",
        b"*?\r\n",
        b"~?\r\n",
        b"%?\r\n",
        b".\r\n",
    ];
    for example in examples {
        assert!(matches!(parse(example), Ok((rest, _)) if rest.is_empty()));
        for cut in 0..example.len() {
            assert_eq!(parse(&example[..cut]), Err(DecodeFailure::Incomplete));
        }
    }
}

#[test]
fn resp3_remainder_feeds_the_next_call() {
    let buffer = &b"%1\r\n+key\r\n,2.5\r\n*?\r\n#f\r\n.\r\n=5\r\ntxt:a\r\n(99\r\n"[..];
    let mut values = Vec::new();
    let mut rest = buffer;
    let mut consumed = 0;
    while !rest.is_empty() {
        let (next, value) = parse(rest).unwrap();
        consumed += rest.len() - next.len();
        assert_eq!(next, &buffer[consumed..]);
        values.push(value);
        rest = next;
    }
    assert_eq!(consumed, buffer.len());
    assert_eq!(
        values,
        vec![
            Resp3Type::HashMap(1),
            Resp3Type::String("key"),
            Resp3Type::Double("2.5"),
            Resp3Type::StreamArray,
            Resp3Type::Boolean(false),
            Resp3Type::StreamEnd,
            Resp3Type::VerbatimString {
                format: VerbatimStringFormat::Text,
                text: "a"
            },
            Resp3Type::BigNumber(BigInt::from(99)),
        ]
    );
}
