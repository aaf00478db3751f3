use resp_decoder::{parse_redis_value, ErrorKind, ParseFault, RedisError, Value};

fn text(s: &str) -> Value {
    Value::SimpleString(s.to_string())
}

fn bulk(s: &[u8]) -> Value {
    Value::BulkString(s.to_vec())
}

#[test]
fn nil_from_negative_bulk_length() {
    assert_eq!(parse_redis_value(b"$-1\r\n"), Ok(Value::Nil));
}

#[test]
fn nil_from_negative_array_count() {
    assert_eq!(parse_redis_value(b"*-1\r\n"), Ok(Value::Nil));
}

#[test]
fn nil_from_any_negative_length() {
    assert_eq!(parse_redis_value(b"$-5\r\n"), Ok(Value::Nil));
    assert_eq!(parse_redis_value(b"*-9223372036854775808\r\n"), Ok(Value::Nil));
}

#[test]
fn empty_array() {
    assert_eq!(parse_redis_value(b"*0\r\n"), Ok(Value::Array(vec![])));
}

#[test]
fn empty_bulk_string() {
    assert_eq!(parse_redis_value(b"$0\r\n\r\n"), Ok(bulk(b"")));
}

#[test]
fn array_of_two_bulk_strings() {
    assert_eq!(
        parse_redis_value(b"*2\r\n$3\r\nfoo\r\n$3\r\nbar\r\n"),
        Ok(Value::Array(vec![bulk(b"foo"), bulk(b"bar")]))
    );
}

#[test]
fn status_ok_is_okay() {
    assert_eq!(parse_redis_value(b"+OK\r\n"), Ok(Value::Okay));
}

#[test]
fn status_other_is_simple_string() {
    assert_eq!(parse_redis_value(b"+PONG\r\n"), Ok(text("PONG")));
    assert_eq!(parse_redis_value(b"+GET 123\r\n"), Ok(text("GET 123")));
    assert_eq!(parse_redis_value(b"+ok\r\n"), Ok(text("ok")));
    assert_eq!(parse_redis_value(b"+OK \r\n"), Ok(text("OK ")));
    assert_eq!(parse_redis_value(b"+\r\n"), Ok(text("")));
}

#[test]
fn status_line_may_hold_a_lone_carriage_return() {
    assert_eq!(parse_redis_value(b"+a\rb\r\n"), Ok(text("a\rb")));
}

#[test]
fn status_line_with_text_of_several_bytes() {
    assert_eq!(
        parse_redis_value("+h\u{e9}llo \u{4e16}\u{754c}\r\n".as_bytes()),
        Ok(text("h\u{e9}llo \u{4e16}\u{754c}"))
    );
}

#[test]
fn integer_reply() {
    assert_eq!(parse_redis_value(b":1000\r\n"), Ok(Value::Integer(1000)));
    assert_eq!(parse_redis_value(b":-42\r\n"), Ok(Value::Integer(-42)));
    assert_eq!(parse_redis_value(b":+7\r\n"), Ok(Value::Integer(7)));
    assert_eq!(parse_redis_value(b":0\r\n"), Ok(Value::Integer(0)));
    assert_eq!(parse_redis_value(b":-0\r\n"), Ok(Value::Integer(0)));
    assert_eq!(parse_redis_value(b":007\r\n"), Ok(Value::Integer(7)));
}

#[test]
fn integer_reply_at_the_limits() {
    assert_eq!(
        parse_redis_value(b":9223372036854775807\r\n"),
        Ok(Value::Integer(i64::MAX))
    );
    assert_eq!(
        parse_redis_value(b":-9223372036854775808\r\n"),
        Ok(Value::Integer(i64::MIN))
    );
    assert_eq!(
        parse_redis_value(b":00000000000000000000000000009223372036854775807\r\n"),
        Ok(Value::Integer(i64::MAX))
    );
}

#[test]
fn integer_reply_is_trimmed() {
    assert_eq!(parse_redis_value(b":  12\t\r\n"), Ok(Value::Integer(12)));
    assert_eq!(
        parse_redis_value(":\u{a0}12\u{2003}\u{3000}\r\n".as_bytes()),
        Ok(Value::Integer(12))
    );
    assert_eq!(parse_redis_value(b"$ 3 \r\nfoo\r\n"), Ok(bulk(b"foo")));
}

fn garbage() -> Result<Value, RedisError> {
    Err(RedisError::protocol(ParseFault::ExpectedInteger))
}

#[test]
fn integer_garbage_is_a_protocol_error() {
    assert_eq!(parse_redis_value(b":abc\r\n"), garbage());
    assert_eq!(parse_redis_value(b":\r\n"), garbage());
    assert_eq!(parse_redis_value(b":   \r\n"), garbage());
    assert_eq!(parse_redis_value(b":-\r\n"), garbage());
    assert_eq!(parse_redis_value(b":+\r\n"), garbage());
    assert_eq!(parse_redis_value(b":1 2\r\n"), garbage());
    assert_eq!(parse_redis_value(b":- 1\r\n"), garbage());
    assert_eq!(parse_redis_value(b":--1\r\n"), garbage());
    assert_eq!(parse_redis_value(b":1_000\r\n"), garbage());
    assert_eq!(parse_redis_value(b":0x10\r\n"), garbage());
    assert_eq!(parse_redis_value(b":1.5\r\n"), garbage());
    assert_eq!(parse_redis_value(":\u{661}\r\n".as_bytes()), garbage());
    assert_eq!(parse_redis_value(b"$x\r\n"), garbage());
    assert_eq!(parse_redis_value(b"*x\r\n"), garbage());
}

#[test]
fn integer_out_of_range_is_a_protocol_error() {
    assert_eq!(parse_redis_value(b":9223372036854775808\r\n"), garbage());
    assert_eq!(parse_redis_value(b":-9223372036854775809\r\n"), garbage());
    assert_eq!(
        parse_redis_value(b":99999999999999999999999999999999999999999999\r\n"),
        garbage()
    );
}

#[test]
fn protocol_error_has_its_kind_and_description() {
    let e = parse_redis_value(b":abc\r\n").unwrap_err();
    assert_eq!(e.kind(), ErrorKind::ResponseError);
    assert_eq!(e.description(), "parse error");
    assert_eq!(e.fault(), Some(ParseFault::ExpectedInteger));
    assert_eq!(e.detail(), None);
    assert_eq!(e.code(), None);
    assert!(!e.is_unexpected_eof());
}

#[test]
fn unexpected_leading_byte_is_named() {
    assert_eq!(
        parse_redis_value(b"?what\r\n"),
        Err(RedisError::protocol(ParseFault::UnexpectedByte(b'?')))
    );
    assert_eq!(
        parse_redis_value(b"\r\n"),
        Err(RedisError::protocol(ParseFault::UnexpectedByte(b'\r')))
    );
    assert_eq!(
        parse_redis_value(b"x"),
        Err(RedisError::protocol(ParseFault::UnexpectedByte(b'x')))
    );
    assert_eq!(
        parse_redis_value(b"*2\r\n:1\r\n!"),
        Err(RedisError::protocol(ParseFault::UnexpectedByte(b'!')))
    );
}

#[test]
fn line_that_is_no_text_is_a_protocol_error() {
    let bad = Err(RedisError::protocol(ParseFault::InvalidText));
    assert_eq!(parse_redis_value(b"+\xff\xfe\r\n"), bad);
    assert_eq!(parse_redis_value(b"-ERR \xc3\r\n"), bad);
    assert_eq!(parse_redis_value(b":1\x80\r\n"), bad);
    assert_eq!(parse_redis_value(b"$\xed\xa0\x80\r\n"), bad);
    assert_eq!(parse_redis_value(b"*\xc0\xaf\r\n"), bad);
}

#[test]
fn bulk_string_is_binary_safe() {
    assert_eq!(
        parse_redis_value(b"$8\r\n\r\n\xff\x00+-\r\n\r\n"),
        Ok(bulk(b"\r\n\xff\x00+-\r\n"))
    );
}

#[test]
fn bulk_string_needs_its_terminator() {
    let bad = Err(RedisError::protocol(ParseFault::ExpectedTerminator));
    assert_eq!(parse_redis_value(b"$3\r\nfooXY"), bad);
    assert_eq!(parse_redis_value(b"$3\r\nfoo\rY"), bad);
    assert_eq!(parse_redis_value(b"$3\r\nfooX"), bad);
    assert_eq!(parse_redis_value(b"$3\r\nfoobar\r\n"), bad);
}

#[test]
fn truncated_input_is_unexpected_eof() {
    let eof = Err(RedisError::unexpected_eof());
    assert_eq!(parse_redis_value(b"$5\r\nhel"), eof);
    assert_eq!(parse_redis_value(b""), eof);
    assert_eq!(parse_redis_value(b"+OK"), eof);
    assert_eq!(parse_redis_value(b"+OK\r"), eof);
    assert_eq!(parse_redis_value(b"$3\r\nfoo"), eof);
    assert_eq!(parse_redis_value(b"$3\r\nfoo\r"), eof);
    assert_eq!(parse_redis_value(b"*2\r\n:1\r\n"), eof);
    assert_eq!(parse_redis_value(b"*1\r\n*1\r\n"), eof);
}

#[test]
fn unexpected_eof_has_its_kind() {
    let e = parse_redis_value(b"$5\r\nhel").unwrap_err();
    assert!(e.is_unexpected_eof());
    assert_eq!(e.kind(), ErrorKind::IoError);
    assert_eq!(e.description(), "unexpected end of input");
    assert_eq!(e.fault(), None);
}

#[test]
fn nested_arrays() {
    assert_eq!(
        parse_redis_value(b"*3\r\n*2\r\n:1\r\n*0\r\n$-1\r\n*1\r\n+OK\r\n"),
        Ok(Value::Array(vec![
            Value::Array(vec![Value::Integer(1), Value::Array(vec![])]),
            Value::Nil,
            Value::Array(vec![Value::Okay]),
        ]))
    );
}

#[test]
fn array_of_every_kind() {
    assert_eq!(
        parse_redis_value(b"*5\r\n+PONG\r\n:5\r\n$2\r\nhi\r\n*-1\r\n+OK\r\n"),
        Ok(Value::Array(vec![
            text("PONG"),
            Value::Integer(5),
            bulk(b"hi"),
            Value::Nil,
            Value::Okay,
        ]))
    );
}

#[test]
fn first_reply_only() {
    assert_eq!(parse_redis_value(b":1\r\n:2\r\n"), Ok(Value::Integer(1)));
    assert_eq!(parse_redis_value(b"+OK\r\ngarbage"), Ok(Value::Okay));
}

#[test]
fn error_in_an_array_is_an_element() {
    assert_eq!(
        parse_redis_value(b"*3\r\n+OK\r\n-LOADING server is loading\r\n:1\r\n"),
        Ok(Value::Array(vec![
            Value::Okay,
            Value::Error(RedisError::server(
                ErrorKind::BusyLoadingError,
                Some("server is loading".to_string())
            )),
            Value::Integer(1),
        ]))
    );
}

#[test]
fn clone_keeps_the_reply() {
    let value = parse_redis_value(
        b"*6\r\n+PONG\r\n:5\r\n$2\r\nhi\r\n*-1\r\n*2\r\n+OK\r\n-ERR x y\r\n*0\r\n",
    )
    .unwrap();
    let copy = value.clone();
    assert_eq!(copy, value);
    assert_eq!(
        copy,
        Value::Array(vec![
            text("PONG"),
            Value::Integer(5),
            bulk(b"hi"),
            Value::Nil,
            Value::Array(vec![
                Value::Okay,
                Value::Error(RedisError::server(
                    ErrorKind::ResponseError,
                    Some("x y".to_string())
                )),
            ]),
            Value::Array(vec![]),
        ])
    );
}

#[test]
fn clone_keeps_the_error() {
    let errors = [
        RedisError::server(ErrorKind::Moved, Some("1 host".to_string())),
        RedisError::server(ErrorKind::TryAgain, None),
        RedisError::extension("CODE".to_string(), Some("detail".to_string())),
        RedisError::extension("CODE".to_string(), None),
        RedisError::protocol(ParseFault::UnexpectedByte(7)),
        RedisError::unexpected_eof(),
    ];
    for e in errors.iter() {
        assert_eq!(&e.clone(), e);
    }
    assert_ne!(errors[0], errors[1]);
    assert_ne!(errors[2], errors[3]);
    assert_ne!(errors[4], errors[5]);
}
