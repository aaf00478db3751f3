use bytes::BytesMut;
use resp_decoder::{
    parse_redis_value, ErrorKind, ParseFault, Parser, RedisError, Value, ValueCodec,
};

#[test]
fn decode_eof_returns_none_at_eof() {
    let mut codec = ValueCodec::default();

    let mut bytes = bytes::BytesMut::from(&b"+GET 123\r\n"[..]);
    assert_eq!(
        codec.decode_eof(&mut bytes),
        Ok(Some(parse_redis_value(b"+GET 123\r\n").unwrap()))
    );
    assert_eq!(codec.decode_eof(&mut bytes), Ok(None));
    assert_eq!(codec.decode_eof(&mut bytes), Ok(None));
}

#[test]
fn codec_takes_the_reply_out_of_the_buffer() {
    let mut codec = ValueCodec::default();
    let mut bytes = BytesMut::from(&b":1\r\n$3\r\nfoo\r\n+OK"[..]);
    assert_eq!(codec.decode(&mut bytes), Ok(Some(Value::Integer(1))));
    assert_eq!(&bytes[..], b"$3\r\nfoo\r\n+OK");
    assert_eq!(
        codec.decode(&mut bytes),
        Ok(Some(Value::BulkString(b"foo".to_vec())))
    );
    assert_eq!(&bytes[..], b"+OK");
    assert_eq!(codec.decode(&mut bytes), Ok(None));
    assert_eq!(&bytes[..], b"+OK");
    bytes.extend_from_slice(b"\r\n");
    assert_eq!(codec.decode(&mut bytes), Ok(Some(Value::Okay)));
    assert_eq!(&bytes[..], b"");
    assert_eq!(codec.decode(&mut bytes), Ok(None));
}

#[test]
fn codec_fed_byte_by_byte() {
    let stream = b"*2\r\n$3\r\nfoo\r\n*1\r\n:-9\r\n+OK\r\n";
    let mut codec = ValueCodec::default();
    let mut bytes = BytesMut::new();
    let mut out = Vec::new();
    for b in stream.iter() {
        bytes.extend_from_slice(&[*b]);
        if let Some(v) = codec.decode(&mut bytes).unwrap() {
            out.push(v);
            assert!(bytes.is_empty());
        }
    }
    assert_eq!(
        out,
        vec![
            Value::Array(vec![
                Value::BulkString(b"foo".to_vec()),
                Value::Array(vec![Value::Integer(-9)]),
            ]),
            Value::Okay,
        ]
    );
    assert_eq!(codec.decode_eof(&mut bytes), Ok(None));
}

#[test]
fn codec_reports_truncation_at_eof() {
    let mut codec = ValueCodec::default();
    let mut bytes = BytesMut::from(&b"$5\r\nhel"[..]);
    assert_eq!(codec.decode(&mut bytes), Ok(None));
    assert_eq!(&bytes[..], b"$5\r\nhel");
    assert_eq!(codec.decode_eof(&mut bytes), Err(RedisError::unexpected_eof()));
}

#[test]
fn codec_surfaces_a_server_error() {
    let mut codec = ValueCodec::default();
    let mut bytes = BytesMut::from(&b"-ASK 3999 127.0.0.1:6381\r\n:1\r\n"[..]);
    let e = codec.decode(&mut bytes).unwrap_err();
    assert_eq!(e.kind(), ErrorKind::Ask);
    assert_eq!(e.detail(), Some("3999 127.0.0.1:6381"));
    assert_eq!(&bytes[..], b":1\r\n");
    assert_eq!(codec.decode(&mut bytes), Ok(Some(Value::Integer(1))));
}

#[test]
fn codec_reports_a_protocol_error() {
    let mut codec = ValueCodec::default();
    let mut bytes = BytesMut::from(&b"*1\r\n@\r\n"[..]);
    assert_eq!(
        codec.decode(&mut bytes),
        Err(RedisError::protocol(ParseFault::UnexpectedByte(b'@')))
    );
    assert_eq!(&bytes[..], b"*1\r\n@\r\n");
}

#[test]
fn codec_encode_appends_the_request() {
    let mut codec = ValueCodec::default();
    let mut dst = BytesMut::from(&b"abc"[..]);
    assert_eq!(codec.encode(b"*1\r\n$4\r\nPING\r\n".to_vec(), &mut dst), Ok(()));
    assert_eq!(&dst[..], b"abc*1\r\n$4\r\nPING\r\n");
    assert_eq!(codec.encode(Vec::new(), &mut dst), Ok(()));
    assert_eq!(&dst[..], b"abc*1\r\n$4\r\nPING\r\n");
}

#[test]
fn parser_takes_input_in_turns() {
    let mut parser = Parser::new();
    assert_eq!(parser.parse_value(b"", false), Ok(None));
    assert_eq!(parser.parse_value(b"*2\r\n:1", false), Ok(None));
    assert_eq!(parser.parse_value(b"\r", false), Ok(None));
    assert_eq!(
        parser.parse_value(b"\n:2\r\n+O", false),
        Ok(Some(Value::Array(vec![Value::Integer(1), Value::Integer(2)])))
    );
    assert_eq!(parser.parse_value(b"", false), Ok(None));
    assert_eq!(parser.parse_value(b"K\r\n", false), Ok(Some(Value::Okay)));
    assert_eq!(parser.parse_value(b"", true), Ok(None));
}

#[test]
fn parser_keeps_what_follows_a_reply() {
    let mut parser = Parser::default();
    assert_eq!(
        parser.parse_value(b":1\r\n:2\r\n:3\r\n", false),
        Ok(Some(Value::Integer(1)))
    );
    assert_eq!(parser.parse_value(b"", false), Ok(Some(Value::Integer(2))));
    assert_eq!(parser.parse_value(b"", true), Ok(Some(Value::Integer(3))));
    assert_eq!(parser.parse_value(b"", true), Ok(None));
}

#[test]
fn parser_tells_clean_end_from_truncation() {
    let mut parser = Parser::new();
    assert_eq!(parser.parse_value(b"", true), Ok(None));
    assert_eq!(parser.parse_value(b"$5\r\nhel", false), Ok(None));
    assert_eq!(
        parser.parse_value(b"", true),
        Err(RedisError::unexpected_eof())
    );
}

#[test]
fn parser_reports_errors() {
    let mut parser = Parser::new();
    assert_eq!(
        parser.parse_value(b"-READONLY no writes\r\n", false),
        Err(RedisError::server(
            ErrorKind::ReadOnly,
            Some("no writes".to_string())
        ))
    );
    assert_eq!(
        parser.parse_value(b"$2\r\nabc\r\n", false),
        Err(RedisError::protocol(ParseFault::ExpectedTerminator))
    );
}
