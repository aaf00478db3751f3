use resp_decoder::{Decoder, ErrorKind, Outcome, ParseFault, RedisError, Value};

fn bulk(s: &[u8]) -> Value {
    Value::BulkString(s.to_vec())
}

/// Decodes every reply of `stream`, which arrives whole.
fn decode_whole(stream: &[u8]) -> Vec<Value> {
    let mut decoder = Decoder::new();
    let mut out = Vec::new();
    let mut start = 0;
    loop {
        match decoder.feed(&stream[start..]) {
            Outcome::Completed { value, used } => {
                assert!(used > 0 && used <= stream.len() - start);
                out.push(value);
                start += used;
            }
            Outcome::NeedMoreInput => {
                assert_eq!(start, stream.len());
                return out;
            }
            Outcome::Error(e) => panic!("{:?}", e),
        }
    }
}

/// Decodes every reply of `stream`, which arrives in pieces of `step` bytes.
fn decode_pieces(stream: &[u8], step: usize) -> Vec<Value> {
    let mut decoder = Decoder::new();
    let mut out = Vec::new();
    let mut start = 0;
    let mut end = 0;
    while end < stream.len() {
        end = (end + step).min(stream.len());
        loop {
            match decoder.feed(&stream[start..end]) {
                Outcome::Completed { value, used } => {
                    out.push(value);
                    start += used;
                    assert_eq!(decoder.open_arrays(), 0);
                }
                Outcome::NeedMoreInput => break,
                Outcome::Error(e) => panic!("{:?}", e),
            }
        }
    }
    assert_eq!(start, stream.len());
    out
}

fn sample_stream() -> (Vec<u8>, Vec<Value>) {
    let stream = b"+OK\r\n:1000\r\n$3\r\nfoo\r\n*2\r\n$3\r\nfoo\r\n$3\r\nbar\r\n$-1\r\n*0\r\n\
-ERR unknown command\r\n*3\r\n*2\r\n:1\r\n*0\r\n$-1\r\n*1\r\n+PONG\r\n$8\r\n\r\n\xff\x00+-\r\n\r\n"
        .to_vec();
    let values = vec![
        Value::Okay,
        Value::Integer(1000),
        bulk(b"foo"),
        Value::Array(vec![bulk(b"foo"), bulk(b"bar")]),
        Value::Nil,
        Value::Array(vec![]),
        Value::Error(RedisError::server(
            ErrorKind::ResponseError,
            Some("unknown command".to_string()),
        )),
        Value::Array(vec![
            Value::Array(vec![Value::Integer(1), Value::Array(vec![])]),
            Value::Nil,
            Value::Array(vec![Value::SimpleString("PONG".to_string())]),
        ]),
        bulk(b"\r\n\xff\x00+-\r\n"),
    ];
    (stream, values)
}

#[test]
fn whole_stream_decodes_in_order() {
    let (stream, values) = sample_stream();
    assert_eq!(decode_whole(&stream), values);
}

#[test]
fn stream_cut_at_every_byte_decodes_the_same() {
    let (stream, values) = sample_stream();
    assert_eq!(decode_pieces(&stream, 1), values);
}

#[test]
fn stream_cut_in_pieces_of_every_size_decodes_the_same() {
    let (stream, values) = sample_stream();
    for step in 1..=stream.len() {
        assert_eq!(decode_pieces(&stream, step), values);
    }
}

#[test]
fn stream_cut_once_at_every_place_decodes_the_same() {
    let (stream, values) = sample_stream();
    for cut in 0..=stream.len() {
        let mut decoder = Decoder::new();
        let mut out = Vec::new();
        let mut start = 0;
        for end in [cut, stream.len()] {
            loop {
                match decoder.feed(&stream[start..end]) {
                    Outcome::Completed { value, used } => {
                        out.push(value);
                        start += used;
                    }
                    Outcome::NeedMoreInput => break,
                    Outcome::Error(e) => panic!("{:?}", e),
                }
            }
        }
        assert_eq!(out, values);
    }
}

#[test]
fn server_error_is_a_completed_value() {
    let mut decoder = Decoder::new();
    match decoder.feed(b"-MOVED 1234 127.0.0.1:7001\r\n") {
        Outcome::Completed { value, used } => {
            assert_eq!(used, 28);
            assert_eq!(
                value,
                Value::Error(RedisError::server(
                    ErrorKind::Moved,
                    Some("1234 127.0.0.1:7001".to_string())
                ))
            );
        }
        _ => panic!("the error line is complete"),
    }
}

#[test]
fn deep_nesting_byte_by_byte() {
    for depth in [1usize, 2, 32, 33, 200] {
        let mut stream = Vec::new();
        for _ in 0..depth {
            stream.extend_from_slice(b"*1\r\n");
        }
        stream.extend_from_slice(b":7\r\n");
        let mut expected = Value::Integer(7);
        for _ in 0..depth {
            expected = Value::Array(vec![expected]);
        }
        let mut decoder = Decoder::new();
        for end in 1..stream.len() {
            assert!(matches!(decoder.feed(&stream[..end]), Outcome::NeedMoreInput));
            assert_eq!(decoder.open_arrays(), ((end) / 4).min(depth));
        }
        match decoder.feed(&stream) {
            Outcome::Completed { value, used } => {
                assert_eq!(used, stream.len());
                assert_eq!(value, expected);
            }
            _ => panic!("the reply is complete"),
        }
        assert_eq!(decoder.open_arrays(), 0);
        assert!(matches!(decoder.feed(b""), Outcome::NeedMoreInput));
    }
}

#[test]
fn two_replies_in_one_buffer() {
    let buffer = b":1\r\n+second\r\n";
    let mut decoder = Decoder::new();
    let used = match decoder.feed(buffer) {
        Outcome::Completed { value, used } => {
            assert_eq!(value, Value::Integer(1));
            assert_eq!(used, 4);
            used
        }
        _ => panic!("the first reply is complete"),
    };
    match decoder.feed(&buffer[used..]) {
        Outcome::Completed { value, used } => {
            assert_eq!(value, Value::SimpleString("second".to_string()));
            assert_eq!(used, 9);
        }
        _ => panic!("the second reply is complete"),
    }
    assert!(matches!(decoder.feed(b""), Outcome::NeedMoreInput));
}

#[test]
fn need_more_input_consumes_nothing() {
    let stream = b"*2\r\n$3\r\nfoo\r\n$3\r\nbar\r\n";
    let mut decoder = Decoder::new();
    for end in 0..stream.len() {
        assert!(matches!(decoder.feed(&stream[..end]), Outcome::NeedMoreInput));
        assert!(matches!(decoder.feed(&stream[..end]), Outcome::NeedMoreInput));
    }
    match decoder.feed(stream) {
        Outcome::Completed { value, used } => {
            assert_eq!(used, stream.len());
            assert_eq!(value, Value::Array(vec![bulk(b"foo"), bulk(b"bar")]));
        }
        _ => panic!("the reply is complete"),
    }
}

#[test]
fn protocol_error_inside_an_array_resets_the_decoder() {
    let mut decoder = Decoder::new();
    assert!(matches!(decoder.feed(b"*2\r\n:1\r\n"), Outcome::NeedMoreInput));
    assert_eq!(decoder.open_arrays(), 1);
    match decoder.feed(b"*2\r\n:1\r\n:x\r\n") {
        Outcome::Error(e) => assert_eq!(e, RedisError::protocol(ParseFault::ExpectedInteger)),
        _ => panic!("the line holds no integer"),
    }
    assert_eq!(decoder.open_arrays(), 0);
    assert!(matches!(
        decoder.feed(b"+OK\r\n"),
        Outcome::Completed { value: Value::Okay, used: 5 }
    ));
}

#[test]
fn reset_forgets_the_reply_in_progress() {
    let mut decoder = Decoder::new();
    assert!(matches!(decoder.feed(b"*3\r\n*1\r\n"), Outcome::NeedMoreInput));
    assert_eq!(decoder.open_arrays(), 2);
    decoder.reset();
    assert_eq!(decoder.open_arrays(), 0);
    assert!(matches!(
        decoder.feed(b":5\r\n"),
        Outcome::Completed { value: Value::Integer(5), used: 4 }
    ));
}

#[test]
fn long_line_arriving_slowly() {
    let mut stream = vec![b'+'];
    stream.extend(std::iter::repeat(b'a').take(5000));
    stream.extend_from_slice(b"\r\n");
    let mut decoder = Decoder::new();
    for end in 0..stream.len() {
        assert!(matches!(decoder.feed(&stream[..end]), Outcome::NeedMoreInput));
    }
    match decoder.feed(&stream) {
        Outcome::Completed { value, used } => {
            assert_eq!(used, 5003);
            assert_eq!(value, Value::SimpleString("a".repeat(5000)));
        }
        _ => panic!("the line is complete"),
    }
}

#[test]
fn huge_declared_sizes_only_wait() {
    let mut decoder = Decoder::new();
    assert!(matches!(
        decoder.feed(b"*9223372036854775807\r\n"),
        Outcome::NeedMoreInput
    ));
    assert_eq!(decoder.open_arrays(), 1);
    let mut decoder = Decoder::new();
    assert!(matches!(
        decoder.feed(b"$9223372036854775807\r\nabc"),
        Outcome::NeedMoreInput
    ));
}

#[test]
fn buffer_that_does_not_continue_the_last_one_is_survived() {
    let mut decoder = Decoder::new();
    assert!(matches!(
        decoder.feed(b"*2\r\n$10\r\n0123"),
        Outcome::NeedMoreInput
    ));
    let _ = decoder.feed(b"");
    let _ = decoder.feed(b"+");
    let _ = decoder.feed(b"*2\r\n$10\r\n");
    decoder.reset();
    assert!(matches!(
        decoder.feed(b"+OK\r\n"),
        Outcome::Completed { value: Value::Okay, used: 5 }
    ));
}
