use resp_decoder::{RedisParser, Value, ValueParser};

#[test]
fn builder_starts_with_nil() {
    let mut builder = ValueParser::default();
    assert_eq!(builder.take(), Value::Nil);
}

#[test]
fn scalar_stands_alone() {
    let mut builder = ValueParser::default();
    assert_eq!(builder.integer(5), Ok(()));
    assert_eq!(builder.take(), Value::Integer(5));
    assert_eq!(builder.take(), Value::Nil);
}

#[test]
fn last_scalar_wins_where_no_array_is_open() {
    let mut builder = ValueParser::default();
    assert_eq!(builder.value(Value::Integer(1)), Ok(()));
    assert_eq!(builder.value(Value::Okay), Ok(()));
    assert_eq!(builder.take(), Value::Okay);
}

#[test]
fn status_tells_ok_apart() {
    let mut builder = ValueParser::default();
    assert_eq!(builder.status("OK"), Ok(()));
    assert_eq!(builder.take(), Value::Okay);
    assert_eq!(builder.status("OKAY"), Ok(()));
    assert_eq!(builder.take(), Value::SimpleString("OKAY".to_string()));
}

#[test]
fn arrays_nest() {
    let mut builder = ValueParser::default();
    builder.bulk_start(2);
    assert_eq!(builder.nil(), Ok(()));
    builder.bulk_start(0);
    builder.bulk_end();
    builder.bulk_start(1);
    assert_eq!(builder.data(b"x\r\n"), Ok(()));
    builder.bulk_end();
    builder.bulk_end();
    assert_eq!(
        builder.take(),
        Value::Array(vec![
            Value::Nil,
            Value::Array(vec![]),
            Value::Array(vec![Value::BulkString(b"x\r\n".to_vec())]),
        ])
    );
}

#[test]
fn size_is_a_hint_only() {
    let mut builder = ValueParser::default();
    builder.bulk_start(usize::MAX);
    assert_eq!(builder.integer(1), Ok(()));
    builder.bulk_end();
    assert_eq!(builder.take(), Value::Array(vec![Value::Integer(1)]));
}
