use resp_decoder::classify::{classify_error, lookup_kind};
use resp_decoder::{make_extension_error, parse_redis_value, ErrorKind, ParseFault, RedisError};

#[test]
fn generic_error_with_detail() {
    let e = parse_redis_value(b"-ERR unknown command\r\n").unwrap_err();
    assert_eq!(e.kind(), ErrorKind::ResponseError);
    assert_eq!(e.detail(), Some("unknown command"));
    assert_eq!(e.description(), "An error was signalled by the server");
    assert_eq!(e.code(), None);
    assert_eq!(
        e,
        RedisError::server(ErrorKind::ResponseError, Some("unknown command".to_string()))
    );
}

#[test]
fn moved_error_with_detail() {
    let e = parse_redis_value(b"-MOVED 1234 127.0.0.1:7001\r\n").unwrap_err();
    assert_eq!(e.kind(), ErrorKind::Moved);
    assert_eq!(e.detail(), Some("1234 127.0.0.1:7001"));
}

#[test]
fn unknown_code_is_an_extension_error() {
    let e = parse_redis_value(b"-WEIRDCODE extra info\r\n").unwrap_err();
    assert_eq!(e.kind(), ErrorKind::ExtensionError);
    assert_eq!(e.code(), Some("WEIRDCODE"));
    assert_eq!(e.detail(), Some("extra info"));
    assert_eq!(e.description(), "An error was signalled by the server");
    assert_eq!(e, make_extension_error("WEIRDCODE", Some("extra info")));
}

#[test]
fn every_code_of_the_table() {
    let table = [
        ("ERR", ErrorKind::ResponseError),
        ("EXECABORT", ErrorKind::ExecAbortError),
        ("LOADING", ErrorKind::BusyLoadingError),
        ("NOSCRIPT", ErrorKind::NoScriptError),
        ("MOVED", ErrorKind::Moved),
        ("ASK", ErrorKind::Ask),
        ("TRYAGAIN", ErrorKind::TryAgain),
        ("CLUSTERDOWN", ErrorKind::ClusterDown),
        ("CROSSSLOT", ErrorKind::CrossSlot),
        ("MASTERDOWN", ErrorKind::MasterDown),
        ("READONLY", ErrorKind::ReadOnly),
    ];
    for (code, kind) in table {
        assert_eq!(lookup_kind(code), Some(kind));
        let with_detail = classify_error(&format!("{} some detail", code));
        assert_eq!(with_detail.kind(), kind);
        assert_eq!(with_detail.detail(), Some("some detail"));
        assert_eq!(with_detail.code(), None);
        let bare = classify_error(code);
        assert_eq!(bare.kind(), kind);
        assert_eq!(bare.detail(), None);
    }
}

#[test]
fn codes_are_case_sensitive() {
    assert_eq!(lookup_kind("err"), None);
    assert_eq!(lookup_kind("Err"), None);
    assert_eq!(lookup_kind("ERRX"), None);
    assert_eq!(lookup_kind("ER"), None);
    assert_eq!(lookup_kind(""), None);
    let e = classify_error("moved 1 host");
    assert_eq!(e.kind(), ErrorKind::ExtensionError);
    assert_eq!(e.code(), Some("moved"));
    assert_eq!(e.detail(), Some("1 host"));
}

#[test]
fn code_without_detail() {
    let e = classify_error("WEIRDCODE");
    assert_eq!(e.kind(), ErrorKind::ExtensionError);
    assert_eq!(e.code(), Some("WEIRDCODE"));
    assert_eq!(e.detail(), None);
    assert_eq!(e, make_extension_error("WEIRDCODE", None));
}

#[test]
fn split_is_at_the_first_space_only() {
    let e = classify_error("ERR  two spaces");
    assert_eq!(e.kind(), ErrorKind::ResponseError);
    assert_eq!(e.detail(), Some(" two spaces"));
    let e = classify_error("ERR ");
    assert_eq!(e.detail(), Some(""));
    let e = classify_error("ERR\tx y");
    assert_eq!(e.kind(), ErrorKind::ExtensionError);
    assert_eq!(e.code(), Some("ERR\tx"));
    assert_eq!(e.detail(), Some("y"));
}

#[test]
fn empty_and_odd_codes_are_kept_as_they_are() {
    let e = classify_error("");
    assert_eq!(e.kind(), ErrorKind::ExtensionError);
    assert_eq!(e.code(), Some(""));
    assert_eq!(e.detail(), None);
    let e = classify_error(" leading space");
    assert_eq!(e.code(), Some(""));
    assert_eq!(e.detail(), Some("leading space"));
    let e = classify_error("\u{e9}t\u{e9}!? d\u{e9}tail \u{4e16}");
    assert_eq!(e.code(), Some("\u{e9}t\u{e9}!?"));
    assert_eq!(e.detail(), Some("d\u{e9}tail \u{4e16}"));
}

#[test]
fn error_line_without_anything() {
    let e = parse_redis_value(b"-\r\n").unwrap_err();
    assert_eq!(e, make_extension_error("", None));
}

#[test]
fn faults_in_words() {
    assert_eq!(
        ParseFault::ExpectedInteger.message(),
        "Expected integer, got garbage"
    );
    assert_eq!(ParseFault::InvalidText.message(), "line is not valid UTF-8");
    assert_eq!(
        ParseFault::ExpectedTerminator.message(),
        "expected the line terminator"
    );
    assert_eq!(ParseFault::UnexpectedByte(b'?').message(), "unexpected byte 0x3f");
    assert_eq!(ParseFault::UnexpectedByte(0).message(), "unexpected byte 0x00");
    assert_eq!(ParseFault::UnexpectedByte(0x0a).message(), "unexpected byte 0x0a");
    assert_eq!(ParseFault::UnexpectedByte(0xff).message(), "unexpected byte 0xff");
    assert_eq!(ParseFault::UnexpectedByte(0x9c).message(), "unexpected byte 0x9c");
}

#[test]
fn garbage_integer_names_itself() {
    let e = parse_redis_value(b":abc\r\n").unwrap_err();
    assert_eq!(
        e.fault().map(|f| f.message()),
        Some("Expected integer, got garbage".to_string())
    );
}
