use resp_decoder::text::{chars_of, parse_integer, same_text};

#[test]
fn characters_in_order() {
    assert_eq!(chars_of(""), Vec::<char>::new());
    assert_eq!(chars_of("a\u{e9}\u{4e16}\u{1f600}z"), vec!['a', '\u{e9}', '\u{4e16}', '\u{1f600}', 'z']);
}

#[test]
fn same_text_compares_whole_strings() {
    assert!(same_text("", ""));
    assert!(same_text("OK", "OK"));
    assert!(!same_text("OK", "ok"));
    assert!(!same_text("OK", "OKAY"));
    assert!(!same_text("OKAY", "OK"));
    assert!(!same_text("", "x"));
    assert!(same_text("h\u{e9}", "h\u{e9}"));
    assert!(!same_text("h\u{e9}", "h\u{e8}"));
}

#[test]
fn integers_in_base_ten() {
    assert_eq!(parse_integer("0"), Some(0));
    assert_eq!(parse_integer("1000"), Some(1000));
    assert_eq!(parse_integer("-1"), Some(-1));
    assert_eq!(parse_integer("+1"), Some(1));
    assert_eq!(parse_integer("-0"), Some(0));
    assert_eq!(parse_integer("0012"), Some(12));
    assert_eq!(parse_integer("9223372036854775807"), Some(i64::MAX));
    assert_eq!(parse_integer("+9223372036854775807"), Some(i64::MAX));
    assert_eq!(parse_integer("-9223372036854775808"), Some(i64::MIN));
    assert_eq!(parse_integer("-9223372036854775807"), Some(i64::MIN + 1));
}

#[test]
fn integers_out_of_range() {
    assert_eq!(parse_integer("9223372036854775808"), None);
    assert_eq!(parse_integer("+9223372036854775808"), None);
    assert_eq!(parse_integer("-9223372036854775809"), None);
    assert_eq!(parse_integer("18446744073709551616"), None);
    assert_eq!(parse_integer("-18446744073709551616"), None);
    assert_eq!(parse_integer("100000000000000000000000000000000000000000"), None);
    assert_eq!(parse_integer("92233720368547758070"), None);
}

#[test]
fn whitespace_around_an_integer_is_set_aside() {
    assert_eq!(parse_integer(" 5"), Some(5));
    assert_eq!(parse_integer("5 "), Some(5));
    assert_eq!(parse_integer("\t\n\u{b}\u{c}\r 5 \r\n"), Some(5));
    for ws in [
        '\u{85}', '\u{a0}', '\u{1680}', '\u{2000}', '\u{2005}', '\u{200a}', '\u{2028}',
        '\u{2029}', '\u{202f}', '\u{205f}', '\u{3000}',
    ] {
        assert_eq!(parse_integer(&format!("{}-42{}", ws, ws)), Some(-42));
    }
}

#[test]
fn what_is_no_whitespace_is_not_set_aside() {
    for c in ['\u{200b}', '\u{feff}', '\u{180e}', '\u{2060}', '\u{1c}', '\u{0}', '\u{8}', '\u{e}'] {
        assert_eq!(parse_integer(&format!("{}42", c)), None);
        assert_eq!(parse_integer(&format!("42{}", c)), None);
    }
}

#[test]
fn what_is_no_integer() {
    for s in [
        "", " ", "-", "+", "+-1", "-+1", "--1", "1-", "1+", "1 1", "- 1", "a", "1a", "a1", "0x1",
        "1e3", "1.0", "1,000", "1_000", "\u{661}\u{662}", "\u{ff11}", "\u{b2}",
    ] {
        assert_eq!(parse_integer(s), None, "{:?}", s);
    }
}

#[test]
fn same_answer_as_the_standard_library() {
    for s in [
        "0", "-0", "+0", "7", " 7 ", "-7", "+7", "007", "9223372036854775807",
        "9223372036854775808", "-9223372036854775808", "-9223372036854775809", "", "x", "1x",
        "\u{a0}1", "1\u{3000}", "\u{200b}1", "+", "-", " + 1",
    ] {
        assert_eq!(parse_integer(s), s.trim().parse::<i64>().ok(), "{:?}", s);
    }
}
