//! How replies are written on the wire, and that reading undoes writing.
//!
//! The decoder reads more than is written here: an integer may stand in
//! whitespace or behind zeros, and every negative length is the absent value.
//! What is written here is the plain form of each reply.

use crate::classify::{classify, known_kind, lemma_code_len};
use crate::grammar::{
    find_terminator, head_of, lemma_first_terminator, lemma_parse_advances, parse_items,
    parse_value, terminator_at, Head, Scan, ARRAY, BULK, CR, ERROR, INTEGER, LF, STATUS,
};
use crate::text::{
    digits_value, integer_of, is_digit, is_digits, is_whitespace, trim_end, trim_start,
};
use crate::types::{ErrorKind, ErrorModel, ParseFault, ValueModel};
use vstd::prelude::*;
use vstd::utf8::*;

verus! {

/// The character of the decimal digit `d`.
pub open spec fn digit_char(d: nat) -> char {
    ((0x30 + d) as u8) as char
}

/// The decimal digits of `n`, without zeros in front.
pub open spec fn digits_of(n: nat) -> Seq<char>
    decreases n,
{
    if n < 10 {
        seq![digit_char(n)]
    } else {
        digits_of(n / 10).push(digit_char(n % 10))
    }
}

/// The integer `n` in base ten, with a minus sign where it is negative.
pub open spec fn decimal_of(n: int) -> Seq<char> {
    if n < 0 {
        seq!['-'] + digits_of((-n) as nat)
    } else {
        digits_of(n as nat)
    }
}

proof fn lemma_digit_char(d: nat)
    requires
        d < 10,
    ensures
        is_digit(digit_char(d)),
        digit_char(d) as u32 == 0x30 + d,
        !is_whitespace(digit_char(d)),
        digit_char(d) != '-',
        digit_char(d) != '+',
        digit_char(d) as u32 <= 0x7f,
{
}

/// The digits of a number are digits, and write that number.
pub proof fn lemma_digits_of(n: nat)
    ensures
        is_digits(digits_of(n)),
        digits_value(digits_of(n)) == n,
    decreases n,
{
    if n < 10 {
        lemma_digit_char(n);
        let s = digits_of(n);
        assert(s.drop_last() =~= Seq::<char>::empty());
        assert(digits_value(s.drop_last()) == 0);
    } else {
        lemma_digits_of(n / 10);
        lemma_digit_char(n % 10);
        let s = digits_of(n);
        assert(s.drop_last() =~= digits_of(n / 10));
    }
}

/// Reading the decimal form of a 64-bit integer gives the integer back.
pub proof fn lemma_integer_of_decimal(n: i64)
    ensures
        integer_of(decimal_of(n as int)) == Some(n),
{
    let s = decimal_of(n as int);
    let m: nat = if n < 0 {
        (-n) as nat
    } else {
        n as nat
    };
    lemma_digits_of(m);
    let d = digits_of(m);
    assert(is_digit(d[0]));
    assert(is_digit(d.last()));
    assert(!is_whitespace(s[0]));
    assert(!is_whitespace(s.last()));
    assert(trim_start(s) == s);
    assert(trim_end(s) == s);
    if n < 0 {
        assert(s.drop_first() =~= d);
    }
}

/// The two bytes that end a line.
pub open spec fn line_end() -> Seq<u8> {
    seq![CR, LF]
}

/// A line: the type marker, the text, the terminator.
pub open spec fn line(marker: u8, text: Seq<char>) -> Seq<u8> {
    seq![marker] + encode_utf8(text) + line_end()
}

/// Whether no line terminator begins inside `bytes`.
pub open spec fn unbroken(bytes: Seq<u8>) -> bool {
    forall|i: int| !#[trigger] terminator_at(bytes, i)
}

/// The code that the fixed table holds for `kind`.
pub open spec fn code_text(kind: ErrorKind) -> Seq<char> {
    match kind {
        ErrorKind::ResponseError => "ERR"@,
        ErrorKind::ExecAbortError => "EXECABORT"@,
        ErrorKind::BusyLoadingError => "LOADING"@,
        ErrorKind::NoScriptError => "NOSCRIPT"@,
        ErrorKind::Moved => "MOVED"@,
        ErrorKind::Ask => "ASK"@,
        ErrorKind::TryAgain => "TRYAGAIN"@,
        ErrorKind::ClusterDown => "CLUSTERDOWN"@,
        ErrorKind::CrossSlot => "CROSSSLOT"@,
        ErrorKind::MasterDown => "MASTERDOWN"@,
        ErrorKind::ReadOnly => "READONLY"@,
        ErrorKind::ExtensionError => Seq::empty(),
        ErrorKind::IoError => Seq::empty(),
    }
}

/// What follows the code of an error line: nothing, or a space and the
/// detail.
pub open spec fn detail_text(detail: Option<Seq<char>>) -> Seq<char> {
    match detail {
        Some(d) => seq![' '] + d,
        None => Seq::empty(),
    }
}

/// The text of the line that signals `e`.
pub open spec fn error_text(e: ErrorModel) -> Seq<char> {
    match e {
        ErrorModel::Server { kind, detail } => code_text(kind) + detail_text(detail),
        ErrorModel::Extension { code, detail } => code + detail_text(detail),
        _ => Seq::empty(),
    }
}

/// Whether a server can signal `e` in one line: its code is one word, a code
/// of the table where the kind is of the table and no code of the table
/// where it is not.
pub open spec fn error_writable(e: ErrorModel) -> bool {
    &&& match e {
        ErrorModel::Server { kind, .. } => kind != ErrorKind::ExtensionError && kind
            != ErrorKind::IoError,
        ErrorModel::Extension { code, .. } => known_kind(code) is None && forall|i: int|
            0 <= i < code.len() ==> code[i] != ' ',
        _ => false,
    }
    &&& unbroken(encode_utf8(error_text(e)))
}

/// Whether `v` has a written form: its lines hold no terminator, its status
/// text is not the one that stands for `Okay`, and its sizes can be written
/// as lengths.
pub open spec fn writable(v: ValueModel) -> bool
    decreases v,
{
    match v {
        ValueModel::Nil => true,
        ValueModel::Integer(_) => true,
        ValueModel::Okay => true,
        ValueModel::BulkString(bytes) => bytes.len() <= i64::MAX,
        ValueModel::SimpleString(text) => text != "OK"@ && unbroken(encode_utf8(text)),
        ValueModel::Array(items) => items.len() <= i64::MAX && forall|i: int|
            0 <= i < items.len() ==> writable(#[trigger] items[i]),
        ValueModel::Error(e) => error_writable(e),
    }
}

/// The bytes that stand for `v` on the wire.
pub open spec fn wire(v: ValueModel) -> Seq<u8>
    decreases v,
{
    match v {
        ValueModel::Nil => line(BULK, decimal_of(-1)),
        ValueModel::Integer(n) => line(INTEGER, decimal_of(n as int)),
        ValueModel::Okay => line(STATUS, "OK"@),
        ValueModel::BulkString(bytes) => line(BULK, decimal_of(bytes.len() as int)) + bytes
            + line_end(),
        ValueModel::SimpleString(text) => line(STATUS, text),
        ValueModel::Array(items) => line(ARRAY, decimal_of(items.len() as int)) + wire_all(items),
        ValueModel::Error(e) => line(ERROR, error_text(e)),
    }
}

/// The bytes that stand for the replies `items`, one after the other.
pub open spec fn wire_all(items: Seq<ValueModel>) -> Seq<u8>
    decreases items,
{
    if items.len() == 0 {
        Seq::empty()
    } else {
        wire(items[0]) + wire_all(items.drop_first())
    }
}

/// Whether the bytes `w` stand in `buf` from index `pos` on.
pub open spec fn holds(buf: Seq<u8>, pos: int, w: Seq<u8>) -> bool {
    &&& 0 <= pos
    &&& pos + w.len() <= buf.len()
    &&& forall|i: int| 0 <= i < w.len() ==> buf[pos + i] == #[trigger] w[i]
}

proof fn lemma_holds_split(buf: Seq<u8>, pos: int, a: Seq<u8>, b: Seq<u8>)
    requires
        holds(buf, pos, a + b),
    ensures
        holds(buf, pos, a),
        holds(buf, pos + a.len(), b),
{
    let w = a + b;
    assert forall|i: int| 0 <= i < a.len() implies buf[pos + i] == #[trigger] a[i] by {
        assert(w[i] == a[i]);
    }
    assert forall|i: int| 0 <= i < b.len() implies buf[pos + a.len() + i] == #[trigger] b[i] by {
        assert(w[a.len() + i] == b[i]);
    }
}

spec fn is_sign_or_digit(c: char) -> bool {
    c == '-' || is_digit(c)
}

proof fn lemma_small_char(c: char)
    requires
        is_sign_or_digit(c),
    ensures
        '\0' <= c <= '\u{7f}',
        c as u8 != LF,
        c as u8 != CR,
{
    assert('-' as u32 == 0x2d);
    assert(c as u32 <= 0x39);
    assert(c as u32 >= 0x2d);
}

/// The decimal form of an integer holds no line terminator.
proof fn lemma_decimal_unbroken(n: int)
    ensures
        unbroken(encode_utf8(decimal_of(n))),
{
    let m: nat = if n < 0 {
        (-n) as nat
    } else {
        n as nat
    };
    lemma_digits_of(m);
    let d = digits_of(m);
    let s = decimal_of(n);
    assert forall|i: int| 0 <= i < s.len() implies is_sign_or_digit(#[trigger] s[i]) by {
        if n < 0 {
            if i > 0 {
                assert(s[i] == d[i - 1]);
                assert(is_digit(d[i - 1]));
            }
        } else {
            assert(is_digit(d[i]));
        }
    }
    assert forall|i: int| 0 <= i < s.len() implies '\0' <= #[trigger] s[i] <= '\u{7f}' by {
        assert(is_sign_or_digit(s[i]));
        lemma_small_char(s[i]);
    }
    is_ascii_chars_encode_utf8(s);
    let bytes = encode_utf8(s);
    assert forall|i: int| !#[trigger] terminator_at(bytes, i) by {
        if 0 <= i < bytes.len() {
            lemma_small_char(s[i]);
            assert(bytes[i] == s[i] as u8);
        }
    }
}

/// A line that holds no terminator ends at its own terminator, and its text
/// is read back as it was written.
proof fn lemma_read_line(buf: Seq<u8>, pos: int, marker: u8, text: Seq<char>)
    requires
        holds(buf, pos, line(marker, text)),
        unbroken(encode_utf8(text)),
    ensures
        buf[pos] == marker,
        find_terminator(buf, pos + 1) == Some(pos + 1 + encode_utf8(text).len()),
        buf.subrange(pos + 1, pos + 1 + encode_utf8(text).len()) == encode_utf8(text),
        valid_utf8(encode_utf8(text)),
        decode_utf8(encode_utf8(text)) == text,
        line(marker, text).len() == encode_utf8(text).len() + 3,
{
    let l = encode_utf8(text);
    let w = line(marker, text);
    let n = l.len() as int;
    let at = pos + 1 + n;
    assert(w.len() == n + 3);
    assert(w[0] == marker);
    assert(w[n + 1] == CR);
    assert(w[n + 2] == LF);
    assert(buf[pos + 0] == w[0]);
    assert(buf[pos + (n + 1)] == w[n + 1]);
    assert(buf[pos + (n + 2)] == w[n + 2]);
    assert forall|i: int| 0 <= i < n implies buf[pos + 1 + i] == l[i] by {
        assert(w[i + 1] == l[i]);
        assert(buf[pos + (i + 1)] == w[i + 1]);
    }
    assert(buf.subrange(pos + 1, at) =~= l);
    assert forall|i: int| pos + 1 <= i < at implies !terminator_at(buf, i) by {
        if i + 1 < at {
            assert(!terminator_at(l, i - pos - 1));
            assert(buf[pos + 1 + (i - pos - 1)] == l[i - pos - 1]);
            assert(buf[pos + 1 + (i - pos)] == l[i - pos]);
        }
    }
    lemma_first_terminator(buf, pos + 1, at);
    encode_utf8_valid_utf8(text);
    encode_utf8_decode_utf8(text);
}

proof fn lemma_table_codes(kind: ErrorKind)
    requires
        kind != ErrorKind::ExtensionError,
        kind != ErrorKind::IoError,
    ensures
        known_kind(code_text(kind)) == Some(kind),
        forall|i: int| 0 <= i < code_text(kind).len() ==> code_text(kind)[i] != ' ',
{
    reveal_strlit("ERR");
    reveal_strlit("EXECABORT");
    reveal_strlit("LOADING");
    reveal_strlit("NOSCRIPT");
    reveal_strlit("MOVED");
    reveal_strlit("ASK");
    reveal_strlit("TRYAGAIN");
    reveal_strlit("CLUSTERDOWN");
    reveal_strlit("CROSSSLOT");
    reveal_strlit("MASTERDOWN");
    reveal_strlit("READONLY");
    assert("ERR"@.len() == 3 && "ERR"@[0] == 'E');
    assert("ASK"@.len() == 3 && "ASK"@[0] == 'A');
    assert("MOVED"@.len() == 5);
    assert("LOADING"@.len() == 7);
    assert("NOSCRIPT"@.len() == 8 && "NOSCRIPT"@[0] == 'N');
    assert("TRYAGAIN"@.len() == 8 && "TRYAGAIN"@[0] == 'T');
    assert("READONLY"@.len() == 8 && "READONLY"@[0] == 'R');
    assert("EXECABORT"@.len() == 9 && "EXECABORT"@[0] == 'E');
    assert("CROSSSLOT"@.len() == 9 && "CROSSSLOT"@[0] == 'C');
    assert("MASTERDOWN"@.len() == 10);
    assert("CLUSTERDOWN"@.len() == 11);
}

/// Classifying the line that signals an error gives the error back.
pub proof fn lemma_classify_error_text(e: ErrorModel)
    requires
        error_writable(e),
    ensures
        classify(error_text(e)) == e,
{
    let code = match e {
        ErrorModel::Server { kind, .. } => code_text(kind),
        ErrorModel::Extension { code, .. } => code,
        _ => Seq::empty(),
    };
    let detail = e.detail();
    let text = error_text(e);
    if let ErrorModel::Server { kind, .. } = e {
        lemma_table_codes(kind);
    }
    let k = code.len() as int;
    assert forall|i: int| 0 <= i < k implies #[trigger] text[i] != ' ' by {
        assert(text[i] == code[i]);
    }
    match detail {
        Some(d) => {
            assert(text[k] == ' ');
            lemma_code_len(text, k);
            assert(text.take(k) =~= code);
            assert(text.skip(k + 1) =~= d);
        },
        None => {
            assert(text =~= code);
            lemma_code_len(text, k);
            assert(text.take(k) =~= code);
        },
    }
}

/// Whether every reply of `items` has a written form.
pub open spec fn all_writable(items: Seq<ValueModel>) -> bool {
    forall|i: int| 0 <= i < items.len() ==> writable(#[trigger] items[i])
}

proof fn lemma_read_number_line(buf: Seq<u8>, pos: int, marker: u8, n: i64)
    requires
        holds(buf, pos, line(marker, decimal_of(n as int))),
        marker == INTEGER || marker == BULK || marker == ARRAY,
    ensures
        buf[pos] == marker,
        find_terminator(buf, pos + 1) matches Some(at) && at + 2 == pos + line(
            marker,
            decimal_of(n as int),
        ).len() && head_of(marker, buf.subrange(pos + 1, at)) == (if marker == INTEGER {
            Ok::<Head, ParseFault>(Head::Leaf(ValueModel::Integer(n)))
        } else if n < 0 {
            Ok(Head::Leaf(ValueModel::Nil))
        } else if marker == ARRAY {
            Ok(Head::Open(n as nat))
        } else {
            Ok(Head::Payload(n as nat))
        }),
{
    lemma_decimal_unbroken(n as int);
    lemma_read_line(buf, pos, marker, decimal_of(n as int));
    lemma_integer_of_decimal(n);
}

proof fn lemma_ok_unbroken()
    ensures
        unbroken(encode_utf8("OK"@)),
{
    reveal_strlit("OK");
    let s = "OK"@;
    assert(s.len() == 2 && s[0] == 'O' && s[1] == 'K');
    assert forall|i: int| 0 <= i < s.len() implies '\0' <= #[trigger] s[i] <= '\u{7f}' by {}
    is_ascii_chars_encode_utf8(s);
    let bytes = encode_utf8(s);
    assert forall|i: int| !#[trigger] terminator_at(bytes, i) by {
        if 0 <= i < bytes.len() {
            assert(bytes[i] == s[i] as u8);
        }
    }
}

/// Reading undoes writing: where the written form of a reply stands in a
/// buffer, the grammar reads that reply there, and ends where the written
/// form ends.
pub proof fn lemma_read_value(buf: Seq<u8>, pos: int, v: ValueModel)
    requires
        writable(v),
        holds(buf, pos, wire(v)),
    ensures
        parse_value(buf, pos) == (Scan::Done { item: v, end: pos + wire(v).len() }),
    decreases v,
{
    match v {
        ValueModel::Nil => {
            lemma_read_number_line(buf, pos, BULK, -1i64);
        },
        ValueModel::Integer(n) => {
            lemma_read_number_line(buf, pos, INTEGER, n);
        },
        ValueModel::Okay => {
            lemma_ok_unbroken();
            lemma_read_line(buf, pos, STATUS, "OK"@);
        },
        ValueModel::SimpleString(text) => {
            lemma_read_line(buf, pos, STATUS, text);
        },
        ValueModel::Error(e) => {
            lemma_read_line(buf, pos, ERROR, error_text(e));
            lemma_classify_error_text(e);
        },
        ValueModel::BulkString(bytes) => {
            let head = line(BULK, decimal_of(bytes.len() as int));
            assert(wire(v) == (head + bytes) + line_end());
            lemma_holds_split(buf, pos, head + bytes, line_end());
            lemma_holds_split(buf, pos, head, bytes);
            lemma_read_number_line(buf, pos, BULK, bytes.len() as i64);
            let start = pos + head.len();
            let end = start + bytes.len();
            assert(line_end()[0] == CR && line_end()[1] == LF);
            assert(buf[end + 0] == line_end()[0]);
            assert(buf[end + 1] == line_end()[1]);
            assert(buf.subrange(start, end) =~= bytes) by {
                assert forall|i: int| 0 <= i < bytes.len() implies buf[start + i] == bytes[i] by {}
            }
        },
        ValueModel::Array(items) => {
            let head = line(ARRAY, decimal_of(items.len() as int));
            lemma_holds_split(buf, pos, head, wire_all(items));
            lemma_read_number_line(buf, pos, ARRAY, items.len() as i64);
            lemma_read_all(buf, pos + head.len(), items);
        },
    }
}

/// The same, of replies written one after the other.
pub proof fn lemma_read_all(buf: Seq<u8>, pos: int, items: Seq<ValueModel>)
    requires
        all_writable(items),
        holds(buf, pos, wire_all(items)),
    ensures
        parse_items(buf, pos, items.len()) == (Scan::Done {
            item: items,
            end: pos + wire_all(items).len(),
        }),
    decreases items,
{
    if items.len() == 0 {
        assert(items =~= Seq::empty());
    } else {
        let first = items[0];
        let rest = items.drop_first();
        lemma_holds_split(buf, pos, wire(first), wire_all(rest));
        lemma_read_value(buf, pos, first);
        lemma_parse_advances(buf, pos, 0);
        assert forall|i: int| 0 <= i < rest.len() implies writable(#[trigger] rest[i]) by {
            assert(rest[i] == items[i + 1]);
        }
        lemma_read_all(buf, pos + wire(first).len(), rest);
        assert(seq![first] + rest =~= items);
    }
}

} // verus!
