//! Replies on the wire, read by the grammar: worked examples.
//!
//! Each proof takes the bytes of a reply as a server sends it and shows what
//! the grammar makes of them. [`lemma_plain_line`] is the step that they
//! share: it finds the end of a line of ASCII bytes and reads its text.

use crate::classify::lemma_code_len;
use crate::grammar::{
    decode, find_terminator, lemma_first_terminator, parse_items, parse_value, terminator_at, Scan,
    CR, LF,
};
use crate::parser::reply_of;
use crate::text::{ascii_text, is_digit, lemma_ascii_text};
use crate::types::{ErrorKind, ErrorModel, ParseFault, ValueModel};
use crate::wire::{decimal_of, digits_of, lemma_integer_of_decimal};
use vstd::prelude::*;
use vstd::utf8::*;

verus! {

/// The bytes of a text of ASCII characters.
pub open spec fn ascii_bytes(text: Seq<char>) -> Seq<u8> {
    Seq::new(text.len(), |i: int| text[i] as u8)
}

/// A line of `len` ASCII bytes without a line feed, which stands behind the
/// type marker at `pos` and is followed by the terminator, ends at that
/// terminator and is text, one character for each byte.
pub proof fn lemma_plain_line(buf: Seq<u8>, pos: int, len: int)
    requires
        0 <= pos,
        0 <= len,
        pos + len + 3 <= buf.len(),
        forall|i: int| pos < i <= pos + len ==> #[trigger] buf[i] < 128 && buf[i] != LF,
        buf[pos + len + 1] == CR,
        buf[pos + len + 2] == LF,
    ensures
        find_terminator(buf, pos + 1) == Some(pos + len + 1),
        valid_utf8(buf.subrange(pos + 1, pos + len + 1)),
        decode_utf8(buf.subrange(pos + 1, pos + len + 1)) == ascii_text(
            buf.subrange(pos + 1, pos + len + 1),
        ),
{
    let at = pos + len + 1;
    assert forall|i: int| pos + 1 <= i < at implies !terminator_at(buf, i) by {
        if i + 1 < at {
            assert(buf[i + 1] != LF);
        }
    }
    lemma_first_terminator(buf, pos + 1, at);
    let line = buf.subrange(pos + 1, at);
    assert forall|i: int| 0 <= i < line.len() implies line[i] < 128 by {
        assert(line[i] == buf[pos + 1 + i]);
    }
    lemma_ascii_text(line);
}

/// `+OK` is the status `Okay`.
pub proof fn example_status_ok()
    ensures
        decode(ascii_bytes("+OK\r\n"@)) == (Scan::Done { item: ValueModel::Okay, end: 5 }),
{
    reveal_strlit("+OK\r\n");
    reveal_strlit("OK");
    let buf = ascii_bytes("+OK\r\n"@);
    lemma_plain_line(buf, 0, 2);
    assert(ascii_text(buf.subrange(1, 3)) =~= "OK"@);
}

/// `+PONG` is a status of its own.
pub proof fn example_status_pong()
    ensures
        decode(ascii_bytes("+PONG\r\n"@)) == (Scan::Done {
            item: ValueModel::SimpleString("PONG"@),
            end: 7,
        }),
{
    reveal_strlit("+PONG\r\n");
    reveal_strlit("PONG");
    reveal_strlit("OK");
    let buf = ascii_bytes("+PONG\r\n"@);
    lemma_plain_line(buf, 0, 4);
    assert(ascii_text(buf.subrange(1, 5)) =~= "PONG"@);
    assert("PONG"@.len() != "OK"@.len());
}

/// A binary string of length -1 is the absent value.
pub proof fn example_nil_string()
    ensures
        decode(ascii_bytes("$-1\r\n"@)) == (Scan::Done { item: ValueModel::Nil, end: 5 }),
{
    reveal_strlit("$-1\r\n");
    let buf = ascii_bytes("$-1\r\n"@);
    lemma_plain_line(buf, 0, 2);
    lemma_integer_of_decimal(-1i64);
    assert(ascii_text(buf.subrange(1, 3)) =~= decimal_of(-1));
}

/// An array of -1 elements is the absent value.
pub proof fn example_nil_array()
    ensures
        decode(ascii_bytes("*-1\r\n"@)) == (Scan::Done { item: ValueModel::Nil, end: 5 }),
{
    reveal_strlit("*-1\r\n");
    let buf = ascii_bytes("*-1\r\n"@);
    lemma_plain_line(buf, 0, 2);
    lemma_integer_of_decimal(-1i64);
    assert(ascii_text(buf.subrange(1, 3)) =~= decimal_of(-1));
}

/// An array of no elements is the empty array.
pub proof fn example_empty_array()
    ensures
        decode(ascii_bytes("*0\r\n"@)) == (Scan::Done {
            item: ValueModel::Array(Seq::empty()),
            end: 4,
        }),
{
    reveal_strlit("*0\r\n");
    let buf = ascii_bytes("*0\r\n"@);
    lemma_plain_line(buf, 0, 1);
    lemma_integer_of_decimal(0i64);
    assert(ascii_text(buf.subrange(1, 2)) =~= decimal_of(0));
}

/// An integer in base ten.
pub proof fn example_integer()
    ensures
        decode(ascii_bytes(":1000\r\n"@)) == (Scan::Done {
            item: ValueModel::Integer(1000),
            end: 7,
        }),
{
    reveal_strlit(":1000\r\n");
    let buf = ascii_bytes(":1000\r\n"@);
    lemma_plain_line(buf, 0, 4);
    lemma_integer_of_decimal(1000i64);
    reveal_with_fuel(digits_of, 4);
    assert(ascii_text(buf.subrange(1, 5)) =~= decimal_of(1000));
}

/// Letters where an integer must stand break the framing.
pub proof fn example_integer_garbage()
    ensures
        decode(ascii_bytes(":abc\r\n"@)) == (Scan::<ValueModel>::Bad {
            fault: ParseFault::ExpectedInteger,
        }),
{
    reveal_strlit(":abc\r\n");
    let buf = ascii_bytes(":abc\r\n"@);
    lemma_plain_line(buf, 0, 3);
    let text = ascii_text(buf.subrange(1, 4));
    assert(text.len() == 3 && text[0] == 'a' && text[2] == 'c');
    assert(!is_digit(text[0]));
}

/// An array of two binary strings.
pub proof fn example_array_of_strings()
    ensures
        decode(ascii_bytes("*2\r\n$3\r\nfoo\r\n$3\r\nbar\r\n"@)) == (Scan::Done {
            item: ValueModel::Array(
                seq![
                    ValueModel::BulkString(ascii_bytes("foo"@)),
                    ValueModel::BulkString(ascii_bytes("bar"@)),
                ],
            ),
            end: 22,
        }),
{
    reveal_strlit("*2\r\n$3\r\nfoo\r\n$3\r\nbar\r\n");
    reveal_strlit("foo");
    reveal_strlit("bar");
    let buf = ascii_bytes("*2\r\n$3\r\nfoo\r\n$3\r\nbar\r\n"@);
    lemma_integer_of_decimal(2i64);
    lemma_integer_of_decimal(3i64);
    lemma_plain_line(buf, 0, 1);
    assert(ascii_text(buf.subrange(1, 2)) =~= decimal_of(2));
    lemma_plain_line(buf, 4, 1);
    assert(ascii_text(buf.subrange(5, 6)) =~= decimal_of(3));
    assert(buf.subrange(8, 11) =~= ascii_bytes("foo"@));
    lemma_plain_line(buf, 13, 1);
    assert(ascii_text(buf.subrange(14, 15)) =~= decimal_of(3));
    assert(buf.subrange(17, 20) =~= ascii_bytes("bar"@));
    let first = ValueModel::BulkString(ascii_bytes("foo"@));
    let second = ValueModel::BulkString(ascii_bytes("bar"@));
    assert(parse_value(buf, 4) == Scan::Done { item: first, end: 13 });
    assert(parse_value(buf, 13) == Scan::Done { item: second, end: 22 });
    assert(parse_items(buf, 22, 0) == Scan::Done { item: Seq::<ValueModel>::empty(), end: 22 });
    assert(seq![second] + Seq::<ValueModel>::empty() =~= seq![second]);
    assert(parse_items(buf, 13, 1) == Scan::Done { item: seq![second], end: 22 });
    assert(seq![first] + seq![second] =~= seq![first, second]);
    assert(parse_items(buf, 4, 2) == Scan::Done { item: seq![first, second], end: 22 });
}

/// A binary string that lacks bytes waits for them; at the end of the
/// stream that is a failure, not the clean end.
pub proof fn example_truncated_string()
    ensures
        decode(ascii_bytes("$5\r\nhel"@)) is More,
        reply_of(decode(ascii_bytes("$5\r\nhel"@)), 7, true) == Err::<
            Option<ValueModel>,
            ErrorModel,
        >(ErrorModel::UnexpectedEof),
{
    reveal_strlit("$5\r\nhel");
    let buf = ascii_bytes("$5\r\nhel"@);
    lemma_plain_line(buf, 0, 1);
    lemma_integer_of_decimal(5i64);
    assert(ascii_text(buf.subrange(1, 2)) =~= decimal_of(5));
}

/// The code `ERR` is the generic error, and what follows the first space is
/// its detail.
pub proof fn example_generic_error()
    ensures
        decode(ascii_bytes("-ERR unknown command\r\n"@)) == (Scan::Done {
            item: ValueModel::Error(
                ErrorModel::Server {
                    kind: ErrorKind::ResponseError,
                    detail: Some("unknown command"@),
                },
            ),
            end: 22,
        }),
{
    reveal_strlit("-ERR unknown command\r\n");
    reveal_strlit("ERR");
    reveal_strlit("unknown command");
    let buf = ascii_bytes("-ERR unknown command\r\n"@);
    lemma_plain_line(buf, 0, 19);
    let text = ascii_text(buf.subrange(1, 20));
    assert(text.len() == 19);
    assert(text[0] == 'E' && text[1] == 'R' && text[2] == 'R' && text[3] == ' ');
    lemma_code_len(text, 3);
    assert(text.take(3) =~= "ERR"@);
    assert(text.skip(4) =~= "unknown command"@);
}

/// The code `MOVED` is a redirection, and the detail keeps its own spaces.
pub proof fn example_moved_error()
    ensures
        decode(ascii_bytes("-MOVED 1234 127.0.0.1:7001\r\n"@)) == (Scan::Done {
            item: ValueModel::Error(
                ErrorModel::Server {
                    kind: ErrorKind::Moved,
                    detail: Some("1234 127.0.0.1:7001"@),
                },
            ),
            end: 28,
        }),
{
    reveal_strlit("-MOVED 1234 127.0.0.1:7001\r\n");
    reveal_strlit("ERR");
    reveal_strlit("EXECABORT");
    reveal_strlit("LOADING");
    reveal_strlit("NOSCRIPT");
    reveal_strlit("MOVED");
    reveal_strlit("1234 127.0.0.1:7001");
    let buf = ascii_bytes("-MOVED 1234 127.0.0.1:7001\r\n"@);
    lemma_plain_line(buf, 0, 25);
    let text = ascii_text(buf.subrange(1, 26));
    assert(text.len() == 25);
    assert(text[0] == 'M' && text[1] == 'O' && text[2] == 'V' && text[3] == 'E' && text[4] == 'D'
        && text[5] == ' ');
    lemma_code_len(text, 5);
    assert(text.take(5) =~= "MOVED"@);
    assert(text.skip(6) =~= "1234 127.0.0.1:7001"@);
    assert("MOVED"@.len() == 5 && "ERR"@.len() == 3 && "EXECABORT"@.len() == 9 && "LOADING"@.len()
        == 7 && "NOSCRIPT"@.len() == 8);
}

/// A code outside the table tags an extension error.
pub proof fn example_extension_error()
    ensures
        decode(ascii_bytes("-WEIRDCODE extra info\r\n"@)) == (Scan::Done {
            item: ValueModel::Error(
                ErrorModel::Extension { code: "WEIRDCODE"@, detail: Some("extra info"@) },
            ),
            end: 23,
        }),
{
    reveal_strlit("-WEIRDCODE extra info\r\n");
    reveal_strlit("WEIRDCODE");
    reveal_strlit("extra info");
    reveal_strlit("ERR");
    reveal_strlit("EXECABORT");
    reveal_strlit("LOADING");
    reveal_strlit("NOSCRIPT");
    reveal_strlit("MOVED");
    reveal_strlit("ASK");
    reveal_strlit("TRYAGAIN");
    reveal_strlit("CLUSTERDOWN");
    reveal_strlit("CROSSSLOT");
    reveal_strlit("MASTERDOWN");
    reveal_strlit("READONLY");
    let buf = ascii_bytes("-WEIRDCODE extra info\r\n"@);
    lemma_plain_line(buf, 0, 20);
    let text = ascii_text(buf.subrange(1, 21));
    assert(text.len() == 20);
    assert(text[0] == 'W' && text[1] == 'E' && text[2] == 'I' && text[3] == 'R' && text[4] == 'D'
        && text[5] == 'C' && text[6] == 'O' && text[7] == 'D' && text[8] == 'E' && text[9]
        == ' ');
    lemma_code_len(text, 9);
    let code = text.take(9);
    assert(code =~= "WEIRDCODE"@);
    assert(text.skip(10) =~= "extra info"@);
    assert(code.len() == 9 && code[0] == 'W');
    assert("ERR"@.len() == 3 && "ASK"@.len() == 3 && "MOVED"@.len() == 5 && "LOADING"@.len() == 7
        && "NOSCRIPT"@.len() == 8 && "TRYAGAIN"@.len() == 8 && "READONLY"@.len() == 8
        && "MASTERDOWN"@.len() == 10 && "CLUSTERDOWN"@.len() == 11);
    assert("EXECABORT"@[0] == 'E' && "CROSSSLOT"@[0] == 'C');
}

} // verus!
