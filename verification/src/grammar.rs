//! The wire format, stated over sequences of bytes.
//!
//! Every reply begins with a one-byte type marker and a line that ends in the
//! two bytes carriage return and line feed. What [`parse_value`] says of a
//! buffer is what the decoder returns for it, however the buffer arrived.

use crate::builder::status_value;
use crate::classify::classify;
use crate::text::integer_of;
use crate::types::{ParseFault, ValueModel};
use vstd::prelude::*;
use vstd::utf8::*;

verus! {

/// The marker of a status line, `+`.
pub const STATUS: u8 = 0x2b;

/// The marker of an error line, `-`.
pub const ERROR: u8 = 0x2d;

/// The marker of an integer, `:`.
pub const INTEGER: u8 = 0x3a;

/// The marker of a binary string, `$`.
pub const BULK: u8 = 0x24;

/// The marker of an array, `*`.
pub const ARRAY: u8 = 0x2a;

/// Carriage return, the first byte of the line terminator.
pub const CR: u8 = 0x0d;

/// Line feed, the second byte of the line terminator.
pub const LF: u8 = 0x0a;

/// Whether `b` is one of the five type markers.
pub open spec fn is_marker(b: u8) -> bool {
    b == STATUS || b == ERROR || b == INTEGER || b == BULK || b == ARRAY
}

/// Whether the line terminator begins at index `i` of `buf`.
pub open spec fn terminator_at(buf: Seq<u8>, i: int) -> bool {
    0 <= i && i + 1 < buf.len() && buf[i] == CR && buf[i + 1] == LF
}

/// Where the first line terminator at or after `from` begins, if `buf` holds
/// one.
pub open spec fn find_terminator(buf: Seq<u8>, from: int) -> Option<int>
    decreases buf.len() - from,
{
    if from < 0 || from + 1 >= buf.len() {
        None
    } else if terminator_at(buf, from) {
        Some(from)
    } else {
        find_terminator(buf, from + 1)
    }
}

/// How far the reading of one item went.
pub enum Scan<T> {
    /// The item is complete, and the next one begins at `end`.
    Done { item: T, end: int },
    /// The buffer ends inside the item.
    More,
    /// The bytes are no item.
    Bad { fault: ParseFault },
}

/// What a line announces.
pub enum Head {
    /// A value that the line holds in full.
    Leaf(ValueModel),
    /// An array of so many elements, which follow.
    Open(nat),
    /// A binary string of so many bytes, which follow.
    Payload(nat),
}

/// One step of the grammar: a complete scalar, or the opening of an array.
pub enum Token {
    /// A value that is complete with this token.
    Leaf(ValueModel),
    /// The header of an array of so many elements.
    Open(nat),
}

/// What the line after the type marker `marker` announces. A line must be
/// text; the lines of integers, binary strings and arrays must hold an
/// integer; a negative length or count stands for the absent value.
pub open spec fn head_of(marker: u8, line: Seq<u8>) -> Result<Head, ParseFault> {
    if !valid_utf8(line) {
        Err(ParseFault::InvalidText)
    } else if marker == STATUS {
        Ok(Head::Leaf(status_value(decode_utf8(line))))
    } else if marker == ERROR {
        Ok(Head::Leaf(ValueModel::Error(classify(decode_utf8(line)))))
    } else {
        match integer_of(decode_utf8(line)) {
            None => Err(ParseFault::ExpectedInteger),
            Some(n) => if marker == INTEGER {
                Ok(Head::Leaf(ValueModel::Integer(n)))
            } else if n < 0 {
                Ok(Head::Leaf(ValueModel::Nil))
            } else if marker == ARRAY {
                Ok(Head::Open(n as nat))
            } else {
                Ok(Head::Payload(n as nat))
            },
        }
    }
}

/// The binary string of `len` bytes that begins at `start`: its bytes, then
/// the line terminator at once.
pub open spec fn payload_at(buf: Seq<u8>, start: int, len: nat) -> Scan<Token> {
    let end = start + len;
    if end < buf.len() && buf[end] != CR {
        Scan::Bad { fault: ParseFault::ExpectedTerminator }
    } else if end + 1 < buf.len() && buf[end + 1] != LF {
        Scan::Bad { fault: ParseFault::ExpectedTerminator }
    } else if buf.len() < end + 2 {
        Scan::More
    } else {
        Scan::Done {
            item: Token::Leaf(ValueModel::BulkString(buf.subrange(start, end))),
            end: end + 2,
        }
    }
}

/// The token that begins at `pos`.
pub open spec fn token_at(buf: Seq<u8>, pos: int) -> Scan<Token> {
    if pos < 0 || pos >= buf.len() {
        Scan::More
    } else if !is_marker(buf[pos]) {
        Scan::Bad { fault: ParseFault::UnexpectedByte(buf[pos]) }
    } else {
        match find_terminator(buf, pos + 1) {
            None => Scan::More,
            Some(at) => match head_of(buf[pos], buf.subrange(pos + 1, at)) {
                Err(fault) => Scan::Bad { fault },
                Ok(Head::Leaf(v)) => Scan::Done { item: Token::Leaf(v), end: at + 2 },
                Ok(Head::Open(n)) => Scan::Done { item: Token::Open(n), end: at + 2 },
                Ok(Head::Payload(n)) => payload_at(buf, at + 2, n),
            },
        }
    }
}

/// The first terminator at or after `from` begins at or after `from`, inside
/// the buffer, and none begins between the two.
pub proof fn lemma_find_terminator(buf: Seq<u8>, from: int)
    requires
        0 <= from,
    ensures
        match find_terminator(buf, from) {
            Some(at) => from <= at && terminator_at(buf, at) && forall|i: int|
                from <= i < at ==> !terminator_at(buf, i),
            None => forall|i: int| from <= i ==> !terminator_at(buf, i),
        },
    decreases buf.len() - from,
{
    if from + 1 >= buf.len() {
    } else if terminator_at(buf, from) {
    } else {
        lemma_find_terminator(buf, from + 1);
    }
}

/// A terminator with none before it is the first.
pub proof fn lemma_first_terminator(buf: Seq<u8>, from: int, at: int)
    requires
        0 <= from <= at,
        terminator_at(buf, at),
        forall|i: int| from <= i < at ==> !terminator_at(buf, i),
    ensures
        find_terminator(buf, from) == Some(at),
    decreases at - from,
{
    if from < at {
        lemma_first_terminator(buf, from + 1, at);
    }
}

/// A token takes at least one byte, and ends inside the buffer.
pub proof fn lemma_token_advances(buf: Seq<u8>, pos: int)
    ensures
        token_at(buf, pos) matches Scan::Done { end, .. } ==> pos < end <= buf.len(),
{
    if 0 <= pos < buf.len() {
        lemma_find_terminator(buf, pos + 1);
    }
}

/// The value that begins at `pos`: a scalar, or an array with all its
/// elements.
pub open spec fn parse_value(buf: Seq<u8>, pos: int) -> Scan<ValueModel>
    decreases buf.len() - pos, 0nat, 0nat,
{
    match token_at(buf, pos) {
        Scan::More => Scan::More,
        Scan::Bad { fault } => Scan::Bad { fault },
        Scan::Done { item: Token::Leaf(v), end } => Scan::Done { item: v, end },
        Scan::Done { item: Token::Open(n), end } => {
            proof {
                lemma_token_advances(buf, pos);
            }
            match parse_items(buf, end, n) {
                Scan::More => Scan::More,
                Scan::Bad { fault } => Scan::Bad { fault },
                Scan::Done { item, end } => Scan::Done { item: ValueModel::Array(item), end },
            }
        },
    }
}

/// The `n` values that begin at `pos`, one after the other.
pub open spec fn parse_items(buf: Seq<u8>, pos: int, n: nat) -> Scan<Seq<ValueModel>>
    decreases buf.len() - pos, 1nat, n,
{
    if n == 0 {
        Scan::Done { item: Seq::empty(), end: pos }
    } else {
        match parse_value(buf, pos) {
            Scan::More => Scan::More,
            Scan::Bad { fault } => Scan::Bad { fault },
            Scan::Done { item: first, end } => if pos < end <= buf.len() {
                match parse_items(buf, end, (n - 1) as nat) {
                    Scan::More => Scan::More,
                    Scan::Bad { fault } => Scan::Bad { fault },
                    Scan::Done { item: rest, end } => Scan::Done { item: seq![first] + rest, end },
                }
            } else {
                Scan::More
            },
        }
    }
}

/// What a buffer holds at its front: a complete reply and the number of
/// bytes it takes, the beginning of one, or no reply at all.
pub open spec fn decode(buf: Seq<u8>) -> Scan<ValueModel> {
    parse_value(buf, 0)
}

/// Whether `a` and `b` hold the same first `n` bytes.
pub open spec fn agrees(a: Seq<u8>, b: Seq<u8>, n: int) -> bool {
    &&& n <= a.len()
    &&& n <= b.len()
    &&& forall|i: int| 0 <= i < n ==> a[i] == b[i]
}

/// Whether `b` is `a` with more bytes behind it, or `a` itself.
pub open spec fn extends(a: Seq<u8>, b: Seq<u8>) -> bool {
    agrees(a, b, a.len() as int)
}

/// A buffer that holds the first terminator of another, and the bytes before
/// it, has its first terminator in the same place.
pub proof fn lemma_find_terminator_local(a: Seq<u8>, b: Seq<u8>, from: int, at: int)
    requires
        0 <= from,
        find_terminator(a, from) == Some(at),
        agrees(a, b, at + 2),
    ensures
        find_terminator(b, from) == Some(at),
{
    lemma_find_terminator(a, from);
    assert forall|i: int| from <= i < at implies !terminator_at(b, i) by {
        assert(!terminator_at(a, i));
    }
    lemma_first_terminator(b, from, at);
}

/// A complete token is the same in every buffer that holds its bytes in the
/// same place.
pub proof fn lemma_token_local(a: Seq<u8>, b: Seq<u8>, pos: int)
    requires
        token_at(a, pos) is Done,
        agrees(a, b, token_at(a, pos)->end),
    ensures
        token_at(b, pos) == token_at(a, pos),
{
    lemma_token_advances(a, pos);
    lemma_find_terminator(a, pos + 1);
    let at = find_terminator(a, pos + 1)->0;
    let end = token_at(a, pos)->end;
    assert(at + 2 <= end) by {
        lemma_head_end(a, pos);
    }
    lemma_find_terminator_local(a, b, pos + 1, at);
    assert(a.subrange(pos + 1, at) =~= b.subrange(pos + 1, at));
    match head_of(a[pos], a.subrange(pos + 1, at)) {
        Ok(Head::Payload(n)) => {
            assert(a.subrange(at + 2, at + 2 + n) =~= b.subrange(at + 2, at + 2 + n));
        },
        _ => {},
    }
}

proof fn lemma_head_end(a: Seq<u8>, pos: int)
    requires
        token_at(a, pos) is Done,
    ensures
        find_terminator(a, pos + 1) is Some,
        find_terminator(a, pos + 1)->0 + 2 <= token_at(a, pos)->end,
{
}

/// A broken token stays broken, in the same way, whatever follows.
pub proof fn lemma_token_bad(a: Seq<u8>, b: Seq<u8>, pos: int)
    requires
        token_at(a, pos) is Bad,
        extends(a, b),
    ensures
        token_at(b, pos) == token_at(a, pos),
{
    if is_marker(a[pos]) {
        lemma_find_terminator(a, pos + 1);
        let at = find_terminator(a, pos + 1)->0;
        lemma_find_terminator_local(a, b, pos + 1, at);
        assert(a.subrange(pos + 1, at) =~= b.subrange(pos + 1, at));
    }
}

/// A complete value ends after it begins and inside the buffer, and so do
/// complete sequences of values.
pub proof fn lemma_parse_advances(buf: Seq<u8>, pos: int, n: nat)
    ensures
        parse_value(buf, pos) matches Scan::Done { end, .. } ==> pos < end <= buf.len(),
        parse_items(buf, pos, n) matches Scan::Done { end, .. } ==> pos <= end && (pos
            <= buf.len() ==> end <= buf.len()),
        parse_items(buf, pos, n) matches Scan::Done { item, .. } ==> item.len() == n,
{
    lemma_token_advances(buf, pos);
    match token_at(buf, pos) {
        Scan::Done { item: Token::Open(m), end } => {
            lemma_items_advance(buf, end, m);
        },
        _ => {},
    }
    lemma_items_advance(buf, pos, n);
}

proof fn lemma_items_advance(buf: Seq<u8>, pos: int, n: nat)
    ensures
        parse_items(buf, pos, n) matches Scan::Done { end, .. } ==> pos <= end && (pos
            <= buf.len() ==> end <= buf.len()),
        parse_items(buf, pos, n) matches Scan::Done { item, .. } ==> item.len() == n,
    decreases n,
{
    if n > 0 {
        match parse_value(buf, pos) {
            Scan::Done { item, end } => {
                if pos < end <= buf.len() {
                    lemma_items_advance(buf, end, (n - 1) as nat);
                }
            },
            _ => {},
        }
    }
}

/// A complete value is the same in every buffer that holds its bytes in the
/// same place, and a broken one stays broken whatever follows.
pub proof fn lemma_value_local(a: Seq<u8>, b: Seq<u8>, pos: int)
    ensures
        parse_value(a, pos) matches Scan::Done { end, .. } && agrees(a, b, end) ==> parse_value(
            b,
            pos,
        ) == parse_value(a, pos),
        parse_value(a, pos) is Bad && extends(a, b) ==> parse_value(b, pos) == parse_value(a, pos),
    decreases a.len() - pos, 0nat, 0nat,
{
    lemma_token_advances(a, pos);
    lemma_parse_advances(a, pos, 0);
    match token_at(a, pos) {
        Scan::More => {},
        Scan::Bad { .. } => {
            if extends(a, b) {
                lemma_token_bad(a, b, pos);
            }
        },
        Scan::Done { item: Token::Leaf(_), end } => {
            if agrees(a, b, end) {
                lemma_token_local(a, b, pos);
            }
        },
        Scan::Done { item: Token::Open(n), end } => {
            lemma_items_local(a, b, end, n);
            lemma_parse_advances(a, end, n);
            if parse_value(a, pos) matches Scan::Done { end: last, .. } && agrees(a, b, last) {
                assert(agrees(a, b, end));
                lemma_token_local(a, b, pos);
            }
            if parse_value(a, pos) is Bad && extends(a, b) {
                assert(agrees(a, b, end));
                lemma_token_local(a, b, pos);
            }
        },
    }
}

/// The same, of sequences of values.
pub proof fn lemma_items_local(a: Seq<u8>, b: Seq<u8>, pos: int, n: nat)
    ensures
        parse_items(a, pos, n) matches Scan::Done { end, .. } && agrees(a, b, end) ==> parse_items(
            b,
            pos,
            n,
        ) == parse_items(a, pos, n),
        parse_items(a, pos, n) is Bad && extends(a, b) ==> parse_items(b, pos, n) == parse_items(
            a,
            pos,
            n,
        ),
    decreases a.len() - pos, 1nat, n,
{
    if n > 0 {
        lemma_value_local(a, b, pos);
        lemma_parse_advances(a, pos, 0);
        match parse_value(a, pos) {
            Scan::Done { end, .. } => {
                lemma_items_local(a, b, end, (n - 1) as nat);
                lemma_parse_advances(a, end, (n - 1) as nat);
                if parse_items(a, pos, n) matches Scan::Done { end: last, .. } && agrees(
                    a,
                    b,
                    last,
                ) {
                    assert(agrees(a, b, end));
                }
                if parse_items(a, pos, n) is Bad && extends(a, b) {
                    assert(agrees(a, b, end));
                }
            },
            _ => {},
        }
    }
}

/// What a buffer holds at its front does not change when bytes arrive behind
/// it: a complete reply stays the same reply of the same length, and a
/// broken one stays broken in the same way.
pub proof fn lemma_decode_stable(a: Seq<u8>, b: Seq<u8>)
    requires
        extends(a, b),
        !(decode(a) is More),
    ensures
        decode(b) == decode(a),
{
    lemma_value_local(a, b, 0);
    lemma_parse_advances(a, 0, 0);
}

} // verus!
