//! The drivers: they hand the decoder the bytes of a source and hand its
//! replies on. One takes the bytes as they are read; the other works on a
//! buffer that its caller fills.

use crate::buffer::{buffer_advance, buffer_bytes, buffer_extend, buffered};
use crate::decoder::{outcome_of, Decoder, Outcome};
use crate::grammar::{decode, extends, Scan};
use crate::types::{ErrorModel, RedisError, RedisResult, Value, ValueModel};
use bytes::BytesMut;
use vstd::prelude::*;

verus! {

/// What a driver returns for what the grammar makes of the bytes it holds,
/// where `eof` says that no more bytes will come.
///
/// A complete reply is returned, but for an error that the server signalled,
/// which is returned as the failure. Bytes that are no reply make a failure
/// that names what broke the framing. Where the bytes end inside a reply,
/// the driver asks for more; at the end of the stream that is a failure of
/// its own, unless no byte is left, which is the clean end.
pub open spec fn reply_of(parsed: Scan<ValueModel>, pending: nat, eof: bool) -> Result<
    Option<ValueModel>,
    ErrorModel,
> {
    match parsed {
        Scan::Done { item: ValueModel::Error(e), .. } => Err(e),
        Scan::Done { item, .. } => Ok(Some(item)),
        Scan::Bad { fault } => Err(ErrorModel::Parse { fault }),
        Scan::More => if eof && pending > 0 {
            Err(ErrorModel::UnexpectedEof)
        } else {
            Ok(None)
        },
    }
}

/// The bytes that stay in the buffer of a driver: a complete reply leaves,
/// all else stays.
pub open spec fn left_of(parsed: Scan<ValueModel>, buf: Seq<u8>) -> Seq<u8> {
    match parsed {
        Scan::Done { end, .. } => buf.skip(end),
        _ => buf,
    }
}

/// Whether `r` holds what `expected` says.
pub open spec fn returned(
    r: RedisResult<Option<Value>>,
    expected: Result<Option<ValueModel>, ErrorModel>,
) -> bool {
    match expected {
        Ok(Some(v)) => r matches Ok(Some(x)) && x@ == v,
        Ok(None) => r matches Ok(None),
        Err(e) => r matches Err(x) && x@ == e,
    }
}

/// Turns what the decoder made of a buffer into what a driver returns.
fn conclude(outcome: Outcome, pending: usize, eof: bool) -> (r: RedisResult<Option<Value>>)
    ensures
        forall|parsed: Scan<ValueModel>| #[trigger]
            outcome_of(outcome, parsed) ==> returned(
                r,
                reply_of(parsed, pending as nat, eof),
            ),
{
    match outcome {
        Outcome::Completed { value, .. } => match value {
            Value::Error(e) => Err(e),
            value => Ok(Some(value)),
        },
        Outcome::Error(e) => Err(e),
        Outcome::NeedMoreInput => if eof && pending > 0 {
            Err(RedisError::unexpected_eof())
        } else {
            Ok(None)
        },
    }
}

/// The streaming driver: it decodes from a buffer that its caller fills and
/// keeps between calls.
pub struct ValueCodec {
    decoder: Decoder,
}

impl Default for ValueCodec {
    fn default() -> (r: ValueCodec)
        ensures
            r.wf(),
            forall|buf: Seq<u8>| #[trigger] r.tracks(buf),
    {
        ValueCodec { decoder: Decoder::new() }
    }
}

impl ValueCodec {
    /// Whether the parts of the state fit together.
    pub closed spec fn wf(&self) -> bool {
        self.decoder.wf()
    }

    /// Whether what the codec has kept from earlier calls is true of `buf`.
    /// It is true of the buffer of the last call that asked for more bytes,
    /// and of that buffer with more bytes behind it; after a reply or a
    /// failure it is true of every buffer.
    pub closed spec fn tracks(&self, buf: Seq<u8>) -> bool {
        self.decoder.tracks(buf)
    }

    /// What is true of a buffer is true of the buffer with more bytes behind
    /// it.
    pub proof fn lemma_tracks_extends(&self, a: Seq<u8>, b: Seq<u8>)
        requires
            self.tracks(a),
            extends(a, b),
        ensures
            self.tracks(b),
    {
        self.decoder.lemma_tracks_extends(a, b);
    }

    fn decode_stream(&mut self, bytes: &mut BytesMut, eof: bool) -> (r: RedisResult<
        Option<Value>,
    >)
        requires
            old(self).wf(),
        ensures
            final(self).wf(),
            old(self).tracks(buffered(*old(bytes))) ==> {
                let buf = buffered(*old(bytes));
                &&& returned(r, reply_of(decode(buf), buf.len(), eof))
                &&& buffered(*final(bytes)) == left_of(decode(buf), buf)
                &&& final(self).tracks(buffered(*final(bytes)))
                &&& !(r matches Ok(None)) ==> forall|b: Seq<u8>| #[trigger] final(self).tracks(b)
            },
    {
        let ghost buf = buffered(*bytes);
        let buffer = buffer_bytes(bytes);
        let pending: usize = buffer.len();
        let outcome = self.decoder.feed(buffer);
        match outcome {
            Outcome::Completed { used, .. } => {
                buffer_advance(bytes, used);
            },
            Outcome::NeedMoreInput => {
                if eof && pending > 0 {
                    self.decoder.reset();
                }
            },
            Outcome::Error(_) => {},
        }
        conclude(outcome, pending, eof)
    }

    /// Takes one reply from the front of `bytes`, while more bytes may come.
    ///
    /// A complete reply leaves the buffer. Where the buffer ends inside a
    /// reply, nothing leaves it and `Ok(None)` asks for a call with more
    /// bytes behind the same.
    pub fn decode(&mut self, bytes: &mut BytesMut) -> (r: RedisResult<Option<Value>>)
        requires
            old(self).wf(),
        ensures
            final(self).wf(),
            old(self).tracks(buffered(*old(bytes))) ==> {
                let buf = buffered(*old(bytes));
                &&& returned(r, reply_of(decode(buf), buf.len(), false))
                &&& buffered(*final(bytes)) == left_of(decode(buf), buf)
                &&& final(self).tracks(buffered(*final(bytes)))
                &&& !(r matches Ok(None)) ==> forall|b: Seq<u8>| #[trigger] final(self).tracks(b)
            },
    {
        self.decode_stream(bytes, false)
    }

    /// Takes one reply from the front of `bytes`, after the stream has ended.
    ///
    /// An empty buffer is the clean end, `Ok(None)`; a buffer that ends
    /// inside a reply is a failure.
    pub fn decode_eof(&mut self, bytes: &mut BytesMut) -> (r: RedisResult<Option<Value>>)
        requires
            old(self).wf(),
        ensures
            final(self).wf(),
            old(self).tracks(buffered(*old(bytes))) ==> {
                let buf = buffered(*old(bytes));
                &&& returned(r, reply_of(decode(buf), buf.len(), true))
                &&& buffered(*final(bytes)) == left_of(decode(buf), buf)
                &&& final(self).tracks(buffered(*final(bytes)))
                &&& !(r matches Ok(None)) ==> forall|b: Seq<u8>| #[trigger] final(self).tracks(b)
            },
    {
        self.decode_stream(bytes, true)
    }

    /// Writes a request, which is encoded already, behind what `dst` holds.
    pub fn encode(&mut self, item: Vec<u8>, dst: &mut BytesMut) -> (r: Result<(), RedisError>)
        ensures
            r is Ok,
            *final(self) == *old(self),
            buffered(*final(dst)) == buffered(*old(dst)) + item@,
    {
        buffer_extend(dst, item.as_slice());
        Ok(())
    }
}

/// The synchronous driver: it keeps the bytes that were read and not yet
/// decoded, and takes one reply from them at a time.
pub struct Parser {
    decoder: Decoder,
    buffer: Vec<u8>,
}

impl Default for Parser {
    fn default() -> (r: Parser)
        ensures
            r.wf(),
            r.pending() == Seq::<u8>::empty(),
    {
        Parser::new()
    }
}

impl Parser {
    /// Whether the parts of the state fit together.
    pub closed spec fn wf(&self) -> bool {
        self.decoder.wf() && self.decoder.tracks(self.buffer@)
    }

    /// The bytes that were read and belong to no reply that was returned.
    pub closed spec fn pending(&self) -> Seq<u8> {
        self.buffer@
    }

    /// A parser that has read nothing.
    pub fn new() -> (r: Parser)
        ensures
            r.wf(),
            r.pending() == Seq::<u8>::empty(),
    {
        Parser { decoder: Decoder::new(), buffer: Vec::new() }
    }

    /// One turn of the driver. `input` is what the source gave since the
    /// last turn, and `eof` says that it has ended.
    ///
    /// The bytes join those that the parser holds. A complete reply at their
    /// front leaves them and is returned. `Ok(None)` asks for another turn
    /// with more bytes, or, where `eof` is set, says that the source ended
    /// between two replies.
    pub fn parse_value(&mut self, input: &[u8], eof: bool) -> (r: RedisResult<Option<Value>>)
        requires
            old(self).wf(),
        ensures
            final(self).wf(),
            ({
                let buf = old(self).pending() + input@;
                &&& returned(r, reply_of(decode(buf), buf.len(), eof))
                &&& final(self).pending() == left_of(decode(buf), buf)
            }),
    {
        let ghost before = self.buffer@;
        self.buffer.extend_from_slice(input);
        proof {
            assert(self.buffer@ =~= before + input@);
            self.decoder.lemma_tracks_extends(before, self.buffer@);
        }
        let ghost buf = self.buffer@;
        let pending: usize = self.buffer.len();
        let outcome = self.decoder.feed(self.buffer.as_slice());
        match outcome {
            Outcome::Completed { used, .. } => {
                let rest = self.buffer.split_off(used);
                self.buffer = rest;
                assert(self.buffer@ =~= buf.skip(used as int));
            },
            Outcome::NeedMoreInput => {
                if eof && pending > 0 {
                    self.decoder.reset();
                }
            },
            Outcome::Error(_) => {},
        }
        conclude(outcome, pending, eof)
    }
}

/// Decodes the reply at the front of `bytes`.
///
/// What follows the reply is left aside. Bytes that end inside a reply, and
/// no bytes at all, are a failure.
pub fn parse_redis_value(bytes: &[u8]) -> (r: RedisResult<Value>)
    ensures
        match decode(bytes@) {
            Scan::Done { item: ValueModel::Error(e), .. } => r matches Err(x) && x@ == e,
            Scan::Done { item, .. } => r matches Ok(x) && x@ == item,
            Scan::Bad { fault } => r matches Err(x) && x@ == (ErrorModel::Parse { fault }),
            Scan::More => r matches Err(x) && x@ == ErrorModel::UnexpectedEof,
        },
{
    let mut decoder = Decoder::new();
    match conclude(decoder.feed(bytes), bytes.len(), true) {
        Ok(Some(value)) => Ok(value),
        Ok(None) => Err(RedisError::unexpected_eof()),
        Err(e) => Err(e),
    }
}

} // verus!
