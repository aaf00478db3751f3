//! Streams of replies, and why it does not matter how a stream is cut.
//!
//! A driver holds the bytes that have arrived and belong to no reply yet.
//! When more arrive, it puts them behind those and takes every complete reply
//! from the front. The functions here say what comes out, and the proofs show
//! that it depends on the bytes alone.

use crate::grammar::{decode, extends, lemma_decode_stable, lemma_parse_advances, Scan};
use crate::types::ValueModel;
use crate::wire::{all_writable, lemma_read_value, wire, wire_all, writable};
use vstd::prelude::*;

verus! {

/// What a driver gets from a buffer by taking replies from its front until
/// the front is a complete reply no more: the replies, in order, and the
/// bytes that stay.
pub open spec fn drain(buf: Seq<u8>) -> (Seq<ValueModel>, Seq<u8>)
    decreases buf.len(),
{
    match decode(buf) {
        Scan::Done { item, end } => if 0 < end <= buf.len() {
            let (rest, left) = drain(buf.skip(end));
            (seq![item] + rest, left)
        } else {
            (Seq::empty(), buf)
        },
        _ => (Seq::empty(), buf),
    }
}

/// The replies that a driver hands out while the pieces `chunks` arrive one
/// after the other behind the bytes `pending` that it holds.
pub open spec fn replies_of(pending: Seq<u8>, chunks: Seq<Seq<u8>>) -> Seq<ValueModel>
    decreases chunks.len(),
{
    if chunks.len() == 0 {
        Seq::empty()
    } else {
        let (out, left) = drain(pending + chunks[0]);
        out + replies_of(left, chunks.drop_first())
    }
}

/// The bytes of all pieces, one piece after the other.
pub open spec fn joined_chunks(chunks: Seq<Seq<u8>>) -> Seq<u8>
    decreases chunks.len(),
{
    if chunks.len() == 0 {
        Seq::empty()
    } else {
        chunks[0] + joined_chunks(chunks.drop_first())
    }
}

/// A stream cut into pieces of one byte each.
pub open spec fn byte_chunks(stream: Seq<u8>) -> Seq<Seq<u8>> {
    Seq::new(stream.len(), |i: int| seq![stream[i]])
}

/// Whether `stream` is the encoding of the replies `values`, one after the
/// other, and of nothing more.
pub open spec fn encodes(stream: Seq<u8>, values: Seq<ValueModel>) -> bool {
    drain(stream) == (values, Seq::<u8>::empty())
}

/// Taking the replies of a buffer, then those of what stayed with more bytes
/// behind it, gives what the whole gives at once.
pub proof fn lemma_drain_append(a: Seq<u8>, b: Seq<u8>)
    ensures
        drain(a + b).0 == drain(a).0 + drain(drain(a).1 + b).0,
        drain(a + b).1 == drain(drain(a).1 + b).1,
    decreases a.len(),
{
    match decode(a) {
        Scan::Done { item, end } => {
            if 0 < end <= a.len() {
                assert(extends(a, a + b));
                lemma_decode_stable(a, a + b);
                assert((a + b).skip(end) =~= a.skip(end) + b);
                lemma_drain_append(a.skip(end), b);
                let rest = drain(a.skip(end)).0;
                let more = drain(drain(a).1 + b).0;
                assert(seq![item] + (rest + more) =~= (seq![item] + rest) + more);
            } else {
                assert(drain(a).0 + drain(a + b).0 =~= drain(a + b).0);
            }
        },
        _ => {
            assert(drain(a).0 + drain(a + b).0 =~= drain(a + b).0);
        },
    }
}

/// The bytes that a driver holds between two arrivals have no complete reply
/// at their front: it took them all.
pub open spec fn settled(pending: Seq<u8>) -> bool {
    drain(pending).0.len() == 0
}

/// What stays after the replies were taken has no complete reply at its
/// front.
pub proof fn lemma_drain_settles(buf: Seq<u8>)
    ensures
        settled(drain(buf).1),
    decreases buf.len(),
{
    match decode(buf) {
        Scan::Done { item, end } => {
            if 0 < end <= buf.len() {
                lemma_drain_settles(buf.skip(end));
            }
        },
        _ => {},
    }
}

/// Fragmentation invariance: the replies that come out while a stream
/// arrives in pieces are those that come out when it arrives whole, in the
/// same order, whatever the pieces are.
pub proof fn lemma_fragmentation_invariance(pending: Seq<u8>, chunks: Seq<Seq<u8>>)
    requires
        settled(pending),
    ensures
        replies_of(pending, chunks) == drain(pending + joined_chunks(chunks)).0,
    decreases chunks.len(),
{
    if chunks.len() == 0 {
        assert(pending + joined_chunks(chunks) =~= pending);
        assert(drain(pending).0 =~= Seq::empty());
    } else {
        let first = chunks[0];
        let later = chunks.drop_first();
        let (out, left) = drain(pending + first);
        lemma_drain_settles(pending + first);
        lemma_fragmentation_invariance(left, later);
        lemma_drain_append(pending + first, joined_chunks(later));
        assert((pending + first) + joined_chunks(later) =~= pending + joined_chunks(chunks));
    }
}

/// A stream that encodes a sequence of replies gives exactly those replies,
/// in order, however it is cut into pieces.
pub proof fn lemma_cut_anywhere(
    stream: Seq<u8>,
    values: Seq<ValueModel>,
    chunks: Seq<Seq<u8>>,
)
    requires
        encodes(stream, values),
        joined_chunks(chunks) == stream,
    ensures
        replies_of(Seq::empty(), chunks) == values,
{
    assert(Seq::<u8>::empty() + stream =~= stream);
    lemma_fragmentation_invariance(Seq::empty(), chunks);
}

proof fn lemma_join_bytes(stream: Seq<u8>)
    ensures
        joined_chunks(byte_chunks(stream)) == stream,
    decreases stream.len(),
{
    if stream.len() > 0 {
        let rest = stream.drop_first();
        lemma_join_bytes(rest);
        assert(byte_chunks(stream).drop_first() =~= byte_chunks(rest));
        assert(seq![stream[0]] + rest =~= stream);
    } else {
        assert(stream =~= Seq::empty());
    }
}

/// A stream that encodes a sequence of replies gives exactly those replies
/// when it arrives whole, and when it arrives one byte at a time.
pub proof fn lemma_whole_or_byte_by_byte(stream: Seq<u8>, values: Seq<ValueModel>)
    requires
        encodes(stream, values),
    ensures
        replies_of(Seq::empty(), seq![stream]) == values,
        replies_of(Seq::empty(), byte_chunks(stream)) == values,
{
    lemma_join_bytes(stream);
    lemma_cut_anywhere(stream, values, byte_chunks(stream));
    assert(joined_chunks(seq![stream]) =~= stream) by {
        assert(seq![stream].drop_first() =~= Seq::<Seq<u8>>::empty());
        assert(joined_chunks(Seq::<Seq<u8>>::empty()) =~= Seq::<u8>::empty());
        assert(stream + Seq::<u8>::empty() =~= stream);
    }
    lemma_cut_anywhere(stream, values, seq![stream]);
}

/// No reply comes out before its last byte is there: every buffer that ends
/// inside a reply asks for more bytes, and is no failure.
pub proof fn lemma_prefix_waits(reply: Seq<u8>, k: int)
    requires
        decode(reply) matches Scan::Done { end, .. } && end == reply.len(),
        0 <= k < reply.len(),
    ensures
        decode(reply.take(k)) is More,
{
    let head = reply.take(k);
    lemma_parse_advances(head, 0, 0);
    if !(decode(head) is More) {
        assert(extends(head, reply));
        lemma_decode_stable(head, reply);
    }
}

/// Two replies back to back in one buffer: the first comes out with its own
/// length, and the second is what stays.
pub proof fn lemma_back_to_back(first: Seq<u8>, second: Seq<u8>)
    requires
        decode(first) matches Scan::Done { end, .. } && end == first.len(),
    ensures
        decode(first + second) == decode(first),
        (first + second).skip(first.len() as int) == second,
{
    assert(extends(first, first + second));
    lemma_decode_stable(first, first + second);
    assert((first + second).skip(first.len() as int) =~= second);
}

/// A reply that was written is read back, whatever follows it.
pub proof fn lemma_decode_written(v: ValueModel, rest: Seq<u8>)
    requires
        writable(v),
    ensures
        decode(wire(v) + rest) == (Scan::Done { item: v, end: wire(v).len() as int }),
{
    let buf = wire(v) + rest;
    assert forall|i: int| 0 <= i < wire(v).len() implies buf[0 + i] == #[trigger] wire(v)[i] by {}
    lemma_read_value(buf, 0, v);
}

/// Replies written one after the other make a stream that encodes them.
pub proof fn lemma_written_encodes(values: Seq<ValueModel>)
    requires
        all_writable(values),
    ensures
        encodes(wire_all(values), values),
    decreases values.len(),
{
    let stream = wire_all(values);
    if values.len() == 0 {
        assert(drain(stream).0 =~= values);
    } else {
        let first = values[0];
        let rest = values.drop_first();
        lemma_decode_written(first, wire_all(rest));
        lemma_parse_advances(stream, 0, 0);
        assert(stream.skip(wire(first).len() as int) =~= wire_all(rest));
        assert forall|i: int| 0 <= i < rest.len() implies writable(#[trigger] rest[i]) by {
            assert(rest[i] == values[i + 1]);
        }
        lemma_written_encodes(rest);
        assert(seq![first] + rest =~= values);
    }
}

/// Fragmentation invariance of written streams: the replies `values`,
/// written one after the other and cut into pieces at any places, come out
/// as `values`, in order. So they do when the stream arrives whole, and when
/// it arrives one byte at a time.
pub proof fn lemma_written_cut_anywhere(values: Seq<ValueModel>, chunks: Seq<Seq<u8>>)
    requires
        all_writable(values),
        joined_chunks(chunks) == wire_all(values),
    ensures
        replies_of(Seq::empty(), chunks) == values,
        replies_of(Seq::empty(), seq![wire_all(values)]) == values,
        replies_of(Seq::empty(), byte_chunks(wire_all(values))) == values,
{
    lemma_written_encodes(values);
    lemma_cut_anywhere(wire_all(values), values, chunks);
    lemma_whole_or_byte_by_byte(wire_all(values), values);
}

} // verus!
