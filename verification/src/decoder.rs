//! The resumable decoder: it reads one reply from a buffer that grows between
//! calls, and keeps where it stood when the buffer ends inside a reply.

use crate::builder::{BuilderModel, RedisParser, ValueParser};
use crate::classify::classify_error;
use crate::grammar::{
    agrees, decode, extends, find_terminator, head_of, is_marker, lemma_find_terminator,
    lemma_find_terminator_local, lemma_first_terminator, lemma_parse_advances, lemma_token_advances,
    lemma_token_local, parse_items, parse_value, payload_at, terminator_at, token_at, Head, Scan,
    Token, ARRAY, BULK, CR, ERROR, INTEGER, LF, STATUS,
};
use crate::text::{parse_integer, utf8_text};
use crate::types::{ErrorModel, ParseFault, RedisError, Value, ValueModel};
use vstd::prelude::*;
use vstd::slice::slice_subrange;
use vstd::string::*;
use vstd::utf8::*;

verus! {

/// What the header line of a token turned out to be.
enum HeadStep {
    /// A scalar, which the builder has taken in.
    Leaf,
    /// An error that the server signalled, which no effect reports.
    Error(RedisError),
    /// An array of so many elements, which the builder has opened.
    Open(u64),
    /// A binary string of so many bytes.
    Payload(u64),
}

/// Why the reading of a header line came to nothing.
enum Stop {
    /// The bytes are no header line.
    Fault(ParseFault),
    /// The builder refused what the line holds.
    Refused(RedisError),
}

/// How reading a header line answers what the grammar says of it.
spec fn head_read(
    head: Result<Head, ParseFault>,
    r: Result<HeadStep, Stop>,
    before: BuilderModel,
    after: BuilderModel,
) -> bool {
    if r matches Err(Stop::Refused(_)) {
        after == before
    } else {
        match head {
            Err(fault) => r matches Err(Stop::Fault(f)) && f == fault && after == before,
            Ok(Head::Leaf(ValueModel::Error(e))) => r matches Ok(HeadStep::Error(x)) && x@ == e
                && after == before,
            Ok(Head::Leaf(v)) => r is Ok && r->Ok_0 is Leaf && after == before.put(v),
            Ok(Head::Open(n)) => r matches Ok(HeadStep::Open(m)) && m == n && n <= i64::MAX
                && after == before.open(),
            Ok(Head::Payload(n)) => r matches Ok(HeadStep::Payload(m)) && m == n && n
                <= i64::MAX && after == before,
        }
    }
}

/// Reads the line after a type marker and reports it to the builder.
fn read_head<B: RedisParser>(marker: u8, line: &[u8], builder: &mut B) -> (r: Result<
    HeadStep,
    Stop,
>)
    requires
        is_marker(marker),
    ensures
        head_read(head_of(marker, line@), r, old(builder).state(), final(builder).state()),
        B::unfailing() ==> !(r matches Err(Stop::Refused(_))),
{
    let text = match utf8_text(line) {
        Some(text) => text,
        None => {
            return Err(Stop::Fault(ParseFault::InvalidText));
        },
    };
    proof {
        encode_utf8_decode_utf8(text@);
    }
    if marker == ERROR {
        return Ok(HeadStep::Error(classify_error(text)));
    }
    let told = if marker == STATUS {
        builder.status(text)
    } else {
        let n: i64 = match parse_integer(text) {
            Some(n) => n,
            None => {
                return Err(Stop::Fault(ParseFault::ExpectedInteger));
            },
        };
        if marker == INTEGER {
            builder.integer(n)
        } else if n < 0 {
            builder.nil()
        } else if marker == ARRAY {
            let size: usize = if n as u64 > usize::MAX as u64 {
                usize::MAX
            } else {
                n as usize
            };
            builder.bulk_start(size);
            return Ok(HeadStep::Open(n as u64));
        } else {
            return Ok(HeadStep::Payload(n as u64));
        }
    };
    match told {
        Ok(_) => Ok(HeadStep::Leaf),
        Err(e) => Err(Stop::Refused(e)),
    }
}

/// Looks for the line terminator from `from` on.
fn scan_terminator(buf: &[u8], from: usize) -> (r: Option<usize>)
    requires
        from <= buf.len(),
    ensures
        match r {
            Some(at) => from <= at && terminator_at(buf@, at as int) && forall|i: int|
                from <= i < at ==> !terminator_at(buf@, i),
            None => forall|i: int| from <= i ==> !terminator_at(buf@, i),
        },
{
    let n: usize = buf.len();
    let mut i: usize = from;
    while i < n && i + 1 < n
        invariant
            from <= i <= n == buf.len(),
            forall|k: int| from <= k < i ==> !terminator_at(buf@, k),
        decreases n - i,
    {
        if buf[i] == CR && buf[i + 1] == LF {
            return Some(i);
        }
        i += 1;
    }
    None
}

/// How far the reading of a payload or of a token went.
enum Step {
    /// The buffer ends inside the token.
    More,
    /// The bytes are no token.
    Bad(ParseFault),
    /// The builder refused the token.
    Refused(RedisError),
    /// A scalar, which the builder has taken in; the next token begins at
    /// `end`.
    Leaf { end: usize },
    /// An error that the server signalled, which no effect reports.
    Error { error: RedisError, end: usize },
    /// An array of `count` elements, which the builder has opened.
    Open { count: u64, end: usize },
}

/// How reading a token answers what the grammar says of it.
spec fn token_read(token: Scan<Token>, r: Step, before: BuilderModel, after: BuilderModel) -> bool {
    if r is Refused {
        after == before
    } else {
        match token {
            Scan::More => r is More && after == before,
            Scan::Bad { fault } => r matches Step::Bad(f) && f == fault && after == before,
            Scan::Done { item: Token::Leaf(ValueModel::Error(e)), end } => r matches Step::Error {
                error,
                end: at,
            } && error@ == e && at == end && after == before,
            Scan::Done { item: Token::Leaf(v), end } => r matches Step::Leaf { end: at } && at
                == end && after == before.put(v),
            Scan::Done { item: Token::Open(n), end } => r matches Step::Open { count, end: at }
                && count == n && at == end && n <= i64::MAX && after == before.open(),
        }
    }
}

/// What holds of a step whatever the state it was read in.
spec fn step_sound(r: Step, pos: usize, len: usize, before: BuilderModel, after: BuilderModel) -> bool {
    match r {
        Step::More => after == before,
        Step::Bad(_) => after == before,
        Step::Refused(_) => after == before,
        Step::Leaf { end } => pos < end <= len && after.depth() == before.depth(),
        Step::Error { end, .. } => pos < end <= len && after == before,
        Step::Open { end, .. } => pos < end <= len && after.depth() == before.depth() + 1,
    }
}

/// Reads the payload of a binary string, which begins at `start`, and the
/// terminator behind it.
fn read_payload<B: RedisParser>(buf: &[u8], start: usize, len: u64, builder: &mut B) -> (r: Step)
    requires
        start <= buf.len(),
    ensures
        token_read(
            payload_at(buf@, start as int, len as nat),
            r,
            old(builder).state(),
            final(builder).state(),
        ),
        !(r is Open),
        !(r is Error),
        r is Refused ==> final(builder).state() == old(builder).state(),
        r matches Step::Leaf { end } ==> start < end <= buf.len() && final(builder).state().depth()
            == old(builder).state().depth(),
        B::unfailing() ==> !(r is Refused),
{
    let room: usize = buf.len() - start;
    if room as u64 <= len {
        return Step::More;
    }
    let end: usize = start + len as usize;
    if buf[end] != CR {
        return Step::Bad(ParseFault::ExpectedTerminator);
    }
    if room - (len as usize) < 2 {
        return Step::More;
    }
    if buf[end + 1] != LF {
        return Step::Bad(ParseFault::ExpectedTerminator);
    }
    match builder.data(slice_subrange(buf, start, end)) {
        Ok(_) => Step::Leaf { end: end + 2 },
        Err(e) => Step::Refused(e),
    }
}

/// Where the reading of a token stood when the buffer ended.
#[derive(Clone, Copy)]
enum Continuation {
    /// Reading the line after the type marker: no terminator begins at an
    /// index between the marker and `scan`.
    Line { scan: usize },
    /// Reading the `len` bytes of a binary string, which begin at `start`.
    Payload { start: usize, len: u64 },
}

/// The binary string whose header line is complete at `pos`: its length and
/// where its bytes begin.
spec fn payload_pending(buf: Seq<u8>, pos: int) -> Option<(nat, int)> {
    if 0 <= pos < buf.len() && buf[pos] == BULK {
        match find_terminator(buf, pos + 1) {
            Some(at) => match head_of(buf[pos], buf.subrange(pos + 1, at)) {
                Ok(Head::Payload(n)) => Some((n, at + 2)),
                _ => None,
            },
            None => None,
        }
    } else {
        None
    }
}

/// Whether index `i` of `buf` has a byte behind it and no terminator begins
/// there.
spec fn passed(buf: Seq<u8>, i: int) -> bool {
    i + 1 < buf.len() && !terminator_at(buf, i)
}

/// Whether `rule` says what is true of the token that begins at `pos`.
spec fn rule_valid(buf: Seq<u8>, pos: int, rule: Continuation) -> bool {
    match rule {
        Continuation::Line { scan } => forall|i: int| pos < i < scan ==> #[trigger] passed(buf, i),
        Continuation::Payload { start, len } => payload_pending(buf, pos) == Some(
            (len as nat, start as int),
        ),
    }
}

/// Reads the token that begins at `pos`, from where `rule` says the reading
/// stood, and reports it to the builder. Returns the step and where the
/// reading stands now.
fn read_token<B: RedisParser>(buf: &[u8], pos: usize, rule: Continuation, builder: &mut B) -> (r:
    (Step, Continuation))
    ensures
        step_sound(r.0, pos, buf.len(), old(builder).state(), final(builder).state()),
        rule_valid(buf@, pos as int, rule) ==> token_read(
            token_at(buf@, pos as int),
            r.0,
            old(builder).state(),
            final(builder).state(),
        ),
        rule_valid(buf@, pos as int, rule) && r.0 is More ==> rule_valid(buf@, pos as int, r.1),
        B::unfailing() ==> !(r.0 is Refused),
{
    let n: usize = buf.len();
    if pos >= n {
        return (Step::More, rule);
    }
    let marker: u8 = buf[pos];
    if !(marker == STATUS || marker == ERROR || marker == INTEGER || marker == BULK || marker
        == ARRAY) {
        return (Step::Bad(ParseFault::UnexpectedByte(marker)), rule);
    }
    let ghost valid = rule_valid(buf@, pos as int, rule);
    proof {
        lemma_find_terminator(buf@, pos + 1);
    }
    let scan: usize = match rule {
        Continuation::Payload { start, len } => {
            if start > n || start <= pos {
                return (Step::More, rule);
            }
            let step = read_payload(buf, start, len, builder);
            return (step, rule);
        },
        Continuation::Line { scan } => scan,
    };
    let from: usize = if scan > pos + 1 {
        scan
    } else {
        pos + 1
    };
    proof {
        if valid && scan > pos + 1 {
            assert(passed(buf@, scan - 1));
        }
    }
    if from > n {
        return (Step::More, rule);
    }
    let at: usize = match scan_terminator(buf, from) {
        Some(at) => at,
        None => {
            let seen: usize = if n - 1 > from {
                n - 1
            } else {
                from
            };
            proof {
                if valid {
                    if let Some(first) = find_terminator(buf@, pos + 1) {
                        if first < from {
                            assert(passed(buf@, first));
                        }
                    }
                    assert forall|i: int| pos < i < seen implies #[trigger] passed(buf@, i) by {
                        if i < from {
                            assert(passed(buf@, i));
                        }
                    }
                }
            }
            return (Step::More, Continuation::Line { scan: seen });
        },
    };
    proof {
        if valid {
            assert forall|i: int| pos + 1 <= i < at implies !terminator_at(buf@, i) by {
                if i < from {
                    assert(passed(buf@, i));
                }
            }
            lemma_first_terminator(buf@, pos + 1, at as int);
        }
    }
    let line = slice_subrange(buf, pos + 1, at);
    match read_head(marker, line, builder) {
        Err(Stop::Fault(fault)) => (Step::Bad(fault), rule),
        Err(Stop::Refused(e)) => (Step::Refused(e), rule),
        Ok(HeadStep::Leaf) => (Step::Leaf { end: at + 2 }, rule),
        Ok(HeadStep::Error(error)) => (Step::Error { error, end: at + 2 }, rule),
        Ok(HeadStep::Open(count)) => (Step::Open { count, end: at + 2 }, rule),
        Ok(HeadStep::Payload(len)) => {
            let step = read_payload(buf, at + 2, len, builder);
            (step, Continuation::Payload { start: at + 2, len })
        },
    }
}

/// The open arrays after a complete value has joined the innermost.
spec fn joined(frames: Seq<Seq<ValueModel>>, v: ValueModel) -> Seq<Seq<ValueModel>> {
    frames.drop_last().push(frames.last().push(v))
}

/// The counts of elements still to come after one has come to the innermost
/// open array.
spec fn counted(counts: Seq<u64>) -> Seq<u64> {
    counts.drop_last().push((counts.last() - 1) as u64)
}

/// What the grammar makes of a buffer from `pos` on, where the arrays
/// `frames` are open and hold what they hold, and `counts` says how many
/// elements each still lacks: the reply that is complete when the outermost
/// array is.
spec fn resume(
    buf: Seq<u8>,
    frames: Seq<Seq<ValueModel>>,
    counts: Seq<u64>,
    pos: int,
) -> Scan<ValueModel>
    decreases frames.len(),
{
    if frames.len() == 0 {
        parse_value(buf, pos)
    } else {
        match parse_items(buf, pos, counts.last() as nat) {
            Scan::More => Scan::More,
            Scan::Bad { fault } => Scan::Bad { fault },
            Scan::Done { item, end } => {
                let done = ValueModel::Array(frames.last() + item);
                if frames.len() == 1 {
                    Scan::Done { item: done, end }
                } else {
                    resume(
                        buf,
                        joined(frames.drop_last(), done),
                        counted(counts.drop_last()),
                        end,
                    )
                }
            },
        }
    }
}

proof fn lemma_resume_value(
    buf: Seq<u8>,
    frames: Seq<Seq<ValueModel>>,
    counts: Seq<u64>,
    pos: int,
)
    requires
        frames.len() > 0,
        counts.len() == frames.len(),
        counts.last() >= 1,
    ensures
        match parse_value(buf, pos) {
            Scan::More => resume(buf, frames, counts, pos) is More,
            Scan::Bad { fault } => resume(buf, frames, counts, pos) == (Scan::<
                ValueModel,
            >::Bad { fault }),
            Scan::Done { item, end } => resume(buf, frames, counts, pos) == resume(
                buf,
                joined(frames, item),
                counted(counts),
                end,
            ),
        },
{
    lemma_parse_advances(buf, pos, 0);
    match parse_value(buf, pos) {
        Scan::Done { item, end } => {
            let f2 = joined(frames, item);
            let c2 = counted(counts);
            assert(f2.drop_last() =~= frames.drop_last());
            assert(c2.drop_last() =~= counts.drop_last());
            assert(c2.last() as nat == (counts.last() - 1) as nat);
            match parse_items(buf, end, (counts.last() - 1) as nat) {
                Scan::Done { item: rest, end: last } => {
                    assert(frames.last() + (seq![item] + rest) =~= f2.last() + rest);
                },
                _ => {},
            }
        },
        _ => {},
    }
}

proof fn lemma_resume_open(
    buf: Seq<u8>,
    frames: Seq<Seq<ValueModel>>,
    counts: Seq<u64>,
    pos: int,
)
    requires
        counts.len() == frames.len(),
        frames.len() > 0 ==> counts.last() >= 1,
        token_at(buf, pos) matches Scan::Done { item: Token::Open(n), .. } && n <= u64::MAX,
    ensures
        token_at(buf, pos) matches Scan::Done { item: Token::Open(n), end } && resume(
            buf,
            frames,
            counts,
            pos,
        ) == resume(buf, frames.push(Seq::empty()), counts.push(n as u64), end),
{
    let end = token_at(buf, pos)->end;
    let n = token_at(buf, pos)->item->Open_0;
    let f2 = frames.push(Seq::empty());
    let c2 = counts.push(n as u64);
    assert(f2.drop_last() =~= frames);
    assert(c2.drop_last() =~= counts);
    match parse_items(buf, end, n) {
        Scan::Done { item, end: last } => {
            assert(f2.last() + item =~= item);
        },
        _ => {},
    }
    if frames.len() > 0 {
        lemma_resume_value(buf, frames, counts, pos);
    }
}

/// Whether every count but the last is at least one.
spec fn counts_live(counts: Seq<u64>) -> bool {
    forall|i: int| 0 <= i < counts.len() - 1 ==> #[trigger] counts[i] >= 1
}

proof fn lemma_resume_close(
    buf: Seq<u8>,
    frames: Seq<Seq<ValueModel>>,
    counts: Seq<u64>,
    pos: int,
)
    requires
        frames.len() > 0,
        counts.len() == frames.len(),
        counts.last() == 0,
    ensures
        frames.len() == 1 ==> resume(buf, frames, counts, pos) == (Scan::Done {
            item: ValueModel::Array(frames.last()),
            end: pos,
        }),
        frames.len() > 1 ==> resume(buf, frames, counts, pos) == resume(
            buf,
            joined(frames.drop_last(), ValueModel::Array(frames.last())),
            counted(counts.drop_last()),
            pos,
        ),
{
    assert(frames.last() + Seq::<ValueModel>::empty() =~= frames.last());
}

/// Whether the open arrays `frames`, with `counts` elements still to come,
/// are what the bytes before `pos` lead to: in every buffer that begins with
/// those bytes, going on from `pos` gives the reply that the buffer holds.
spec fn carried(
    buf: Seq<u8>,
    frames: Seq<Seq<ValueModel>>,
    counts: Seq<u64>,
    pos: int,
) -> bool {
    forall|b: Seq<u8>| #[trigger] agrees(buf, b, pos) ==> resume(b, frames, counts, pos) == decode(b)
}

proof fn lemma_step_stuck(
    buf: Seq<u8>,
    frames: Seq<Seq<ValueModel>>,
    counts: Seq<u64>,
    pos: int,
)
    requires
        0 <= pos <= buf.len(),
        counts.len() == frames.len(),
        frames.len() > 0 ==> counts.last() >= 1,
        carried(buf, frames, counts, pos),
    ensures
        token_at(buf, pos) is More ==> decode(buf) is More,
        token_at(buf, pos) matches Scan::Bad { fault } ==> decode(buf) == (Scan::<
            ValueModel,
        >::Bad { fault }),
{
    assert(agrees(buf, buf, pos));
    if frames.len() > 0 {
        lemma_resume_value(buf, frames, counts, pos);
    }
}

proof fn lemma_step_leaf(
    buf: Seq<u8>,
    frames: Seq<Seq<ValueModel>>,
    counts: Seq<u64>,
    pos: int,
)
    requires
        frames.len() > 0,
        counts.len() == frames.len(),
        counts.last() >= 1,
        carried(buf, frames, counts, pos),
        token_at(buf, pos) matches Scan::Done { item: Token::Leaf(_), .. },
    ensures
        token_at(buf, pos) matches Scan::Done { item: Token::Leaf(v), end } && carried(
            buf,
            joined(frames, v),
            counted(counts),
            end,
        ),
{
    let end = token_at(buf, pos)->end;
    let v = token_at(buf, pos)->item->Leaf_0;
    lemma_token_advances(buf, pos);
    assert forall|b: Seq<u8>| #[trigger] agrees(buf, b, end) implies resume(
        b,
        joined(frames, v),
        counted(counts),
        end,
    ) == decode(b) by {
        assert(agrees(buf, b, pos));
        lemma_token_local(buf, b, pos);
        lemma_resume_value(b, frames, counts, pos);
    }
}

proof fn lemma_step_open(
    buf: Seq<u8>,
    frames: Seq<Seq<ValueModel>>,
    counts: Seq<u64>,
    pos: int,
)
    requires
        counts.len() == frames.len(),
        frames.len() > 0 ==> counts.last() >= 1,
        carried(buf, frames, counts, pos),
        token_at(buf, pos) matches Scan::Done { item: Token::Open(n), .. } && n <= u64::MAX,
    ensures
        token_at(buf, pos) matches Scan::Done { item: Token::Open(n), end } && carried(
            buf,
            frames.push(Seq::empty()),
            counts.push(n as u64),
            end,
        ),
{
    let end = token_at(buf, pos)->end;
    let n = token_at(buf, pos)->item->Open_0;
    lemma_token_advances(buf, pos);
    assert forall|b: Seq<u8>| #[trigger] agrees(buf, b, end) implies resume(
        b,
        frames.push(Seq::empty()),
        counts.push(n as u64),
        end,
    ) == decode(b) by {
        assert(agrees(buf, b, pos));
        lemma_token_local(buf, b, pos);
        lemma_resume_open(b, frames, counts, pos);
    }
}

proof fn lemma_step_close(
    buf: Seq<u8>,
    frames: Seq<Seq<ValueModel>>,
    counts: Seq<u64>,
    pos: int,
)
    requires
        0 <= pos <= buf.len(),
        frames.len() > 0,
        counts.len() == frames.len(),
        counts.last() == 0,
        carried(buf, frames, counts, pos),
    ensures
        frames.len() == 1 ==> decode(buf) == (Scan::Done {
            item: ValueModel::Array(frames.last()),
            end: pos,
        }),
        frames.len() > 1 ==> carried(
            buf,
            joined(frames.drop_last(), ValueModel::Array(frames.last())),
            counted(counts.drop_last()),
            pos,
        ),
{
    if frames.len() == 1 {
        assert(agrees(buf, buf, pos));
        lemma_resume_close(buf, frames, counts, pos);
    } else {
        assert forall|b: Seq<u8>| #[trigger] agrees(buf, b, pos) implies resume(
            b,
            joined(frames.drop_last(), ValueModel::Array(frames.last())),
            counted(counts.drop_last()),
            pos,
        ) == decode(b) by {
            lemma_resume_close(b, frames, counts, pos);
        }
    }
}

/// The outcome of one call of the decoder.
#[derive(Debug)]
pub enum Outcome {
    /// A reply is complete. It took the first `used` bytes of the buffer,
    /// which the caller now discards.
    Completed { value: Value, used: usize },
    /// The buffer ends inside a reply. Nothing was consumed: the next call
    /// gets the same bytes, with more behind them.
    NeedMoreInput,
    /// The bytes are no reply. The framing of the stream is lost.
    Error(RedisError),
}

/// Whether the outcome `r` is what the grammar makes of a buffer.
pub open spec fn outcome_of(r: Outcome, parsed: Scan<ValueModel>) -> bool {
    match parsed {
        Scan::Done { item, end } => r matches Outcome::Completed { value, used } && value@ == item
            && used == end,
        Scan::More => r is NeedMoreInput,
        Scan::Bad { fault } => r matches Outcome::Error(e) && e@ == (ErrorModel::Parse { fault }),
    }
}

/// The state that outlives a call: the builder with its open arrays, how
/// many elements each of them still lacks, where in the buffer the next
/// token begins, and where the reading of that token stood.
pub struct Decoder {
    builder: ValueParser,
    counts: Vec<u64>,
    cursor: usize,
    rule: Continuation,
}

impl Decoder {
    /// Whether the parts of the state fit together.
    pub closed spec fn wf(&self) -> bool {
        &&& self.counts@.len() == self.builder.model().depth()
        &&& forall|i: int| 0 <= i < self.counts@.len() ==> #[trigger] self.counts@[i] >= 1
    }

    /// Whether the decoder stands before the first byte of a reply.
    pub closed spec fn fresh(&self) -> bool {
        &&& self.counts@.len() == 0
        &&& self.builder.model() == BuilderModel::start()
        &&& self.cursor == 0
        &&& self.rule == Continuation::Line { scan: 0 }
    }

    /// The number of arrays that are open.
    pub closed spec fn depth(&self) -> nat {
        self.builder.model().depth()
    }

    /// Whether what the decoder has kept is true of `buf`: it read the bytes
    /// before its cursor, and more bytes behind them change nothing of what
    /// it made of them.
    pub closed spec fn tracks(&self, buf: Seq<u8>) -> bool {
        &&& self.cursor <= buf.len()
        &&& rule_valid(buf, self.cursor as int, self.rule)
        &&& self.depth() == 0 ==> self.cursor == 0
        &&& carried(buf, self.builder.model().frames, self.counts@, self.cursor as int)
    }

    /// A decoder that stands before the first byte of a reply is true of
    /// every buffer.
    pub proof fn lemma_fresh_tracks(&self, buf: Seq<u8>)
        requires
            self.fresh(),
        ensures
            self.wf(),
            self.tracks(buf),
            self.depth() == 0,
    {
    }

    /// What is true of a buffer is true of the buffer with more bytes behind
    /// it.
    pub proof fn lemma_tracks_extends(&self, a: Seq<u8>, b: Seq<u8>)
        requires
            self.tracks(a),
            extends(a, b),
        ensures
            self.tracks(b),
    {
        let pos = self.cursor as int;
        match self.rule {
            Continuation::Line { scan } => {
                assert forall|i: int| pos < i < scan implies #[trigger] passed(b, i) by {
                    assert(passed(a, i));
                }
            },
            Continuation::Payload { start, len } => {
                lemma_find_terminator(a, pos + 1);
                let at = find_terminator(a, pos + 1)->0;
                lemma_find_terminator_local(a, b, pos + 1, at);
                assert(a.subrange(pos + 1, at) =~= b.subrange(pos + 1, at));
            },
        }
        assert forall|c: Seq<u8>| #[trigger] agrees(b, c, pos) implies resume(
            c,
            self.builder.model().frames,
            self.counts@,
            pos,
        ) == decode(c) by {
            assert(agrees(a, c, pos));
        }
    }

    /// A decoder that stands before the first byte of a reply.
    pub fn new() -> (d: Decoder)
        ensures
            d.wf(),
            d.fresh(),
            d.depth() == 0,
            forall|buf: Seq<u8>| #[trigger] d.tracks(buf),
    {
        let d = Decoder {
            builder: ValueParser::default(),
            counts: Vec::new(),
            cursor: 0,
            rule: Continuation::Line { scan: 0 },
        };
        proof {
            assert forall|buf: Seq<u8>| #[trigger] d.tracks(buf) by {
                d.lemma_fresh_tracks(buf);
            }
        }
        d
    }

    /// Reads one reply from the front of `buf`.
    ///
    /// Where the decoder has kept something from earlier calls, `buf` is the
    /// buffer of the last call with more bytes behind it. The outcome is then
    /// what the grammar says of `buf` as a whole: however the bytes arrived,
    /// the same reply comes out.
    pub fn feed(&mut self, buf: &[u8]) -> (r: Outcome)
        requires
            old(self).wf(),
        ensures
            final(self).wf(),
            r matches Outcome::Completed { used, .. } ==> 0 < used <= buf.len(),
            !(r is NeedMoreInput) ==> final(self).fresh() && final(self).depth() == 0 && forall|
                b: Seq<u8>,
            | #[trigger] final(self).tracks(b),
            old(self).tracks(buf@) ==> outcome_of(r, decode(buf@)) && final(self).tracks(buf@),
    {
        let ghost ok = self.tracks(buf@);
        loop
            invariant
                self.wf(),
                ok == old(self).tracks(buf@),
                ok ==> self.tracks(buf@),
            decreases buf@.len() - self.cursor,
        {
            let ghost frames = self.builder.model().frames;
            let ghost counts = self.counts@;
            let ghost pos = self.cursor as int;
            let (step, rule) = read_token(buf, self.cursor, self.rule, &mut self.builder);
            proof {
                if ok {
                    lemma_token_advances(buf@, pos);
                    lemma_step_stuck(buf@, frames, counts, pos);
                }
            }
            let (end, opened): (usize, Option<u64>) = match step {
                Step::More => {
                    self.rule = rule;
                    return Outcome::NeedMoreInput;
                },
                Step::Bad(fault) => {
                    self.reset();
                    return Outcome::Error(RedisError::protocol(fault));
                },
                Step::Refused(e) => {
                    self.reset();
                    return Outcome::Error(e);
                },
                Step::Leaf { end } => (end, None),
                Step::Error { error, end } => {
                    let _ = self.builder.value(Value::Error(error));
                    (end, None)
                },
                Step::Open { count, end } => (end, Some(count)),
            };
            match opened {
                Some(count) => {
                    proof {
                        if ok {
                            lemma_step_open(buf@, frames, counts, pos);
                        }
                    }
                    self.counts.push(count);
                },
                None => {
                    if self.counts.len() == 0 {
                        let value = self.builder.take();
                        self.reset();
                        proof {
                            assert(agrees(buf@, buf@, pos));
                        }
                        return Outcome::Completed { value, used: end };
                    }
                    proof {
                        if ok {
                            lemma_step_leaf(buf@, frames, counts, pos);
                        }
                    }
                    let last: usize = self.counts.len() - 1;
                    let left: u64 = self.counts[last];
                    self.counts.set(last, left - 1);
                    assert(self.counts@ =~= counted(counts));
                },
            }
            self.cursor = end;
            self.rule = Continuation::Line { scan: 0 };
            while self.counts.len() > 0 && self.counts[self.counts.len() - 1] == 0
                invariant
                    self.counts@.len() == self.builder.model().depth(),
                    self.counts@.len() > 0,
                    counts_live(self.counts@),
                    ok == old(self).tracks(buf@),
                    0 <= pos < self.cursor <= buf@.len(),
                    self.rule == (Continuation::Line { scan: 0 }),
                    ok ==> carried(
                        buf@,
                        self.builder.model().frames,
                        self.counts@,
                        self.cursor as int,
                    ),
                decreases self.counts@.len(),
            {
                let ghost frames = self.builder.model().frames;
                let ghost counts = self.counts@;
                proof {
                    if ok {
                        lemma_step_close(buf@, frames, counts, self.cursor as int);
                    }
                }
                self.builder.bulk_end();
                self.counts.pop();
                if self.counts.len() == 0 {
                    let value = self.builder.take();
                    let used: usize = self.cursor;
                    self.reset();
                    return Outcome::Completed { value, used };
                }
                let last: usize = self.counts.len() - 1;
                let left: u64 = self.counts[last];
                self.counts.set(last, left - 1);
                assert(self.counts@ =~= counted(counts.drop_last()));
            }
        }
    }

    /// The number of arrays that are open.
    pub fn open_arrays(&self) -> (n: usize)
        requires
            self.wf(),
        ensures
            n == self.depth(),
    {
        self.counts.len()
    }

    /// Forgets the reply in progress.
    pub fn reset(&mut self)
        ensures
            final(self).wf(),
            final(self).fresh(),
            final(self).depth() == 0,
            forall|buf: Seq<u8>| #[trigger] final(self).tracks(buf),
    {
        self.builder = ValueParser::default();
        self.counts = Vec::new();
        self.cursor = 0;
        self.rule = Continuation::Line { scan: 0 };
        proof {
            assert forall|buf: Seq<u8>| #[trigger] self.tracks(buf) by {
                self.lemma_fresh_tracks(buf);
            }
        }
    }
}

} // verus!
