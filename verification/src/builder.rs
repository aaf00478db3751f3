//! The builder: it collects the values that the grammar reports and nests
//! them into arrays, on a stack of its own.

use crate::text::same_text;
use crate::types::{lemma_array_model, models, RedisResult, Value, ValueModel};
use vstd::slice::slice_to_vec;
use vstd::prelude::*;
use vstd::string::*;

verus! {

/// Mathematical content of a builder: the arrays that are open, the innermost
/// last, and the value that stands complete where none is open.
pub struct BuilderModel {
    pub frames: Seq<Seq<ValueModel>>,
    pub top: ValueModel,
}

impl BuilderModel {
    /// The builder that holds nothing yet.
    pub open spec fn start() -> BuilderModel {
        BuilderModel { frames: Seq::empty(), top: ValueModel::Nil }
    }

    /// The number of arrays that are open.
    pub open spec fn depth(self) -> nat {
        self.frames.len()
    }

    /// A complete value arrives: it joins the innermost open array, or stands
    /// as the result where none is open.
    pub open spec fn put(self, v: ValueModel) -> BuilderModel {
        if self.frames.len() == 0 {
            BuilderModel { frames: self.frames, top: v }
        } else {
            BuilderModel {
                frames: self.frames.drop_last().push(self.frames.last().push(v)),
                top: self.top,
            }
        }
    }

    /// An array begins.
    pub open spec fn open(self) -> BuilderModel {
        BuilderModel { frames: self.frames.push(Seq::empty()), top: ValueModel::Nil }
    }

    /// The innermost open array ends, and arrives as a complete value.
    pub open spec fn close(self) -> BuilderModel
        recommends
            self.frames.len() > 0,
    {
        BuilderModel { frames: self.frames.drop_last(), top: ValueModel::Nil }.put(
            ValueModel::Array(self.frames.last()),
        )
    }
}

/// The effects through which the grammar reports what it reads.
///
/// An effect that fails leaves the builder as it was.
pub trait RedisParser {
    /// What the builder holds.
    spec fn state(&self) -> BuilderModel;

    /// Whether no effect of this builder ever fails.
    spec fn unfailing() -> bool;

    /// An absent value was read.
    fn nil(&mut self) -> (r: RedisResult<()>)
        ensures
            r is Ok ==> final(self).state() == old(self).state().put(ValueModel::Nil),
            r is Err ==> final(self).state() == old(self).state(),
            Self::unfailing() ==> r is Ok,
    ;

    /// A binary string was read.
    fn data(&mut self, data: &[u8]) -> (r: RedisResult<()>)
        ensures
            r is Ok ==> final(self).state() == old(self).state().put(ValueModel::BulkString(data@)),
            r is Err ==> final(self).state() == old(self).state(),
            Self::unfailing() ==> r is Ok,
    ;

    /// A status line was read.
    fn status(&mut self, msg: &str) -> (r: RedisResult<()>)
        ensures
            r is Ok ==> final(self).state() == old(self).state().put(status_value(msg@)),
            r is Err ==> final(self).state() == old(self).state(),
            Self::unfailing() ==> r is Ok,
    ;

    /// An array of `size` elements begins.
    fn bulk_start(&mut self, size: usize)
        ensures
            final(self).state() == old(self).state().open(),
    ;

    /// The innermost open array has all its elements.
    fn bulk_end(&mut self)
        requires
            old(self).state().depth() > 0,
        ensures
            final(self).state() == old(self).state().close(),
    ;

    /// An integer was read.
    fn integer(&mut self, i: i64) -> (r: RedisResult<()>)
        ensures
            r is Ok ==> final(self).state() == old(self).state().put(ValueModel::Integer(i)),
            r is Err ==> final(self).state() == old(self).state(),
            Self::unfailing() ==> r is Ok,
    ;
}

/// The value of a status line: `OK` is a case of its own.
pub open spec fn status_value(text: Seq<char>) -> ValueModel {
    if text == "OK"@ {
        ValueModel::Okay
    } else {
        ValueModel::SimpleString(text)
    }
}

/// The builder of [`Value`]s.
pub enum ValueParser {
    /// Arrays are open; the innermost is last.
    Bulk(Vec<Vec<Value>>),
    /// No array is open; this is the value last completed.
    Value(Value),
}

/// The contents of a stack of open arrays.
pub open spec fn frames_model(frames: Seq<Vec<Value>>) -> Seq<Seq<ValueModel>> {
    Seq::new(frames.len(), |i: int| models(frames[i]@))
}

proof fn lemma_models_push(items: Seq<Value>, v: Value)
    ensures
        models(items.push(v)) == models(items).push(v@),
{
    assert(models(items.push(v)) =~= models(items).push(v@));
}

impl ValueParser {
    /// What the builder holds.
    pub open spec fn model(&self) -> BuilderModel {
        match self {
            ValueParser::Bulk(frames) => BuilderModel {
                frames: frames_model(frames@),
                top: ValueModel::Nil,
            },
            ValueParser::Value(v) => BuilderModel { frames: Seq::empty(), top: v@ },
        }
    }

    /// Hands out the complete value and leaves the builder as new.
    pub fn take(&mut self) -> (v: Value)
        requires
            old(self).model().depth() == 0,
        ensures
            v@ == old(self).model().top,
            final(self).model() == BuilderModel::start(),
    {
        let mut value = ValueParser::Value(Value::Nil);
        core::mem::swap(self, &mut value);
        match value {
            ValueParser::Value(v) => v,
            ValueParser::Bulk(_) => Value::Nil,
        }
    }

    /// Takes in a complete value: it joins the innermost open array, or
    /// stands as the result where none is open.
    pub fn value(&mut self, value: Value) -> (r: RedisResult<()>)
        ensures
            r is Ok,
            final(self).model() == old(self).model().put(value@),
    {
        match self {
            ValueParser::Value(_) => {},
            ValueParser::Bulk(bulk) => {
                let ghost before = bulk@;
                match bulk.pop() {
                    Some(mut frame) => {
                        proof {
                            lemma_models_push(frame@, value);
                        }
                        frame.push(value);
                        bulk.push(frame);
                        assert(frames_model(bulk@) =~= frames_model(before).drop_last().push(
                            frames_model(before).last().push(value@),
                        ));
                        return Ok(());
                    },
                    None => {
                        assert(frames_model(before) =~= Seq::empty());
                    },
                }
            },
        }
        *self = ValueParser::Value(value);
        Ok(())
    }
}

impl Default for ValueParser {
    fn default() -> (r: ValueParser)
        ensures
            r.model() == BuilderModel::start(),
    {
        ValueParser::Value(Value::Nil)
    }
}

impl RedisParser for ValueParser {
    open spec fn state(&self) -> BuilderModel {
        self.model()
    }

    open spec fn unfailing() -> bool {
        true
    }

    fn nil(&mut self) -> (r: RedisResult<()>) {
        self.value(Value::Nil)
    }

    fn data(&mut self, data: &[u8]) -> (r: RedisResult<()>) {
        self.value(Value::BulkString(slice_to_vec(data)))
    }

    fn status(&mut self, msg: &str) -> (r: RedisResult<()>) {
        if same_text(msg, "OK") {
            self.value(Value::Okay)
        } else {
            self.value(Value::SimpleString(msg.to_owned()))
        }
    }

    fn bulk_start(&mut self, size: usize) {
        let hint: usize = if size < 32 {
            size
        } else {
            32
        };
        let frame: Vec<Value> = Vec::with_capacity(hint);
        assert(models(frame@) =~= Seq::empty());
        match self {
            ValueParser::Bulk(bulk) => {
                let ghost before = bulk@;
                bulk.push(frame);
                assert(frames_model(bulk@) =~= frames_model(before).push(Seq::empty()));
            },
            ValueParser::Value(_) => {
                let mut bulk: Vec<Vec<Value>> = Vec::new();
                bulk.push(frame);
                assert(frames_model(bulk@) =~= Seq::<Seq<ValueModel>>::empty().push(
                    Seq::empty(),
                ));
                *self = ValueParser::Bulk(bulk);
            },
        }
    }

    fn bulk_end(&mut self) {
        let done = match self {
            ValueParser::Bulk(bulk) => {
                let ghost before = bulk@;
                let done_bulk = bulk.pop().unwrap();
                assert(frames_model(bulk@) =~= frames_model(before).drop_last());
                proof {
                    lemma_array_model(done_bulk);
                }
                Value::Array(done_bulk)
            },
            ValueParser::Value(_) => Value::Nil,
        };
        let _ = self.value(done);
    }

    fn integer(&mut self, i: i64) -> (r: RedisResult<()>) {
        self.value(Value::Integer(i))
    }
}

} // verus!
