//! The value model and the error taxonomy.

use vstd::prelude::*;
use vstd::string::*;

verus! {

broadcast use vstd::std_specs::vec::axiom_vec_index_decreases;

/// Classification of an error.
#[derive(Clone, Copy, Debug, PartialEq, Eq, Structural)]
pub enum ErrorKind {
    /// The server generated an invalid response, or signalled a generic error.
    ResponseError,
    /// A transaction was aborted.
    ExecAbortError,
    /// The server is still loading its data set.
    BusyLoadingError,
    /// A script was invoked that the server does not hold.
    NoScriptError,
    /// The key has moved to another node for good.
    Moved,
    /// The key is being migrated; ask the other node once.
    Ask,
    /// The operation should be tried again later.
    TryAgain,
    /// The cluster is down.
    ClusterDown,
    /// The keys of the request live in different slots.
    CrossSlot,
    /// The master of a replica is down.
    MasterDown,
    /// The node is a read-only replica.
    ReadOnly,
    /// An error code that this library does not know.
    ExtensionError,
    /// The byte source failed or ended too early.
    IoError,
}

/// What made a byte stream unreadable as a sequence of replies.
#[derive(Clone, Copy, Debug, PartialEq, Eq, Structural)]
pub enum ParseFault {
    /// A reply began with a byte that is no type marker.
    UnexpectedByte(u8),
    /// A line held bytes that are not UTF-8 text.
    InvalidText,
    /// A line that had to hold an integer held something else.
    ExpectedInteger,
    /// The payload of a binary string was not followed by the line terminator.
    ExpectedTerminator,
}

/// One hexadecimal digit, as text.
pub open spec fn hex_digit(n: int) -> Seq<char> {
    if n == 0 {
        "0"@
    } else if n == 1 {
        "1"@
    } else if n == 2 {
        "2"@
    } else if n == 3 {
        "3"@
    } else if n == 4 {
        "4"@
    } else if n == 5 {
        "5"@
    } else if n == 6 {
        "6"@
    } else if n == 7 {
        "7"@
    } else if n == 8 {
        "8"@
    } else if n == 9 {
        "9"@
    } else if n == 10 {
        "a"@
    } else if n == 11 {
        "b"@
    } else if n == 12 {
        "c"@
    } else if n == 13 {
        "d"@
    } else if n == 14 {
        "e"@
    } else {
        "f"@
    }
}

fn hex(n: u8) -> (r: &'static str)
    requires
        n < 16,
    ensures
        r@ == hex_digit(n as int),
{
    if n == 0 {
        "0"
    } else if n == 1 {
        "1"
    } else if n == 2 {
        "2"
    } else if n == 3 {
        "3"
    } else if n == 4 {
        "4"
    } else if n == 5 {
        "5"
    } else if n == 6 {
        "6"
    } else if n == 7 {
        "7"
    } else if n == 8 {
        "8"
    } else if n == 9 {
        "9"
    } else if n == 10 {
        "a"
    } else if n == 11 {
        "b"
    } else if n == 12 {
        "c"
    } else if n == 13 {
        "d"
    } else if n == 14 {
        "e"
    } else {
        "f"
    }
}

impl ParseFault {
    /// The fault in words. An unexpected byte is named by its two
    /// hexadecimal digits.
    pub open spec fn text(self) -> Seq<char> {
        match self {
            ParseFault::UnexpectedByte(b) => "unexpected byte 0x"@ + hex_digit(b as int / 16)
                + hex_digit(b as int % 16),
            ParseFault::InvalidText => "line is not valid UTF-8"@,
            ParseFault::ExpectedInteger => "Expected integer, got garbage"@,
            ParseFault::ExpectedTerminator => "expected the line terminator"@,
        }
    }

    /// The fault in words.
    pub fn message(&self) -> (r: String)
        ensures
            r@ == self.text(),
    {
        match self {
            ParseFault::UnexpectedByte(b) => {
                let mut s = String::from_str("unexpected byte 0x");
                s.append(hex(*b / 16));
                s.append(hex(*b % 16));
                s
            },
            ParseFault::InvalidText => String::from_str("line is not valid UTF-8"),
            ParseFault::ExpectedInteger => String::from_str("Expected integer, got garbage"),
            ParseFault::ExpectedTerminator => String::from_str("expected the line terminator"),
        }
    }
}

/// Mathematical content of a [`RedisError`].
pub enum ErrorModel {
    /// The server signalled an error with a code of the fixed table.
    Server { kind: ErrorKind, detail: Option<Seq<char>> },
    /// The server signalled an error with a code of its own.
    Extension { code: Seq<char>, detail: Option<Seq<char>> },
    /// The bytes of the stream are no reply.
    Parse { fault: ParseFault },
    /// The stream ended inside a reply.
    UnexpectedEof,
}

#[derive(Debug, PartialEq, Eq)]
enum ErrorRepr {
    Server(ErrorKind, Option<String>),
    Extension(String, Option<String>),
    Parse(ParseFault),
    UnexpectedEof,
}

/// An error signalled by the server, or a failure to decode.
#[derive(Debug, PartialEq, Eq)]
pub struct RedisError {
    repr: ErrorRepr,
}

/// The characters of a text that may be absent.
pub open spec fn text_model(t: Option<String>) -> Option<Seq<char>> {
    match t {
        Some(s) => Some(s@),
        None => None,
    }
}

impl View for RedisError {
    type V = ErrorModel;

    closed spec fn view(&self) -> ErrorModel {
        match self.repr {
            ErrorRepr::Server(kind, detail) => ErrorModel::Server { kind, detail: text_model(detail) },
            ErrorRepr::Extension(code, detail) => ErrorModel::Extension {
                code: code@,
                detail: text_model(detail),
            },
            ErrorRepr::Parse(fault) => ErrorModel::Parse { fault },
            ErrorRepr::UnexpectedEof => ErrorModel::UnexpectedEof,
        }
    }
}

impl ErrorModel {
    /// The classification of the error.
    pub open spec fn kind(self) -> ErrorKind {
        match self {
            ErrorModel::Server { kind, .. } => kind,
            ErrorModel::Extension { .. } => ErrorKind::ExtensionError,
            ErrorModel::Parse { .. } => ErrorKind::ResponseError,
            ErrorModel::UnexpectedEof => ErrorKind::IoError,
        }
    }

    /// The free-form tag of an error with a code unknown to this library.
    pub open spec fn code(self) -> Option<Seq<char>> {
        match self {
            ErrorModel::Extension { code, .. } => Some(code),
            _ => None,
        }
    }

    /// What the server said after the code.
    pub open spec fn detail(self) -> Option<Seq<char>> {
        match self {
            ErrorModel::Server { detail, .. } => detail,
            ErrorModel::Extension { detail, .. } => detail,
            _ => None,
        }
    }

    /// The fixed text that goes with the sort of error.
    pub open spec fn description(self) -> Seq<char> {
        match self {
            ErrorModel::Server { .. } => "An error was signalled by the server"@,
            ErrorModel::Extension { .. } => "An error was signalled by the server"@,
            ErrorModel::Parse { .. } => "parse error"@,
            ErrorModel::UnexpectedEof => "unexpected end of input"@,
        }
    }

    /// Whether the server signalled the error in a well-formed reply.
    pub open spec fn from_server(self) -> bool {
        self is Server || self is Extension
    }
}

/// What a function of this library returns where it may fail.
pub type RedisResult<T> = Result<T, RedisError>;

fn text_ref(t: &Option<String>) -> (r: Option<&str>)
    ensures
        r is Some == t is Some,
        r matches Some(s) ==> s@ == t->0@,
{
    match t {
        Some(s) => Some(s.as_str()),
        None => None,
    }
}

fn text_clone(t: &Option<String>) -> (r: Option<String>)
    ensures
        text_model(r) == text_model(*t),
{
    match t {
        Some(s) => Some(s.clone()),
        None => None,
    }
}

impl Clone for RedisError {
    fn clone(&self) -> (r: RedisError)
        ensures
            r@ == self@,
    {
        let repr = match &self.repr {
            ErrorRepr::Server(kind, detail) => ErrorRepr::Server(*kind, text_clone(detail)),
            ErrorRepr::Extension(code, detail) => ErrorRepr::Extension(
                code.clone(),
                text_clone(detail),
            ),
            ErrorRepr::Parse(fault) => ErrorRepr::Parse(*fault),
            ErrorRepr::UnexpectedEof => ErrorRepr::UnexpectedEof,
        };
        RedisError { repr }
    }
}

impl RedisError {
    /// An error that the server signalled with a code of the fixed table.
    pub fn server(kind: ErrorKind, detail: Option<String>) -> (e: RedisError)
        ensures
            e@ == (ErrorModel::Server { kind, detail: text_model(detail) }),
    {
        RedisError { repr: ErrorRepr::Server(kind, detail) }
    }

    /// An error that the server signalled with a code of its own.
    pub fn extension(code: String, detail: Option<String>) -> (e: RedisError)
        ensures
            e@ == (ErrorModel::Extension { code: code@, detail: text_model(detail) }),
    {
        RedisError { repr: ErrorRepr::Extension(code, detail) }
    }

    /// The failure to read a stream whose framing is broken.
    pub fn protocol(fault: ParseFault) -> (e: RedisError)
        ensures
            e@ == (ErrorModel::Parse { fault }),
    {
        RedisError { repr: ErrorRepr::Parse(fault) }
    }

    /// The failure to read a stream that ended inside a reply.
    pub fn unexpected_eof() -> (e: RedisError)
        ensures
            e@ == ErrorModel::UnexpectedEof,
    {
        RedisError { repr: ErrorRepr::UnexpectedEof }
    }

    /// The classification of the error.
    pub fn kind(&self) -> (k: ErrorKind)
        ensures
            k == self@.kind(),
    {
        match &self.repr {
            ErrorRepr::Server(kind, _) => *kind,
            ErrorRepr::Extension(_, _) => ErrorKind::ExtensionError,
            ErrorRepr::Parse(_) => ErrorKind::ResponseError,
            ErrorRepr::UnexpectedEof => ErrorKind::IoError,
        }
    }

    /// The free-form tag of an error with a code unknown to this library.
    pub fn code(&self) -> (r: Option<&str>)
        ensures
            r is Some == self@.code() is Some,
            r matches Some(s) ==> s@ == self@.code()->0,
    {
        match &self.repr {
            ErrorRepr::Extension(code, _) => Some(code.as_str()),
            _ => None,
        }
    }

    /// What the server said after the code.
    pub fn detail(&self) -> (r: Option<&str>)
        ensures
            r is Some == self@.detail() is Some,
            r matches Some(s) ==> s@ == self@.detail()->0,
    {
        match &self.repr {
            ErrorRepr::Server(_, detail) => text_ref(detail),
            ErrorRepr::Extension(_, detail) => text_ref(detail),
            _ => None,
        }
    }

    /// The fixed text that goes with the sort of error.
    pub fn description(&self) -> (r: &'static str)
        ensures
            r@ == self@.description(),
    {
        match &self.repr {
            ErrorRepr::Server(_, _) => "An error was signalled by the server",
            ErrorRepr::Extension(_, _) => "An error was signalled by the server",
            ErrorRepr::Parse(_) => "parse error",
            ErrorRepr::UnexpectedEof => "unexpected end of input",
        }
    }

    /// What broke the framing, where the error is a failure to decode.
    pub fn fault(&self) -> (r: Option<ParseFault>)
        ensures
            r == (match self@ {
                ErrorModel::Parse { fault } => Some(fault),
                _ => None,
            }),
    {
        match &self.repr {
            ErrorRepr::Parse(fault) => Some(*fault),
            _ => None,
        }
    }

    /// Whether the stream ended inside a reply.
    pub fn is_unexpected_eof(&self) -> (r: bool)
        ensures
            r == (self@ is UnexpectedEof),
    {
        match &self.repr {
            ErrorRepr::UnexpectedEof => true,
            _ => false,
        }
    }
}

/// An error with a code that the fixed table does not hold: the code becomes
/// its tag, and what followed the code its detail.
pub fn make_extension_error(code: &str, detail: Option<&str>) -> (e: RedisError)
    ensures
        e@ == (ErrorModel::Extension {
            code: code@,
            detail: match detail {
                Some(d) => Some(d@),
                None => None,
            },
        }),
{
    let detail = match detail {
        Some(d) => Some(d.to_owned()),
        None => None,
    };
    RedisError::extension(code.to_owned(), detail)
}

/// Mathematical content of a [`Value`].
pub enum ValueModel {
    /// Absence of a value.
    Nil,
    /// A signed integer.
    Integer(i64),
    /// A binary-safe string of bytes.
    BulkString(Seq<u8>),
    /// A status line other than `OK`.
    SimpleString(Seq<char>),
    /// The status line `OK`.
    Okay,
    /// An ordered sequence of replies.
    Array(Seq<ValueModel>),
    /// An error that the server signalled.
    Error(ErrorModel),
}

/// A reply of the server.
#[derive(Debug, PartialEq, Eq)]
pub enum Value {
    /// Absence of a value.
    Nil,
    /// A signed integer.
    Integer(i64),
    /// A binary-safe string of bytes.
    BulkString(Vec<u8>),
    /// A status line other than `OK`.
    SimpleString(String),
    /// The status line `OK`.
    Okay,
    /// An ordered sequence of replies.
    Array(Vec<Value>),
    /// An error that the server signalled.
    Error(RedisError),
}

/// The contents of a list of replies.
pub open spec fn models(items: Seq<Value>) -> Seq<ValueModel> {
    Seq::new(items.len(), |i: int| items[i]@)
}

/// The contents of a reply.
pub open spec fn value_model(v: Value) -> ValueModel
    decreases v,
{
    match v {
        Value::Nil => ValueModel::Nil,
        Value::Integer(i) => ValueModel::Integer(i),
        Value::BulkString(bytes) => ValueModel::BulkString(bytes@),
        Value::SimpleString(text) => ValueModel::SimpleString(text@),
        Value::Okay => ValueModel::Okay,
        Value::Array(items) => ValueModel::Array(
            Seq::new(
                items@.len(),
                |i: int|
                    if 0 <= i < items@.len() {
                        value_model(items@[i])
                    } else {
                        ValueModel::Nil
                    },
            ),
        ),
        Value::Error(e) => ValueModel::Error(e@),
    }
}

impl View for Value {
    type V = ValueModel;

    open spec fn view(&self) -> ValueModel {
        value_model(*self)
    }
}

impl Clone for Value {
    #[verifier::loop_isolation(false)]
    fn clone(&self) -> (r: Value)
        ensures
            r@ == self@,
        decreases self,
    {
        match self {
            Value::Nil => Value::Nil,
            Value::Integer(i) => Value::Integer(*i),
            Value::BulkString(bytes) => {
                let copy = bytes.clone();
                assert(copy@ =~= bytes@);
                Value::BulkString(copy)
            },
            Value::SimpleString(text) => Value::SimpleString(text.clone()),
            Value::Okay => Value::Okay,
            Value::Array(items) => {
                let mut copy: Vec<Value> = Vec::with_capacity(items.len());
                let mut i: usize = 0;
                while i < items.len()
                    invariant
                        i <= items.len(),
                        copy@.len() == i,
                        forall|k: int| 0 <= k < i ==> (#[trigger] copy@[k])@ == items@[k]@,
                    decreases items.len() - i,
                {
                    copy.push(items[i].clone());
                    i += 1;
                }
                proof {
                    lemma_array_model(copy);
                    lemma_array_model(*items);
                    assert(models(copy@) =~= models(items@));
                }
                Value::Array(copy)
            },
            Value::Error(e) => Value::Error(e.clone()),
        }
    }
}

/// The contents of an array are the contents of its items.
pub proof fn lemma_array_model(items: Vec<Value>)
    ensures
        Value::Array(items)@ == ValueModel::Array(models(items@)),
{
    let v = Value::Array(items);
    let s = v@->Array_0;
    assert(s =~= models(items@));
}

} // verus!
